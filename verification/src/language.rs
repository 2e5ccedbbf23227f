//! Language codes such as `EUen` in the names of message files.
use crate::text;
use vstd::prelude::*;
use vstd::string::*;
use vstd::utf8::*;

verus! {

/// The second of the segments that underscores divide `s` into; `None`
/// where there is only one.
pub open spec fn second_segment(s: Seq<char>) -> Option<Seq<char>> {
    let first = text::find_char(s, '_', 0);
    if first >= s.len() {
        None
    } else {
        Some(s.subrange(first + 1, text::find_char(s, '_', first + 1)))
    }
}

/// The language code in a file name: the first four characters of its second
/// segment, if they take up four bytes.
pub open spec fn segment_code(s: Seq<char>) -> Option<Seq<char>> {
    match second_segment(s) {
        None => None,
        Some(segment) => {
            let code = if segment.len() > 4 {
                segment.take(4)
            } else {
                segment
            };
            if encode_utf8(code).len() == 4 {
                Some(code)
            } else {
                None
            }
        },
    }
}

/// Whether `char::is_alphanumeric` holds of a character beyond ASCII.
pub uninterp spec fn is_unicode_alphanumeric(c: char) -> bool;

/// Whether a character is an ASCII letter or digit.
pub open spec fn is_ascii_alphanumeric(c: char) -> bool {
    'a' <= c <= 'z' || 'A' <= c <= 'Z' || '0' <= c <= '9'
}

/// Whether a character is a letter or a number.
pub open spec fn is_alphanumeric(c: char) -> bool {
    if c <= '\u{7f}' {
        is_ascii_alphanumeric(c)
    } else {
        is_unicode_alphanumeric(c)
    }
}

/// The language code in a section name: that of the last component of a path
/// with a slash in it, if all its characters are alphanumeric.
pub open spec fn path_language(name: Seq<char>) -> Option<Seq<char>> {
    if !name.contains('/') {
        None
    } else {
        match segment_code(text::last_component(name)) {
            None => None,
            Some(code) => if forall|i: int|
                0 <= i < code.len() ==> is_alphanumeric(#[trigger] code[i]) {
                Some(code)
            } else {
                None
            },
        }
    }
}

/// The language of a list of section names: that of the last name that has
/// one, or `unknown`.
pub open spec fn names_language(names: Seq<Seq<char>>) -> Seq<char>
    decreases names.len(),
{
    if names.len() == 0 {
        "unknown"@
    } else {
        match path_language(names.last()) {
            Some(code) => code,
            None => names_language(names.drop_last()),
        }
    }
}

/// Tells whether a character is a letter or a number.
///
/// Calls `char::is_alphanumeric`. Believed of it: the ASCII characters of
/// which it holds are the ASCII letters and digits, and of another character
/// the answer depends on the character alone.
#[verifier::external_body]
fn char_is_alphanumeric(c: char) -> (r: bool)
    ensures
        r == if c <= '\u{7f}' {
            is_ascii_alphanumeric(c)
        } else {
            is_unicode_alphanumeric(c)
        },
{
    c.is_alphanumeric()
}

/// The language code in a file name such as `Msg_EUen.product`: the first
/// four characters of the second segment between underscores, if they take up
/// four bytes.
pub fn language_code(name: &str) -> (r: Option<String>)
    ensures
        match r {
            Some(code) => segment_code(name@) == Some(code@),
            None => segment_code(name@) is None,
        },
{
    let chars = text::chars_of(name);
    let first: usize = text::find(&chars, '_', 0);
    if first >= chars.len() {
        return None;
    }
    let end: usize = text::find(&chars, '_', first + 1);
    let stop: usize = if end - (first + 1) > 4 {
        first + 5
    } else {
        end
    };
    let code = name.substring_char(first + 1, stop);
    assert(code@ =~= if end - (first + 1) > 4 {
        name@.subrange(first + 1, end as int).take(4)
    } else {
        name@.subrange(first + 1, end as int)
    });
    if code.as_bytes().len() == 4 {
        Some(code.to_owned())
    } else {
        None
    }
}

/// The language code in a section name such as `Message/Msg_EUen.product`.
fn section_language(name: &str) -> (r: Option<String>)
    ensures
        match r {
            Some(code) => path_language(name@) == Some(code@),
            None => path_language(name@) is None,
        },
{
    let chars = text::chars_of(name);
    let slash: usize = text::find(&chars, '/', 0);
    proof {
        text::lemma_contains_iff_found(name@, '/', 0);
        assert(name@.skip(0) =~= name@);
    }
    if slash >= chars.len() {
        return None;
    }
    let last = text::file_name(name);
    match language_code(last) {
        None => None,
        Some(code) => {
            let letters = text::chars_of(code.as_str());
            let mut i: usize = 0;
            while i < letters.len()
                invariant
                    i <= letters@.len(),
                    letters@ == code@,
                    segment_code(text::last_component(name@)) == Some(code@),
                    name@.contains('/'),
                    forall|j: int| 0 <= j < i ==> is_alphanumeric(#[trigger] code@[j]),
                decreases letters@.len() - i,
            {
                if !char_is_alphanumeric(letters[i]) {
                    assert(!is_alphanumeric(code@[i as int]));
                    return None;
                }
                i = i + 1;
            }
            Some(code)
        },
    }
}

/// The language of a list of section names; see [`names_language`].
pub fn sections_language(names: &Vec<String>) -> (r: String)
    ensures
        r@ == names_language(text::texts(names@)),
{
    let ghost all = text::texts(names@);
    let mut i: usize = names.len();
    assert(all.take(all.len() as int) =~= all);
    while i > 0
        invariant
            i <= names@.len(),
            all == text::texts(names@),
            names_language(all) == names_language(all.take(i as int)),
        decreases i,
    {
        i = i - 1;
        assert(all.take(i + 1).last() == names@[i as int]@);
        assert(all.take(i + 1).drop_last() =~= all.take(i as int));
        match section_language(names[i].as_str()) {
            Some(code) => {
                return code;
            },
            None => {},
        }
    }
    "unknown".to_owned()
}

/// The language of a list of section names is a code of four bytes or
/// `unknown`.
pub proof fn language_is_code_or_unknown(names: Seq<Seq<char>>)
    ensures
        encode_utf8(names_language(names)).len() == 4 || names_language(names) == "unknown"@,
    decreases names.len(),
{
    if names.len() > 0 {
        language_is_code_or_unknown(names.drop_last());
    }
}

/// The language of a list of section names is that of the last name with a
/// language code, and `unknown` where no name has one.
pub proof fn last_code_decides(names: Seq<Seq<char>>)
    ensures
        forall|i: int|
            0 <= i < names.len() && (#[trigger] path_language(names[i])) is Some && (forall|j: int|
                i < j < names.len() ==> (#[trigger] path_language(names[j])) is None)
                ==> names_language(names) == path_language(names[i])->0,
        (forall|i: int| 0 <= i < names.len() ==> (#[trigger] path_language(names[i])) is None)
            ==> names_language(names) == "unknown"@,
    decreases names.len(),
{
    if names.len() > 0 {
        let before = names.drop_last();
        last_code_decides(before);
        assert forall|i: int|
            0 <= i < names.len() && (#[trigger] path_language(names[i])) is Some && (forall|j: int|
                i < j < names.len() ==> (#[trigger] path_language(names[j])) is None) implies
            names_language(names) == path_language(names[i])->0 by {
            if i < names.len() - 1 {
                assert(path_language(names[names.len() - 1]) is None);
                assert(before[i] == names[i]);
                assert forall|j: int| i < j < before.len() implies (#[trigger] path_language(
                    before[j],
                )) is None by {
                    assert(before[j] == names[j]);
                }
            }
        }
        if forall|i: int| 0 <= i < names.len() ==> (#[trigger] path_language(names[i])) is None {
            assert(path_language(names[names.len() - 1]) is None);
            assert forall|j: int| 0 <= j < before.len() implies (#[trigger] path_language(
                before[j],
            )) is None by {
                assert(before[j] == names[j]);
            }
        }
    }
}

/// The first characters of a text, at most four.
pub open spec fn at_most_four(s: Seq<char>) -> Seq<char> {
    if s.len() <= 4 {
        s
    } else {
        s.subrange(0, 4)
    }
}

/// The code in a file name `<first>_<second>` or `<first>_<second>_...` is
/// made of the first four characters of the second segment, and there is one
/// exactly if these take up four bytes.
pub proof fn code_is_in_second_segment(first: Seq<char>, second: Seq<char>, tail: Seq<char>)
    requires
        !first.contains('_'),
        !second.contains('_'),
        tail.len() == 0 || tail[0] == '_',
    ensures
        segment_code(first + seq!['_'] + second + tail) == if encode_utf8(
            at_most_four(second),
        ).len() == 4 {
            Some(at_most_four(second))
        } else {
            None
        },
{
    let s = first + seq!['_'] + second + tail;
    let a = first.len() as int;
    let b = a + 1 + second.len();
    text::search_finds_first(s, '_', 0);
    assert(s[a] == '_');
    if text::find_char(s, '_', 0) < a {
        assert(first[text::find_char(s, '_', 0)] == '_');
        assert(first.contains('_'));
    }
    assert(text::find_char(s, '_', 0) == a);
    text::search_finds_first(s, '_', a + 1);
    if text::find_char(s, '_', a + 1) < b {
        assert(second[text::find_char(s, '_', a + 1) - a - 1] == '_');
        assert(second.contains('_'));
    }
    if tail.len() > 0 {
        assert(s[b] == '_');
    }
    assert(text::find_char(s, '_', a + 1) == b);
    assert(s.subrange(a + 1, b) =~= second);
    assert(second.len() > 4 ==> second.take(4) =~= second.subrange(0, 4));
}

/// There is no code in a file name without an underscore.
pub proof fn no_code_without_underscore(s: Seq<char>)
    requires
        !s.contains('_'),
    ensures
        segment_code(s) is None,
{
    text::search_finds_first(s, '_', 0);
    if text::find_char(s, '_', 0) < s.len() {
        assert(s.contains('_'));
    }
}

/// Whether a character is a letter or a digit of ASCII, or one beyond ASCII
/// that `char::is_alphanumeric` takes.
pub open spec fn is_letter_or_number(c: char) -> bool {
    let k = c as int;
    if k < 128 {
        48 <= k <= 57 || 65 <= k <= 90 || 97 <= k <= 122
    } else {
        is_unicode_alphanumeric(c)
    }
}

/// The language of a section name goes by its folder and its file name: there
/// is one only if the name has a slash in it, and it is then the code in the
/// file name, if that is made of letters and numbers.
pub proof fn code_is_in_file_name(folder: Seq<char>, file: Seq<char>)
    requires
        folder.len() == 0 || folder.last() == '/' || folder.last() == '\\',
        !file.contains('/'),
        !file.contains('\\'),
    ensures
        path_language(folder + file) == match segment_code(file) {
            Some(code) => if folder.contains('/') && forall|i: int|
                0 <= i < code.len() ==> is_letter_or_number(#[trigger] code[i]) {
                Some(code)
            } else {
                None
            },
            None => None,
        },
{
    let name = folder + file;
    assert forall|i: int| 0 <= i < file.len() implies (#[trigger] file[i]) != '/' && file[i]
        != '\\' by {
        if file[i] == '/' {
            assert(file.contains('/'));
        }
        if file[i] == '\\' {
            assert(file.contains('\\'));
        }
    }
    text::component_follows_folder(folder, file);
    assert(name.contains('/') == folder.contains('/')) by {
        if name.contains('/') {
            let i = choose|i: int| 0 <= i < name.len() && name[i] == '/';
            assert(i < folder.len());
            assert(folder[i] == '/');
        }
        if folder.contains('/') {
            let i = choose|i: int| 0 <= i < folder.len() && folder[i] == '/';
            assert(name[i] == '/');
        }
    }
    if let Some(code) = segment_code(file) {
        assert forall|i: int| 0 <= i < code.len() implies is_letter_or_number(#[trigger] code[i])
            == is_alphanumeric(code[i]) by {}
        if forall|i: int| 0 <= i < code.len() ==> is_letter_or_number(#[trigger] code[i]) {
            assert forall|i: int| 0 <= i < code.len() implies is_alphanumeric(
                #[trigger] code[i],
            ) by {
                assert(is_letter_or_number(code[i]));
            }
        } else {
            let i = choose|i: int| 0 <= i < code.len() && !is_letter_or_number(#[trigger] code[i]);
            assert(!is_alphanumeric(code[i]));
        }
    }
}

} // verus!
