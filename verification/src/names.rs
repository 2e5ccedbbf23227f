//! The names of files: of message files, of what they are converted to, and
//! of the folders that these lie in.
use crate::text;
use vstd::prelude::*;
use vstd::string::*;

verus! {

/// Position of the last dot before `end`, or 0 where there is none.
pub open spec fn last_dot(s: Seq<char>, end: int) -> int
    decreases end,
{
    if end <= 0 {
        0
    } else if s[end - 1] == '.' {
        end - 1
    } else {
        last_dot(s, end - 1)
    }
}

/// A file name without its extension: the part before the last dot. A name
/// without a dot, or with the only one at its start, is its own stem.
pub open spec fn stem_of(name: Seq<char>) -> Seq<char> {
    let dot = last_dot(name, name.len() as int);
    if dot == 0 {
        name
    } else {
        name.take(dot)
    }
}

/// Where the part of a path after its last slash starts, of the path up to
/// `end`.
pub open spec fn file_start(path: Seq<char>, end: int) -> int
    decreases end,
{
    if end <= 0 {
        0
    } else if path[end - 1] == '/' {
        end
    } else {
        file_start(path, end - 1)
    }
}

/// The part of a path after its last slash.
pub open spec fn file_part(path: Seq<char>) -> Seq<char> {
    path.skip(file_start(path, path.len() as int))
}

/// Whether a path means the same on every system: only slashes divide it, and
/// it names no drive or server.
pub open spec fn is_portable(path: Seq<char>) -> bool {
    &&& !path.contains('\\')
    &&& !path.contains(':')
    &&& !"//"@.is_prefix_of(path)
}

/// The part after the last slash starts within the path.
pub proof fn lemma_file_start(path: Seq<char>, end: int)
    requires
        0 <= end <= path.len(),
    ensures
        0 <= file_start(path, end) <= end,
    decreases end,
{
    if end > 0 {
        lemma_file_start(path, end - 1);
    }
}

/// The name of the file that a path names: its last part, but that empty
/// parts and `.` do not count. `None` where no part is left, or where the
/// last one is `..`.
pub open spec fn named_file(path: Seq<char>) -> Option<Seq<char>>
    decreases path.len(),
{
    let start = file_start(path, path.len() as int);
    let part = file_part(path);
    proof {
        lemma_file_start(path, path.len() as int);
    }
    if part.len() > 0 && part != "."@ {
        if part == ".."@ {
            None
        } else {
            Some(part)
        }
    } else if start == 0 {
        None
    } else {
        named_file(path.take(start - 1))
    }
}

/// The stem of the file that a path names, or `unknown` where it names none.
pub open spec fn path_stem(path: Seq<char>) -> Seq<char> {
    match named_file(path) {
        Some(name) => stem_of(name),
        None => "unknown"@,
    }
}

/// The stem of the file that a path names, if it names one.
///
/// Calls `std::path::Path::file_stem`. Believed of it: the stem of a portable
/// path is that of its last part, where empty parts and `.` do not count, and
/// a path without such a part, or with `..` as its last, has none. Left
/// unsaid: what paths with backslashes, colons or two slashes in front name,
/// which depends on the system.
#[verifier::external_body]
fn stem_of_path(path: &str) -> (r: Option<String>)
    ensures
        match r {
            Some(s) => is_portable(path@) ==> (named_file(path@) matches Some(name) && s@
                == stem_of(name)),
            None => is_portable(path@) ==> named_file(path@) is None,
        },
{
    std::path::Path::new(path).file_stem().and_then(|s| s.to_str()).map(|s| s.to_string())
}

/// A stem, or `unknown` where there is none.
pub fn stem_or_unknown(stem: Option<String>) -> (r: String)
    ensures
        r@ == match stem {
            Some(s) => s@,
            None => "unknown"@,
        },
{
    match stem {
        Some(s) => s,
        None => "unknown".to_owned(),
    }
}

/// The stem of the file that a path names, or `unknown` where it names none.
pub fn filename_stem(path: &str) -> (r: String)
    ensures
        is_portable(path@) ==> r@ == path_stem(path@),
{
    stem_or_unknown(stem_of_path(path))
}

/// Whether a file name is that of a message file, such as
/// `Msg_EUen.product.sarc`.
pub open spec fn is_message_name(name: Seq<char>) -> bool {
    &&& "Msg_"@.is_prefix_of(name)
    &&& text::contains_text(name, ".product.s"@)
    &&& "rc"@.is_suffix_of(name)
}

/// Tells whether a file name is that of a message file: it starts with
/// `Msg_`, contains `.product.s` and ends in `rc`.
pub fn is_msg_name(name: &str) -> (r: bool)
    ensures
        r == is_message_name(name@),
{
    proof {
        reveal_strlit("Msg_");
        reveal_strlit(".product.s");
        reveal_strlit("rc");
    }
    text::starts_with_ascii(name, "Msg_") && text::contains_ascii(name, ".product.s")
        && text::ends_with_ascii(name, "rc")
}

/// Tells whether an entry of an archive is a message file, going by the part
/// of its name after the last slash or backslash.
pub fn is_msg_entry(name: &str) -> (r: bool)
    ensures
        r == is_message_name(text::last_component(name@)),
{
    is_msg_name(text::file_name(name))
}

/// The name of the copy of the mod as it was.
pub open spec fn backup_file(mod_name: Seq<char>) -> Seq<char> {
    mod_name + "_backup.zip"@
}

/// The name of the rebuilt mod.
pub open spec fn rebuilt_file(mod_name: Seq<char>) -> Seq<char> {
    mod_name + ".zip"@
}

/// The name of the JSON file that a message file is converted to.
pub open spec fn json_file(stem: Seq<char>) -> Seq<char> {
    stem + ".json"@
}

/// The name of the message file that a JSON file is converted back to.
pub open spec fn message_file(stem: Seq<char>) -> Seq<char> {
    stem + ".sarc"@
}

/// The name in the rebuilt mod of a message file.
pub open spec fn message_entry(stem: Seq<char>) -> Seq<char> {
    "Message/"@ + message_file(stem)
}

/// Puts two texts together.
fn joined(a: &str, b: &str) -> (r: String)
    ensures
        r@ == a@ + b@,
{
    let mut out: String = String::from_str(a);
    out.append(b);
    out
}

/// The name of the copy of a mod as it was.
pub fn backup_name(mod_name: &str) -> (r: String)
    ensures
        r@ == backup_file(mod_name@),
{
    joined(mod_name, "_backup.zip")
}

/// The name of a rebuilt mod.
pub fn rebuilt_name(mod_name: &str) -> (r: String)
    ensures
        r@ == rebuilt_file(mod_name@),
{
    joined(mod_name, ".zip")
}

/// The name of the JSON file that a message file with this stem is converted
/// to.
pub fn json_name(stem: &str) -> (r: String)
    ensures
        r@ == json_file(stem@),
{
    joined(stem, ".json")
}

/// The name in a rebuilt mod of the message file that a JSON file with this
/// stem is converted to.
pub fn entry_name(stem: &str) -> (r: String)
    ensures
        r@ == message_entry(stem@),
{
    let file = joined(stem, ".sarc");
    let r = joined("Message/", file.as_str());
    assert(r@ =~= message_entry(stem@));
    r
}

/// Tells whether an extension is that of a JSON file.
pub fn is_json(extension: Option<&str>) -> (r: bool)
    ensures
        r == (extension matches Some(e) && e@ == "json"@),
{
    match extension {
        Some(e) => same_text(e, "json"),
        None => false,
    }
}

/// Tells whether an extension is that of a ZIP archive.
pub fn is_zip(extension: Option<&str>) -> (r: bool)
    ensures
        r == (extension matches Some(e) && e@ == "zip"@),
{
    match extension {
        Some(e) => same_text(e, "zip"),
        None => false,
    }
}

/// Tells whether two texts are the same.
pub(crate) fn same_text(a: &str, b: &str) -> (r: bool)
    ensures
        r == (a@ == b@),
{
    a.to_owned() == b.to_owned()
}

proof fn lemma_last_dot_of_extended(stem: Seq<char>, extension: Seq<char>, end: int)
    requires
        extension.len() > 0,
        extension[0] == '.',
        forall|i: int| 0 < i < extension.len() ==> (#[trigger] extension[i]) != '.',
        stem.len() < end <= stem.len() + extension.len(),
    ensures
        last_dot(stem + extension, end) == stem.len(),
    decreases end,
{
    let s = stem + extension;
    if end - 1 > stem.len() {
        assert(s[end - 1] == extension[end - 1 - stem.len()]);
        lemma_last_dot_of_extended(stem, extension, end - 1);
    } else {
        assert(s[end - 1] == extension[0]);
    }
}

/// The stem of a name with one more extension is the name.
proof fn lemma_stem_of_extended(stem: Seq<char>, extension: Seq<char>)
    requires
        stem.len() > 0,
        extension.len() > 0,
        extension[0] == '.',
        forall|i: int| 0 < i < extension.len() ==> (#[trigger] extension[i]) != '.',
    ensures
        stem_of(stem + extension) == stem,
{
    let s = stem + extension;
    lemma_last_dot_of_extended(stem, extension, s.len() as int);
    assert(s.take(stem.len() as int) =~= stem);
}

/// A message file finds its place again: the JSON file that
/// `<stem>.sarc` is converted to, is converted back to a file of that name.
pub proof fn message_file_keeps_its_name(stem: Seq<char>)
    requires
        stem.len() > 0,
    ensures
        stem_of(message_file(stem)) == stem,
        stem_of(json_file(stem)) == stem,
        message_file(stem_of(json_file(stem_of(message_file(stem))))) == message_file(stem),
{
    reveal_strlit(".sarc");
    reveal_strlit(".json");
    lemma_stem_of_extended(stem, ".sarc"@);
    lemma_stem_of_extended(stem, ".json"@);
}

/// Rebuilding a mod does not touch its backup: the two files never have the
/// same name.
pub proof fn rebuilt_mod_is_not_its_backup(mod_name: Seq<char>)
    ensures
        rebuilt_file(mod_name) != backup_file(mod_name),
{
    reveal_strlit("_backup.zip");
    reveal_strlit(".zip");
    assert(rebuilt_file(mod_name).len() != backup_file(mod_name).len());
}

/// Different stems stay different: no two JSON files are converted to the
/// same entry of a rebuilt mod.
pub proof fn message_entries_differ(a: Seq<char>, b: Seq<char>)
    requires
        message_entry(a) == message_entry(b),
    ensures
        a == b,
{
    let x = message_entry(a);
    let y = message_entry(b);
    assert(x.len() == "Message/"@.len() + a.len() + ".sarc"@.len());
    assert(y.len() == "Message/"@.len() + b.len() + ".sarc"@.len());
    let start = "Message/"@.len() as int;
    assert(a =~= x.subrange(start, start + a.len()));
    assert(b =~= y.subrange(start, start + b.len()));
}

/// A name with a dot in it, not at its start, is its stem, the last dot and an
/// extension.
pub proof fn stem_stands_before_last_dot(stem: Seq<char>, extension: Seq<char>)
    requires
        stem.len() > 0,
        !extension.contains('.'),
    ensures
        stem_of(stem + seq!['.'] + extension) == stem,
{
    let dotted = seq!['.'] + extension;
    assert forall|i: int| 0 < i < dotted.len() implies (#[trigger] dotted[i]) != '.' by {
        assert(dotted[i] == extension[i - 1]);
        if dotted[i] == '.' {
            assert(extension.contains('.'));
        }
    }
    lemma_stem_of_extended(stem, dotted);
    assert(stem + seq!['.'] + extension =~= stem + dotted);
}

/// A name without a dot, but for one at its start, is its own stem.
pub proof fn undotted_name_is_its_stem(name: Seq<char>)
    requires
        forall|i: int| 0 < i < name.len() ==> (#[trigger] name[i]) != '.',
    ensures
        stem_of(name) == name,
{
    lemma_no_dot(name, name.len() as int);
}

proof fn lemma_no_dot(name: Seq<char>, end: int)
    requires
        0 <= end <= name.len(),
        forall|i: int| 0 < i < name.len() ==> (#[trigger] name[i]) != '.',
    ensures
        last_dot(name, end) == 0,
    decreases end,
{
    if end > 0 {
        if end - 1 > 0 {
            assert(name[end - 1] != '.');
            lemma_no_dot(name, end - 1);
        }
        reveal_with_fuel(last_dot, 2);
    }
}

proof fn lemma_file_start_at(path: Seq<char>, start: int, end: int)
    requires
        0 <= start <= end <= path.len(),
        start == 0 || path[start - 1] == '/',
        forall|i: int| start <= i < end ==> (#[trigger] path[i]) != '/',
    ensures
        file_start(path, end) == start,
    decreases end,
{
    if end > start {
        assert(path[end - 1] != '/');
        lemma_file_start_at(path, start, end - 1);
    }
}

/// A path names the file that its last part is the name of. One whose last part
/// is `..` names none.
pub proof fn last_part_is_named(folder: Seq<char>, name: Seq<char>)
    requires
        folder.len() == 0 || folder.last() == '/',
        !name.contains('/'),
        name.len() > 0,
        name != seq!['.'],
    ensures
        named_file(folder + name) == if name == seq!['.', '.'] {
            None
        } else {
            Some(name)
        },
{
    reveal_strlit(".");
    reveal_strlit("..");
    let path = folder + name;
    assert forall|i: int| folder.len() <= i < path.len() implies (#[trigger] path[i]) != '/' by {
        assert(path[i] == name[i - folder.len()]);
        if path[i] == '/' {
            assert(name.contains('/'));
        }
    }
    lemma_file_start_at(path, folder.len() as int, path.len() as int);
    assert(file_part(path) =~= name);
    assert("."@ =~= seq!['.']);
    assert(".."@ =~= seq!['.', '.']);
}

/// A slash at the end of a path, or a slash and a dot, changes nothing about
/// what it names. A dot alone, and no path at all, name nothing.
pub proof fn empty_parts_do_not_count(path: Seq<char>)
    ensures
        named_file(path + seq!['/']) == named_file(path),
        named_file(path + seq!['/', '.']) == named_file(path),
        named_file(seq!['.']) is None,
        named_file(Seq::empty()) is None,
{
    reveal_strlit(".");
    assert("."@ =~= seq!['.']);
    let n = path.len() as int;
    let a = path + seq!['/'];
    lemma_file_start_at(a, n + 1, n + 1);
    assert(file_part(a).len() == 0);
    assert(a.take(n) =~= path);
    let b = path + seq!['/', '.'];
    lemma_file_start_at(b, n + 1, n + 2);
    assert(file_part(b) =~= "."@);
    assert(b.take(n) =~= path);
    let c = seq!['.'];
    lemma_file_start_at(c, 0, 1);
    assert(file_part(c) =~= "."@);
    let d = Seq::<char>::empty();
    assert(file_part(d).len() == 0);
}

/// The stem of a path is that of the file that it names.
pub proof fn path_stem_is_that_of_the_file(path: Seq<char>)
    ensures
        named_file(path) matches Some(name) ==> path_stem(path) == stem_of(name),
        named_file(path) is None ==> path_stem(path) == seq!['u', 'n', 'k', 'n', 'o', 'w', 'n'],
{
    reveal_strlit("unknown");
    assert("unknown"@ =~= seq!['u', 'n', 'k', 'n', 'o', 'w', 'n']);
}

/// What the name of a message file has in it.
pub open spec fn product_mark() -> Seq<char> {
    seq!['.', 'p', 'r', 'o', 'd', 'u', 'c', 't', '.', 's']
}

/// A name is that of a message file exactly if it has `Msg_` at its start,
/// `.product.s` somewhere in it, and `rc` at its end.
pub proof fn message_names_by_their_parts(name: Seq<char>)
    ensures
        is_message_name(name) <==> {
            &&& name.len() >= 4 && name.subrange(0, 4) == seq!['M', 's', 'g', '_']
            &&& name[name.len() - 2] == 'r' && name[name.len() - 1] == 'c'
            &&& exists|before: Seq<char>, after: Seq<char>|
                name == #[trigger] (before + product_mark() + after)
        },
{
    reveal_strlit("Msg_");
    reveal_strlit(".product.s");
    reveal_strlit("rc");
    assert(".product.s"@ =~= product_mark());
    text::parts_occur_between(name, ".product.s"@);
    assert("Msg_"@ =~= seq!['M', 's', 'g', '_']);
    if name.len() >= 4 {
        let end = name.subrange(name.len() - 2, name.len() as int);
        assert(end[0] == name[name.len() - 2] && end[1] == name[name.len() - 1]);
        if end[0] == 'r' && end[1] == 'c' {
            assert(end =~= "rc"@);
        }
        if end == "rc"@ {
            assert(end[0] == 'r' && end[1] == 'c');
        }
    }
}

/// The names of the files of a mod are the name or stem that they are made
/// from, followed by their endings.
pub proof fn file_names_by_their_endings(s: Seq<char>)
    ensures
        backup_file(s) == s + seq!['_', 'b', 'a', 'c', 'k', 'u', 'p', '.', 'z', 'i', 'p'],
        rebuilt_file(s) == s + seq!['.', 'z', 'i', 'p'],
        json_file(s) == s + seq!['.', 'j', 's', 'o', 'n'],
        message_file(s) == s + seq!['.', 's', 'a', 'r', 'c'],
        message_entry(s) == seq!['M', 'e', 's', 's', 'a', 'g', 'e', '/'] + s + seq![
            '.',
            's',
            'a',
            'r',
            'c',
        ],
{
    reveal_strlit("_backup.zip");
    reveal_strlit(".zip");
    reveal_strlit(".json");
    reveal_strlit(".sarc");
    reveal_strlit("Message/");
    assert(backup_file(s) =~= s + seq!['_', 'b', 'a', 'c', 'k', 'u', 'p', '.', 'z', 'i', 'p']);
    assert(rebuilt_file(s) =~= s + seq!['.', 'z', 'i', 'p']);
    assert(json_file(s) =~= s + seq!['.', 'j', 's', 'o', 'n']);
    assert(message_file(s) =~= s + seq!['.', 's', 'a', 'r', 'c']);
    assert(message_entry(s) =~= seq!['M', 'e', 's', 's', 'a', 'g', 'e', '/'] + s + seq![
        '.',
        's',
        'a',
        'r',
        'c',
    ]);
}

/// A path is portable exactly if it has no backslash and no colon in it and
/// does not start with two slashes.
pub proof fn portable_paths_by_character(path: Seq<char>)
    ensures
        is_portable(path) <==> {
            &&& forall|i: int|
                0 <= i < path.len() ==> (#[trigger] path[i]) as int != 92 && path[i] as int != 58
            &&& path.len() < 2 || path[0] != '/' || path[1] != '/'
        },
{
    reveal_strlit("//");
    assert(path.contains('\\') == exists|i: int|
        0 <= i < path.len() && (#[trigger] path[i]) as int == 92);
    assert(path.contains(':') == exists|i: int|
        0 <= i < path.len() && (#[trigger] path[i]) as int == 58);
    if path.len() >= 2 {
        let first = path.subrange(0, 2);
        assert(first[0] == path[0] && first[1] == path[1]);
        if path[0] == '/' && path[1] == '/' {
            assert(first =~= "//"@);
        }
        if first == "//"@ {
            assert(first[0] == "//"@[0] && first[1] == "//"@[1]);
        }
    }
}

} // verus!
