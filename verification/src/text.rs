//! Texts: their views, searching, splitting and numbers in them.
use vstd::arithmetic::power::*;
use vstd::prelude::*;
use vstd::string::*;
use vstd::utf8::*;

verus! {

/// The contents of a list of strings.
pub open spec fn texts(list: Seq<String>) -> Seq<Seq<char>> {
    list.map_values(|s: String| s@)
}

/// Whether `part` occurs somewhere in `whole`.
pub open spec fn contains_text(whole: Seq<char>, part: Seq<char>) -> bool {
    exists|i: int|
        0 <= i <= whole.len() - part.len() && #[trigger] whole.subrange(i, i + part.len()) == part
}

/// The character that stands for a digit.
pub open spec fn digit_char(d: nat) -> char {
    (48 + d) as char
}

/// `n` in decimal notation.
pub open spec fn decimal(n: nat) -> Seq<char>
    decreases n,
{
    if n < 10 {
        seq![digit_char(n)]
    } else {
        decimal(n / 10).push(digit_char(n % 10))
    }
}

/// Whether every character is an ASCII digit.
pub open spec fn all_digits(s: Seq<char>) -> bool {
    forall|i: int| 0 <= i < s.len() ==> '0' <= #[trigger] s[i] <= '9'
}

/// The number that a sequence of ASCII digits spells.
pub open spec fn digits_value(s: Seq<char>) -> nat
    decreases s.len(),
{
    if s.len() == 0 {
        0
    } else {
        digits_value(s.drop_last()) * 10 + (s.last() as nat - 48) as nat
    }
}

/// A text without the plus sign that it may start with.
pub open spec fn without_plus(s: Seq<char>) -> Seq<char> {
    if s.len() > 0 && s[0] == '+' {
        s.skip(1)
    } else {
        s
    }
}

/// The number in a text: ASCII digits, at least one, after an optional plus
/// sign. `None` for any other text and for a number above `limit`.
pub open spec fn number_in(s: Seq<char>, limit: nat) -> Option<nat> {
    let digits = without_plus(s);
    if digits.len() > 0 && all_digits(digits) && digits_value(digits) <= limit {
        Some(digits_value(digits))
    } else {
        None
    }
}

/// Lexicographic order of byte strings.
pub open spec fn bytes_less(a: Seq<u8>, b: Seq<u8>) -> bool
    decreases a.len(),
{
    if b.len() == 0 {
        false
    } else if a.len() == 0 {
        true
    } else if a[0] != b[0] {
        a[0] < b[0]
    } else {
        bytes_less(a.drop_first(), b.drop_first())
    }
}

/// The order of texts: that of their UTF-8 encodings.
pub open spec fn text_less(a: Seq<char>, b: Seq<char>) -> bool {
    bytes_less(encode_utf8(a), encode_utf8(b))
}

/// Position of the first `c` in `s` from `from` on, or the length of `s`.
pub open spec fn find_char(s: Seq<char>, c: char, from: int) -> int
    decreases s.len() - from,
{
    if from >= s.len() {
        s.len() as int
    } else if s[from] == c {
        from
    } else {
        find_char(s, c, from + 1)
    }
}

/// Whether a character is whitespace (Unicode property White_Space).
pub open spec fn is_whitespace(c: char) -> bool {
    ||| '\t' <= c <= '\r'
    ||| c == ' '
    ||| c == '\u{85}'
    ||| c == '\u{a0}'
    ||| c == '\u{1680}'
    ||| '\u{2000}' <= c <= '\u{200a}'
    ||| c == '\u{2028}'
    ||| c == '\u{2029}'
    ||| c == '\u{202f}'
    ||| c == '\u{205f}'
    ||| c == '\u{3000}'
}

/// Where the last component of a path that ends at `end` starts.
pub open spec fn component_start(s: Seq<char>, end: int) -> int
    decreases end,
{
    if end <= 0 {
        0
    } else if s[end - 1] == '/' || s[end - 1] == '\\' {
        end
    } else {
        component_start(s, end - 1)
    }
}

/// The part of a path after its last slash or backslash.
pub open spec fn last_component(s: Seq<char>) -> Seq<char> {
    s.skip(component_start(s, s.len() as int))
}

/// Position of the first character from `from` on that is no whitespace, or
/// the length of `s`.
pub open spec fn visible_start(s: Seq<char>, from: int) -> int
    decreases s.len() - from,
{
    if from >= s.len() {
        s.len() as int
    } else if is_whitespace(s[from]) {
        visible_start(s, from + 1)
    } else {
        from
    }
}

/// The end of the text between `start` and `end` without the whitespace that
/// it ends with.
pub open spec fn visible_end(s: Seq<char>, start: int, end: int) -> int
    decreases end,
{
    if end <= start || end <= 0 {
        start
    } else if is_whitespace(s[end - 1]) {
        visible_end(s, start, end - 1)
    } else {
        end
    }
}

/// A text without the whitespace that it starts and ends with.
pub open spec fn trimmed(s: Seq<char>) -> Seq<char> {
    let start = visible_start(s, 0);
    s.subrange(start, visible_end(s, start, s.len() as int))
}

/// The bytes of `bytes` as text, or `None` where they are not UTF-8.
///
/// Calls `std::str::from_utf8`. Believed of it: it accepts exactly the
/// well-formed UTF-8 sequences, and what it returns is their decoding.
#[verifier::external_body]
pub(crate) fn utf8_text(bytes: &[u8]) -> (r: Option<String>)
    ensures
        match r {
            Some(s) => valid_utf8(bytes@) && s@ == decode_utf8(bytes@),
            None => !valid_utf8(bytes@),
        },
{
    std::str::from_utf8(bytes).ok().map(|s| s.to_string())
}

/// Adding a string to a list adds its contents to the list's contents.
pub proof fn lemma_texts_push(list: Seq<String>, s: String)
    ensures
        texts(list.push(s)) == texts(list).push(s@),
{
    assert(texts(list.push(s)) =~= texts(list).push(s@));
}

/// The encoding of a concatenation is the concatenation of the encodings.
proof fn lemma_encode_concat(a: Seq<char>, b: Seq<char>)
    ensures
        encode_utf8(a + b) == encode_utf8(a) + encode_utf8(b),
    decreases a.len(),
{
    if a.len() == 0 {
        assert(a + b =~= b);
        assert(encode_utf8(a) + encode_utf8(b) =~= encode_utf8(b));
    } else {
        lemma_encode_concat(a.drop_first(), b);
        assert((a + b).drop_first() =~= a.drop_first() + b);
        assert(encode_utf8(a + b) =~= encode_utf8(a) + encode_utf8(b));
    }
}

/// Texts with the same encoding are the same.
proof fn lemma_encode_injective(a: Seq<char>, b: Seq<char>)
    requires
        encode_utf8(a) == encode_utf8(b),
    ensures
        a == b,
{
    encode_utf8_decode_utf8(a);
    encode_utf8_decode_utf8(b);
}

proof fn lemma_decode_ascii_prefix(part: Seq<char>, rest: Seq<u8>)
    requires
        is_ascii_chars(part),
        valid_utf8(encode_utf8(part) + rest),
    ensures
        valid_utf8(rest),
        decode_utf8(encode_utf8(part) + rest) == part + decode_utf8(rest),
    decreases part.len(),
{
    let bytes = encode_utf8(part) + rest;
    if part.len() == 0 {
        assert(bytes =~= rest);
        assert(part + decode_utf8(rest) =~= decode_utf8(rest));
    } else {
        is_ascii_chars_encode_utf8(part);
        let tail = part.drop_first();
        let c = part[0];
        let code = c as u32;
        assert(encode_utf8(part).len() == 1 + encode_utf8(tail).len());
        assert(bytes[0] == c as u8);
        assert(code as u8 as u32 == code) by (bit_vector)
            requires
                code <= 0x7f,
        ;
        assert(pop_first_scalar(bytes) =~= encode_utf8(tail) + rest);
        lemma_decode_ascii_prefix(tail, rest);
        let b = bytes[0];
        assert(codepoint_width_1(b) == b as u32) by {
            assert((b & 0x7f) as u32 == b as u32) by (bit_vector)
                requires
                    b <= 0x7f,
            ;
        }
        assert(decode_first_scalar(bytes) == code);
        char_u32_cast(c, code);
        assert(decode_utf8(bytes) =~= part + decode_utf8(rest));
    }
}

/// An ASCII text occurs in the encoding of `whole` at a byte position only
/// where it occurs in `whole` itself.
proof fn lemma_ascii_match(whole: Seq<char>, part: Seq<char>, before: Seq<u8>, after: Seq<u8>)
    requires
        part.len() > 0,
        is_ascii_chars(part),
        encode_utf8(whole) == before + encode_utf8(part) + after,
    ensures
        valid_utf8(before),
        valid_utf8(after),
        whole == decode_utf8(before) + part + decode_utf8(after),
{
    let bytes = encode_utf8(whole);
    let at = before.len() as int;
    encode_utf8_valid_utf8(whole);
    encode_utf8_decode_utf8(whole);
    is_ascii_chars_encode_utf8(part);
    assert(bytes[at] == encode_utf8(part)[0]);
    assert(bytes[at] == part[0] as u8);
    assert(is_leading_byte_width_1(bytes[at]));
    is_char_boundary_iff_is_leading_byte(bytes, at);
    valid_utf8_split(bytes, at);
    decode_utf8_split(bytes, at);
    assert(bytes.subrange(0, at) =~= before);
    assert(bytes.subrange(at, bytes.len() as int) =~= encode_utf8(part) + after);
    lemma_decode_ascii_prefix(part, after);
    assert(whole =~= decode_utf8(before) + part + decode_utf8(after));
}

/// Whether `needle` stands at position `at` of `hay`.
fn match_at(hay: &[u8], at: usize, needle: &[u8]) -> (r: bool)
    requires
        at + needle@.len() <= hay@.len(),
    ensures
        r == (hay@.subrange(at as int, at + needle@.len()) == needle@),
{
    let mut i: usize = 0;
    assert(hay@.len() == hay.len());
    while i < needle.len()
        invariant
            i <= needle@.len(),
            at + needle@.len() <= hay@.len(),
            hay@.len() <= usize::MAX,
            hay@.subrange(at as int, at + i) == needle@.subrange(0, i as int),
        decreases needle@.len() - i,
    {
        if hay[at + i] != needle[i] {
            assert(hay@.subrange(at as int, at + needle@.len())[i as int] != needle@[i as int]);
            return false;
        }
        i = i + 1;
        assert(hay@.subrange(at as int, at + i) =~= needle@.subrange(0, i as int));
    }
    assert(needle@.subrange(0, i as int) =~= needle@);
    true
}

/// Tells whether `s` starts with `part`.
pub(crate) fn starts_with_ascii(s: &str, part: &str) -> (r: bool)
    requires
        part@.len() > 0,
        is_ascii_chars(part@),
    ensures
        r == part@.is_prefix_of(s@),
{
    let hay = s.as_bytes();
    let needle = part.as_bytes();
    let r = needle.len() <= hay.len() && match_at(hay, 0, needle);
    proof {
        if r {
            let after = hay@.skip(needle@.len() as int);
            assert(hay@ =~= Seq::<u8>::empty() + needle@ + after);
            lemma_ascii_match(s@, part@, Seq::empty(), after);
            assert(part@ =~= s@.subrange(0, part@.len() as int));
        }
        if part@.is_prefix_of(s@) {
            assert(s@ =~= part@ + s@.skip(part@.len() as int));
            lemma_encode_concat(part@, s@.skip(part@.len() as int));
            assert(hay@.subrange(0, needle@.len() as int) =~= needle@);
        }
    }
    r
}

/// Tells whether `s` ends with `part`.
pub(crate) fn ends_with_ascii(s: &str, part: &str) -> (r: bool)
    requires
        part@.len() > 0,
        is_ascii_chars(part@),
    ensures
        r == part@.is_suffix_of(s@),
{
    let hay = s.as_bytes();
    let needle = part.as_bytes();
    let r = needle.len() <= hay.len() && match_at(hay, hay.len() - needle.len(), needle);
    proof {
        let cut = hay@.len() - needle@.len();
        if r {
            let before = hay@.take(cut);
            assert(hay@ =~= before + needle@ + Seq::<u8>::empty());
            lemma_ascii_match(s@, part@, before, Seq::empty());
            assert(part@ =~= s@.subrange(s@.len() - part@.len(), s@.len() as int));
        }
        if part@.is_suffix_of(s@) {
            let start = s@.take(s@.len() - part@.len());
            assert(s@ =~= start + part@);
            lemma_encode_concat(start, part@);
            assert(hay@.subrange(cut, hay@.len() as int) =~= needle@);
        }
    }
    r
}

/// Tells whether `part` occurs in `s`.
pub(crate) fn contains_ascii(s: &str, part: &str) -> (r: bool)
    requires
        part@.len() > 0,
        is_ascii_chars(part@),
    ensures
        r == contains_text(s@, part@),
{
    let hay = s.as_bytes();
    let needle = part.as_bytes();
    let mut at: usize = 0;
    while needle.len() <= hay.len() && at <= hay.len() - needle.len()
        invariant
            hay@ == encode_utf8(s@),
            needle@ == encode_utf8(part@),
            part@.len() > 0,
            is_ascii_chars(part@),
            at <= hay@.len(),
            needle@.len() > 0,
            forall|j: int|
                0 <= j < at && j <= hay@.len() - needle@.len() ==> #[trigger] hay@.subrange(
                    j,
                    j + needle@.len(),
                ) != needle@,
        decreases hay@.len() - at,
    {
        if match_at(hay, at, needle) {
            proof {
                let before = hay@.take(at as int);
                let after = hay@.skip(at + needle@.len());
                assert(hay@ =~= before + needle@ + after);
                lemma_ascii_match(s@, part@, before, after);
                let i = decode_utf8(before).len() as int;
                assert(s@.subrange(i, i + part@.len()) =~= part@);
            }
            return true;
        }
        at = at + 1;
    }
    proof {
        if contains_text(s@, part@) {
            let i = choose|i: int|
                0 <= i <= s@.len() - part@.len() && #[trigger] s@.subrange(i, i + part@.len())
                    == part@;
            let a = s@.take(i);
            let b = s@.skip(i + part@.len());
            assert(s@ =~= a + part@ + b);
            lemma_encode_concat(a + part@, b);
            lemma_encode_concat(a, part@);
            let j = encode_utf8(a).len() as int;
            assert(hay@.subrange(j, j + needle@.len()) =~= needle@);
        }
    }
    false
}

/// The characters of a text.
pub(crate) fn chars_of(s: &str) -> (r: Vec<char>)
    ensures
        r@ == s@,
{
    let mut out: Vec<char> = Vec::new();
    for c in it: s.chars()
        invariant
            out@ == s@.take(it.index()),
            it.seq() == s@,
    {
        out.push(c);
        assert(s@.take(it.index() + 1) =~= s@.take(it.index()).push(c));
    }
    assert(s@.take(s@.len() as int) =~= s@);
    out
}

/// Finds the first `c` from `from` on.
pub(crate) fn find(chars: &Vec<char>, c: char, from: usize) -> (r: usize)
    requires
        from <= chars@.len(),
    ensures
        r == find_char(chars@, c, from as int),
        from <= r <= chars@.len(),
{
    let mut i: usize = from;
    while i < chars.len() && chars[i] != c
        invariant
            from <= i <= chars@.len(),
            find_char(chars@, c, from as int) == find_char(chars@, c, i as int),
        decreases chars@.len() - i,
    {
        i = i + 1;
    }
    i
}

/// A search ends within the text, not before its start.
pub proof fn lemma_find_char(s: Seq<char>, c: char, from: int)
    requires
        0 <= from <= s.len(),
    ensures
        from <= find_char(s, c, from) <= s.len(),
    decreases s.len() - from,
{
    if from < s.len() && s[from] != c {
        lemma_find_char(s, c, from + 1);
    }
}

/// A character occurs where a search for it succeeds, and only there.
pub proof fn lemma_contains_iff_found(s: Seq<char>, c: char, from: int)
    requires
        0 <= from <= s.len(),
    ensures
        s.skip(from).contains(c) == (find_char(s, c, from) < s.len()),
    decreases s.len() - from,
{
    if from < s.len() {
        assert(s.skip(from)[0] == s[from]);
        if s[from] != c {
            lemma_contains_iff_found(s, c, from + 1);
            let here = s.skip(from);
            let next = s.skip(from + 1);
            if here.contains(c) {
                let i = choose|i: int| 0 <= i < here.len() && here[i] == c;
                assert(next[i - 1] == c);
            }
            if next.contains(c) {
                let i = choose|i: int| 0 <= i < next.len() && next[i] == c;
                assert(here[i + 1] == c);
            }
        }
    }
}

/// Tells whether a character is whitespace.
fn char_is_whitespace(c: char) -> (r: bool)
    ensures
        r == is_whitespace(c),
{
    let ascii: bool = c == ' ' || ('\t' <= c && c <= '\r');
    let latin: bool = c == '\u{85}' || c == '\u{a0}';
    let wide: bool = c == '\u{1680}' || ('\u{2000}' <= c && c <= '\u{200a}') || c == '\u{3000}';
    let rest: bool = c == '\u{2028}' || c == '\u{2029}' || c == '\u{202f}' || c == '\u{205f}';
    ascii || latin || wide || rest
}

/// The part of a path after its last slash or backslash.
pub(crate) fn file_name(path: &str) -> (r: &str)
    ensures
        r@ == last_component(path@),
{
    let chars = chars_of(path);
    let mut start: usize = chars.len();
    while start > 0 && chars[start - 1] != '/' && chars[start - 1] != '\\'
        invariant
            start <= chars@.len(),
            component_start(chars@, chars@.len() as int) == component_start(chars@, start as int),
        decreases start,
    {
        start = start - 1;
    }
    let last = path.substring_char(start, chars.len());
    assert(last@ =~= last_component(path@));
    last
}

/// Takes the whitespace at both ends off a text.
pub fn trim_text(s: &str) -> (r: String)
    ensures
        r@ == trimmed(s@),
{
    let chars = chars_of(s);
    let mut start: usize = 0;
    while start < chars.len() && char_is_whitespace(chars[start])
        invariant
            start <= chars@.len(),
            visible_start(chars@, 0) == visible_start(chars@, start as int),
        decreases chars@.len() - start,
    {
        start = start + 1;
    }
    let mut end: usize = chars.len();
    while end > start && char_is_whitespace(chars[end - 1])
        invariant
            start <= end <= chars@.len(),
            visible_end(chars@, start as int, chars@.len() as int) == visible_end(
                chars@,
                start as int,
                end as int,
            ),
        decreases end,
    {
        end = end - 1;
    }
    s.substring_char(start, end).to_owned()
}

/// The digit character of `d` as a string.
fn digit_str(d: u64) -> (r: &'static str)
    requires
        d < 10,
    ensures
        r@ == seq![digit_char(d as nat)],
{
    proof {
        reveal_strlit("0");
        reveal_strlit("1");
        reveal_strlit("2");
        reveal_strlit("3");
        reveal_strlit("4");
        reveal_strlit("5");
        reveal_strlit("6");
        reveal_strlit("7");
        reveal_strlit("8");
        reveal_strlit("9");
    }
    let r = match d {
        0 => "0",
        1 => "1",
        2 => "2",
        3 => "3",
        4 => "4",
        5 => "5",
        6 => "6",
        7 => "7",
        8 => "8",
        _ => "9",
    };
    assert(r@ =~= seq![digit_char(d as nat)]);
    r
}

/// Appends `n` in decimal notation.
pub(crate) fn append_decimal(out: &mut String, n: u64)
    ensures
        final(out)@ == old(out)@ + decimal(n as nat),
    decreases n,
{
    if n >= 10 {
        append_decimal(out, n / 10);
    }
    out.append(digit_str(n % 10));
    assert(out@ =~= old(out)@ + decimal(n as nat));
}

/// A number reads back from its decimal notation.
pub proof fn decimal_reads_back(n: nat)
    ensures
        decimal(n).len() > 0,
        all_digits(decimal(n)),
        digits_value(decimal(n)) == n,
    decreases n,
{
    let s = decimal(n);
    if n < 10 {
        assert(s.drop_last() =~= Seq::empty());
        assert(digits_value(s.drop_last()) == 0);
        assert(s.last() == digit_char(n));
    } else {
        decimal_reads_back(n / 10);
        assert(s.drop_last() =~= decimal(n / 10));
        assert(s.last() == digit_char(n % 10));
    }
}

/// Reads the number in a text; see [`number_in`].
pub(crate) fn parse_number(s: &str) -> (r: Option<usize>)
    ensures
        match r {
            Some(n) => number_in(s@, usize::MAX as nat) == Some(n as nat),
            None => number_in(s@, usize::MAX as nat) is None,
        },
{
    let chars = chars_of(s);
    let start: usize = if chars.len() > 0 && chars[0] == '+' {
        1
    } else {
        0
    };
    let ghost digits = without_plus(s@);
    assert(digits =~= chars@.skip(start as int));
    if start == chars.len() {
        return None;
    }
    let mut value: usize = 0;
    let mut i: usize = start;
    assert(digits.take(0) =~= Seq::empty());
    while i < chars.len()
        invariant
            start <= i <= chars@.len(),
            start <= 1,
            digits == chars@.skip(start as int),
            digits == without_plus(s@),
            forall|j: int| 0 <= j < i - start ==> '0' <= #[trigger] digits[j] <= '9',
            value == digits_value(digits.take(i - start)),
        decreases chars@.len() - i,
    {
        let c = chars[i];
        let ghost k = i - start;
        assert(c == digits[k]);
        if c < '0' || c > '9' {
            return None;
        }
        let d: usize = (c as u32 - 48) as usize;
        assert(digits.take(k + 1).drop_last() =~= digits.take(k));
        proof {
            lemma_digits_value_grows(digits, k + 1);
            assert(digits.take(digits.len() as int) =~= digits);
        }
        match value.checked_mul(10) {
            None => {
                return None;
            },
            Some(tens) => match tens.checked_add(d) {
                None => {
                    return None;
                },
                Some(v) => {
                    value = v;
                },
            },
        }
        i = i + 1;
    }
    assert(digits.take(digits.len() as int) =~= digits);
    Some(value)
}

/// More digits never make the number smaller.
proof fn lemma_digits_value_grows(s: Seq<char>, k: int)
    requires
        0 <= k <= s.len(),
    ensures
        digits_value(s.take(k)) <= digits_value(s),
    decreases s.len(),
{
    if k == s.len() {
        assert(s.take(k) =~= s);
    } else {
        lemma_digits_value_grows(s.drop_last(), k);
        assert(s.drop_last().take(k) =~= s.take(k));
    }
}

proof fn lemma_bytes_order(a: Seq<u8>, b: Seq<u8>)
    ensures
        !(bytes_less(a, b) && bytes_less(b, a)),
        bytes_less(a, b) || bytes_less(b, a) || a == b,
        a == b ==> !bytes_less(a, b),
    decreases a.len(),
{
    if a.len() == 0 || b.len() == 0 {
        if a.len() == b.len() {
            assert(a =~= b);
        }
    } else {
        lemma_bytes_order(a.drop_first(), b.drop_first());
        if a[0] == b[0] && a.drop_first() == b.drop_first() {
            assert(a =~= seq![a[0]] + a.drop_first());
            assert(b =~= seq![b[0]] + b.drop_first());
        }
    }
}

proof fn lemma_bytes_transitive(a: Seq<u8>, b: Seq<u8>, c: Seq<u8>)
    requires
        bytes_less(a, b),
        bytes_less(b, c),
    ensures
        bytes_less(a, c),
    decreases a.len(),
{
    if a.len() > 0 && a[0] == b[0] && b[0] == c[0] {
        lemma_bytes_transitive(a.drop_first(), b.drop_first(), c.drop_first());
    }
}

/// Of two different texts exactly one is the smaller.
pub proof fn lemma_text_order(a: Seq<char>, b: Seq<char>)
    ensures
        !(text_less(a, b) && text_less(b, a)),
        text_less(a, b) || text_less(b, a) || a == b,
        a == b ==> !text_less(a, b),
{
    lemma_bytes_order(encode_utf8(a), encode_utf8(b));
    if encode_utf8(a) == encode_utf8(b) {
        lemma_encode_injective(a, b);
    }
}

/// The order of texts is transitive.
pub proof fn lemma_text_transitive(a: Seq<char>, b: Seq<char>, c: Seq<char>)
    requires
        text_less(a, b),
        text_less(b, c),
    ensures
        text_less(a, c),
{
    lemma_bytes_transitive(encode_utf8(a), encode_utf8(b), encode_utf8(c));
}

/// Tells whether `a` comes before `b`.
pub(crate) fn is_less(a: &str, b: &str) -> (r: bool)
    ensures
        r == text_less(a@, b@),
{
    let x = a.as_bytes();
    let y = b.as_bytes();
    let mut i: usize = 0;
    assert(x@.skip(0) =~= x@);
    assert(y@.skip(0) =~= y@);
    while i < x.len() && i < y.len()
        invariant
            i <= x@.len(),
            i <= y@.len(),
            x@ == encode_utf8(a@),
            y@ == encode_utf8(b@),
            bytes_less(x@, y@) == bytes_less(x@.skip(i as int), y@.skip(i as int)),
        decreases x@.len() - i,
    {
        assert(x@.skip(i as int)[0] == x@[i as int]);
        assert(y@.skip(i as int)[0] == y@[i as int]);
        if x[i] != y[i] {
            return x[i] < y[i];
        }
        assert(x@.skip(i as int).drop_first() =~= x@.skip(i + 1));
        assert(y@.skip(i as int).drop_first() =~= y@.skip(i + 1));
        i = i + 1;
    }
    i < y.len()
}

/// A part occurs in a text exactly if the text is something, then the part,
/// then something.
pub proof fn parts_occur_between(whole: Seq<char>, part: Seq<char>)
    ensures
        contains_text(whole, part) <==> exists|before: Seq<char>, after: Seq<char>|
            whole == #[trigger] (before + part + after),
{
    if contains_text(whole, part) {
        let i = choose|i: int|
            0 <= i <= whole.len() - part.len() && #[trigger] whole.subrange(i, i + part.len())
                == part;
        let before = whole.take(i);
        let after = whole.skip(i + part.len());
        assert(whole =~= before + part + after);
    }
    if exists|before: Seq<char>, after: Seq<char>| whole == #[trigger] (before + part + after) {
        let (before, after) = choose|before: Seq<char>, after: Seq<char>|
            whole == #[trigger] (before + part + after);
        let i = before.len() as int;
        assert(whole.subrange(i, i + part.len()) =~= part);
    }
}

/// A digit counts for itself.
pub proof fn digit_counts(c: char)
    requires
        '0' <= c <= '9',
    ensures
        digits_value(seq![c]) == c as int - '0' as int,
{
    let s = seq![c];
    assert(s.drop_last() =~= Seq::empty());
    assert(digits_value(s.drop_last()) == 0);
}

/// Digits count by their places: those in front of `k` more digits count
/// ten to the power of `k` times as much.
pub proof fn digits_count_by_place(a: Seq<char>, b: Seq<char>)
    ensures
        digits_value(a + b) == digits_value(a) * pow(10, b.len()) + digits_value(b),
    decreases b.len(),
{
    if b.len() == 0 {
        assert(a + b =~= a);
        lemma_pow0(10);
    } else {
        digits_count_by_place(a, b.drop_last());
        assert((a + b).drop_last() =~= a + b.drop_last());
        assert((a + b).last() == b.last());
        let p = pow(10, (b.len() - 1) as nat);
        let v = digits_value(a) as int;
        lemma_pow_adds(10, 1, (b.len() - 1) as nat);
        lemma_pow1(10);
        assert(pow(10, b.len()) == 10 * p);
        assert((v * p) * 10 == v * (10 * p)) by (nonlinear_arith);
    }
}

/// A text is a number exactly if it is made of digits, at least one, after
/// an optional plus sign, and the number is that of the digits.
pub proof fn numbers_are_digits(s: Seq<char>, limit: nat)
    ensures
        forall|n: nat|
            (#[trigger] number_in(s, limit) == Some(n)) <==> n <= limit && exists|digits: Seq<char>|
                {
                    &&& s == digits || s == seq!['+'] + digits
                    &&& digits.len() > 0
                    &&& forall|i: int|
                        0 <= i < digits.len() ==> 48 <= (#[trigger] digits[i]) as int <= 57
                    &&& #[trigger] digits_value(digits) == n
                },
{
    assert forall|n: nat| (#[trigger] number_in(s, limit) == Some(n)) <==> n <= limit && exists|
        digits: Seq<char>,
    |
        {
            &&& s == digits || s == seq!['+'] + digits
            &&& digits.len() > 0
            &&& forall|i: int| 0 <= i < digits.len() ==> 48 <= (#[trigger] digits[i]) as int <= 57
            &&& #[trigger] digits_value(digits) == n
        } by {
        let own = without_plus(s);
        if number_in(s, limit) == Some(n) {
            if s[0] == '+' {
                assert(s =~= seq!['+'] + own);
            }
            assert(digits_value(own) == n);
        }
        if n <= limit && exists|digits: Seq<char>|
            {
                &&& s == digits || s == seq!['+'] + digits
                &&& digits.len() > 0
                &&& forall|i: int|
                    0 <= i < digits.len() ==> 48 <= (#[trigger] digits[i]) as int <= 57
                &&& #[trigger] digits_value(digits) == n
            } {
            let digits = choose|digits: Seq<char>|
                {
                    &&& s == digits || s == seq!['+'] + digits
                    &&& digits.len() > 0
                    &&& forall|i: int|
                        0 <= i < digits.len() ==> 48 <= (#[trigger] digits[i]) as int <= 57
                    &&& #[trigger] digits_value(digits) == n
                };
            if s == digits {
                assert(48 <= digits[0] as int <= 57);
                assert(own == digits);
            } else {
                assert(s[0] == '+');
                assert(s.skip(1) =~= digits);
            }
        }
    }
}

/// Texts are ordered by the first byte in which their encodings differ; one
/// that ends before that comes first.
pub proof fn texts_order_by_first_difference(a: Seq<char>, b: Seq<char>)
    ensures
        text_less(a, b) <==> exists|k: int| #[trigger]
            differ_first_at(encode_utf8(a), encode_utf8(b), k),
{
    lemma_bytes_order_by_first_difference(encode_utf8(a), encode_utf8(b));
}

/// Whether `a` and `b` agree before position `k`, and `a` has there a smaller
/// byte than `b`, or none where `b` has one.
pub open spec fn differ_first_at(a: Seq<u8>, b: Seq<u8>, k: int) -> bool {
    &&& 0 <= k <= a.len()
    &&& k < b.len()
    &&& forall|j: int| 0 <= j < k ==> (#[trigger] a[j]) == b[j]
    &&& k == a.len() || a[k] < b[k]
}

proof fn lemma_bytes_order_by_first_difference(a: Seq<u8>, b: Seq<u8>)
    ensures
        bytes_less(a, b) <==> exists|k: int| #[trigger] differ_first_at(a, b, k),
    decreases a.len(),
{
    if b.len() == 0 {
    } else if a.len() == 0 {
        assert(differ_first_at(a, b, 0));
    } else if a[0] != b[0] {
        if a[0] < b[0] {
            assert(differ_first_at(a, b, 0));
        }
        if exists|k: int| #[trigger] differ_first_at(a, b, k) {
            let k = choose|k: int| #[trigger] differ_first_at(a, b, k);
            if k > 0 {
                assert(a[0] == b[0]);
            }
        }
    } else {
        let x = a.drop_first();
        let y = b.drop_first();
        lemma_bytes_order_by_first_difference(x, y);
        if exists|k: int| #[trigger] differ_first_at(x, y, k) {
            let k = choose|k: int| #[trigger] differ_first_at(x, y, k);
            assert forall|j: int| 0 <= j < k + 1 implies (#[trigger] a[j]) == b[j] by {
                if j > 0 {
                    assert(x[j - 1] == y[j - 1]);
                }
            }
            assert(differ_first_at(a, b, k + 1));
        }
        if exists|k: int| #[trigger] differ_first_at(a, b, k) {
            let k = choose|k: int| #[trigger] differ_first_at(a, b, k);
            assert(k > 0);
            assert forall|j: int| 0 <= j < k - 1 implies (#[trigger] x[j]) == y[j] by {
                assert(a[j + 1] == b[j + 1]);
            }
            assert(differ_first_at(x, y, k - 1));
        }
    }
}

/// A search finds the first place: nothing before it, from `from` on, is the
/// character, and the place is, unless it is the end.
pub proof fn search_finds_first(s: Seq<char>, c: char, from: int)
    requires
        0 <= from <= s.len(),
    ensures
        from <= find_char(s, c, from) <= s.len(),
        forall|j: int| from <= j < find_char(s, c, from) ==> (#[trigger] s[j]) != c,
        find_char(s, c, from) < s.len() ==> s[find_char(s, c, from)] == c,
    decreases s.len() - from,
{
    if from < s.len() && s[from] != c {
        search_finds_first(s, c, from + 1);
    }
}

/// The last component of a path is what follows its folder: it has no slash
/// or backslash in it, and the folder is empty or ends in one.
pub proof fn component_follows_folder(folder: Seq<char>, last: Seq<char>)
    requires
        folder.len() == 0 || folder.last() == '/' || folder.last() == '\\',
        forall|i: int| 0 <= i < last.len() ==> (#[trigger] last[i]) != '/' && last[i] != '\\',
    ensures
        last_component(folder + last) == last,
{
    let s = folder + last;
    lemma_component_start(s, folder.len() as int, s.len() as int);
    assert(s.skip(folder.len() as int) =~= last);
}

proof fn lemma_component_start(s: Seq<char>, start: int, end: int)
    requires
        0 <= start <= end <= s.len(),
        start == 0 || s[start - 1] == '/' || s[start - 1] == '\\',
        forall|i: int| start <= i < s.len() ==> (#[trigger] s[i]) != '/' && s[i] != '\\',
    ensures
        component_start(s, end) == start,
    decreases end,
{
    if end > start {
        assert(s[end - 1] != '/' && s[end - 1] != '\\');
        lemma_component_start(s, start, end - 1);
    }
}

/// Trimming takes off exactly the whitespace at both ends: between whitespace
/// a text that neither starts nor ends with any is what is left.
pub proof fn trimming_takes_ends_off(before: Seq<char>, inner: Seq<char>, after: Seq<char>)
    requires
        forall|i: int| 0 <= i < before.len() ==> is_whitespace(#[trigger] before[i]),
        forall|i: int| 0 <= i < after.len() ==> is_whitespace(#[trigger] after[i]),
        inner.len() > 0 ==> !is_whitespace(inner[0]) && !is_whitespace(inner.last()),
    ensures
        trimmed(before + inner + after) == inner,
{
    let s = before + inner + after;
    let n = s.len() as int;
    let start = before.len() as int;
    assert forall|i: int| 0 <= i < start implies is_whitespace(#[trigger] s[i]) by {
        assert(s[i] == before[i]);
    }
    assert forall|i: int| start + inner.len() <= i < n implies is_whitespace(#[trigger] s[i]) by {
        assert(s[i] == after[i - start - inner.len()]);
    }
    if inner.len() > 0 {
        assert(s[start] == inner[0]);
        assert(s[start + inner.len() - 1] == inner.last());
        lemma_visible_start(s, 0, start);
        lemma_visible_end(s, start, start + inner.len(), n);
        assert(s.subrange(start, start + inner.len()) =~= inner);
    } else {
        lemma_visible_start(s, 0, n);
        lemma_visible_end(s, n, n, n);
        assert(s.subrange(n, n) =~= inner);
    }
}

proof fn lemma_visible_start(s: Seq<char>, from: int, start: int)
    requires
        0 <= from <= start <= s.len(),
        forall|i: int| from <= i < start ==> is_whitespace(#[trigger] s[i]),
        start < s.len() ==> !is_whitespace(s[start]),
    ensures
        visible_start(s, from) == start,
    decreases start - from,
{
    if from < start {
        assert(is_whitespace(s[from]));
        lemma_visible_start(s, from + 1, start);
    }
}

proof fn lemma_visible_end(s: Seq<char>, start: int, stop: int, end: int)
    requires
        0 <= start <= stop <= end <= s.len(),
        forall|i: int| stop <= i < end ==> is_whitespace(#[trigger] s[i]),
        start < stop ==> !is_whitespace(s[stop - 1]),
    ensures
        visible_end(s, start, end) == stop,
    decreases end,
{
    if end > stop {
        assert(is_whitespace(s[end - 1]));
        lemma_visible_end(s, start, stop, end - 1);
    }
}

/// Whitespace are the tab and the four line breaks after it, the space, and
/// the spaces and line breaks of Unicode beyond ASCII.
pub proof fn whitespace_by_code(c: char)
    ensures
        is_whitespace(c) <==> seq![
            9int,
            10,
            11,
            12,
            13,
            32,
            0x85,
            0xA0,
            0x1680,
            0x2000,
            0x2001,
            0x2002,
            0x2003,
            0x2004,
            0x2005,
            0x2006,
            0x2007,
            0x2008,
            0x2009,
            0x200A,
            0x2028,
            0x2029,
            0x202F,
            0x205F,
            0x3000,
        ].contains(c as int),
{
    let codes = seq![
        9int,
        10,
        11,
        12,
        13,
        32,
        0x85,
        0xA0,
        0x1680,
        0x2000,
        0x2001,
        0x2002,
        0x2003,
        0x2004,
        0x2005,
        0x2006,
        0x2007,
        0x2008,
        0x2009,
        0x200A,
        0x2028,
        0x2029,
        0x202F,
        0x205F,
        0x3000,
    ];
    let k = c as int;
    if is_whitespace(c) {
        let i = if 9 <= k <= 13 {
            k - 9
        } else if k == 32 {
            5
        } else if k == 0x85 {
            6
        } else if k == 0xA0 {
            7
        } else if k == 0x1680 {
            8
        } else if 0x2000 <= k <= 0x200A {
            9 + k - 0x2000
        } else if k == 0x2028 {
            20
        } else if k == 0x2029 {
            21
        } else if k == 0x202F {
            22
        } else if k == 0x205F {
            23
        } else {
            24
        };
        assert(codes[i] == k);
    }
    if codes.contains(k) {
        let i = choose|i: int| 0 <= i < codes.len() && codes[i] == k;
        assert(0 <= i < 25);
    }
}

/// The contents of a list of strings are the contents of its strings, each in
/// its place.
pub proof fn texts_are_those_of_the_strings(list: Seq<String>)
    ensures
        texts(list).len() == list.len(),
        forall|i: int| 0 <= i < list.len() ==> #[trigger] texts(list)[i] == list[i]@,
{
}

/// Decimal notation is without needless zeros: the first digit is one only of
/// the number 0.
pub proof fn no_needless_zeros(n: nat)
    ensures
        n > 0 ==> decimal(n)[0] != '0',
        decimal(n).len() > 0,
        decimal(n).len() > 1 ==> n > 0,
    decreases n,
{
    if n >= 10 {
        no_needless_zeros(n / 10);
        assert(decimal(n)[0] == decimal(n / 10)[0]);
    } else {
        assert(decimal(n)[0] == digit_char(n));
    }
}

} // verus!
