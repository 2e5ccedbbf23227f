//! The part of CBOR (RFC 8949) that message files use: writing text strings
//! and map headers, and collecting every string of a document.
use crate::text;
use vstd::prelude::*;
use vstd::slice::slice_subrange;
use vstd::string::*;
use vstd::utf8::*;

verus! {

/// Longest string, in bytes, that is taken out of a document (100 MiB).
pub const MAX_STRING_LEN: u64 = 104_857_600;

/// The number that `bytes` spell, most significant byte first.
pub open spec fn be_value(bytes: Seq<u8>) -> nat
    decreases bytes.len(),
{
    if bytes.len() == 0 {
        0
    } else {
        be_value(bytes.drop_last()) * 256 + bytes.last() as nat
    }
}

/// The last `width` base-256 digits of `n`, most significant first.
pub open spec fn be_bytes(n: nat, width: nat) -> Seq<u8>
    decreases width,
{
    if width == 0 {
        Seq::empty()
    } else {
        be_bytes(n / 256, (width - 1) as nat).push((n % 256) as u8)
    }
}

/// The shortest CBOR head for major type `major` with the argument `n`.
pub open spec fn head(major: nat, n: nat) -> Seq<u8> {
    if n <= 23 {
        seq![(32 * major + n) as u8]
    } else if n <= 0xFF {
        seq![(32 * major + 24) as u8] + be_bytes(n, 1)
    } else if n <= 0xFFFF {
        seq![(32 * major + 25) as u8] + be_bytes(n, 2)
    } else if n <= 0xFFFF_FFFF {
        seq![(32 * major + 26) as u8] + be_bytes(n, 4)
    } else {
        seq![(32 * major + 27) as u8] + be_bytes(n, 8)
    }
}

/// The CBOR text string that holds `s`.
pub open spec fn text_item(s: Seq<char>) -> Seq<u8> {
    head(3, encode_utf8(s).len()) + encode_utf8(s)
}

/// The CBOR header of a map with `n` pairs.
pub open spec fn map_head(n: nat) -> Seq<u8> {
    head(5, n)
}

/// The major type in an initial byte.
pub open spec fn major_type(initial: u8) -> nat {
    (initial / 32) as nat
}

/// The additional information in an initial byte.
pub open spec fn additional_info(initial: u8) -> nat {
    (initial % 32) as nat
}

/// How many argument bytes follow an initial byte with this additional
/// information; none for a reserved or indefinite-length one.
pub open spec fn argument_width(info: nat) -> nat {
    if info == 24 {
        1
    } else if info == 25 {
        2
    } else if info == 26 {
        4
    } else if info == 27 {
        8
    } else {
        0
    }
}

/// Whether an initial byte opens a byte string or a text string.
pub open spec fn opens_string(initial: u8) -> bool {
    major_type(initial) == 2 || major_type(initial) == 3
}

/// Size of the head and of the contents of the string that `data` starts
/// with; `None` where the length is indefinite, reserved or cut off.
pub open spec fn string_extent(data: Seq<u8>) -> Option<(nat, nat)> {
    let info = additional_info(data[0]);
    let width = argument_width(info);
    if info >= 28 || data.len() < 1 + width {
        None
    } else if info <= 23 {
        Some((1, info))
    } else {
        Some((1 + width, be_value(data.subrange(1, 1 + width as int))))
    }
}

/// The text that the item at the start of `data` contributes, if any: the
/// contents of a complete, non-empty UTF-8 string of acceptable length.
pub open spec fn first_text(data: Seq<u8>) -> Option<Seq<char>> {
    if !opens_string(data[0]) {
        None
    } else {
        match string_extent(data) {
            None => None,
            Some((start, len)) => {
                let contents = data.subrange(start as int, (start + len) as int);
                if 0 < len <= MAX_STRING_LEN && start + len <= data.len() && valid_utf8(contents) {
                    Some(decode_utf8(contents))
                } else {
                    None
                }
            },
        }
    }
}

/// How many bytes to move on from the item at the start of `data`. The
/// members of arrays and maps are items of their own. Of a string whose
/// length is unusable only the initial byte is passed over, of one that is
/// too long only the head.
pub open spec fn first_size(data: Seq<u8>) -> nat {
    if !opens_string(data[0]) {
        1 + argument_width(additional_info(data[0]))
    } else {
        match string_extent(data) {
            None => 1,
            Some((start, len)) => if len > MAX_STRING_LEN {
                start
            } else {
                start + len
            },
        }
    }
}

/// `first_size`, cut off at the end of the data.
pub open spec fn first_advance(data: Seq<u8>) -> nat {
    if first_size(data) < data.len() {
        first_size(data)
    } else {
        data.len()
    }
}

/// Every non-empty string of a CBOR document, in the order of its bytes.
pub open spec fn cbor_strings(data: Seq<u8>) -> Seq<Seq<char>>
    decreases data.len(),
{
    if data.len() == 0 {
        Seq::empty()
    } else {
        let rest = cbor_strings(data.skip(first_advance(data) as int));
        match first_text(data) {
            Some(text) => seq![text] + rest,
            None => rest,
        }
    }
}

spec fn pow256(width: nat) -> nat
    decreases width,
{
    if width == 0 {
        1
    } else {
        256 * pow256((width - 1) as nat)
    }
}

proof fn lemma_pow256()
    ensures
        pow256(0) == 1,
        pow256(1) == 0x100,
        pow256(2) == 0x1_0000,
        pow256(4) == 0x1_0000_0000,
        pow256(8) == 0x1_0000_0000_0000_0000,
{
    reveal_with_fuel(pow256, 9);
}

proof fn lemma_be_round_trip(n: nat, width: nat)
    requires
        n < pow256(width),
    ensures
        be_bytes(n, width).len() == width,
        be_value(be_bytes(n, width)) == n,
    decreases width,
{
    if width > 0 {
        lemma_be_round_trip(n / 256, (width - 1) as nat);
        assert(be_bytes(n, width).drop_last() =~= be_bytes(n / 256, (width - 1) as nat));
    }
}

/// Appends the last `width` base-256 digits of `n`.
fn write_be(buf: &mut Vec<u8>, n: u64, width: usize)
    ensures
        final(buf)@ == old(buf)@ + be_bytes(n as nat, width as nat),
    decreases width,
{
    if width > 0 {
        write_be(buf, n / 256, width - 1);
        buf.push((n % 256) as u8);
        assert(buf@ =~= old(buf)@ + be_bytes(n as nat, width as nat));
    } else {
        assert(buf@ =~= old(buf)@ + be_bytes(n as nat, width as nat));
    }
}

/// Reads the number that `width` bytes from `start` on spell.
fn read_be(data: &[u8], start: usize, width: usize) -> (r: u64)
    requires
        start + width <= data@.len(),
        width <= 8,
    ensures
        r == be_value(data@.subrange(start as int, start + width)),
        r < pow256(width as nat),
    decreases width,
{
    if width == 0 {
        0
    } else {
        let high = read_be(data, start, width - 1);
        assert(data@.len() == data.len());
        let low = data[start + width - 1];
        proof {
            let all = data@.subrange(start as int, start + width);
            assert(all.drop_last() =~= data@.subrange(start as int, start + width - 1));
            assert(high < 0x100_0000_0000_0000) by {
                reveal_with_fuel(pow256, 9);
            }
        }
        high * 256 + low as u64
    }
}

/// Appends the shortest head for major type `major` with the argument `n`.
fn write_head(buf: &mut Vec<u8>, major: u8, n: u64)
    requires
        major <= 7,
    ensures
        final(buf)@ == old(buf)@ + head(major as nat, n as nat),
{
    let top: u8 = 32 * major;
    if n <= 23 {
        buf.push(top + n as u8);
    } else if n <= 0xFF {
        buf.push(top + 24);
        write_be(buf, n, 1);
    } else if n <= 0xFFFF {
        buf.push(top + 25);
        write_be(buf, n, 2);
    } else if n <= 0xFFFF_FFFF {
        buf.push(top + 26);
        write_be(buf, n, 4);
    } else {
        buf.push(top + 27);
        write_be(buf, n, 8);
    }
    assert(buf@ =~= old(buf)@ + head(major as nat, n as nat));
}

fn push_all(buf: &mut Vec<u8>, bytes: &[u8])
    ensures
        final(buf)@ == old(buf)@ + bytes@,
{
    buf.extend_from_slice(bytes);
    assert(buf@ =~= old(buf)@ + bytes@);
}

/// Encodes a string as a CBOR text string (major type 3), with the shortest
/// length encoding: inline up to 23 bytes, then a 1, 2, 4 or 8 byte length.
pub fn cbor_write_text(buf: &mut Vec<u8>, s: &str)
    ensures
        final(buf)@ == old(buf)@ + text_item(s@),
{
    let bytes = s.as_bytes();
    write_head(buf, 3, bytes.len() as u64);
    push_all(buf, bytes);
    assert(buf@ =~= old(buf)@ + text_item(s@));
}

/// Encodes the header of a CBOR map (major type 5) with `len` pairs, with
/// the same length encoding as [`cbor_write_text`].
pub fn cbor_write_map_header(buf: &mut Vec<u8>, len: usize)
    ensures
        final(buf)@ == old(buf)@ + map_head(len as nat),
{
    write_head(buf, 5, len as u64);
}

/// Tells whether the first byte is a CBOR map header.
pub fn looks_like_cbor(d: &[u8]) -> (r: bool)
    ensures
        r == (d@.len() > 0 && major_type(d@[0]) == 5),
{
    if d.len() == 0 {
        return false;
    }
    let b: u8 = d[0];
    assert((b & 0xE0 == 0xA0) == (b / 32 == 5)) by (bit_vector);
    b & 0xE0 == 0xA0
}

/// Number of argument bytes after an initial byte.
fn argument_bytes(info: u8) -> (r: usize)
    ensures
        r == argument_width(info as nat),
{
    match info {
        24 => 1,
        25 => 2,
        26 => 4,
        27 => 8,
        _ => 0,
    }
}

/// Collects the text strings (major type 3) and byte strings (major type 2)
/// of a CBOR document, wherever they are nested.
///
/// Empty strings, strings that are not UTF-8 or not complete, strings longer
/// than [`MAX_STRING_LEN`] and strings of indefinite or reserved length are
/// left out.
pub fn extract_cbor_strings(data: &[u8]) -> (r: Vec<String>)
    ensures
        text::texts(r@) == cbor_strings(data@),
{
    let mut strings: Vec<String> = Vec::new();
    let mut i: usize = 0;
    assert(data@.skip(0) =~= data@);
    assert(text::texts(strings@) + cbor_strings(data@) =~= cbor_strings(data@));
    while i < data.len()
        invariant
            i <= data@.len(),
            text::texts(strings@) + cbor_strings(data@.skip(i as int)) == cbor_strings(data@),
        decreases data@.len() - i,
    {
        let ghost here = data@.skip(i as int);
        let ghost before = strings@;
        let left: usize = data.len() - i;
        let initial: u8 = data[i];
        let info: u8 = initial % 32;
        let width: usize = argument_bytes(info);
        let major: u8 = initial / 32;
        let mut advance: usize = 1;
        if major != 2 && major != 3 {
            advance = 1 + width;
        } else if info < 28 && width < left {
            let len: u64 = if info <= 23 {
                info as u64
            } else {
                let n = read_be(data, i + 1, width);
                assert(data@.subrange(i + 1, i + 1 + width) =~= here.subrange(1, 1 + width as int));
                n
            };
            advance = 1 + width;
            if len <= MAX_STRING_LEN {
                let len: usize = len as usize;
                if len <= left - advance {
                    let contents = slice_subrange(data, i + advance, i + advance + len);
                    assert(contents@ =~= here.subrange(
                        advance as int,
                        (advance + len) as int,
                    ));
                    if len > 0 {
                        match text::utf8_text(contents) {
                            Some(s) => {
                                strings.push(s);
                                proof {
                                    text::lemma_texts_push(before, s);
                                }
                            },
                            None => {},
                        }
                    }
                }
                advance = advance + len;
            }
        }
        let ghost size = advance as nat;
        assert(size == first_size(here));
        if advance > left {
            advance = left;
        }
        i = i + advance;
        proof {
            assert(here.skip(first_advance(here) as int) =~= data@.skip(i as int));
            match first_text(here) {
                Some(text) => {
                    assert(text::texts(strings@) == text::texts(before).push(text));
                    assert(text::texts(before) + (seq![text] + cbor_strings(data@.skip(i as int)))
                        =~= text::texts(strings@) + cbor_strings(data@.skip(i as int)));
                },
                None => {
                    assert(strings@ == before);
                },
            }
        }
    }
    assert(data@.skip(i as int).len() == 0);
    assert(text::texts(strings@) + Seq::<Seq<char>>::empty() =~= text::texts(strings@));
    strings
}

/// What a head is made of.
pub proof fn lemma_head_argument(major: nat, n: nat)
    requires
        major <= 7,
        n <= u64::MAX,
    ensures
        n <= 23 ==> head(major, n).len() == 1 && head(major, n)[0] == 32 * major + n,
        23 < n <= 0xFF ==> head(major, n).len() == 2 && head(major, n)[0] == 32 * major + 24,
        0xFF < n <= 0xFFFF ==> head(major, n).len() == 3 && head(major, n)[0] == 32 * major + 25,
        0xFFFF < n <= 0xFFFF_FFFF ==> head(major, n).len() == 5 && head(major, n)[0] == 32 * major
            + 26,
        n > 0xFFFF_FFFF ==> head(major, n).len() == 9 && head(major, n)[0] == 32 * major + 27,
        n > 23 ==> be_value(head(major, n).skip(1)) == n,
{
    lemma_pow256();
    if n > 23 {
        let width = if n <= 0xFF {
            1
        } else if n <= 0xFFFF {
            2
        } else if n <= 0xFFFF_FFFF {
            4
        } else {
            8nat
        };
        lemma_be_round_trip(n, width);
        assert(head(major, n).skip(1) =~= be_bytes(n, width));
    }
}

/// The head of an item states what was written into it, whatever follows.
proof fn lemma_head_extent(major: nat, n: nat, rest: Seq<u8>)
    requires
        major <= 7,
        n <= u64::MAX,
    ensures
        1 <= head(major, n).len() <= 9,
        major_type(head(major, n)[0]) == major,
        head(major, n).len() == 1 + argument_width(additional_info(head(major, n)[0])),
        string_extent(head(major, n) + rest) == Some((head(major, n).len(), n)),
{
    lemma_pow256();
    let info = if n <= 23 {
        n
    } else if n <= 0xFF {
        24
    } else if n <= 0xFFFF {
        25
    } else if n <= 0xFFFF_FFFF {
        26
    } else {
        27
    };
    let width = argument_width(info);
    let data = head(major, n) + rest;
    assert(head(major, n)[0] == (32 * major + info) as u8);
    assert(additional_info(data[0]) == info);
    assert(major_type(data[0]) == major);
    if n > 23 {
        lemma_be_round_trip(n, width);
        assert(data.subrange(1, 1 + width as int) =~= be_bytes(n, width));
    }
}

/// A text string reads back: a document that starts with one yields its text
/// first, then the strings of what follows. Only the empty text yields
/// nothing.
pub proof fn text_item_reads_back(s: Seq<char>, rest: Seq<u8>)
    requires
        encode_utf8(s).len() <= MAX_STRING_LEN,
    ensures
        cbor_strings(text_item(s) + rest) == if s.len() == 0 {
            cbor_strings(rest)
        } else {
            seq![s] + cbor_strings(rest)
        },
{
    let bytes = encode_utf8(s);
    let h = head(3, bytes.len());
    let data = text_item(s) + rest;
    assert(data =~= h + (bytes + rest));
    lemma_head_extent(3, bytes.len(), bytes + rest);
    assert(data[0] == h[0]);
    encode_utf8_valid_utf8(s);
    encode_utf8_decode_utf8(s);
    assert(data.subrange(h.len() as int, (h.len() + bytes.len()) as int) =~= bytes);
    assert(data.skip((h.len() + bytes.len()) as int) =~= rest);
    if rest.len() == 0 {
        assert(rest =~= Seq::empty());
    }
    if s.len() > 0 {
        encode_utf8_first_scalar(s);
        assert(bytes.len() > 0);
    } else {
        assert(bytes.len() == 0);
    }
}

/// A map header contributes no string: the document goes on with what
/// follows it.
pub proof fn map_head_is_passed_over(n: nat, rest: Seq<u8>)
    requires
        n <= u64::MAX,
    ensures
        cbor_strings(map_head(n) + rest) == cbor_strings(rest),
{
    lemma_head_extent(5, n, rest);
    let data = map_head(n) + rest;
    assert(data[0] == map_head(n)[0]);
    assert(data.skip(map_head(n).len() as int) =~= rest);
}

/// A map header is what [`looks_like_cbor`] looks for.
pub proof fn map_head_looks_like_cbor(n: nat, rest: Seq<u8>)
    requires
        n <= u64::MAX,
    ensures
        (map_head(n) + rest).len() > 0,
        major_type((map_head(n) + rest)[0]) == 5,
{
    lemma_head_extent(5, n, rest);
}

/// No collected string is empty.
pub proof fn collected_strings_are_not_empty(data: Seq<u8>, index: int)
    requires
        0 <= index < cbor_strings(data).len(),
    ensures
        cbor_strings(data)[index].len() > 0,
    decreases data.len(),
{
    let next = data.skip(first_advance(data) as int);
    match first_text(data) {
        Some(text) => {
            if index == 0 {
                let (start, len) = string_extent(data)->0;
                let contents = data.subrange(start as int, (start + len) as int);
                decode_utf8_encode_utf8(contents);
                if text.len() == 0 {
                    assert(encode_utf8(text).len() == 0);
                }
            } else {
                collected_strings_are_not_empty(next, index - 1);
            }
        },
        None => {
            collected_strings_are_not_empty(next, index);
        },
    }
}

} // verus!
