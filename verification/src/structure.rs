//! CBOR documents by their structure (RFC 8949), and what that makes of the
//! documents that are written.
//!
//! The reader in this module follows the structure: the head of a map is
//! followed by as many pairs of items as it says. It serves to state what is
//! written.
use crate::cbor;
use crate::compression;
use crate::json;
use crate::messages;
use crate::sections;
use crate::text;
use vstd::prelude::*;
use vstd::string::*;
use vstd::utf8::*;

verus! {

/// A CBOR item: a text string, or a map with its pairs in order.
pub enum Item {
    Text(Seq<char>),
    Pairs(Seq<(Item, Item)>),
}

/// The number in 1, 2, 4 or 8 bytes, most significant byte first.
pub open spec fn unsigned(b: Seq<u8>) -> nat {
    if b.len() == 1 {
        b[0] as nat
    } else if b.len() == 2 {
        (b[0] * 0x100 + b[1]) as nat
    } else if b.len() == 4 {
        (b[0] * 0x100_0000 + b[1] * 0x1_0000 + b[2] * 0x100 + b[3]) as nat
    } else {
        (b[0] * 0x100_0000_0000_0000 + b[1] * 0x1_0000_0000_0000 + b[2] * 0x100_0000_0000 + b[3]
            * 0x1_0000_0000 + b[4] * 0x100_0000 + b[5] * 0x1_0000 + b[6] * 0x100 + b[7]) as nat
    }
}

/// Major type, argument and size of the head that `b` starts with; `None`
/// where it is cut off or has no definite argument.
pub open spec fn read_head(b: Seq<u8>) -> Option<(int, nat, int)> {
    if b.len() == 0 {
        None
    } else {
        let major = b[0] as int / 32;
        let info = b[0] as int % 32;
        if info < 24 {
            Some((major, info as nat, 1))
        } else if info == 24 && b.len() >= 2 {
            Some((major, unsigned(b.subrange(1, 2)), 2))
        } else if info == 25 && b.len() >= 3 {
            Some((major, unsigned(b.subrange(1, 3)), 3))
        } else if info == 26 && b.len() >= 5 {
            Some((major, unsigned(b.subrange(1, 5)), 5))
        } else if info == 27 && b.len() >= 9 {
            Some((major, unsigned(b.subrange(1, 9)), 9))
        } else {
            None
        }
    }
}

/// The text string or map that `b` starts with, and what follows it; `None`
/// where there is neither.
#[verifier::opaque]
pub open spec fn read_item(b: Seq<u8>) -> Option<(Item, Seq<u8>)>
    decreases b.len(), 0int,
{
    match read_head(b) {
        None => None,
        Some((major, n, size)) => if major == 3 {
            if size + n <= b.len() && valid_utf8(b.subrange(size, size + n)) {
                Some((Item::Text(decode_utf8(b.subrange(size, size + n))), b.skip(size + n)))
            } else {
                None
            }
        } else if major == 5 {
            match read_pairs(n, b.skip(size)) {
                Some((pairs, rest)) => Some((Item::Pairs(pairs), rest)),
                None => None,
            }
        } else {
            None
        },
    }
}

/// `n` pairs of items that `b` starts with, and what follows them.
#[verifier::opaque]
pub open spec fn read_pairs(n: nat, b: Seq<u8>) -> Option<(Seq<(Item, Item)>, Seq<u8>)>
    decreases b.len(), 1int,
{
    if n == 0 {
        Some((Seq::empty(), b))
    } else {
        match read_item(b) {
            None => None,
            Some((key, after_key)) => if after_key.len() >= b.len() {
                None
            } else {
                match read_item(after_key) {
                    None => None,
                    Some((value, after_value)) => if after_value.len() >= b.len() {
                        None
                    } else {
                        match read_pairs((n - 1) as nat, after_value) {
                            None => None,
                            Some((pairs, rest)) => Some((seq![(key, value)] + pairs, rest)),
                        }
                    },
                }
            },
        }
    }
}

proof fn lemma_unsigned(b: Seq<u8>)
    requires
        b.len() == 1 || b.len() == 2 || b.len() == 4 || b.len() == 8,
    ensures
        unsigned(b) == cbor::be_value(b),
{
    reveal_with_fuel(cbor::be_value, 9);
    let b1 = b.drop_last();
    assert(b.last() == b[b.len() - 1]);
    if b.len() > 1 {
        assert(b1.last() == b[b.len() - 2]);
        let b2 = b1.drop_last();
        if b.len() > 2 {
            assert(b2.last() == b[b.len() - 3]);
            let b3 = b2.drop_last();
            assert(b3.last() == b[b.len() - 4]);
            if b.len() > 4 {
                let b4 = b3.drop_last();
                assert(b4.last() == b[3]);
                let b5 = b4.drop_last();
                assert(b5.last() == b[2]);
                let b6 = b5.drop_last();
                assert(b6.last() == b[1]);
                let b7 = b6.drop_last();
                assert(b7.last() == b[0]);
            }
        }
    }
}

/// A head states what was written: it reads as the major type and the number,
/// and ends where the rest starts.
pub proof fn head_reads_back(major: nat, n: nat, rest: Seq<u8>)
    requires
        major <= 7,
        n <= u64::MAX,
    ensures
        read_head(cbor::head(major, n) + rest) == Some(
            (major as int, n, cbor::head(major, n).len() as int),
        ),
        (cbor::head(major, n) + rest).skip(cbor::head(major, n).len() as int) == rest,
{
    let h = cbor::head(major, n);
    let b = h + rest;
    cbor::lemma_head_argument(major, n);
    assert(b.skip(h.len() as int) =~= rest);
    assert(b[0] == h[0]);
    if n > 23 {
        let size = h.len() as int;
        let argument = b.subrange(1, size);
        assert(argument =~= h.skip(1));
        lemma_unsigned(argument);
    }
}

/// No head is shorter than the one that is written: whatever bytes read as the
/// same major type and number take up at least as many.
pub proof fn head_is_shortest(major: nat, n: nat, other: Seq<u8>)
    requires
        major <= 7,
        n <= u64::MAX,
        read_head(other) matches Some((m, k, size)) && m == major && k == n,
    ensures
        cbor::head(major, n).len() <= (read_head(other)->0).2,
{
    cbor::lemma_head_argument(major, n);
}

/// A text string that was written is one item, with that text, and what
/// follows it is left.
pub proof fn text_is_one_item(s: Seq<char>, rest: Seq<u8>)
    requires
        encode_utf8(s).len() <= u64::MAX,
    ensures
        read_item(cbor::text_item(s) + rest) == Some((Item::Text(s), rest)),
        (cbor::text_item(s) + rest).len() > rest.len(),
{
    reveal(read_item);
    let bytes = encode_utf8(s);
    let h = cbor::head(3, bytes.len());
    let b = cbor::text_item(s) + rest;
    assert(b =~= h + (bytes + rest));
    head_reads_back(3, bytes.len(), bytes + rest);
    cbor::lemma_head_argument(3, bytes.len());
    let size = h.len() as int;
    assert(b.subrange(size, size + bytes.len()) =~= bytes);
    assert(b.skip(size + bytes.len()) =~= rest);
    encode_utf8_valid_utf8(s);
    encode_utf8_decode_utf8(s);
}

/// A map that was opened for `n` pairs takes in the `n` pairs that follow, and
/// no more.
pub proof fn map_takes_its_pairs(n: nat, body: Seq<u8>)
    requires
        n <= u64::MAX,
    ensures
        read_item(cbor::map_head(n) + body) == match read_pairs(n, body) {
            Some((pairs, rest)) => Some((Item::Pairs(pairs), rest)),
            None => None,
        },
{
    reveal(read_item);
    reveal(read_pairs);
    head_reads_back(5, n, body);
}

/// The pairs that a list of names and texts is to come to.
pub open spec fn text_pairs(items: Seq<(Seq<char>, Seq<char>)>) -> Seq<(Item, Item)> {
    Seq::new(items.len(), |i: int| (Item::Text(items[i].0), Item::Text(items[i].1)))
}

proof fn lemma_pairs_from_front(items: Seq<(Seq<char>, Seq<char>)>)
    requires
        items.len() > 0,
    ensures
        messages::pairs_bytes(items) == cbor::text_item(items[0].0) + (cbor::text_item(items[0].1)
            + messages::pairs_bytes(items.skip(1))),
    decreases items.len(),
{
    let first = cbor::text_item(items[0].0);
    let second = cbor::text_item(items[0].1);
    let tail = items.skip(1);
    let x = cbor::text_item(items.last().0);
    let y = cbor::text_item(items.last().1);
    if items.len() == 1 {
        assert(items.drop_last() =~= Seq::empty());
        assert(tail =~= Seq::empty());
        assert(messages::pairs_bytes(items.drop_last()) =~= Seq::empty());
        assert(messages::pairs_bytes(tail) =~= Seq::empty());
        assert(messages::pairs_bytes(items) =~= first + (second + messages::pairs_bytes(tail)));
    } else {
        let shorter = items.drop_last();
        lemma_pairs_from_front(shorter);
        assert(shorter.skip(1) =~= tail.drop_last());
        assert(tail.last() == items.last());
        assert(messages::pairs_bytes(tail) =~= messages::pairs_bytes(tail.drop_last()) + x + y);
        assert(messages::pairs_bytes(items) =~= first + (second + messages::pairs_bytes(tail)));
    }
}

/// Names and texts that were written are as many pairs, in the same order.
pub proof fn pairs_read_back(items: Seq<(Seq<char>, Seq<char>)>, rest: Seq<u8>)
    requires
        forall|i: int|
            0 <= i < items.len() ==> encode_utf8((#[trigger] items[i]).0).len() <= u64::MAX
                && encode_utf8(items[i].1).len() <= u64::MAX,
    ensures
        read_pairs(items.len(), messages::pairs_bytes(items) + rest) == Some(
            (text_pairs(items), rest),
        ),
    decreases items.len(),
{
    reveal(read_item);
    reveal(read_pairs);
    let b = messages::pairs_bytes(items) + rest;
    if items.len() == 0 {
        assert(b =~= rest);
        assert(text_pairs(items) =~= Seq::empty());
    } else {
        let tail = items.skip(1);
        lemma_pairs_from_front(items);
        let third = messages::pairs_bytes(tail) + rest;
        let second = cbor::text_item(items[0].1) + third;
        assert(b =~= cbor::text_item(items[0].0) + second);
        text_is_one_item(items[0].0, second);
        text_is_one_item(items[0].1, third);
        assert forall|i: int| 0 <= i < tail.len() implies encode_utf8((#[trigger] tail[i]).0).len()
            <= u64::MAX && encode_utf8(tail[i].1).len() <= u64::MAX by {
            assert(tail[i] == items[i + 1]);
        }
        pairs_read_back(tail, rest);
        let first = (Item::Text(items[0].0), Item::Text(items[0].1));
        assert(text_pairs(items) =~= seq![first] + text_pairs(tail));
    }
}

/// A map with one pair, whose key is a text.
pub open spec fn one_pair(key: Seq<char>, value: Item) -> Item {
    Item::Pairs(seq![(Item::Text(key), value)])
}

/// A document that is written is one well-formed CBOR item, and nothing
/// follows it: the map `{"Mergeable": {"MessagePack": m}}`, where `m` has
/// exactly one pair for each section, in order, made of the section's name and
/// its JSON text.
pub proof fn document_is_well_formed(list: Seq<sections::SectionModel>)
    requires
        list.len() <= u64::MAX,
        forall|i: int|
            0 <= i < list.len() ==> encode_utf8((#[trigger] list[i]).0).len() <= u64::MAX
                && encode_utf8(messages::blob(list[i].1)).len() <= u64::MAX,
    ensures
        read_item(messages::document(messages::items_of(list))) == Some(
            (
                one_pair(
                    "Mergeable"@,
                    one_pair(
                        "MessagePack"@,
                        Item::Pairs(
                            Seq::new(
                                list.len(),
                                |i: int|
                                    (
                                        Item::Text(list[i].0),
                                        Item::Text(messages::blob(list[i].1)),
                                    ),
                            ),
                        ),
                    ),
                ),
                Seq::<u8>::empty(),
            ),
        ),
{
    let items = messages::items_of(list);
    let pairs = messages::pairs_bytes(items);
    assert forall|i: int| 0 <= i < items.len() implies encode_utf8((#[trigger] items[i]).0).len()
        <= u64::MAX && encode_utf8(items[i].1).len() <= u64::MAX by {
        assert(items[i] == (list[i].0, messages::blob(list[i].1)));
    }
    pairs_read_back(items, Seq::empty());
    assert(pairs + Seq::<u8>::empty() =~= pairs);
    let inner = cbor::map_head(items.len()) + pairs;
    map_takes_its_pairs(items.len(), pairs);
    let sections_item = Item::Pairs(text_pairs(items));
    assert(read_item(inner) == Some((sections_item, Seq::<u8>::empty())));
    lemma_one_pair("MessagePack"@, sections_item, inner);
    let pack = cbor::map_head(1) + (cbor::text_item("MessagePack"@) + inner);
    lemma_one_pair("Mergeable"@, one_pair("MessagePack"@, sections_item), pack);
    let whole = cbor::map_head(1) + (cbor::text_item("Mergeable"@) + pack);
    assert(messages::document(items) =~= whole);
    assert(text_pairs(items) =~= Seq::new(
        list.len(),
        |i: int| (Item::Text(list[i].0), Item::Text(messages::blob(list[i].1))),
    ));
}

proof fn lemma_one_pair(key: Seq<char>, value: Item, b: Seq<u8>)
    requires
        key == "Mergeable"@ || key == "MessagePack"@,
        read_item(b) == Some((value, Seq::<u8>::empty())),
    ensures
        read_item(cbor::map_head(1) + (cbor::text_item(key) + b)) == Some(
            (one_pair(key, value), Seq::<u8>::empty()),
        ),
{
    reveal(read_item);
    reveal(read_pairs);
    reveal_strlit("Mergeable");
    reveal_strlit("MessagePack");
    is_ascii_chars_encode_utf8(key);
    let body = cbor::text_item(key) + b;
    text_is_one_item(key, b);
    map_takes_its_pairs(1, body);
    assert(b.len() > 0);
    let none = Seq::<u8>::empty();
    assert(read_pairs(0, none) == Some((Seq::<(Item, Item)>::empty(), none)));
    assert(seq![(Item::Text(key), value)] + Seq::<(Item, Item)>::empty() =~= seq![
        (Item::Text(key), value),
    ]);
    assert(read_pairs(1, body) == Some((seq![(Item::Text(key), value)], none)));
}

/// The strings of a document go by its items. The item that it starts with is
/// passed over with its argument; if it is a byte string or a text string with
/// its contents, of at most 100 MiB, these come first, unless they are empty or
/// not UTF-8. A string whose contents are cut off ends the document. Where the
/// head is cut off or has no definite argument, one byte is passed over, but a
/// head that is cut off and is not that of a string ends the document.
pub proof fn strings_go_by_items(b: Seq<u8>)
    requires
        b.len() > 0,
    ensures
        ({
            let is_string = 64 <= b[0] < 128;
            match read_head(b) {
                Some((_, n, size)) => if !is_string || n > 104_857_600 {
                    cbor::cbor_strings(b) == cbor::cbor_strings(b.skip(size))
                } else if size + n > b.len() {
                    cbor::cbor_strings(b).len() == 0
                } else {
                    let contents = b.subrange(size, size + n);
                    let after = cbor::cbor_strings(b.skip(size + n));
                    cbor::cbor_strings(b) == if n > 0 && valid_utf8(contents) {
                        seq![decode_utf8(contents)] + after
                    } else {
                        after
                    }
                },
                None => if is_string || b[0] % 32 >= 28 {
                    cbor::cbor_strings(b) == cbor::cbor_strings(b.skip(1))
                } else {
                    cbor::cbor_strings(b).len() == 0
                },
            }
        }),
{
    let none = b.skip(b.len() as int);
    assert(none =~= Seq::empty());
    assert(cbor::cbor_strings(none).len() == 0);
    assert(cbor::opens_string(b[0]) == (64 <= b[0] < 128));
    match read_head(b) {
        Some((major, n, size)) => {
            assert(size == 1 + cbor::argument_width(cbor::additional_info(b[0])));
            if size > 1 {
                lemma_unsigned(b.subrange(1, size));
            }
            assert(cbor::string_extent(b) == Some((size as nat, n)));
            if size == b.len() {
                assert(b.skip(size) =~= none);
            }
            if size + n == b.len() {
                assert(b.skip(size + n) =~= none);
            }
        },
        None => {
            if b.len() == 1 {
                assert(b.skip(1) =~= none);
            }
        },
    }
}

/// What looks like CBOR starts with the head of a map, a byte from 0xA0 to
/// 0xBF.
pub proof fn maps_start_with_their_byte(initial: u8)
    ensures
        cbor::major_type(initial) == 5 <==> 160 <= initial <= 191,
{
}

/// The JSON text of a section has the number of its entries, as a 32-bit number
/// and without needless zeros, and their JSON text: nothing else, and nothing in
/// between.
pub proof fn section_text_has_count_and_entries(entries: sections::EntryList)
    ensures
        exists|count: Seq<char>|
            {
                &&& messages::blob(entries) == #[trigger] ("{\"group_count\":"@ + count
                    + ",\"entries\":"@ + json::entries_json(entries) + "}"@)
                &&& count.len() > 0
                &&& forall|i: int|
                    0 <= i < count.len() ==> 48 <= (#[trigger] count[i]) as int <= 57
                &&& count.len() > 1 ==> count[0] != '0'
                &&& entries.len() <= u64::MAX ==> text::digits_value(count) == entries.len()
                    % 0x1_0000_0000
            },
{
    let n = entries.len() as u32 as nat;
    let count = text::decimal(n);
    text::decimal_reads_back(n);
    text::no_needless_zeros(n);
    if entries.len() <= u64::MAX {
        let len = entries.len() as u64;
        assert(len as u32 == len % 0x1_0000_0000) by (bit_vector);
    }
    assert forall|i: int| 0 <= i < count.len() implies 48 <= (#[trigger] count[i]) as int <= 57 by {
        assert('0' <= count[i] <= '9');
    }
    assert(messages::blob(entries) == "{\"group_count\":"@ + count + ",\"entries\":"@
        + json::entries_json(entries) + "}"@);
}

/// A message file holds one document, compressed at level 8 with the
/// dictionary, or without one where the dictionary is no good. The document is
/// that of [`document_is_well_formed`].
pub proof fn file_holds_one_document(dictionary: Seq<u8>, list: Seq<sections::SectionModel>)
    ensures
        messages::file_of(dictionary, list) == if compression::dictionary_loads(dictionary) {
            compression::dictionary_encoding(
                8,
                dictionary,
                messages::document(messages::items_of(list)),
            )
        } else {
            compression::plain_encoding(8, messages::document(messages::items_of(list)))
        },
{
}

} // verus!
