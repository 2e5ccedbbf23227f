//! How messages are read out of a CBOR document.
//!
//! The document is not taken apart by its structure: all its strings are
//! collected, and a section is a string followed by one that looks like the
//! JSON text of a section.
use crate::cbor;
use crate::json;
use crate::language;
use crate::messages;
use crate::sections;
use crate::sections::Section;
use crate::text;
use vstd::prelude::*;
use vstd::string::*;
use vstd::utf8::*;

verus! {

/// Whether a string looks like the JSON text of a section.
pub open spec fn looks_like_blob(s: Seq<char>) -> bool {
    &&& "{"@.is_prefix_of(s)
    &&& text::contains_text(s, "\"entries\""@)
    &&& text::contains_text(s, "\"contents\""@) || text::contains_text(s, "\"group_count\""@)
}

/// Whether a string is taken for the JSON text of a section without a name.
pub open spec fn looks_like_unnamed_blob(s: Seq<char>) -> bool {
    text::contains_text(s, "\"entries\":"@) && text::contains_text(s, "\"contents\":"@)
}

/// A JSON text that is taken for a section, with its name if it has one.
pub type BlobModel = (Option<Seq<char>>, Seq<char>);

/// The sections among the strings of a document: a string that does not start
/// like a JSON object names the one that follows, if that looks like a
/// section. A string that looks like a section without having such a name is
/// one too.
pub open spec fn pairing(strings: Seq<Seq<char>>) -> Seq<BlobModel>
    decreases strings.len(),
{
    if strings.len() == 0 {
        Seq::empty()
    } else if strings.len() >= 2 && !"{"@.is_prefix_of(strings[0]) && looks_like_blob(strings[1]) {
        seq![(Some(strings[0]), strings[1])] + pairing(strings.skip(2))
    } else if looks_like_unnamed_blob(strings[0]) {
        seq![(None::<Seq<char>>, strings[0])] + pairing(strings.skip(1))
    } else {
        pairing(strings.skip(1))
    }
}

/// The names that sections have.
pub open spec fn blob_names(blobs: Seq<BlobModel>) -> Seq<Seq<char>>
    decreases blobs.len(),
{
    if blobs.len() == 0 {
        Seq::empty()
    } else {
        match blobs.last().0 {
            Some(name) => blob_names(blobs.drop_last()).push(name),
            None => blob_names(blobs.drop_last()),
        }
    }
}

/// What the section at `index` is called: by its name, or by its number.
pub open spec fn section_name(blobs: Seq<BlobModel>, index: int) -> Seq<char> {
    match blobs[index].0 {
        Some(name) => name,
        None => "section_"@ + text::decimal(index as nat),
    }
}

/// The sections in the first `upto` JSON texts; a text without usable entries
/// is passed over.
pub open spec fn sections_upto(blobs: Seq<BlobModel>, upto: int) -> Seq<sections::SectionModel>
    decreases upto,
{
    if upto <= 0 {
        Seq::empty()
    } else {
        let before = sections_upto(blobs, upto - 1);
        match json::blob_entries(blobs[upto - 1].1) {
            Some(entries) => before.push((section_name(blobs, upto - 1), entries)),
            None => before,
        }
    }
}

/// The numbers of those among the first `upto` JSON texts that are passed over.
pub open spec fn skipped_upto(blobs: Seq<BlobModel>, upto: int) -> Seq<int>
    decreases upto,
{
    if upto <= 0 {
        Seq::empty()
    } else if json::blob_entries(blobs[upto - 1].1) is None {
        skipped_upto(blobs, upto - 1).push(upto - 1)
    } else {
        skipped_upto(blobs, upto - 1)
    }
}

/// The numbers of the JSON texts in a document that are passed over.
pub open spec fn document_skipped(data: Seq<u8>) -> Seq<int> {
    let blobs = pairing(cbor::cbor_strings(data));
    skipped_upto(blobs, blobs.len() as int)
}

/// The sections that are found in a document.
pub open spec fn document_sections(data: Seq<u8>) -> Seq<sections::SectionModel> {
    let blobs = pairing(cbor::cbor_strings(data));
    sections_upto(blobs, blobs.len() as int)
}

/// The language that the section names in a document tell.
pub open spec fn document_language(data: Seq<u8>) -> Seq<char> {
    language::names_language(blob_names(pairing(cbor::cbor_strings(data))))
}

/// Whether sections that were written can be read back: the names do not
/// start like a JSON object, no JSON text is too long a string, and the JSON
/// texts parse (one that is nested too deeply does not).
pub open spec fn readable(list: Seq<sections::SectionModel>) -> bool {
    forall|i: int|
        0 <= i < list.len() ==> {
            &&& !"{"@.is_prefix_of((#[trigger] list[i]).0)
            &&& encode_utf8(messages::blob(list[i].1)).len() <= cbor::MAX_STRING_LEN
            &&& json::parsed_json(messages::blob(list[i].1)) is Some
        }
}

/// Names and JSON texts, alternating.
spec fn alternating(items: Seq<(Seq<char>, Seq<char>)>) -> Seq<Seq<char>> {
    Seq::new(
        2 * items.len(),
        |i: int|
            if i % 2 == 0 {
                items[i / 2].0
            } else {
                items[i / 2].1
            },
    )
}

/// Pairs of strings in CBOR yield these strings.
proof fn lemma_pairs_read_back(items: Seq<(Seq<char>, Seq<char>)>, rest: Seq<u8>)
    requires
        forall|i: int|
            0 <= i < items.len() ==> {
                &&& (#[trigger] items[i]).0.len() > 0
                &&& items[i].1.len() > 0
                &&& encode_utf8(items[i].0).len() <= cbor::MAX_STRING_LEN
                &&& encode_utf8(items[i].1).len() <= cbor::MAX_STRING_LEN
            },
    ensures
        cbor::cbor_strings(messages::pairs_bytes(items) + rest) == alternating(items)
            + cbor::cbor_strings(rest),
    decreases items.len(),
{
    if items.len() == 0 {
        assert(messages::pairs_bytes(items) + rest =~= rest);
        assert(alternating(items) + cbor::cbor_strings(rest) =~= cbor::cbor_strings(rest));
    } else {
        let front = items.drop_last();
        let (name, value) = items.last();
        assert(items.last() == items[items.len() - 1]);
        let tail = cbor::text_item(name) + (cbor::text_item(value) + rest);
        assert(messages::pairs_bytes(items) + rest =~= messages::pairs_bytes(front) + tail);
        assert forall|i: int| 0 <= i < front.len() implies {
            &&& (#[trigger] front[i]).0.len() > 0
            &&& front[i].1.len() > 0
            &&& encode_utf8(front[i].0).len() <= cbor::MAX_STRING_LEN
            &&& encode_utf8(front[i].1).len() <= cbor::MAX_STRING_LEN
        } by {
            assert(front[i] == items[i]);
        }
        lemma_pairs_read_back(front, tail);
        cbor::text_item_reads_back(name, cbor::text_item(value) + rest);
        cbor::text_item_reads_back(value, rest);
        let strings = cbor::cbor_strings(rest);
        assert(alternating(front) + (seq![name] + (seq![value] + strings)) =~= alternating(items)
            + strings);
    }
}

/// Names with their JSON texts, as they are found.
spec fn named_blobs(items: Seq<(Seq<char>, Seq<char>)>) -> Seq<BlobModel> {
    items.map_values(|p: (Seq<char>, Seq<char>)| (Some(p.0), p.1))
}

/// Alternating names and JSON texts pair up again.
proof fn lemma_alternating_pairs(items: Seq<(Seq<char>, Seq<char>)>)
    requires
        forall|i: int|
            0 <= i < items.len() ==> !"{"@.is_prefix_of((#[trigger] items[i]).0) && looks_like_blob(
                items[i].1,
            ),
    ensures
        pairing(alternating(items)) == named_blobs(items),
    decreases items.len(),
{
    let strings = alternating(items);
    if items.len() == 0 {
        assert(named_blobs(items) =~= Seq::empty());
    } else {
        let tail = items.skip(1);
        assert forall|i: int| 0 <= i < tail.len() implies !"{"@.is_prefix_of(
            (#[trigger] tail[i]).0,
        ) && looks_like_blob(tail[i].1) by {
            assert(tail[i] == items[i + 1]);
        }
        lemma_alternating_pairs(tail);
        assert(strings[0] == items[0].0);
        assert(strings[1] == items[0].1);
        assert(strings.skip(2) =~= alternating(tail));
        assert(named_blobs(items) =~= seq![(Some(items[0].0), items[0].1)] + named_blobs(tail));
    }
}

/// What is written as a section looks like one.
proof fn lemma_envelope_looks_like_blob(group_count: nat, entries: Seq<char>)
    ensures
        looks_like_blob(json::envelope(group_count, entries)),
{
    reveal_strlit("{");
    reveal_strlit("\"entries\"");
    reveal_strlit("\"group_count\"");
    reveal_strlit("{\"group_count\":");
    reveal_strlit(",\"entries\":");
    let s = json::envelope(group_count, entries);
    let number = text::decimal(group_count);
    assert(s[0] == '{');
    assert("{"@ =~= s.subrange(0, 1));
    assert(s.subrange(1, 1 + "\"group_count\""@.len() as int) =~= "\"group_count\""@);
    let at = ("{\"group_count\":"@.len() + number.len() + 1) as int;
    assert(s.subrange(at, at + "\"entries\""@.len() as int) =~= "\"entries\""@);
}

proof fn lemma_encoded_len(s: Seq<char>)
    ensures
        encode_utf8(s).len() <= 4 * s.len(),
    decreases s.len(),
{
    if s.len() > 0 {
        lemma_encoded_len(s.drop_first());
    }
}

proof fn lemma_no_fault(list: Seq<sections::SectionModel>, from: int, i: int)
    requires
        0 <= from <= i < list.len(),
        messages::first_fault(list, from) is None,
    ensures
        messages::name_fault(list[i].0) is None,
    decreases list.len() - from,
{
    if from < i {
        lemma_no_fault(list, from + 1, i);
    }
}

/// The sections that are found in a document are the ones that were written,
/// in the same order, if these can be read back. That the entries read back
/// out of a JSON text that parses is what is known of each JSON text once it
/// is written.
pub proof fn document_reads_back(list: Seq<sections::SectionModel>)
    requires
        messages::first_fault(list, 0) is None,
        list.len() <= usize::MAX,
        readable(list),
        forall|i: int|
            0 <= i < list.len() ==> json::parsed_json(
                messages::blob(#[trigger] list[i].1),
            ) is Some ==> json::blob_entries(messages::blob(list[i].1)) == Some(list[i].1),
    ensures
        document_sections(messages::document(messages::items_of(list))) == list,
{
    let items = messages::items_of(list);
    let data = messages::document(items);
    assert forall|i: int| 0 <= i < items.len() implies {
        &&& (#[trigger] items[i]).0.len() > 0
        &&& items[i].1.len() > 0
        &&& encode_utf8(items[i].0).len() <= cbor::MAX_STRING_LEN
        &&& encode_utf8(items[i].1).len() <= cbor::MAX_STRING_LEN
        &&& !"{"@.is_prefix_of(items[i].0)
        &&& looks_like_blob(items[i].1)
    } by {
        assert(items[i] == (list[i].0, messages::blob(list[i].1)));
        lemma_no_fault(list, 0, i);
        lemma_encoded_len(list[i].0);
        let j = json::entries_json(list[i].1);
        lemma_envelope_looks_like_blob(list[i].1.len() as u32 as nat, j);
        reveal_strlit("{");
    }
    reveal_strlit("Mergeable");
    reveal_strlit("MessagePack");
    reveal_strlit("{");
    lemma_encoded_len("Mergeable"@);
    lemma_encoded_len("MessagePack"@);
    let pairs = messages::pairs_bytes(items);
    assert(pairs + Seq::<u8>::empty() =~= pairs);
    lemma_pairs_read_back(items, Seq::empty());
    let strings = alternating(items);
    assert(cbor::cbor_strings(pairs) =~= strings);
    let from_count = cbor::map_head(items.len()) + pairs;
    cbor::map_head_is_passed_over(items.len(), pairs);
    let from_pack = cbor::text_item("MessagePack"@) + from_count;
    cbor::text_item_reads_back("MessagePack"@, from_count);
    let from_inner = cbor::map_head(1) + from_pack;
    cbor::map_head_is_passed_over(1, from_pack);
    let from_merge = cbor::text_item("Mergeable"@) + from_inner;
    cbor::text_item_reads_back("Mergeable"@, from_inner);
    cbor::map_head_is_passed_over(1, from_merge);
    assert(data =~= cbor::map_head(1) + from_merge);
    let all = seq!["Mergeable"@] + (seq!["MessagePack"@] + strings);
    assert(cbor::cbor_strings(data) == all);
    lemma_alternating_pairs(items);
    lemma_preamble_is_passed_over(strings);
    let blobs = named_blobs(items);
    assert(pairing(all) == blobs);
    lemma_sections_upto(list, blobs, blobs.len() as int);
    assert(list.take(list.len() as int) =~= list);
}

/// A text without quotation marks has no quoted word in it.
proof fn lemma_without_quote(s: Seq<char>)
    requires
        forall|i: int| 0 <= i < s.len() ==> (#[trigger] s[i]) != '"',
    ensures
        !text::contains_text(s, "\"entries\":"@),
{
    reveal_strlit("\"entries\":");
    let part = "\"entries\":"@;
    if text::contains_text(s, part) {
        let i = choose|i: int|
            0 <= i <= s.len() - part.len() && #[trigger] s.subrange(i, i + part.len()) == part;
        assert(s.subrange(i, i + part.len())[0] == part[0]);
        assert(s[i] == '"');
    }
}

/// The two keys around the sections are no part of the pairs.
proof fn lemma_preamble_is_passed_over(strings: Seq<Seq<char>>)
    requires
        strings.len() > 0 ==> !"{"@.is_prefix_of(strings[0]),
    ensures
        pairing(seq!["Mergeable"@] + (seq!["MessagePack"@] + strings)) == pairing(strings),
{
    reveal_strlit("Mergeable");
    reveal_strlit("MessagePack");
    reveal_strlit("{");
    reveal_strlit("\"entries\"");
    let inner = seq!["MessagePack"@] + strings;
    let all = seq!["Mergeable"@] + inner;
    assert(all.skip(1) =~= inner);
    assert(inner.skip(1) =~= strings);
    assert(all[1] == "MessagePack"@);
    assert("MessagePack"@[0] == 'M');
    assert(!"{"@.is_prefix_of("MessagePack"@)) by {
        assert("{"@[0] == '{');
        if "{"@.is_prefix_of("MessagePack"@) {
            assert("MessagePack"@.subrange(0, 1)[0] == "{"@[0]);
        }
    }
    lemma_without_quote("Mergeable"@);
    lemma_without_quote("MessagePack"@);
    if strings.len() > 0 {
        assert(inner[1] == strings[0]);
    }
    assert(!looks_like_unnamed_blob("MessagePack"@));
    assert(pairing(inner) == pairing(strings));
    assert(all[0] == "Mergeable"@);
    assert(!looks_like_unnamed_blob("Mergeable"@));
}

proof fn lemma_sections_upto(
    list: Seq<sections::SectionModel>,
    blobs: Seq<BlobModel>,
    upto: int,
)
    requires
        0 <= upto <= list.len(),
        blobs.len() == list.len(),
        forall|i: int|
            0 <= i < list.len() ==> (#[trigger] blobs[i]).0 == Some(list[i].0)
                && json::blob_entries(blobs[i].1) == Some(list[i].1),
    ensures
        sections_upto(blobs, upto) == list.take(upto),
    decreases upto,
{
    if upto > 0 {
        lemma_sections_upto(list, blobs, upto - 1);
        assert(blobs[upto - 1].0 == Some(list[upto - 1].0));
        assert(list.take(upto) =~= list.take(upto - 1).push(list[upto - 1]));
    } else {
        assert(list.take(upto) =~= Seq::empty());
    }
}

/// The messages in a CBOR document, as far as they can be told from its
/// strings.
pub struct CborMessages {
    /// Language code out of the section names, or `unknown`.
    pub language: String,
    /// The sections, in the order of the document.
    pub sections: Vec<Section>,
    /// The numbers of the JSON texts that looked like sections and have no
    /// usable entries.
    pub skipped: Vec<usize>,
}

/// What a list of numbers holds.
pub open spec fn number_list(numbers: Seq<usize>) -> Seq<int> {
    numbers.map_values(|n: usize| n as int)
}

/// A JSON text that is taken for a section, with its name if it has one.
struct Blob {
    name: Option<String>,
    text: String,
}

impl Blob {
    /// Name and text.
    spec fn view(&self) -> BlobModel {
        (
            match self.name {
                Some(name) => Some(name@),
                None => None,
            },
            self.text@,
        )
    }
}

spec fn blob_list(list: Seq<Blob>) -> Seq<BlobModel> {
    list.map_values(|b: Blob| b@)
}

fn is_blob(s: &str) -> (r: bool)
    ensures
        r == looks_like_blob(s@),
{
    proof {
        reveal_strlit("{");
        reveal_strlit("\"entries\"");
        reveal_strlit("\"contents\"");
        reveal_strlit("\"group_count\"");
    }
    text::starts_with_ascii(s, "{") && text::contains_ascii(s, "\"entries\"") && (
    text::contains_ascii(s, "\"contents\"") || text::contains_ascii(s, "\"group_count\""))
}

fn is_unnamed_blob(s: &str) -> (r: bool)
    ensures
        r == looks_like_unnamed_blob(s@),
{
    proof {
        reveal_strlit("\"entries\":");
        reveal_strlit("\"contents\":");
    }
    text::contains_ascii(s, "\"entries\":") && text::contains_ascii(s, "\"contents\":")
}

fn opens_object(s: &str) -> (r: bool)
    ensures
        r == "{"@.is_prefix_of(s@),
{
    proof {
        reveal_strlit("{");
    }
    text::starts_with_ascii(s, "{")
}

/// Finds the JSON texts among strings, with their names.
fn pair_strings(strings: &Vec<String>) -> (r: Vec<Blob>)
    ensures
        blob_list(r@) == pairing(text::texts(strings@)),
{
    let ghost all = text::texts(strings@);
    let mut blobs: Vec<Blob> = Vec::new();
    let mut i: usize = 0;
    assert(all.skip(0) =~= all);
    assert(blob_list(blobs@) + pairing(all) =~= pairing(all));
    while i < strings.len()
        invariant
            i <= strings@.len(),
            all == text::texts(strings@),
            blob_list(blobs@) + pairing(all.skip(i as int)) == pairing(all),
        decreases strings@.len() - i,
    {
        let ghost here = all.skip(i as int);
        let ghost before = blobs@;
        assert(here[0] == all[i as int]);
        assert(here.len() >= 2 ==> here[1] == all[i + 1]);
        if strings.len() - i >= 2 && !opens_object(strings[i].as_str()) && is_blob(
            strings[i + 1].as_str(),
        ) {
            let blob = Blob { name: Some(strings[i].clone()), text: strings[i + 1].clone() };
            blobs.push(blob);
            i = i + 2;
            proof {
                let rest = pairing(all.skip(i as int));
                assert(here.skip(2) =~= all.skip(i as int));
                assert(blob_list(blobs@) + rest =~= blob_list(before) + (seq![blob@] + rest));
            }
        } else {
            let unnamed: bool = is_unnamed_blob(strings[i].as_str());
            if unnamed {
                blobs.push(Blob { name: None, text: strings[i].clone() });
            }
            i = i + 1;
            proof {
                let rest = pairing(all.skip(i as int));
                assert(here.skip(1) =~= all.skip(i as int));
                if unnamed {
                    assert(blob_list(blobs@) + rest =~= blob_list(before) + (
                    seq![blobs@.last()@] + rest));
                }
            }
        }
    }
    proof {
        assert(all.skip(i as int) =~= Seq::empty());
        assert(blob_list(blobs@) + Seq::<BlobModel>::empty() =~= blob_list(blobs@));
    }
    blobs
}

/// The names that sections have.
fn names_of(blobs: &Vec<Blob>) -> (r: Vec<String>)
    ensures
        text::texts(r@) == blob_names(blob_list(blobs@)),
{
    let ghost all = blob_list(blobs@);
    let mut names: Vec<String> = Vec::new();
    let mut i: usize = 0;
    assert(all.take(0) =~= Seq::empty());
    assert(text::texts(names@) =~= Seq::empty());
    while i < blobs.len()
        invariant
            i <= blobs@.len(),
            all == blob_list(blobs@),
            text::texts(names@) == blob_names(all.take(i as int)),
        decreases blobs@.len() - i,
    {
        let ghost before = names@;
        assert(all.take(i + 1).drop_last() =~= all.take(i as int));
        assert(all.take(i + 1).last() == blobs@[i as int]@);
        match &blobs[i].name {
            Some(name) => {
                let name: String = name.clone();
                names.push(name);
                proof {
                    text::lemma_texts_push(before, name);
                }
            },
            None => {},
        }
        i = i + 1;
    }
    assert(all.take(i as int) =~= all);
    names
}

/// What the section at `index` is called.
fn name_at(blobs: &Vec<Blob>, index: usize) -> (r: String)
    requires
        index < blobs@.len(),
    ensures
        r@ == section_name(blob_list(blobs@), index as int),
{
    match &blobs[index].name {
        Some(name) => name.clone(),
        None => {
            let mut name: String = String::from_str("section_");
            text::append_decimal(&mut name, index as u64);
            name
        },
    }
}

/// Reads the messages out of a CBOR document.
///
/// All strings of the document are collected. A string that does not start
/// like a JSON object names the next one, if that looks like a section: it
/// starts like an object and contains `"entries"`, and `"contents"` or
/// `"group_count"`. A string with `"entries":` and `"contents":` counts as a
/// section without a name too, and is called by its number. A text without
/// usable entries is passed over. The language is that of the last section
/// name that tells one.
pub fn parse_cbor(data: &[u8]) -> (r: CborMessages)
    ensures
        r.language@ == document_language(data@),
        sections::section_list(r.sections@) == document_sections(data@),
        number_list(r.skipped@) == document_skipped(data@),
{
    let strings = cbor::extract_cbor_strings(data);
    let blobs = pair_strings(&strings);
    let ghost all = blob_list(blobs@);
    let language = language::sections_language(&names_of(&blobs));
    let mut found: Vec<Section> = Vec::new();
    let mut skipped: Vec<usize> = Vec::new();
    let mut i: usize = 0;
    assert(sections::section_list(found@) =~= Seq::empty());
    assert(number_list(skipped@) =~= Seq::empty());
    while i < blobs.len()
        invariant
            i <= blobs@.len(),
            all == blob_list(blobs@),
            sections::section_list(found@) == sections_upto(all, i as int),
            number_list(skipped@) == skipped_upto(all, i as int),
        decreases blobs@.len() - i,
    {
        assert(all[i as int] == blobs@[i as int]@);
        match json::unwrap_entries(blobs[i].text.as_str()) {
            Some(entries) => {
                let ghost before = found@;
                let section = Section { name: name_at(&blobs, i), entries };
                found.push(section);
                assert(sections::section_list(found@) =~= sections::section_list(before).push(
                    section@,
                ));
            },
            None => {
                let ghost before = skipped@;
                skipped.push(i);
                assert(number_list(skipped@) =~= number_list(before).push(i as int));
            },
        }
        i = i + 1;
    }
    CborMessages { language, sections: found, skipped }
}

/// Whether a text starts with a brace.
pub open spec fn starts_with_brace(s: Seq<char>) -> bool {
    s.len() > 0 && s[0] == '{'
}

/// Whether a text is taken for a section, if it has a name.
pub open spec fn is_section_text(s: Seq<char>) -> bool {
    &&& starts_with_brace(s)
    &&& text::contains_text(s, "\"entries\""@)
    &&& text::contains_text(s, "\"contents\""@) || text::contains_text(s, "\"group_count\""@)
}

proof fn lemma_brace(s: Seq<char>)
    ensures
        "{"@.is_prefix_of(s) == starts_with_brace(s),
{
    reveal_strlit("{");
    if s.len() > 0 {
        let first = s.subrange(0, 1);
        assert(first[0] == s[0]);
        if s[0] == '{' {
            assert(first =~= "{"@);
        }
        if first == "{"@ {
            assert(first[0] == "{"@[0]);
        }
    }
}

/// A string that does not start with a brace names the string that follows it,
/// if that is a section text. Both are used up by that.
pub proof fn names_stand_before_their_texts(
    name: Seq<char>,
    text: Seq<char>,
    rest: Seq<Seq<char>>,
)
    requires
        !starts_with_brace(name),
        is_section_text(text),
    ensures
        pairing(seq![name, text] + rest) == seq![(Some(name), text)] + pairing(rest),
{
    let strings = seq![name, text] + rest;
    lemma_brace(name);
    lemma_brace(text);
    assert(strings.skip(2) =~= rest);
    assert(strings[0] == name && strings[1] == text);
}

/// Every other string is a section without a name, if it has `"entries":` and
/// `"contents":` in it, and is passed over otherwise.
pub proof fn other_strings_stand_alone(s: Seq<char>, rest: Seq<Seq<char>>)
    requires
        starts_with_brace(s) || rest.len() == 0 || !is_section_text(rest[0]),
    ensures
        pairing(seq![s] + rest) == if text::contains_text(s, "\"entries\":"@)
            && text::contains_text(s, "\"contents\":"@) {
            seq![(None::<Seq<char>>, s)] + pairing(rest)
        } else {
            pairing(rest)
        },
{
    let strings = seq![s] + rest;
    lemma_brace(s);
    assert(strings.skip(1) =~= rest);
    assert(strings[0] == s);
    if rest.len() > 0 {
        lemma_brace(rest[0]);
        assert(strings[1] == rest[0]);
    }
}

/// How many of the first `upto` texts have usable entries.
pub open spec fn usable_count(blobs: Seq<BlobModel>, upto: int) -> int
    decreases upto,
{
    if upto <= 0 {
        0
    } else {
        usable_count(blobs, upto - 1) + if json::blob_entries(blobs[upto - 1].1) is Some {
            1int
        } else {
            0
        }
    }
}

/// The sections of a document are its texts with usable entries, all of them
/// and in their order: each under its own name, or else as `section_` and its
/// number among the texts, with its own entries. The other texts are the
/// skipped ones.
pub proof fn usable_texts_are_the_sections(blobs: Seq<BlobModel>, upto: int, index: int)
    requires
        0 <= index < upto <= blobs.len(),
    ensures
        sections_upto(blobs, upto).len() == usable_count(blobs, upto),
        skipped_upto(blobs, upto).len() == upto - usable_count(blobs, upto),
        0 <= usable_count(blobs, index) <= index,
        match json::blob_entries(blobs[index].1) {
            Some(entries) => {
                let k = usable_count(blobs, index);
                &&& k < sections_upto(blobs, upto).len()
                &&& sections_upto(blobs, upto)[k].1 == entries
                &&& match blobs[index].0 {
                    Some(name) => sections_upto(blobs, upto)[k].0 == name,
                    None => sections_upto(blobs, upto)[k].0 == "section_"@ + text::decimal(
                        index as nat,
                    ),
                }
            },
            None => {
                let k = index - usable_count(blobs, index);
                k < skipped_upto(blobs, upto).len() && skipped_upto(blobs, upto)[k] == index
            },
        },
    decreases upto,
{
    lemma_usable_count(blobs, index);
    lemma_usable_count(blobs, upto - 1);
    if index < upto - 1 {
        usable_texts_are_the_sections(blobs, upto - 1, index);
    } else if upto > 1 {
        usable_texts_are_the_sections(blobs, upto - 1, 0);
    } else {
        assert(sections_upto(blobs, 0).len() == 0);
        assert(skipped_upto(blobs, 0).len() == 0);
        assert(usable_count(blobs, 0) == 0);
    }
}

proof fn lemma_usable_count(blobs: Seq<BlobModel>, upto: int)
    requires
        0 <= upto,
    ensures
        0 <= usable_count(blobs, upto) <= upto,
    decreases upto,
{
    if upto > 0 {
        lemma_usable_count(blobs, upto - 1);
    }
}

/// The language of a document is that of the last section name with a language
/// code, and `unknown` where no section name has one. Sections without a name
/// do not count.
pub proof fn last_named_code_decides(blobs: Seq<BlobModel>, index: int)
    requires
        0 <= index < blobs.len(),
        blobs[index].0 is Some,
        language::path_language(blobs[index].0->0) is Some,
        forall|j: int|
            index < j < blobs.len() ==> ((#[trigger] blobs[j]).0 matches Some(name)
                ==> language::path_language(name) is None),
    ensures
        language::names_language(blob_names(blobs)) == language::path_language(
            blobs[index].0->0,
        )->0,
    decreases blobs.len(),
{
    let before = blobs.drop_last();
    let n = blobs.len() - 1;
    assert(blobs.last() == blobs[n]);
    if index < n {
        assert(before[index] == blobs[index]);
        assert forall|j: int| index < j < before.len() implies (
        (#[trigger] before[j]).0 matches Some(name) ==> language::path_language(name) is None) by {
            assert(before[j] == blobs[j]);
        }
        last_named_code_decides(before, index);
        if let Some(name) = blobs[n].0 {
            assert(blob_names(blobs).drop_last() =~= blob_names(before));
        }
    }
}

/// A document without a language code in any section name has the language
/// `unknown`.
pub proof fn unknown_without_named_codes(blobs: Seq<BlobModel>)
    requires
        forall|j: int|
            0 <= j < blobs.len() ==> ((#[trigger] blobs[j]).0 matches Some(name)
                ==> language::path_language(name) is None),
    ensures
        language::names_language(blob_names(blobs)) == "unknown"@,
    decreases blobs.len(),
{
    if blobs.len() > 0 {
        let before = blobs.drop_last();
        let n = blobs.len() - 1;
        assert(blobs.last() == blobs[n]);
        assert forall|j: int| 0 <= j < before.len() implies ((#[trigger] before[j]).0 matches Some(
            name,
        ) ==> language::path_language(name) is None) by {
            assert(before[j] == blobs[j]);
        }
        unknown_without_named_codes(before);
        if let Some(name) = blobs[n].0 {
            assert(blob_names(blobs).drop_last() =~= blob_names(before));
        }
    }
}

/// What is found in a document is what its strings pair up to.
pub proof fn documents_are_read_by_their_strings(data: Seq<u8>)
    ensures
        ({
            let blobs = pairing(cbor::cbor_strings(data));
            &&& document_sections(data) == sections_upto(blobs, blobs.len() as int)
            &&& document_skipped(data) == skipped_upto(blobs, blobs.len() as int)
            &&& document_language(data) == language::names_language(blob_names(blobs))
        }),
{
}

/// No strings are no sections.
pub proof fn nothing_is_found_in_nothing()
    ensures
        pairing(Seq::empty()).len() == 0,
        cbor::cbor_strings(Seq::empty()).len() == 0,
{
}

/// What a list of numbers holds are its numbers, each in its place.
pub proof fn lists_hold_their_numbers(numbers: Seq<usize>)
    ensures
        number_list(numbers).len() == numbers.len(),
        forall|i: int| 0 <= i < numbers.len() ==> #[trigger] number_list(numbers)[i] == numbers[i],
{
}

} // verus!
