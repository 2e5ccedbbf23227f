//! The messages of one file, and how they are written.
//!
//! What is written is a CBOR map with the one key `Mergeable`, whose value is
//! a map with the one key `MessagePack`, whose value maps each section name to
//! the JSON text of the section. The document is then zstd-compressed.
use crate::cbor;
use crate::compression;
use crate::error::MessageError;
use crate::error::NameFault;
use crate::error::Refusal;
use crate::json;
use crate::reading;
use crate::sections;
use crate::sections::Section;
use crate::sections::Sections;
use crate::text;
use vstd::prelude::*;
use vstd::string::*;
use vstd::utf8::*;

verus! {

/// The messages of one file.
pub struct Output {
    /// Language code, such as `USen`, out of a file name.
    pub language: String,
    /// Number of sections.
    pub entry_count: usize,
    /// The sections, in the order of their names.
    pub entries: Sections,
    /// The format that the messages were read from, if known.
    pub format: Option<String>,
}

impl Output {
    /// The sections are in order, and as many as stated.
    pub open spec fn wf(self) -> bool {
        self.entries.wf() && self.entry_count == self.entries@.len()
    }
}

/// Whether a character is a control character (Unicode category Cc).
pub open spec fn is_control(c: char) -> bool {
    c <= '\u{1f}' || '\u{7f}' <= c <= '\u{9f}'
}

/// What is wrong with a section name, if anything.
pub open spec fn name_fault(name: Seq<char>) -> Option<NameFault> {
    if name.len() == 0 {
        Some(NameFault::Empty)
    } else if name.len() > 512 {
        Some(NameFault::TooLong)
    } else if text::contains_text(name, ".."@) {
        Some(NameFault::ParentPath)
    } else if exists|i: int| 0 <= i < name.len() && is_control(#[trigger] name[i]) {
        Some(NameFault::ControlCharacter)
    } else {
        None
    }
}

/// The first fault in the names of the sections from `from` on.
pub open spec fn first_fault(list: Seq<sections::SectionModel>, from: int) -> Option<Refusal>
    decreases list.len() - from,
{
    if from >= list.len() {
        None
    } else {
        match name_fault(list[from].0) {
            Some(fault) => Some(Refusal::SectionName { index: from as usize, fault }),
            None => first_fault(list, from + 1),
        }
    }
}

/// Why messages are not written, if they are not: the first of the checks on
/// the language, the sections, their number and their names that fails.
pub open spec fn refusal(
    language: Seq<char>,
    entry_count: nat,
    list: Seq<sections::SectionModel>,
) -> Option<Refusal> {
    if language.len() == 0 {
        Some(Refusal::EmptyLanguage)
    } else if language.len() > 64 {
        Some(Refusal::LongLanguage)
    } else if list.len() == 0 {
        Some(Refusal::NoEntries)
    } else if entry_count != list.len() {
        Some(Refusal::CountMismatch)
    } else {
        first_fault(list, 0)
    }
}

/// The JSON text that a section is written as.
pub open spec fn blob(entries: sections::EntryList) -> Seq<char> {
    json::envelope(entries.len() as u32 as nat, json::entries_json(entries))
}

/// The names of the sections with their JSON texts.
pub open spec fn items_of(list: Seq<sections::SectionModel>) -> Seq<(Seq<char>, Seq<char>)> {
    list.map_values(|s: sections::SectionModel| (s.0, blob(s.1)))
}

/// Pairs of strings in CBOR, one after the other.
pub open spec fn pairs_bytes(items: Seq<(Seq<char>, Seq<char>)>) -> Seq<u8>
    decreases items.len(),
{
    if items.len() == 0 {
        Seq::empty()
    } else {
        pairs_bytes(items.drop_last()) + cbor::text_item(items.last().0) + cbor::text_item(
            items.last().1,
        )
    }
}

/// The CBOR document that holds the sections.
pub open spec fn document(items: Seq<(Seq<char>, Seq<char>)>) -> Seq<u8> {
    cbor::map_head(1) + cbor::text_item("Mergeable"@) + cbor::map_head(1) + cbor::text_item(
        "MessagePack"@,
    ) + cbor::map_head(items.len()) + pairs_bytes(items)
}

/// The message file that sections are written as.
pub open spec fn file_of(dictionary: Seq<u8>, list: Seq<sections::SectionModel>) -> Seq<u8> {
    compression::compressed(dictionary, document(items_of(list)))
}

/// What a list of pairs of strings holds.
pub open spec fn pair_texts(items: Seq<(String, String)>) -> Seq<(Seq<char>, Seq<char>)> {
    items.map_values(|p: (String, String)| (p.0@, p.1@))
}

/// Checks a section name.
fn check_name(name: &str) -> (r: Option<NameFault>)
    ensures
        r == name_fault(name@),
{
    let chars = text::chars_of(name);
    if chars.len() == 0 {
        return Some(NameFault::Empty);
    }
    if chars.len() > 512 {
        return Some(NameFault::TooLong);
    }
    proof {
        reveal_strlit("..");
    }
    if text::contains_ascii(name, "..") {
        return Some(NameFault::ParentPath);
    }
    let mut i: usize = 0;
    while i < chars.len()
        invariant
            i <= chars@.len(),
            chars@ == name@,
            0 < name@.len() <= 512,
            !text::contains_text(name@, ".."@),
            forall|j: int| 0 <= j < i ==> !is_control(#[trigger] name@[j]),
        decreases chars@.len() - i,
    {
        let c = chars[i];
        if c <= '\u{1f}' || ('\u{7f}' <= c && c <= '\u{9f}') {
            assert(is_control(name@[i as int]));
            return Some(NameFault::ControlCharacter);
        }
        i = i + 1;
    }
    None
}

/// Checks whether messages are fit to be written; see [`refusal`].
///
/// The language has to have 1 to 64 characters. There have to be sections,
/// as many as stated. Each section name has to have 1 to 512 characters, with
/// no `..` and no control character among them.
pub fn check_output(out: &Output) -> (r: Option<Refusal>)
    ensures
        r == refusal(out.language@, out.entry_count as nat, out.entries@),
{
    let length: usize = text::chars_of(out.language.as_str()).len();
    if length == 0 {
        return Some(Refusal::EmptyLanguage);
    }
    if length > 64 {
        return Some(Refusal::LongLanguage);
    }
    if out.entries.is_empty() {
        return Some(Refusal::NoEntries);
    }
    if out.entry_count != out.entries.len() {
        return Some(Refusal::CountMismatch);
    }
    let mut i: usize = 0;
    while i < out.entries.len()
        invariant
            i <= out.entries@.len(),
            refusal(out.language@, out.entry_count as nat, out.entries@) == first_fault(
                out.entries@,
                i as int,
            ),
        decreases out.entries@.len() - i,
    {
        match check_name(out.entries.get(i).name.as_str()) {
            Some(fault) => {
                return Some(Refusal::SectionName { index: i, fault });
            },
            None => {},
        }
        i = i + 1;
    }
    None
}

/// Lays section names and their JSON texts out as a CBOR document.
pub fn encode_document(items: &Vec<(String, String)>) -> (r: Vec<u8>)
    ensures
        r@ == document(pair_texts(items@)),
{
    let ghost all = pair_texts(items@);
    let mut buf: Vec<u8> = Vec::new();
    cbor::cbor_write_map_header(&mut buf, 1);
    cbor::cbor_write_text(&mut buf, "Mergeable");
    cbor::cbor_write_map_header(&mut buf, 1);
    cbor::cbor_write_text(&mut buf, "MessagePack");
    cbor::cbor_write_map_header(&mut buf, items.len());
    let ghost start = buf@;
    assert(start =~= cbor::map_head(1) + cbor::text_item("Mergeable"@) + cbor::map_head(1)
        + cbor::text_item("MessagePack"@) + cbor::map_head(all.len()));
    let mut i: usize = 0;
    assert(all.take(0) =~= Seq::empty());
    assert(start + pairs_bytes(all.take(0)) =~= start);
    while i < items.len()
        invariant
            i <= items@.len(),
            all == pair_texts(items@),
            buf@ == start + pairs_bytes(all.take(i as int)),
        decreases items@.len() - i,
    {
        cbor::cbor_write_text(&mut buf, items[i].0.as_str());
        cbor::cbor_write_text(&mut buf, items[i].1.as_str());
        i = i + 1;
        assert(all.take(i as int).drop_last() =~= all.take(i - 1));
        assert(all.take(i as int).last() == all[i - 1]);
        assert(buf@ =~= start + pairs_bytes(all.take(i as int)));
    }
    assert(all.take(i as int) =~= all);
    buf
}

/// Writes messages as a CBOR document, before compression.
///
/// The sections read back: where they can be read back at all
/// ([`reading::readable`]), [`reading::parse_cbor`] finds in the document
/// exactly the sections that were written.
pub fn build_document(out: &Output) -> (r: Result<Vec<u8>, MessageError>)
    ensures
        match refusal(out.language@, out.entry_count as nat, out.entries@) {
            Some(reason) => r matches Err(MessageError::Refused(x)) && x == reason,
            None => r matches Ok(bytes) && bytes@ == document(items_of(out.entries@)),
        },
        r matches Ok(bytes) ==> reading::readable(out.entries@) ==> reading::document_sections(
            bytes@,
        ) == out.entries@,
{
    match check_output(out) {
        Some(reason) => {
            return Err(MessageError::Refused(reason));
        },
        None => {},
    }
    let ghost list = out.entries@;
    let mut items: Vec<(String, String)> = Vec::new();
    let mut i: usize = 0;
    while i < out.entries.len()
        invariant
            i <= out.entries@.len(),
            list == out.entries@,
            items@.len() == i,
            refusal(out.language@, out.entry_count as nat, list) is None,
            forall|j: int|
                0 <= j < i ==> (#[trigger] items@[j]).0@ == list[j].0 && items@[j].1@ == blob(
                    list[j].1,
                ),
            forall|j: int|
                0 <= j < i ==> json::parsed_json(blob(#[trigger] list[j].1)) is Some
                    ==> json::blob_entries(blob(list[j].1)) == Some(list[j].1),
        decreases out.entries@.len() - i,
    {
        let section: &Section = out.entries.get(i);
        match json::entries_to_json(&section.entries) {
            Err(e) => {
                return Err(MessageError::Json(e));
            },
            Ok(entries) => {
                let count: u32 = json::entries_len(&section.entries) as u32;
                let value = json::wrap_entries(count, entries.as_str());
                assert(blob(list[i as int].1) == value@);
                items.push((section.name.clone(), value));
            },
        }
        i = i + 1;
    }
    assert(pair_texts(items@) =~= items_of(list));
    let bytes = encode_document(&items);
    proof {
        if reading::readable(list) {
            reading::document_reads_back(list);
        }
    }
    Ok(bytes)
}

/// Writes messages as the compressed CBOR document of a message file.
///
/// Fails if they are not fit to be written, and if the document is longer
/// than the compressor can take. Otherwise it succeeds, and the bytes depend on
/// the sections and the dictionary alone.
pub fn from_json_to_cbor(out: &Output, dictionary: &[u8]) -> (r: Result<Vec<u8>, MessageError>)
    ensures
        match refusal(out.language@, out.entry_count as nat, out.entries@) {
            Some(reason) => r matches Err(MessageError::Refused(x)) && x == reason,
            None => {
                let bytes = document(items_of(out.entries@));
                if !compression::compressible(bytes.len()) {
                    r matches Err(MessageError::TooLarge)
                } else {
                    r matches Ok(z) && {
                        &&& z@ == file_of(dictionary@, out.entries@)
                        &&& compression::compression_of(dictionary@, bytes, z@)
                        &&& reading::readable(out.entries@) ==> reading::document_sections(bytes)
                            == out.entries@
                    }
                }
            },
        },
{
    let bytes = match build_document(out) {
        Ok(bytes) => bytes,
        Err(e) => {
            return Err(e);
        },
    };
    let limit: usize = isize::MAX as usize;
    let extra: usize = bytes.len() / 256 + 64;
    if extra > limit || bytes.len() > limit - extra {
        return Err(MessageError::TooLarge);
    }
    compression::zstd_compress(bytes.as_slice(), dictionary)
}

/// Whether a section name may be written: 1 to 512 characters, no two dots one
/// after the other, and no control character of Unicode.
pub open spec fn is_writable_name(name: Seq<char>) -> bool {
    &&& 1 <= name.len() <= 512
    &&& forall|i: int| 0 <= i < name.len() - 1 ==> (#[trigger] name[i]) != '.' || name[i + 1] != '.'
    &&& forall|i: int|
        0 <= i < name.len() ==> 32 <= (#[trigger] name[i]) as int <= 126 || name[i] as int >= 160
}

/// A section name has no fault exactly if it may be written.
pub proof fn faultless_names_are_writable(name: Seq<char>)
    ensures
        name_fault(name) is None <==> is_writable_name(name),
        name_fault(name) == Some(NameFault::Empty) <==> name.len() == 0,
        name_fault(name) == Some(NameFault::TooLong) <==> name.len() > 512,
        name_fault(name) == Some(NameFault::ParentPath) <==> 1 <= name.len() <= 512 && exists|
            i: int,
        |
            0 <= i < name.len() - 1 && (#[trigger] name[i]) == '.' && name[i + 1] == '.',
{
    reveal_strlit("..");
    assert(text::contains_text(name, ".."@) == exists|i: int|
        0 <= i < name.len() - 1 && (#[trigger] name[i]) == '.' && name[i + 1] == '.') by {
        if text::contains_text(name, ".."@) {
            let i = choose|i: int|
                0 <= i <= name.len() - ".."@.len() && #[trigger] name.subrange(i, i + ".."@.len())
                    == ".."@;
            let part = name.subrange(i, i + ".."@.len());
            assert(part[0] == name[i] && part[1] == name[i + 1]);
        }
        if exists|i: int|
            0 <= i < name.len() - 1 && (#[trigger] name[i]) == '.' && name[i + 1] == '.' {
            let i = choose|i: int|
                0 <= i < name.len() - 1 && (#[trigger] name[i]) == '.' && name[i + 1] == '.';
            assert(name.subrange(i, i + ".."@.len()) =~= ".."@);
        }
    }
    assert forall|i: int| 0 <= i < name.len() implies is_control(#[trigger] name[i]) == !(32
        <= name[i] as int <= 126 || name[i] as int >= 160) by {}
}

/// Messages are written exactly if the language has 1 to 64 characters, there
/// are sections, as many as stated, and all their names may be written.
pub proof fn fit_messages_are_not_refused(
    language: Seq<char>,
    entry_count: nat,
    list: Seq<sections::SectionModel>,
)
    ensures
        refusal(language, entry_count, list) is None <==> {
            &&& 1 <= language.len() <= 64
            &&& list.len() > 0
            &&& entry_count == list.len()
            &&& forall|i: int| 0 <= i < list.len() ==> is_writable_name((#[trigger] list[i]).0)
        },
{
    assert forall|i: int| 0 <= i < list.len() implies (name_fault((#[trigger] list[i]).0) is None)
        == is_writable_name(list[i].0) by {
        faultless_names_are_writable(list[i].0);
    }
    lemma_first_fault(list, 0);
}

/// The reason for a refusal is the first thing that is wrong: an empty or a
/// long language, no sections, another number of sections than stated, and
/// then the first name that may not be written.
pub proof fn refusals_tell_the_first_reason(
    language: Seq<char>,
    entry_count: nat,
    list: Seq<sections::SectionModel>,
)
    requires
        list.len() <= usize::MAX,
    ensures
        ({
            let reason = refusal(language, entry_count, list);
            let sound = 1 <= language.len() <= 64;
            &&& language.len() == 0 <==> reason == Some(Refusal::EmptyLanguage)
            &&& language.len() > 64 <==> reason == Some(Refusal::LongLanguage)
            &&& sound && list.len() == 0 <==> reason == Some(Refusal::NoEntries)
            &&& sound && list.len() > 0 && entry_count != list.len() <==> reason == Some(
                Refusal::CountMismatch,
            )
            &&& reason matches Some(Refusal::SectionName { index, fault }) ==> {
                &&& index < list.len()
                &&& name_fault(list[index as int].0) == Some(fault)
                &&& forall|i: int| 0 <= i < index ==> is_writable_name((#[trigger] list[i]).0)
            }
        }),
{
    assert forall|i: int| 0 <= i < list.len() implies (name_fault((#[trigger] list[i]).0) is None)
        == is_writable_name(list[i].0) by {
        faultless_names_are_writable(list[i].0);
    }
    lemma_first_fault(list, 0);
}

proof fn lemma_first_fault(list: Seq<sections::SectionModel>, from: int)
    requires
        0 <= from <= list.len(),
    ensures
        first_fault(list, from) is None <==> forall|i: int|
            from <= i < list.len() ==> name_fault((#[trigger] list[i]).0) is None,
        first_fault(list, from) is Some ==> first_fault(list, from)->0 is SectionName,
        list.len() <= usize::MAX ==> (first_fault(list, from) matches Some(
            Refusal::SectionName { index, fault },
        ) ==> {
            &&& from <= index < list.len()
            &&& name_fault(list[index as int].0) == Some(fault)
            &&& forall|i: int| from <= i < index ==> name_fault((#[trigger] list[i]).0) is None
        }),
    decreases list.len() - from,
{
    if from < list.len() {
        lemma_first_fault(list, from + 1);
        if name_fault(list[from].0) is None && first_fault(list, from + 1) is None {
            assert forall|i: int| from <= i < list.len() implies name_fault(
                (#[trigger] list[i]).0,
            ) is None by {}
        }
    }
}

/// What a list of pairs of strings holds are its pairs, each in its place.
pub proof fn lists_hold_their_pairs(items: Seq<(String, String)>)
    ensures
        pair_texts(items).len() == items.len(),
        forall|i: int|
            0 <= i < items.len() ==> (#[trigger] pair_texts(items)[i]).0 == items[i].0@
                && pair_texts(items)[i].1 == items[i].1@,
{
}

} // verus!
