//! From the bytes of a message file to its messages.
//!
//! Message entries and MSBT files are decoded outside of this crate. So a
//! conversion goes in stages: each says what is to be decoded next, and the
//! caller comes back with the result.
use crate::cbor;
use crate::compression;
use crate::error::MessageError;
use crate::json;
use crate::json::Entries;
use crate::messages;
use crate::messages::Output;
use crate::reading;
use crate::reading::CborMessages;
use crate::sarc;
use crate::sarc::Archive;
use crate::sarc::SarcMessages;
use crate::sections;
use crate::sections::Section;
use crate::sections::Sections;
use crate::text;
use vstd::prelude::*;
use vstd::string::*;
use vstd::utf8::*;

verus! {

/// What is to be done next in a conversion.
pub enum Stage {
    /// Check which of the sections hold message entries, and go on with
    /// [`after_sections`].
    CheckSections(CborMessages),
    /// Decode the whole data as one MSBT file, and go on with
    /// [`after_whole`].
    DecodeWhole { language: String },
    /// Take the Yaz0 layer off the data, and go on with [`after_yaz0`].
    DecodeYaz0,
    /// Decode the message files, and finish with [`after_files`].
    DecodeFiles(SarcMessages),
    /// Nothing: these are the messages.
    Done(Output),
    /// Nothing: the file cannot be read.
    Failed(MessageError),
}

/// Whether data is read as a CBOR document. Everything else is read as a SARC
/// archive.
pub open spec fn reads_as_cbor(data: Seq<u8>) -> bool {
    !sarc::looks_like_sarc(data) && data.len() > 0 && cbor::major_type(data[0]) == 5
}

/// Whether a stage is that of an archive without a Yaz0 layer: its message
/// files are to be decoded, or it cannot be opened.
pub open spec fn is_plain_archive_stage(data: Seq<u8>, stage: Stage) -> bool {
    match stage {
        Stage::DecodeFiles(m) => sarc::is_reading(data, Ok(m)),
        Stage::Failed(e) => sarc::is_reading(data, Err(e)),
        _ => false,
    }
}

/// Whether a stage is that of an archive: a Yaz0 layer comes off first.
pub open spec fn is_archive_stage(data: Seq<u8>, stage: Stage) -> bool {
    if compression::is_yaz0(data) {
        stage is DecodeYaz0
    } else {
        is_plain_archive_stage(data, stage)
    }
}

/// Whether an output holds the sections of a list as a table, of those with
/// the same name the last one, together with their number.
pub open spec fn holds(
    out: Output,
    language: Seq<char>,
    list: Seq<sections::SectionModel>,
    format: Seq<char>,
) -> bool {
    &&& out.wf()
    &&& out.language@ == language
    &&& sections::tabulates(out.entries@, list)
    &&& out.format matches Some(f) && f@ == format
}

/// What is left of a list of sections: the accepted ones, with the entries as
/// they were accepted.
pub open spec fn accepted(
    list: Seq<sections::SectionModel>,
    checked: Seq<Option<sections::EntryList>>,
) -> Seq<sections::SectionModel>
    decreases list.len(),
{
    if list.len() == 0 {
        Seq::empty()
    } else {
        let before = accepted(list.drop_last(), checked);
        match checked[list.len() - 1] {
            Some(entries) => before.push((list.last().0, entries)),
            None => before,
        }
    }
}

/// What a list of checked entries holds.
pub open spec fn checked_list(checked: Seq<Option<Entries>>) -> Seq<Option<sections::EntryList>> {
    checked.map_values(
        |c: Option<Entries>|
            match c {
                Some(entries) => Some(json::entry_list(entries)),
                None => None,
            },
    )
}

/// The sections that message files come to, once decoded.
pub open spec fn decoded_sections(
    files: Seq<(Seq<char>, Seq<u8>)>,
    decoded: Seq<Entries>,
) -> Seq<sections::SectionModel> {
    Seq::new(files.len(), |i: int| (files[i].0, json::entry_list(decoded[i])))
}

/// Puts messages together.
fn output(language: String, list: Vec<Section>, format: &str) -> (r: Output)
    ensures
        holds(r, language@, sections::section_list(list@), format@),
{
    let entries = Sections::from_list(list);
    Output { language, entry_count: entries.len(), entries, format: Some(format.to_owned()) }
}

/// Reads data as an archive.
fn archive_stage(data: &[u8]) -> (r: Stage)
    requires
        sarc::is_safe_archive(data@),
    ensures
        is_archive_stage(data@, r),
{
    match sarc::parse_sarc(data) {
        Ok(Archive::Messages(messages)) => Stage::DecodeFiles(messages),
        Ok(Archive::Yaz0) => Stage::DecodeYaz0,
        Err(e) => Stage::Failed(e),
    }
}

/// Tells whether data is read as a CBOR document; see [`reads_as_cbor`].
pub fn is_cbor(data: &[u8]) -> (r: bool)
    ensures
        r == reads_as_cbor(data@),
{
    !sarc::is_sarc(data) && cbor::looks_like_cbor(data)
}

/// Starts the conversion of a decompressed message file.
///
/// What does not look like an archive but like a CBOR document is read as
/// one, everything else as an archive.
pub fn begin(data: &[u8]) -> (r: Stage)
    requires
        !reads_as_cbor(data@) ==> sarc::is_safe_archive(data@),
    ensures
        if reads_as_cbor(data@) {
            r matches Stage::CheckSections(m) && m.language@ == reading::document_language(data@)
                && sections::section_list(m.sections@) == reading::document_sections(data@)
                && reading::number_list(m.skipped@) == reading::document_skipped(data@)
        } else {
            is_archive_stage(data@, r)
        },
{
    if is_cbor(data) {
        Stage::CheckSections(reading::parse_cbor(data))
    } else {
        archive_stage(data)
    }
}

/// Goes on after the sections of a document were checked.
///
/// `checked` tells of each section whether it holds message entries, and
/// gives these. If none does, the whole data is to be decoded.
pub fn after_sections(found: CborMessages, checked: Vec<Option<Entries>>) -> (r: Stage)
    requires
        checked@.len() == found.sections@.len(),
    ensures
        ({
            let list = accepted(
                sections::section_list(found.sections@),
                checked_list(checked@),
            );
            if list.len() == 0 {
                r matches Stage::DecodeWhole { language } && language@ == found.language@
            } else {
                r matches Stage::Done(out) && holds(out, found.language@, list, "UKMM CBOR"@)
            }
        }),
{
    let ghost all = sections::section_list(found.sections@);
    let ghost marks = checked_list(checked@);
    let mut list: Vec<Section> = Vec::new();
    let mut i: usize = 0;
    assert(all.take(0) =~= Seq::empty());
    assert(sections::section_list(list@) =~= Seq::empty());
    for entries in it: checked.into_iter()
        invariant
            i == it.index(),
            it.seq() == checked@,
            checked@.len() == found.sections@.len(),
            all == sections::section_list(found.sections@),
            marks == checked_list(checked@),
            sections::section_list(list@) == accepted(all.take(it.index()), marks),
    {
        let ghost before = list@;
        let ghost k = it.index();
        assert(i < found.sections.len());
        assert(all.take(k + 1).drop_last() =~= all.take(k));
        assert(all.take(k + 1).last() == found.sections@[k]@);
        match entries {
            Some(entries) => {
                let section = Section { name: found.sections[i].name.clone(), entries };
                list.push(section);
                assert(marks[k] == Some(section@.1));
                assert(sections::section_list(list@) =~= sections::section_list(before).push(
                    section@,
                ));
            },
            None => {
                assert(marks[k] is None);
            },
        }
        i = i + 1;
    }
    assert(all.take(all.len() as int) =~= all);
    if list.len() == 0 {
        assert(sections::section_list(list@).len() == 0);
        Stage::DecodeWhole { language: found.language }
    } else {
        assert(sections::section_list(list@).len() > 0);
        Stage::Done(output(found.language, list, "UKMM CBOR"))
    }
}

/// Goes on after the whole data was decoded as one MSBT file, or could not
/// be. What could not be decoded is read as an archive after all.
pub fn after_whole(language: String, decoded: Option<Entries>, data: &[u8]) -> (r: Stage)
    requires
        decoded is None ==> sarc::is_safe_archive(data@),
    ensures
        match decoded {
            Some(entries) => r matches Stage::Done(out) && holds(
                out,
                language@,
                seq![("section_0"@, json::entry_list(entries))],
                "UKMM CBOR"@,
            ),
            None => is_archive_stage(data@, r),
        },
{
    match decoded {
        Some(entries) => {
            let section = Section { name: "section_0".to_owned(), entries };
            let mut list: Vec<Section> = Vec::new();
            list.push(section);
            assert(sections::section_list(list@) =~= seq![section@]);
            Stage::Done(output(language, list, "UKMM CBOR"))
        },
        None => archive_stage(data),
    }
}

/// Goes on after a Yaz0 layer was taken off: `data` is what came out. Only one
/// layer comes off; data with another one is no archive.
pub fn after_yaz0(data: &[u8]) -> (r: Stage)
    requires
        sarc::is_safe_archive(data@),
    ensures
        if compression::is_yaz0(data@) {
            r matches Stage::Failed(e) && e is NestedYaz0
        } else {
            is_plain_archive_stage(data@, r)
        },
{
    if compression::is_yaz0_data(data) {
        return Stage::Failed(MessageError::NestedYaz0);
    }
    match sarc::read_archive(data) {
        Ok(messages) => Stage::DecodeFiles(messages),
        Err(e) => Stage::Failed(e),
    }
}

/// Finishes after all message files of an archive were decoded.
pub fn after_files(found: SarcMessages, decoded: Vec<Entries>) -> (r: Output)
    requires
        decoded@.len() == found.files@.len(),
    ensures
        holds(
            r,
            found.language@,
            decoded_sections(sarc::message_list(found.files@), decoded@),
            "SARC"@,
        ),
{
    let ghost all = decoded_sections(sarc::message_list(found.files@), decoded@);
    let mut list: Vec<Section> = Vec::new();
    let mut i: usize = 0;
    assert(all.take(0) =~= Seq::empty());
    assert(sections::section_list(list@) =~= Seq::empty());
    for entries in it: decoded.into_iter()
        invariant
            i == it.index(),
            it.seq() == decoded@,
            decoded@.len() == found.files@.len(),
            all == decoded_sections(sarc::message_list(found.files@), decoded@),
            sections::section_list(list@) == all.take(it.index()),
    {
        let ghost before = list@;
        let ghost k = it.index();
        assert(i < found.files.len());
        let section = Section { name: found.files[i].stem.clone(), entries };
        list.push(section);
        assert(all[k] == section@);
        assert(sections::section_list(list@) =~= sections::section_list(before).push(section@));
        assert(all.take(k + 1) =~= all.take(k).push(section@));
        i = i + 1;
    }
    assert(all.take(all.len() as int) =~= all);
    output(found.language, list, "SARC")
}

/// A document that was written is read as CBOR, and as nothing else: it is
/// neither Yaz0-compressed nor does it look like an archive.
pub proof fn documents_are_read_as_cbor(items: Seq<(Seq<char>, Seq<char>)>)
    ensures
        reads_as_cbor(messages::document(items)),
        !compression::is_yaz0(messages::document(items)),
{
    let data = messages::document(items);
    reveal_strlit("Mergeable");
    reveal_strlit("MessagePack");
    is_ascii_chars_encode_utf8("Mergeable"@);
    is_ascii_chars_encode_utf8("MessagePack"@);
    let first = cbor::text_item("Mergeable"@);
    let second = cbor::text_item("MessagePack"@);
    assert(cbor::map_head(1) =~= seq![0xA1u8]);
    assert(first.len() == 10);
    assert(second.len() == 12);
    assert(data[0] == 0xA1);
    assert(data[0x11] == second[5]);
    assert(second[5] == 'a' as u8);
    if compression::is_yaz0(data) {
        assert(data.subrange(0, 4)[0] == 0x59);
    }
}

/// Accepting all sections as they are keeps the list.
pub proof fn accepting_all_keeps_all(list: Seq<sections::SectionModel>)
    ensures
        accepted(list, list.map_values(|s: sections::SectionModel| Some(s.1))) == list,
{
    lemma_accepting_all(list, list.map_values(|s: sections::SectionModel| Some(s.1)));
}

proof fn lemma_accepting_all(
    list: Seq<sections::SectionModel>,
    marks: Seq<Option<sections::EntryList>>,
)
    requires
        marks.len() >= list.len(),
        forall|i: int| 0 <= i < list.len() ==> (#[trigger] marks[i]) == Some(list[i].1),
    ensures
        accepted(list, marks) == list,
    decreases list.len(),
{
    if list.len() > 0 {
        lemma_accepting_all(list.drop_last(), marks);
        assert(marks[list.len() - 1] == Some(list[list.len() - 1].1));
        assert(accepted(list, marks) =~= list);
    } else {
        assert(accepted(list, marks) =~= list);
    }
}

/// Whether decompressing a file is sure to give the document in it: the
/// dictionary is no good and was not used, 1024 times the file is room for the
/// document, or decompressing succeeds and the dictionary has an identifier.
pub open spec fn gives_document(
    dictionary: Seq<u8>,
    document: Seq<u8>,
    file: Seq<u8>,
    outcome: Option<Seq<u8>>,
) -> bool {
    ||| !compression::dictionary_loads(dictionary)
    ||| document.len() <= file.len() * 1024
    ||| compression::has_identifier(dictionary) && outcome is Some
}

/// The same sections come to the same file, whatever the language and the
/// format are, and what decompressing it gives is read as CBOR, neither as an
/// archive nor as Yaz0 data.
pub proof fn files_depend_on_sections_alone(
    a: Output,
    b: Output,
    dictionary: Seq<u8>,
    file: Seq<u8>,
    outcome: Option<Seq<u8>>,
)
    requires
        a.entries@ == b.entries@,
        compression::compression_of(
            dictionary,
            messages::document(messages::items_of(a.entries@)),
            file,
        ),
        compression::zstd_outcome(dictionary, file, outcome),
        gives_document(
            dictionary,
            messages::document(messages::items_of(a.entries@)),
            file,
            outcome,
        ),
    ensures
        file == messages::file_of(dictionary, a.entries@),
        file == messages::file_of(dictionary, b.entries@),
        outcome matches Some(data) && {
            &&& cbor::major_type(data[0]) == 5
            &&& !sarc::looks_like_sarc(data)
            &&& !compression::is_yaz0(data)
            &&& reads_as_cbor(data)
        },
{
    let document = messages::document(messages::items_of(a.entries@));
    compression::compression_reads_back(dictionary, document, file, outcome);
    documents_are_read_as_cbor(messages::items_of(a.entries@));
}

/// What is written reads back. Let messages with the table `list` be written
/// to `file`, and let their sections read back out of the document, both as
/// [`messages::from_json_to_cbor`] promises, and let decompressing give the
/// document (see [`gives_document`]). Then the document is read as CBOR, and
/// once all its sections are accepted, the output holds the table `list`
/// again, and no other.
pub proof fn written_messages_read_back(
    list: Seq<sections::SectionModel>,
    dictionary: Seq<u8>,
    file: Seq<u8>,
    outcome: Option<Seq<u8>>,
    out: Output,
)
    requires
        sections::ascending(list),
        compression::compression_of(
            dictionary,
            messages::document(messages::items_of(list)),
            file,
        ),
        reading::document_sections(messages::document(messages::items_of(list))) == list,
        gives_document(
            dictionary,
            messages::document(messages::items_of(list)),
            file,
            outcome,
        ),
        compression::zstd_outcome(dictionary, file, outcome),
        outcome matches Some(data) ==> holds(
            out,
            reading::document_language(data),
            accepted(
                reading::document_sections(data),
                reading::document_sections(data).map_values(
                    |s: sections::SectionModel| Some(s.1),
                ),
            ),
            "UKMM CBOR"@,
        ),
    ensures
        outcome == Some(messages::document(messages::items_of(list))),
        reads_as_cbor(outcome->0),
        !compression::is_yaz0(outcome->0),
        out.entries@ == list,
        out.entry_count == list.len(),
        out.format matches Some(format) && format@ == "UKMM CBOR"@,
{
    let data = messages::document(messages::items_of(list));
    compression::compression_reads_back(dictionary, data, file, outcome);
    documents_are_read_as_cbor(messages::items_of(list));
    accepting_all_keeps_all(list);
    sections::ascending_list_is_its_table(list);
    assert forall|s: sections::SectionModel|
        #![trigger out.entries@.contains(s)]
        #![trigger list.contains(s)]
        out.entries@.contains(s) <==> list.contains(s) by {
        assert(out.entries@.contains(s) <==> sections::last_entries(list, s.0) == Some(s.1));
        assert(list.contains(s) <==> sections::last_entries(list, s.0) == Some(s.1));
    }
    sections::tables_agree(out.entries@, list);
}

/// What was converted can be written again: messages that a conversion came
/// to, with at least one section and no faulty name among the sections, are
/// not refused.
pub proof fn converted_messages_are_not_refused(
    out: Output,
    language: Seq<char>,
    list: Seq<sections::SectionModel>,
    format: Seq<char>,
)
    requires
        holds(out, language, list, format),
        (exists|data: Seq<u8>| language == reading::document_language(data)) || (exists|
            files: Seq<(Seq<char>, Seq<u8>)>,
        |
            language == sarc::files_language(files)),
        list.len() > 0,
        forall|i: int| 0 <= i < list.len() ==> messages::name_fault((#[trigger] list[i]).0) is None,
    ensures
        messages::refusal(out.language@, out.entry_count as nat, out.entries@) is None,
{
    let table = out.entries@;
    assert(encode_utf8(language).len() == 4 || language == "unknown"@) by {
        if exists|data: Seq<u8>| language == reading::document_language(data) {
            let data = choose|data: Seq<u8>| language == reading::document_language(data);
            crate::language::language_is_code_or_unknown(
                reading::blob_names(reading::pairing(cbor::cbor_strings(data))),
            );
        } else {
            let files = choose|files: Seq<(Seq<char>, Seq<u8>)>|
                language == sarc::files_language(files);
            sarc::language_is_code_or_unknown(files);
        }
    }
    reveal_strlit("unknown");
    lemma_shorter_than_encoding(language);
    if language.len() == 0 {
        assert(encode_utf8(language).len() == 0);
    }
    assert(sections::last_entries(list, list.last().0) == Some(list.last().1));
    assert(table.contains(list.last()));
    assert forall|i: int| 0 <= i < table.len() implies messages::name_fault(
        (#[trigger] table[i]).0,
    ) is None by {
        assert(table.contains(table[i]));
        lemma_last_entries_of_listed(list, table[i].0);
    }
    lemma_no_first_fault(table, 0);
}

proof fn lemma_shorter_than_encoding(s: Seq<char>)
    ensures
        s.len() <= encode_utf8(s).len(),
    decreases s.len(),
{
    if s.len() > 0 {
        lemma_shorter_than_encoding(s.drop_first());
        encode_utf8_first_scalar(s);
    }
}

proof fn lemma_last_entries_of_listed(list: Seq<sections::SectionModel>, name: Seq<char>)
    requires
        sections::last_entries(list, name) is Some,
    ensures
        exists|i: int| 0 <= i < list.len() && (#[trigger] list[i]).0 == name,
    decreases list.len(),
{
    if list.last().0 == name {
        assert(list[list.len() - 1].0 == name);
    } else {
        let shorter = list.drop_last();
        lemma_last_entries_of_listed(shorter, name);
        let i = choose|i: int| 0 <= i < shorter.len() && (#[trigger] shorter[i]).0 == name;
        assert(list[i].0 == name);
    }
}

proof fn lemma_no_first_fault(list: Seq<sections::SectionModel>, from: int)
    requires
        0 <= from <= list.len(),
        forall|i: int| 0 <= i < list.len() ==> messages::name_fault((#[trigger] list[i]).0) is None,
    ensures
        messages::first_fault(list, from) is None,
    decreases list.len() - from,
{
    if from < list.len() {
        lemma_no_first_fault(list, from + 1);
    }
}

/// How many of the first `upto` sections are accepted.
pub open spec fn accepted_count(checked: Seq<Option<sections::EntryList>>, upto: int) -> int
    decreases upto,
{
    if upto <= 0 {
        0
    } else {
        accepted_count(checked, upto - 1) + if checked[upto - 1] is Some {
            1int
        } else {
            0
        }
    }
}

/// The accepted sections are those whose entries were accepted, all of them
/// and in their order, each under its own name and with the entries as they
/// were accepted.
pub proof fn accepted_sections_keep_their_names(
    list: Seq<sections::SectionModel>,
    checked: Seq<Option<sections::EntryList>>,
    index: int,
)
    requires
        0 <= index < list.len() <= checked.len(),
    ensures
        accepted(list, checked).len() == accepted_count(checked, list.len() as int),
        checked[index] matches Some(entries) ==> {
            let k = accepted_count(checked, index);
            &&& 0 <= k < accepted(list, checked).len()
            &&& accepted(list, checked)[k] == (list[index].0, entries)
        },
    decreases list.len(),
{
    let before = list.drop_last();
    let n = list.len() - 1;
    lemma_accepted_count(checked, index);
    lemma_accepted_count(checked, n);
    if index < n {
        accepted_sections_keep_their_names(before, checked, index);
    } else if n > 0 {
        accepted_sections_keep_their_names(before, checked, 0);
    } else {
        assert(accepted(before, checked).len() == 0);
    }
}

proof fn lemma_accepted_count(checked: Seq<Option<sections::EntryList>>, upto: int)
    ensures
        accepted_count(checked, upto) >= 0,
    decreases upto,
{
    if upto > 0 {
        lemma_accepted_count(checked, upto - 1);
    }
}

/// The messages of an archive: under each stem the entries of the last file
/// with that stem, and nothing else.
pub proof fn archive_output_keeps_the_last(
    out: Output,
    language: Seq<char>,
    files: Seq<(Seq<char>, Seq<u8>)>,
    decoded: Seq<Entries>,
    s: sections::SectionModel,
)
    requires
        files.len() == decoded.len(),
        holds(out, language, decoded_sections(files, decoded), "SARC"@),
    ensures
        out.language@ == language,
        out.entry_count == out.entries@.len(),
        out.entries@.contains(s) <==> exists|i: int|
            {
                &&& 0 <= i < files.len()
                &&& (#[trigger] files[i]).0 == s.0
                &&& json::entry_list(decoded[i]) == s.1
                &&& forall|j: int| i < j < files.len() ==> (#[trigger] files[j]).0 != s.0
            },
{
    let list = decoded_sections(files, decoded);
    sections::table_keeps_the_last(out.entries@, list, s);
    if out.entries@.contains(s) {
        let i = choose|i: int|
            {
                &&& 0 <= i < list.len()
                &&& #[trigger] list[i] == s
                &&& forall|j: int| i < j < list.len() ==> (#[trigger] list[j]).0 != s.0
            };
        assert(files[i].0 == s.0);
        assert forall|j: int| i < j < files.len() implies (#[trigger] files[j]).0 != s.0 by {
            assert(list[j].0 == files[j].0);
        }
    }
    if exists|i: int|
        {
            &&& 0 <= i < files.len()
            &&& (#[trigger] files[i]).0 == s.0
            &&& json::entry_list(decoded[i]) == s.1
            &&& forall|j: int| i < j < files.len() ==> (#[trigger] files[j]).0 != s.0
        } {
        let i = choose|i: int|
            {
                &&& 0 <= i < files.len()
                &&& (#[trigger] files[i]).0 == s.0
                &&& json::entry_list(decoded[i]) == s.1
                &&& forall|j: int| i < j < files.len() ==> (#[trigger] files[j]).0 != s.0
            };
        assert(list[i] == s);
        assert forall|j: int| i < j < list.len() implies (#[trigger] list[j]).0 != s.0 by {
            assert(files[j].0 == list[j].0);
        }
    }
}

/// Data is read as CBOR exactly if it starts with a byte from 0xA0 to 0xBF and
/// does not have the letters `SARC` after 0x11 bytes and 0x21 bytes at least.
pub proof fn cbor_shows_in_the_first_byte(data: Seq<u8>)
    ensures
        reads_as_cbor(data) <==> {
            &&& data.len() > 0
            &&& 160 <= data[0] <= 191
            &&& data.len() < 33 || data.subrange(17, 21) != seq![83u8, 65, 82, 67]
        },
{
    sarc::archives_show_their_letters(data);
    if data.len() >= 33 && 160 <= data[0] {
        assert(data.subrange(0, 4)[0] == data[0]);
        assert(seq![83u8, 65, 82, 67][0] == 83);
    }
}

/// What checked entries and decoded files hold, each in its place.
pub proof fn lists_hold_their_entries(
    checked: Seq<Option<Entries>>,
    files: Seq<(Seq<char>, Seq<u8>)>,
    decoded: Seq<Entries>,
)
    requires
        files.len() == decoded.len(),
    ensures
        checked_list(checked).len() == checked.len(),
        forall|i: int|
            0 <= i < checked.len() ==> {
                &&& checked[i] is None <==> (#[trigger] checked_list(checked)[i]) is None
                &&& checked[i] is Some ==> checked_list(checked)[i] == Some(
                    json::entry_list(checked[i]->0),
                )
            },
        decoded_sections(files, decoded).len() == files.len(),
        forall|i: int|
            0 <= i < files.len() ==> (#[trigger] decoded_sections(files, decoded)[i]).0
                == files[i].0 && decoded_sections(files, decoded)[i].1 == json::entry_list(
                decoded[i],
            ),
{
}

/// What an output holds: the language, the number of its sections, and in the
/// order of the names, under each name that the list has, the entries that come
/// last under it.
pub proof fn outputs_hold_the_last(
    out: Output,
    language: Seq<char>,
    list: Seq<sections::SectionModel>,
    format: Seq<char>,
    s: sections::SectionModel,
)
    requires
        holds(out, language, list, format),
    ensures
        out.language@ == language,
        out.entry_count == out.entries@.len(),
        out.format is Some && (out.format->0)@ == format,
        forall|i: int, j: int|
            0 <= i < j < out.entries@.len() ==> text::text_less(
                (#[trigger] out.entries@[i]).0,
                (#[trigger] out.entries@[j]).0,
            ),
        out.entries@.contains(s) <==> exists|i: int|
            {
                &&& 0 <= i < list.len()
                &&& #[trigger] list[i] == s
                &&& forall|j: int| i < j < list.len() ==> (#[trigger] list[j]).0 != s.0
            },
{
    sections::table_keeps_the_last(out.entries@, list, s);
    assert forall|i: int, j: int| 0 <= i < j < out.entries@.len() implies text::text_less(
        (#[trigger] out.entries@[i]).0,
        (#[trigger] out.entries@[j]).0,
    ) by {
        assert(sections::ascending(out.entries@));
    }
}

/// What is read as an archive has its Yaz0 layer taken off first, exactly if it
/// starts with the letters `Yaz0`. Otherwise its message files are decoded, with
/// the language of all their stems, or it cannot be read.
pub proof fn archives_go_on_by_their_letters(data: Seq<u8>, stage: Stage)
    requires
        is_archive_stage(data, stage),
    ensures
        stage is DecodeYaz0 <==> data.len() >= 4 && data[0] == 89 && data[1] == 97 && data[2]
            == 122 && data[3] == 48,
        stage is DecodeYaz0 || stage is DecodeFiles || stage is Failed,
        stage is DecodeFiles ==> {
            let found = stage->DecodeFiles_0;
            &&& sarc::headed(data, true) || sarc::headed(data, false)
            &&& sarc::message_list(found.files@) == sarc::message_files(
                sarc::archive_listing(data),
            )
            &&& found.language@ == sarc::files_language(sarc::message_list(found.files@))
        },
        stage is Failed ==> stage->Failed_0 is Sarc,
{
    compression::magic_numbers_by_byte(data);
}

} // verus!
