//! Writing messages and reading them out of a document.
use indexmap::IndexMap;
use serde_json::Value;
use ukmmsg2json::cbor::{extract_cbor_strings, looks_like_cbor};
use ukmmsg2json::compression::zstd_decompress;
use ukmmsg2json::error::{MessageError, NameFault, Refusal};
use ukmmsg2json::json::{unwrap_entries, wrap_entries, Entries};
use ukmmsg2json::messages::{
    build_document, check_output, encode_document, from_json_to_cbor, Output,
};
use ukmmsg2json::reading::parse_cbor;
use ukmmsg2json::sarc::is_sarc;
use ukmmsg2json::sections::{Section, Sections};

fn dictionary() -> Vec<u8> {
    "{\"group_count\":1,\"entries\":{\"Key1\":{\"contents\":[{\"text\":\"\"}]}}}"
        .repeat(10)
        .into_bytes()
}

fn entries(pairs: &[(&str, &str)]) -> Entries {
    let mut map: IndexMap<String, Value> = IndexMap::new();
    for (label, text) in pairs {
        map.insert(label.to_string(), serde_json::from_str(text).unwrap());
    }
    map
}

fn section(name: &str, pairs: &[(&str, &str)]) -> Section {
    Section { name: name.to_string(), entries: entries(pairs) }
}

fn output(language: &str, sections: Vec<Section>) -> Output {
    let entries = Sections::from_list(sections);
    Output {
        language: language.to_string(),
        entry_count: entries.len(),
        entries,
        format: Some("UKMM CBOR".to_string()),
    }
}

const HELLO: &str = "{\"contents\":[{\"text\":\"Hello\"}]}";

#[test]
fn test_from_json_to_cbor_produces_zstd() {
    let out = output("EUen", vec![section("ActorType/ArmorHead", &[("Key1", HELLO)])]);
    assert_eq!(out.entry_count, 1);
    let result = from_json_to_cbor(&out, &dictionary()).unwrap();

    assert_eq!(&result[0..4], [0x28, 0xB5, 0x2F, 0xFD]);

    let decompressed = zstd_decompress(&result[..], &dictionary()).unwrap();

    let cbor_strings = extract_cbor_strings(&decompressed);
    let all_text: String = cbor_strings.join(" ");
    assert!(all_text.contains("Mergeable"));
    assert!(all_text.contains("MessagePack"));
    assert!(all_text.contains("Hello"));
    assert!(all_text.contains("group_count"));
    assert!(all_text.contains("entries"));
}

/// The same sections give the same bytes, whatever the language and the
/// format are.
#[test]
fn same_sections_same_bytes() {
    let sections = || vec![section("ActorType/ArmorHead", &[("Key1", HELLO)])];
    let a = output("EUen", sections());
    let mut b = output("JPja", sections());
    b.format = None;
    let file = from_json_to_cbor(&a, &dictionary()).unwrap();
    assert_eq!(file, from_json_to_cbor(&b, &dictionary()).unwrap());
    let document = zstd_decompress(&file, &dictionary()).unwrap();
    assert_eq!(document, build_document(&a).unwrap());
    assert!(looks_like_cbor(&document));
    assert!(!is_sarc(&document));
}

/// The exact bytes of a document.
#[test]
fn document_bytes() {
    let items = vec![("A".to_string(), "{}".to_string())];
    let mut expected = vec![0xA1, 0x69];
    expected.extend_from_slice(b"Mergeable");
    expected.extend_from_slice(&[0xA1, 0x6B]);
    expected.extend_from_slice(b"MessagePack");
    expected.extend_from_slice(&[0xA1, 0x61, b'A', 0x62, b'{', b'}']);
    assert_eq!(encode_document(&items), expected);
    assert_eq!(
        encode_document(&Vec::new()),
        [&expected[..expected.len() - 6], &[0xA0][..]].concat()
    );
}

/// The sections are written in the order of their names, each as an envelope
/// with the number of its entries.
#[test]
fn document_strings() {
    let out = output(
        "EUen",
        vec![
            section("Npc", &[("Z", HELLO), ("A", "{\"contents\":[]}")]),
            section("Actor", &[("K", HELLO)]),
        ],
    );
    let bytes = build_document(&out).unwrap();
    assert_eq!(
        extract_cbor_strings(&bytes),
        vec![
            "Mergeable",
            "MessagePack",
            "Actor",
            "{\"group_count\":1,\"entries\":{\"K\":{\"contents\":[{\"text\":\"Hello\"}]}}}",
            "Npc",
            "{\"group_count\":2,\"entries\":{\"Z\":{\"contents\":[{\"text\":\"Hello\"}]},\
             \"A\":{\"contents\":[]}}}",
        ]
    );
}

/// What is written reads back, in the same order and with the same entries.
#[test]
fn document_reads_back() {
    let out = output(
        "EUfr",
        vec![
            section("Message/Msg_EUfr.product", &[("Z", HELLO), ("A", "{\"contents\":[1.5]}")]),
            section("ActorType/Prey", &[]),
        ],
    );
    let bytes = build_document(&out).unwrap();
    let found = parse_cbor(&bytes);
    assert_eq!(found.language, "EUfr");
    assert_eq!(found.sections.len(), 2);
    assert_eq!(found.sections[0].name, "ActorType/Prey");
    assert!(found.sections[0].entries.is_empty());
    assert_eq!(found.sections[1].name, "Message/Msg_EUfr.product");
    let labels: Vec<&str> = found.sections[1].entries.keys().map(|k| k.as_str()).collect();
    assert_eq!(labels, vec!["Z", "A"]);
    assert_eq!(found.sections[1].entries["A"].to_string(), "{\"contents\":[1.5]}");
}

fn refused(out: &Output) -> Refusal {
    match from_json_to_cbor(out, &dictionary()) {
        Err(MessageError::Refused(reason)) => {
            assert_eq!(check_output(out), Some(reason));
            reason
        }
        _ => panic!("not refused"),
    }
}

fn named(name: &str) -> Output {
    output("EUen", vec![section("Actor", &[("K", HELLO)]), section(name, &[("K", HELLO)])])
}

#[test]
fn languages_that_are_refused() {
    let good = || vec![section("Actor", &[("K", HELLO)])];
    assert_eq!(refused(&output("", good())), Refusal::EmptyLanguage);
    assert_eq!(refused(&output(&"x".repeat(65), good())), Refusal::LongLanguage);
    assert_eq!(check_output(&output(&"x".repeat(64), good())), None);
    // Characters count, not bytes.
    assert_eq!(check_output(&output(&"\u{e9}".repeat(64), good())), None);
    assert_eq!(refused(&output(&"\u{e9}".repeat(65), good())), Refusal::LongLanguage);
}

#[test]
fn counts_that_are_refused() {
    assert_eq!(refused(&output("EUen", vec![])), Refusal::NoEntries);
    let mut out = output("EUen", vec![section("Actor", &[("K", HELLO)])]);
    out.entry_count = 2;
    assert_eq!(refused(&out), Refusal::CountMismatch);
    // The language is checked first.
    assert_eq!(refused(&output("", vec![])), Refusal::EmptyLanguage);
}

#[test]
fn section_names_that_are_refused() {
    let at = |index, fault| Refusal::SectionName { index, fault };
    assert_eq!(refused(&named("")), at(0, NameFault::Empty));
    assert_eq!(refused(&named(&"x".repeat(513))), at(1, NameFault::TooLong));
    assert_eq!(check_output(&named(&"x".repeat(512))), None);
    assert_eq!(check_output(&named(&"\u{e9}".repeat(512))), None);
    assert_eq!(refused(&named("a/../b")), at(1, NameFault::ParentPath));
    assert_eq!(check_output(&named("a.b.c")), None);
    for c in ["\u{0}", "\u{1f}", "\u{7f}", "\u{80}", "\u{9f}", "\n"] {
        assert_eq!(refused(&named(&format!("a{c}b"))), at(1, NameFault::ControlCharacter));
    }
    assert_eq!(check_output(&named("a \u{a0}~")), None);
}

/// The number of entries and the text of the entries go into the envelope.
#[test]
fn envelope_of_entries() {
    assert_eq!(wrap_entries(0, "{}"), "{\"group_count\":0,\"entries\":{}}");
    assert_eq!(wrap_entries(4_294_967_295, "x"), "{\"group_count\":4294967295,\"entries\":x}");
    assert_eq!(wrap_entries(10, "{}"), "{\"group_count\":10,\"entries\":{}}");
}

#[test]
fn entries_of_an_envelope() {
    let found = unwrap_entries("{\"entries\": {\"B\": 1, \"A\": null}, \"group_count\": 7}").unwrap();
    let labels: Vec<&str> = found.keys().map(|k| k.as_str()).collect();
    assert_eq!(labels, vec!["B", "A"]);
    assert_eq!(found["B"].as_u64(), Some(1));
    assert!(unwrap_entries("{\"entries\":").is_none());
    assert!(unwrap_entries("{\"other\":{}}").is_none());
    assert!(unwrap_entries("{\"entries\":[]}").is_none());
    assert!(unwrap_entries("[{\"entries\":{}}]").is_none());
    assert!(unwrap_entries("{\"entries\":{}}").unwrap().is_empty());
}

/// A CBOR document out of strings.
fn strings(list: &[&str]) -> Vec<u8> {
    let mut data = Vec::new();
    for s in list {
        ukmmsg2json::cbor::cbor_write_text(&mut data, s);
    }
    data
}

/// Which strings are taken for names, and which for sections.
#[test]
fn strings_pair_up() {
    let found = parse_cbor(&strings(&[
        "Mergeable",
        "First",
        "{\"entries\":{\"A\":{\"contents\":[]}}}",
        "Second",
        "{\"group_count\":0,\"entries\":{}}",
        "Third",
        "{\"entries\":{}}",
        "Fourth",
        "{\"entries\" : {}, \"group_count\" : 0}",
    ]));
    let names: Vec<&str> = found.sections.iter().map(|s| s.name.as_str()).collect();
    assert_eq!(names, vec!["First", "Second", "Fourth"]);
    assert_eq!(found.language, "unknown");
}

/// A section without a name is called by its number. It leaves the names of
/// others alone.
#[test]
fn sections_without_names() {
    let lone = "{\"entries\":{\"A\":{\"contents\":[]}}}";
    let found = parse_cbor(&strings(&[lone, lone]));
    let names: Vec<&str> = found.sections.iter().map(|s| s.name.as_str()).collect();
    assert_eq!(names, vec!["section_0", "section_1"]);

    let first = "{\"entries\":{\"K0\":{\"contents\":[]}}}";
    let second = "{\"entries\":{\"K1\":{\"contents\":[]}}}";
    let found = parse_cbor(&strings(&[first, "A", second, second]));
    let names: Vec<&str> = found.sections.iter().map(|s| s.name.as_str()).collect();
    assert_eq!(names, vec!["section_0", "A", "section_2"]);
    let labels: Vec<&str> = found.sections[1].entries.keys().map(|k| k.as_str()).collect();
    assert_eq!(labels, vec!["K1"]);

    // Without a name, the colons have to follow the keys at once.
    let spaced = "{\"entries\" :{\"K\":{\"contents\" :[]}}}";
    let found = parse_cbor(&strings(&[spaced, second]));
    let names: Vec<&str> = found.sections.iter().map(|s| s.name.as_str()).collect();
    assert_eq!(names, vec!["section_0"]);
    let found = parse_cbor(&strings(&["{\"entries\":{\"K\":{\"contents\" :[]}}}"]));
    assert!(found.sections.is_empty());
    assert!(found.skipped.is_empty());
    // With one they do not.
    let found = parse_cbor(&strings(&["A", spaced]));
    assert_eq!(found.sections[0].name, "A");
}

/// A text that looks like a section and is none is passed over, but counts.
#[test]
fn unusable_sections_are_passed_over() {
    let found = parse_cbor(&strings(&[
        "A",
        "{\"group_count\":1,\"entries\":",
        "B",
        "{\"group_count\":1,\"entries\":[]}",
        "C",
        "{\"group_count\":1,\"entries\":{}}",
    ]));
    let names: Vec<&str> = found.sections.iter().map(|s| s.name.as_str()).collect();
    assert_eq!(names, vec!["C"]);
    assert_eq!(found.skipped, vec![0, 1]);
}

/// The last section name that tells a language decides.
#[test]
fn language_of_a_document() {
    let blob = "{\"group_count\":0,\"entries\":{}}";
    let language = |names: &[&str]| {
        let list: Vec<&str> = names.iter().flat_map(|n| [*n, blob]).collect();
        parse_cbor(&strings(&list)).language
    };
    assert_eq!(language(&["Message/Msg_EUen.product"]), "EUen");
    assert_eq!(language(&["Message/Msg_EUen.product", "Message/Msg_USfr.product"]), "USfr");
    assert_eq!(language(&["Message/Msg_EUen.product", "ActorType/Prey"]), "EUen");
    assert_eq!(language(&["Msg_EUen.product"]), "unknown");
    assert_eq!(language(&["a/Msg_EU"]), "unknown");
    assert_eq!(language(&["a/Msg_E.en"]), "unknown");
    assert_eq!(language(&["a/b\\Msg_JPja"]), "JPja");
    assert_eq!(language(&["a_USen/Msg"]), "unknown");
    assert_eq!(language(&["a/Msg_\u{e9}\u{e9}\u{e9}\u{e9}"]), "unknown");
}

/// Of sections with the same name the last one stays; names are in order.
#[test]
fn sections_are_a_table() {
    let table = Sections::from_list(vec![
        section("b", &[("K", "1")]),
        section("a", &[]),
        section("b", &[("K", "2")]),
        section("B", &[]),
    ]);
    let names: Vec<&str> = (0..table.len()).map(|i| table.get(i).name.as_str()).collect();
    assert_eq!(names, vec!["B", "a", "b"]);
    assert_eq!(table.get(2).entries["K"].as_u64(), Some(2));

    let mut table = Sections::new();
    assert!(table.is_empty());
    table.insert(section("x", &[]));
    table.insert(section("x", &[("K", "3")]));
    assert_eq!(table.len(), 1);
    assert_eq!(table.get(0).entries.len(), 1);
}
