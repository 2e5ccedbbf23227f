//! SARC archives, and the conversion of message files.
use indexmap::IndexMap;
use roead::sarc::SarcWriter;
use roead::Endian;
use serde_json::Value;
use ukmmsg2json::cbor::cbor_write_text;
use ukmmsg2json::convert::{
    after_files, after_sections, after_whole, after_yaz0, begin, is_cbor, Stage,
};
use ukmmsg2json::error::MessageError;
use ukmmsg2json::json::Entries;
use ukmmsg2json::messages::{build_document, check_output, Output};
use ukmmsg2json::sarc::{
    check_archive, collect_messages, is_sarc, parse_sarc, read_archive, Archive, ArchiveFile,
};

fn archive(endian: Endian, files: &[(&str, &[u8])]) -> Vec<u8> {
    let mut writer = SarcWriter::new(endian);
    for (name, data) in files {
        writer.add_file(*name, data.to_vec());
    }
    writer.to_binary()
}

fn entries(text: &str) -> Entries {
    let mut map: IndexMap<String, Value> = IndexMap::new();
    map.insert("K".to_string(), Value::String(text.to_string()));
    map
}

fn names_of(out: &Output) -> Vec<&str> {
    (0..out.entries.len()).map(|i| out.entries.get(i).name.as_str()).collect()
}

/// SARC files contain the `SARC` magic at offset 0 or 0x11.
#[test]
fn test_is_sarc() {
    // SARC at offset 0, padded to minimum length (0x21 bytes).
    let mut d = b"SARC".to_vec();
    d.resize(0x21, b'x');
    assert!(is_sarc(&d));

    // SARC at offset 0x11 (after 0x11-byte prefix).
    let mut buf = vec![0u8; 0x11];
    buf.extend_from_slice(b"SARC");
    buf.resize(0x21, 0);
    assert!(is_sarc(&buf));

    // Too short or no SARC magic -> not SARC.
    assert!(!is_sarc(&[0u8; 32]));
    assert!(!is_sarc(&[]));
}

#[test]
fn test_is_sarc_too_short() {
    assert!(!is_sarc(b"SARC"));
    let mut d = b"SARC".to_vec();
    d.resize(0x20, b'x');
    assert!(!is_sarc(&d));
}

/// The message files of archives in either byte order.
#[test]
fn message_files_of_an_archive() {
    for endian in [Endian::Big, Endian::Little] {
        let data = archive(
            endian,
            &[
                ("Msg_EUen.msbt", b"one"),
                ("Readme.txt", b"two"),
                ("Msg_EUen.product.msbt.msbt", b"three"),
            ],
        );
        assert!(is_sarc(&data));
        assert!(check_archive(&data));
        let found = match parse_sarc(&data).unwrap() {
            Archive::Messages(found) => found,
            Archive::Yaz0 => panic!("taken for Yaz0"),
        };
        assert_eq!(found.language, "EUen");
        let mut files: Vec<(&str, &[u8])> =
            found.files.iter().map(|f| (f.stem.as_str(), f.data.as_slice())).collect();
        files.sort();
        assert_eq!(
            files,
            vec![("Msg_EUen", &b"one"[..]), ("Msg_EUen.product", &b"three"[..])]
        );
    }
}

fn file(name: Option<&str>) -> ArchiveFile {
    ArchiveFile { name: name.map(|n| n.to_string()), data: vec![7] }
}

/// Which files are message files, and the language that they tell.
#[test]
fn files_that_are_collected() {
    let found = collect_messages(vec![
        file(None),
        file(Some("Actor.msbt")),
        file(Some("Msg_EU.msbt")),
        file(Some("Msg_USen.txt")),
        file(Some("Msg_JPja.msbt")),
        file(Some("Msg_USfr.msbt")),
        file(Some(".msbt")),
    ]);
    let stems: Vec<&str> = found.files.iter().map(|f| f.stem.as_str()).collect();
    assert_eq!(stems, vec!["Actor", "Msg_EU", "Msg_JPja", "Msg_USfr", ""]);
    assert_eq!(found.language, "JPja");
    assert_eq!(found.files[0].data, vec![7]);
    assert_eq!(collect_messages(vec![file(Some("Actor.msbt"))]).language, "unknown");
    // Not only letters and digits: `Msg_E-n.` is a code here.
    assert_eq!(collect_messages(vec![file(Some("Msg_E-n.x.msbt"))]).language, "E-n.");
}

/// What is not an archive.
#[test]
fn data_that_is_no_archive() {
    for data in [&b""[..], &b"SARC"[..], &b"no archive at all, but of some length ..."[..]] {
        assert!(check_archive(data));
        assert!(matches!(parse_sarc(data), Err(MessageError::Sarc(_))));
    }
    // The magic number behind a prefix is recognised, but not read.
    let mut data = vec![0u8; 0x11];
    data.extend_from_slice(&archive(Endian::Big, &[("a.msbt", b"x")]));
    assert!(is_sarc(&data));
    assert!(check_archive(&data));
    assert!(matches!(parse_sarc(&data), Err(MessageError::Sarc(_))));
}

/// Damaged archives are told apart, those that end the listing early and
/// those that would lead out of the data.
#[test]
fn damaged_archives() {
    let good = archive(Endian::Big, &[("a.msbt", b"x"), ("b.msbt", b"y")]);
    assert!(check_archive(&good));
    assert_eq!(read_archive(&good).unwrap().files.len(), 2);

    // The name of the first file lies behind the end of the data.
    let mut data = good.clone();
    data[0x25] = 0xFF;
    assert!(!check_archive(&data));
    // So does that of the second.
    let mut data = good.clone();
    data[0x35] = 0xFF;
    assert!(!check_archive(&data));
    // The position of the contents is no 32-bit number.
    let mut data = good.clone();
    data[0x28] = 0xFF;
    data[0x29] = 0xFF;
    data[0x2A] = 0xFF;
    data[0x2B] = 0xFF;
    assert!(!check_archive(&data));
    // The contents of the second file end before they begin.
    let mut data = good.clone();
    data[0x3B] = 0xFF;
    assert!(check_archive(&data));
    assert_eq!(read_archive(&data).unwrap().files.len(), 1);
    // The headers are damaged.
    let mut data = good.clone();
    data[0x10] = 9;
    assert!(check_archive(&data));
    assert!(matches!(parse_sarc(&data), Err(MessageError::Sarc(_))));
    // There is no byte-order mark. What is listed does not matter then.
    let mut data = good.clone();
    data[0x25] = 0xFF;
    data[6] = 0;
    assert!(check_archive(&data));
    assert!(matches!(parse_sarc(&data), Err(MessageError::Sarc(_))));
    // A file without a name.
    let mut data = good.clone();
    for i in 0x24..0x28 {
        data[i] = 0;
    }
    assert!(check_archive(&data));
    assert_eq!(read_archive(&data).unwrap().files.len(), 1);
}

/// A Yaz0 layer around an archive comes off first, one at most.
#[test]
fn archive_in_a_yaz0_layer() {
    let layered = b"Yaz0\x00\x00\x00\x40 and so on";
    assert!(matches!(parse_sarc(layered), Ok(Archive::Yaz0)));
    assert!(matches!(parse_sarc(b"Yaz0"), Ok(Archive::Yaz0)));
    assert!(matches!(begin(layered), Stage::DecodeYaz0));
    let data = archive(Endian::Big, &[("Msg_EUen.msbt", b"one")]);
    match after_yaz0(&data) {
        Stage::DecodeFiles(found) => {
            assert_eq!(found.language, "EUen");
            assert_eq!(found.files.len(), 1);
            assert_eq!(found.files[0].data, b"one");
        }
        _ => panic!("not read as an archive"),
    }
    assert!(matches!(after_yaz0(layered), Stage::Failed(MessageError::NestedYaz0)));
    assert!(matches!(after_yaz0(b"no archive"), Stage::Failed(MessageError::Sarc(_))));
}

/// An archive goes through its message files.
#[test]
fn archive_is_converted() {
    let data = archive(Endian::Little, &[("Msg_EUen.msbt", b"one"), ("Actor.msbt", b"two")]);
    assert!(!is_cbor(&data));
    let found = match begin(&data) {
        Stage::DecodeFiles(found) => found,
        _ => panic!("not read as an archive"),
    };
    let decoded: Vec<Entries> =
        found.files.iter().map(|f| entries(std::str::from_utf8(&f.data).unwrap())).collect();
    let out = after_files(found, decoded);
    assert_eq!(out.language, "EUen");
    assert_eq!(out.format.as_deref(), Some("SARC"));
    assert_eq!(out.entry_count, 2);
    assert_eq!(names_of(&out), vec!["Actor", "Msg_EUen"]);
    assert_eq!(out.entries.get(0).entries["K"].as_str(), Some("two"));
    assert_eq!(check_output(&out), None);
}

/// What is neither is an archive that cannot be opened.
#[test]
fn other_data_is_an_error() {
    assert!(matches!(begin(b"neither"), Stage::Failed(MessageError::Sarc(_))));
    assert!(matches!(begin(b""), Stage::Failed(MessageError::Sarc(_))));
}

/// A document that was written is converted back.
#[test]
fn document_is_converted_back() {
    let data = archive(Endian::Big, &[("Msg_EUen.msbt", b"one"), ("Actor.msbt", b"two")]);
    let found = read_archive(&data).unwrap();
    let decoded = found.files.iter().map(|_| entries("text")).collect();
    let written = after_files(found, decoded);
    let document = build_document(&written).unwrap();
    assert!(is_cbor(&document));

    let found = match begin(&document) {
        Stage::CheckSections(found) => found,
        _ => panic!("not read as CBOR"),
    };
    let checked = found.sections.iter().map(|s| Some(s.entries.clone())).collect();
    match after_sections(found, checked) {
        Stage::Done(out) => {
            assert_eq!(names_of(&out), names_of(&written));
            assert_eq!(out.entry_count, 2);
            assert_eq!(out.format.as_deref(), Some("UKMM CBOR"));
            assert_eq!(out.entries.get(0).entries, written.entries.get(0).entries);
            assert_eq!(out.entries.get(1).entries, written.entries.get(1).entries);
        }
        _ => panic!("not done"),
    }
}

fn document(names: &[&str]) -> Vec<u8> {
    let mut data = vec![0xA1];
    for name in names {
        cbor_write_text(&mut data, name);
        cbor_write_text(&mut data, "{\"group_count\":1,\"entries\":{\"K\":\"text\"}}");
    }
    data
}

fn sections_of(data: &[u8]) -> ukmmsg2json::reading::CborMessages {
    match begin(data) {
        Stage::CheckSections(found) => found,
        _ => panic!("not read as CBOR"),
    }
}

/// Sections that do not hold message entries are left out; of sections with
/// the same name the last accepted one stays.
#[test]
fn sections_that_are_not_accepted() {
    let found = sections_of(&document(&["b", "a", "c", "a", "a"]));
    assert_eq!(found.sections.len(), 5);
    let checked =
        vec![Some(entries("0")), Some(entries("1")), None, Some(entries("3")), None];
    match after_sections(found, checked) {
        Stage::Done(out) => {
            assert_eq!(names_of(&out), vec!["a", "b"]);
            assert_eq!(out.entries.get(0).entries["K"].as_str(), Some("3"));
        }
        _ => panic!("not done"),
    }
}

/// Where no section is accepted, the whole data is decoded, and if that
/// fails, it is read as an archive.
#[test]
fn document_without_sections() {
    let data = document(&["a/Msg_EUen"]);
    let language = match after_sections(sections_of(&data), vec![None]) {
        Stage::DecodeWhole { language } => language,
        _ => panic!("not to be decoded"),
    };
    assert_eq!(language, "EUen");
    match after_whole(language.clone(), Some(entries("x")), &data) {
        Stage::Done(out) => {
            assert_eq!(names_of(&out), vec!["section_0"]);
            assert_eq!(out.language, "EUen");
            assert_eq!(out.entry_count, 1);
            assert_eq!(out.format.as_deref(), Some("UKMM CBOR"));
        }
        _ => panic!("not done"),
    }
    assert!(check_archive(&data));
    assert!(matches!(
        after_whole(language, None, &data),
        Stage::Failed(MessageError::Sarc(_))
    ));
}
