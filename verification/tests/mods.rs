//! File names, the list of mods, the course of a session and rebuilding.
use ukmmsg2json::mods::{
    list_mods, meta_name, peek_zip_has_msg, ukmm_data_dir, Contents, Found,
};
use ukmmsg2json::names::{
    backup_name, entry_name, filename_stem, is_json, is_msg_entry, is_msg_name, is_zip, json_name,
    rebuilt_name, stem_or_unknown,
};
use ukmmsg2json::rebuild::{added_names, rebuild_plan, Action, BackupEntry};
use ukmmsg2json::session::{next, platform_dir, select, Event, Platform, Problem, Step};
use ukmmsg2json::text::trim_text;

#[test]
fn test_filename_stem() {
    assert_eq!(filename_stem("Msg_EUfr.product.sarc"), "Msg_EUfr.product");
    assert_eq!(filename_stem("/some/path/file.json"), "file");
    assert_eq!(filename_stem("no_ext"), "no_ext");
}

#[test]
fn unusual_stems() {
    assert_eq!(filename_stem("dir/.hidden"), ".hidden");
    assert_eq!(filename_stem("dir/.hidden.txt"), ".hidden");
    assert_eq!(filename_stem("dir/a."), "a");
    assert_eq!(filename_stem("dir/a.b/./"), "a");
    assert_eq!(filename_stem("dir/.."), "unknown");
    assert_eq!(filename_stem("/"), "unknown");
    assert_eq!(filename_stem(""), "unknown");
    assert_eq!(stem_or_unknown(None), "unknown");
    assert_eq!(stem_or_unknown(Some("x".to_string())), "x");
}

#[test]
fn message_file_names() {
    assert!(is_msg_name("Msg_EUen.product.sarc"));
    assert!(is_msg_name("Msg_EUen.product.ssarc"));
    assert!(!is_msg_name("msg_EUen.product.sarc"));
    assert!(!is_msg_name("Msg_EUen.sarc"));
    assert!(!is_msg_name("Msg_EUen.product.sarc.bak"));
    assert!(!is_msg_name("Message/Msg_EUen.product.sarc"));
    assert!(is_msg_entry("Message/Msg_EUen.product.sarc"));
    assert!(is_msg_entry("Msg_EUen.product.sarc"));
    assert!(!is_msg_entry("Msg_EUen.product.sarc/other"));
    assert!(is_msg_entry("Message\\Msg_EUen.product.sarc"));
    assert!(is_msg_entry("a/Message\\Msg_EUen.product.sarc"));
    let names = |list: &[&str]| list.iter().map(|n| n.to_string()).collect::<Vec<String>>();
    assert!(peek_zip_has_msg(&names(&["meta.yml", "a/b/Msg_USen.product.sarc"])));
    assert!(!peek_zip_has_msg(&names(&["meta.yml"])));
    assert!(!peek_zip_has_msg(&Vec::new()));
}

/// The file names of a mod. Converting there and back gives the same name.
#[test]
fn derived_names() {
    assert_eq!(backup_name("My Mod"), "My Mod_backup.zip");
    assert_eq!(rebuilt_name("My Mod"), "My Mod.zip");
    assert_ne!(backup_name("x"), rebuilt_name("x"));
    assert_eq!(json_name("Msg_EUen.product"), "Msg_EUen.product.json");
    assert_eq!(entry_name("Msg_EUen.product"), "Message/Msg_EUen.product.sarc");
    let json = json_name(&filename_stem("Msg_EUen.product.sarc"));
    assert_eq!(entry_name(&filename_stem(&json)), "Message/Msg_EUen.product.sarc");
    assert!(is_json(Some("json")));
    assert!(!is_json(Some("JSON")));
    assert!(!is_json(None));
    assert!(is_zip(Some("zip")));
    assert!(!is_zip(Some("7z")));
    assert!(!is_zip(None));
}

#[test]
fn data_directory() {
    let s = |x: &str| Some(x.to_string());
    assert_eq!(ukmm_data_dir(s("C"), s("X"), s("H")), vec!["C", "ukmm"]);
    assert_eq!(ukmm_data_dir(None, s("X"), s("H")), vec!["X", "ukmm"]);
    assert_eq!(ukmm_data_dir(None, None, s("H")), vec!["H", ".local", "share", "ukmm"]);
    assert_eq!(ukmm_data_dir(None, None, None), vec!["ukmm"]);
}

#[test]
fn name_in_meta() {
    assert_eq!(meta_name("name: My Mod\nversion: 1\n").as_deref(), Some("My Mod"));
    assert_eq!(meta_name("---\r\n  name:  A B \r\nname: C").as_deref(), Some("A B"));
    assert_eq!(meta_name("name:\nname: second").as_deref(), Some("second"));
    assert_eq!(meta_name("nickname: x\nname:\t\u{a0}y").as_deref(), Some("y"));
    assert_eq!(meta_name("name:"), None);
    assert_eq!(meta_name("Name: x"), None);
    assert_eq!(meta_name(""), None);
}

#[test]
fn trimmed_text() {
    assert_eq!(trim_text(" \t2\r\n"), "2");
    assert_eq!(trim_text("\u{3000}a b\u{2003}"), "a b");
    assert_eq!(trim_text(" \n "), "");
    assert_eq!(trim_text(""), "");
    assert_eq!(trim_text("\u{1f}"), "\u{1f}");
}

fn zip(stem: Option<&str>, meta: Option<&str>) -> Found {
    Found {
        stem: stem.map(|s| s.to_string()),
        extension: Some("zip".to_string()),
        contents: Contents::Archive {
            names: vec!["Message/Msg_EUen.product.sarc".to_string()],
            meta: meta.map(|s| s.to_string()),
        },
    }
}

fn folder(stem: &str, has_meta: bool, meta: Option<&str>) -> Found {
    Found {
        stem: Some(stem.to_string()),
        extension: None,
        contents: Contents::Folder {
            names: vec!["x".to_string(), "Msg_EUen.product.sarc".to_string()],
            has_meta,
            meta: meta.map(|s| s.to_string()),
        },
    }
}

/// The mods are listed by name without regard to case, archives first.
#[test]
fn mods_in_order() {
    let found = vec![
        folder("beta", true, None),
        zip(Some("Gamma"), None),
        zip(Some("other"), Some("name: BETA")),
        Found { stem: None, extension: None, contents: Contents::Other },
        zip(Some("alpha"), Some("no name")),
        folder("aaa", false, Some("name: aaa")),
        zip(None, None),
        zip(Some("Beta"), None),
    ];
    let list = list_mods(&found);
    let listed: Vec<(&str, usize, bool)> =
        list.iter().map(|m| (m.display_name.as_str(), m.index, m.is_dir)).collect();
    assert_eq!(
        listed,
        vec![
            ("alpha", 4, false),
            ("BETA", 2, false),
            ("Beta", 7, false),
            ("beta", 0, true),
            ("Gamma", 1, false),
            ("unknown", 6, false),
        ]
    );
    assert!(list_mods(&Vec::new()).is_empty());
}

/// The `meta.yml` of an archive and that of a folder give the same name.
#[test]
fn meta_of_both_kinds() {
    for meta in [Some("version: 1\nname:  A mod \n"), Some("name:"), None] {
        let list = list_mods(&vec![folder("stem", true, meta), zip(Some("stem"), meta)]);
        assert_eq!(list.len(), 2);
        assert_eq!(list[0].display_name, list[1].display_name);
        let expected = if meta.is_some_and(|m| m.contains("A mod")) { "A mod" } else { "stem" };
        assert_eq!(list[0].display_name, expected);
    }
}

/// What is not listed: archives that are no ZIP or have no messages, folders
/// without messages.
#[test]
fn what_is_no_mod() {
    let mut other = zip(Some("a"), None);
    other.extension = Some("ZIP".to_string());
    let empty = Found {
        stem: None,
        extension: Some("zip".to_string()),
        contents: Contents::Archive { names: Vec::new(), meta: None },
    };
    let plain = Found {
        stem: None,
        extension: None,
        contents: Contents::Folder {
            names: vec!["a/Msg_EUen.product.sarc".to_string()],
            has_meta: true,
            meta: None,
        },
    };
    assert!(list_mods(&vec![other, empty, plain]).is_empty());
}

fn answer(s: &str) -> Event {
    Event::Answer(s.to_string())
}

#[test]
fn selections() {
    assert_eq!(select("1", 3), Some(0));
    assert_eq!(select("3", 3), Some(2));
    assert_eq!(select("+2", 3), Some(1));
    assert_eq!(select("002", 3), Some(1));
    for s in ["0", "4", "", "+", "-1", "x", "1x", "1.0", "99999999999999999999999"] {
        assert_eq!(select(s, 3), None);
    }
    assert_eq!(platform_dir(Platform::WiiU), "wiiu");
    assert_eq!(platform_dir(Platform::Switch), "nx");
}

/// A session that extracts a mod.
#[test]
fn session_that_extracts() {
    let platform = Platform::Switch;
    let mut step = next(Step::AskPlatform, answer("2"));
    assert_eq!(step, Step::FindMods { platform });
    step = next(step, Event::Mods(Some(2)));
    assert_eq!(step, Step::AskMod { platform, count: 2 });
    step = next(step, answer("2"));
    assert_eq!(step, Step::CheckOutput { platform, index: 1 });
    assert_eq!(
        next(step, Event::Output { backup: true, json: false }),
        Step::Unpack { platform, index: 1 }
    );
    step = next(step, Event::Output { backup: false, json: true });
    assert_eq!(step, Step::Unpack { platform, index: 1 });
    step = next(step, Event::MessageFiles(1));
    assert_eq!(step, Step::Convert { platform, index: 1 });
    step = next(step, Event::Completed);
    assert_eq!(step, Step::SaveBackup { platform, index: 1 });
    step = next(step, Event::Completed);
    assert_eq!(step, Step::Finished);
    assert_eq!(next(step, Event::Completed), Step::Finished);
}

/// A session that rebuilds a mod, or does not.
#[test]
fn session_that_rebuilds() {
    let platform = Platform::WiiU;
    let mut step = next(Step::AskPlatform, answer(""));
    assert_eq!(step, Step::FindMods { platform });
    step = Step::CheckOutput { platform, index: 0 };
    step = next(step, Event::Output { backup: true, json: true });
    assert_eq!(step, Step::AskAction { platform, index: 0 });
    assert_eq!(next(step, answer("")), Step::Unpack { platform, index: 0 });
    assert_eq!(next(step, answer("2")), Step::Unpack { platform, index: 0 });
    step = next(step, answer("1"));
    assert_eq!(step, Step::Rebuild { platform, index: 0 });
    assert_eq!(next(step, Event::Completed), Step::Finished);
}

/// Sessions that come to nothing.
#[test]
fn sessions_without_result() {
    let platform = Platform::WiiU;
    let find = Step::FindMods { platform };
    assert_eq!(next(find, Event::Mods(None)), Step::Failed(Problem::NoDirectory));
    assert_eq!(next(find, Event::Mods(Some(0))), Step::Failed(Problem::NoMods));
    let ask = Step::AskMod { platform, count: 1 };
    assert_eq!(next(ask, answer("")), Step::Cancelled);
    assert_eq!(next(ask, answer("2")), Step::Failed(Problem::InvalidSelection));
    assert_eq!(
        next(Step::Unpack { platform, index: 0 }, Event::MessageFiles(0)),
        Step::Failed(Problem::NoMessageFiles)
    );
    // A report that does not belong to the step changes nothing.
    assert_eq!(next(ask, Event::Completed), ask);
    assert_eq!(next(find, answer("2")), find);
}

fn entry(name: &str, is_dir: bool) -> BackupEntry {
    BackupEntry { name: name.to_string(), is_dir }
}

/// The converted message files replace those of the same name; everything
/// else stays, in its order.
#[test]
fn rebuilt_archive() {
    let stems = vec!["Msg_EUen.product".to_string(), "New".to_string()];
    let added = added_names(&stems).unwrap();
    assert_eq!(added, vec!["Message/Msg_EUen.product.sarc", "Message/New.sarc"]);
    let backup = vec![
        entry("meta.yml", false),
        entry("Message/", true),
        entry("Message/Msg_EUen.product.sarc", false),
        entry("Message/Msg_EUfr.product.sarc", false),
        entry("Msg_EUen.product.sarc", false),
    ];
    assert_eq!(
        rebuild_plan(&backup, &added),
        vec![
            Action::Copy(0),
            Action::Directory(1),
            Action::Copy(3),
            Action::Copy(4),
            Action::Add(0),
            Action::Add(1),
        ]
    );
    assert_eq!(rebuild_plan(&Vec::new(), &added), vec![Action::Add(0), Action::Add(1)]);
    assert!(added_names(&Vec::new()).is_none());
}
