use game_scanner::files::{filter_listing, read_json};
use game_scanner::ini::{
    decode_settings, get_ini_category, get_ini_value, section_value, section_values,
    try_get_ini_category, try_get_ini_value, IniDoc, IniError, IniSection,
};
use game_scanner::ppsspp::{
    get_recent_games, get_shared_games, ppsspp_ini_path, shared_games_dir, try_get_recent_games,
    try_shared_games_dir,
};

const SETTINGS: &str = "[General]\nRemoteISOSharedDir = D:\\Games\\PSP\n[Recent]\nFileName0 = C:/psp/a.iso\nFileName1 = C:/psp/b.cso\nFileName2 = C:/psp/c.iso\n";

fn doc() -> IniDoc {
    IniDoc {
        sections: vec![
            IniSection { name: None, entries: vec![] },
            IniSection {
                name: Some("Recent".to_string()),
                entries: vec![
                    ("A".to_string(), "x.iso".to_string()),
                    ("B".to_string(), "".to_string()),
                    ("C".to_string(), "y.zip".to_string()),
                    ("A".to_string(), "z.iso".to_string()),
                ],
            },
            IniSection {
                name: Some("Recent".to_string()),
                entries: vec![("D".to_string(), "w.iso".to_string())],
            },
        ],
    }
}

#[test]
fn section_values_filter_by_suffix() {
    assert_eq!(section_values(&doc(), "Recent", Some(".iso")), vec!["x.iso", "z.iso"]);
    assert_eq!(section_values(&doc(), "Recent", None), vec!["x.iso", "y.zip", "z.iso"]);
    assert_eq!(section_values(&doc(), "Other", None), Vec::<String>::new());
}

#[test]
fn section_value_gives_the_first_value() {
    assert_eq!(section_value(&doc(), "Recent", "A").unwrap(), "x.iso");
    assert_eq!(section_value(&doc(), "Recent", "D").err(), Some(IniError::MissingKey));
    assert_eq!(section_value(&doc(), "Nope", "A").err(), Some(IniError::MissingSection));
}

#[test]
fn reads_recent_games() {
    assert_eq!(get_recent_games(SETTINGS), vec!["C:/psp/a.iso", "C:/psp/c.iso"]);
    assert_eq!(try_get_recent_games(SETTINGS).unwrap(), vec!["C:/psp/a.iso", "C:/psp/c.iso"]);
}

#[test]
fn reads_the_shared_folder_without_escapes() {
    assert_eq!(shared_games_dir(SETTINGS), "D:\\Games\\PSP");
    assert_eq!(try_shared_games_dir(SETTINGS).unwrap(), "D:\\Games\\PSP");
    assert_eq!(get_ini_value(SETTINGS, "Recent", "FileName1"), "C:/psp/b.cso");
    assert_eq!(try_get_ini_value(SETTINGS, "General", "Missing").err(), Some(IniError::MissingKey));
    assert_eq!(try_get_ini_value(SETTINGS, "Missing", "X").err(), Some(IniError::MissingSection));
    assert_eq!(try_shared_games_dir("[Recent]\n").err(), Some(IniError::MissingSection));
}

#[test]
fn escapes_are_read_in_categories() {
    let text = "[Recent]\nA = C:\\Windows.iso\n";
    assert_eq!(get_ini_category(text, "Recent", Some(".iso")), vec!["C:Windows.iso"]);
    assert_eq!(try_get_ini_category(text, "Other", None).unwrap(), Vec::<String>::new());
}

#[test]
fn malformed_settings_are_reported() {
    let text = "[Recent\nA = x\n";
    assert!(matches!(try_get_ini_category(text, "Recent", None), Err(IniError::Parse { .. })));
    assert!(matches!(try_get_recent_games("= missing key\n"), Err(IniError::Parse { line: 1, .. })));
    assert!(matches!(try_get_ini_value(text, "Recent", "A"), Err(IniError::Parse { .. })));
}

#[test]
fn settings_files_lose_their_byte_order_mark() {
    let mut bytes = vec![0xEF, 0xBB, 0xBF];
    bytes.extend_from_slice(b"[A]\n");
    assert_eq!(decode_settings(&bytes).unwrap(), "[A]\n");
    assert_eq!(decode_settings(b"plain").unwrap(), "plain");
    assert!(decode_settings(&[0xff]).is_none());
}

#[test]
fn settings_path() {
    assert_eq!(ppsspp_ini_path("C:\\PSP"), "C:\\PSP\\SYSTEM\\ppsspp.ini");
}

#[test]
fn listing_filters() {
    let listing = vec!["D:/s/a.iso".to_string(), "D:/s/b.txt".to_string(), "D:/s/c.iso".to_string()];
    assert_eq!(get_shared_games(&listing), vec!["D:/s/a.iso", "D:/s/c.iso"]);
    assert_eq!(filter_listing(&listing, None), listing);
    assert_eq!(filter_listing(&listing, Some("b.")), vec!["D:/s/b.txt"]);
}

#[test]
fn json_documents() {
    assert!(read_json("{\"games\": []}").is_some());
    assert!(read_json("{games").is_none());
}
