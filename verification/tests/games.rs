use game_scanner::ppsspp::{
    game_asset_paths, get_game, get_hex, get_param_data, merge_game_paths, ppsspp_dir, GameError,
    GAME_ID_END,
};

fn param_data(title: &[u8]) -> Vec<u8> {
    let mut d = b"\0PSF\x01\x01CATEGORY\0DISC_ID\0TITLE".to_vec();
    d.extend_from_slice(&[0, 0, 0, 0, 4, 2, 0x80, 0, 0]);
    d.extend_from_slice(title);
    d.extend_from_slice(&[0u8; 20]);
    d.extend_from_slice(b"after");
    d
}

#[test]
fn title_follows_the_last_marker() {
    assert_eq!(get_param_data(&param_data(b"Lumines")), "Lumines");
}

#[test]
fn title_drops_zero_bytes() {
    assert_eq!(get_param_data(&param_data(b"Go\0od")), "Good");
}

#[test]
fn title_needs_the_key() {
    assert_eq!(get_param_data(b"no key here \x80abc"), "");
}

#[test]
fn title_needs_a_marker() {
    let mut d = b"TITLEabc".to_vec();
    d.extend_from_slice(&[0u8; 16]);
    assert_eq!(get_param_data(&d), "");
}

#[test]
fn title_must_be_utf8() {
    assert_eq!(get_param_data(&param_data(&[0xff, 0xfe])), "");
}

#[test]
fn title_area_ends_at_sixteen_zeros() {
    let mut d = b"TITLE\x80ab".to_vec();
    d.extend_from_slice(&[0u8; 16]);
    d.extend_from_slice(b"\x80zz");
    assert_eq!(get_param_data(&d), "ab");
    let mut e = b"TITLE\x80ab".to_vec();
    e.extend_from_slice(&[0u8; 15]);
    e.extend_from_slice(b"\x80zz");
    assert_eq!(get_param_data(&e), "zz");
}

#[test]
fn hex_field() {
    assert_eq!(get_hex(b"ULUS10041|xyz", GAME_ID_END).unwrap(), "ULUS10041");
    assert_eq!(get_hex(b"ABC", b'|').unwrap(), "ABC");
    assert!(get_hex(&[0xff, b'|'], b'|').is_none());
    assert_eq!(get_hex(&[0xff, 0xfe], 0xff).unwrap(), "");
}

#[test]
fn asset_paths() {
    let p = game_asset_paths("ULUS10041");
    assert_eq!(p.icon, "temp\\psp\\ULUS10041\\icon.png");
    assert_eq!(p.thumbnail, "temp\\psp\\ULUS10041\\thumb.png");
    assert_eq!(p.params, "temp\\psp\\ULUS10041\\params.sfo");
}

#[test]
fn describes_a_game() {
    let g = get_game("C:/psp/lumines.iso", b"ULUS10041|rest", &param_data(b"Lumines")).unwrap();
    assert_eq!(g.id, "ULUS10041");
    assert_eq!(g.title, "Lumines");
    assert_eq!(g.version, "");
    assert_eq!(g.path, "C:/psp/lumines.iso");
    assert_eq!(g.icon, "temp\\psp\\ULUS10041\\icon.png");
    assert_eq!(g.thumbnail, "temp\\psp\\ULUS10041\\thumb.png");
    assert_eq!(g.params, "temp\\psp\\ULUS10041\\params.sfo");
}

#[test]
fn game_id_must_be_utf8() {
    assert_eq!(get_game("x.iso", &[0xc3, b'|'], b"").err(), Some(GameError::InvalidId));
}

#[test]
fn merges_recent_and_shared_games() {
    let recent = vec!["a".to_string(), "b".to_string(), "a".to_string()];
    let shared = vec!["b".to_string(), "c".to_string(), "c".to_string(), "d".to_string()];
    assert_eq!(merge_game_paths(&recent, &shared), vec!["a", "b", "a", "c", "d"]);
    assert_eq!(merge_game_paths(&vec![], &shared), vec!["b", "c", "d"]);
}

#[test]
fn ppsspp_folder() {
    assert_eq!(ppsspp_dir("C:\\Users\\me\\Documents"), "C:\\Users\\me\\Documents\\PPSSPP\\PSP");
}

#[test]
fn merging_adds_no_duplicates() {
    let recent = vec!["a".to_string(), "b".to_string()];
    let shared = vec!["b".to_string(), "c".to_string(), "c".to_string(), "a".to_string()];
    assert_eq!(merge_game_paths(&recent, &shared), vec!["a", "b", "c"]);
}
