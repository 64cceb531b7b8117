use game_scanner::bytes::{bytes_before, byte_position, find_bytes};
use game_scanner::text::{
    char_vec, concat3, concat_str, split_nonempty, str_contains, str_ends_with, trim_end_char,
};

#[test]
fn find_bytes_gives_first_occurrence() {
    let hay = [1u8, 2, 3, 1, 2, 3];
    assert_eq!(find_bytes(&hay, &[2, 3]), Some(1));
    assert_eq!(find_bytes(&hay, &[3, 1]), Some(2));
    assert_eq!(find_bytes(&hay, &[1, 2, 3, 1, 2, 3]), Some(0));
}

#[test]
fn find_bytes_absent_or_too_long() {
    assert_eq!(find_bytes(&[1u8, 2, 3], &[3, 2]), None);
    assert_eq!(find_bytes(&[1u8, 2], &[1, 2, 3]), None);
    assert_eq!(find_bytes(&[], &[0u8]), None);
}

#[test]
fn find_bytes_title_key() {
    let data = b"xxTITLEyyTITLE";
    assert_eq!(find_bytes(data, b"TITLE"), Some(2));
}

#[test]
fn byte_position_and_prefix() {
    assert_eq!(byte_position(&[5u8, 7, 9, 7], 7), Some(1));
    assert_eq!(byte_position(&[5u8, 9], 7), None);
    assert_eq!(bytes_before(b"ULUS10041|rest", b'|'), b"ULUS10041");
    assert_eq!(bytes_before(b"no bar", b'|'), b"no bar");
}

#[test]
fn text_helpers() {
    assert_eq!(char_vec("aé"), vec!['a', 'é']);
    assert_eq!(concat_str("ab", "cd"), "abcd");
    assert_eq!(concat3("a", "b", "c"), "abc");
    assert!(str_ends_with("game.iso", ".iso"));
    assert!(!str_ends_with("game.cso", ".iso"));
    assert!(str_ends_with("x", ""));
    assert!(!str_ends_with("so", ".iso"));
    assert!(str_contains("C:/games/a.iso.bak", ".iso"));
    assert!(!str_contains("C:/games/a.cso", ".iso"));
    assert!(str_contains("abc", ""));
    assert_eq!(trim_end_char("NAME.;;", ';'), "NAME.");
    assert_eq!(trim_end_char(";;;", ';'), "");
    assert_eq!(trim_end_char("abc", ';'), "abc");
}

#[test]
fn split_ignores_empty_pieces() {
    assert_eq!(split_nonempty("/PSP_GAME//ICON0.PNG/", '/'), vec!["PSP_GAME", "ICON0.PNG"]);
    assert_eq!(split_nonempty("", '/'), Vec::<String>::new());
    assert_eq!(split_nonempty("///", '/'), Vec::<String>::new());
    assert_eq!(split_nonempty("a", '/'), vec!["a"]);
}
