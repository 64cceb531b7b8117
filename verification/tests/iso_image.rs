use game_scanner::files::{extraction_target, ExtractError};
use game_scanner::iso::{
    block_offset, entry_component_name, find_entry, parse_directory_entry, read_dir_contents,
    read_volume_root, DirectoryEntry, IsoError, LookupStep, PathLookup,
};

fn record(lba: u32, size: u32, is_dir: bool, name: &[u8]) -> Vec<u8> {
    let len = 33 + name.len() + (name.len() + 1) % 2;
    let mut r = vec![0u8; len];
    r[0] = len as u8;
    r[2..6].copy_from_slice(&lba.to_le_bytes());
    r[6..10].copy_from_slice(&lba.to_be_bytes());
    r[10..14].copy_from_slice(&size.to_le_bytes());
    r[14..18].copy_from_slice(&size.to_be_bytes());
    r[25] = if is_dir { 2 } else { 0 };
    r[32] = name.len() as u8;
    r[33..33 + name.len()].copy_from_slice(name);
    r
}

fn entry(lba: u64, size: u32, is_dir: bool, name: &str) -> DirectoryEntry {
    DirectoryEntry { lba, size, is_dir, identifier: name.to_string() }
}

fn same(a: &DirectoryEntry, b: &DirectoryEntry) -> bool {
    a.lba == b.lba && a.size == b.size && a.is_dir == b.is_dir && a.identifier == b.identifier
}

#[test]
fn parses_a_file_record() {
    let r = record(0x1234, 0x0102_0304, false, b"ICON0.PNG;1");
    let e = parse_directory_entry(&r).unwrap();
    assert_eq!(e.lba, 0x1234);
    assert_eq!(e.size, 0x0102_0304);
    assert!(!e.is_dir);
    assert_eq!(e.identifier, "ICON0.PNG");
}

#[test]
fn parses_a_directory_record() {
    let r = record(22, 2048, true, b"PSP_GAME");
    let e = parse_directory_entry(&r).unwrap();
    assert_eq!(e.lba, 22);
    assert!(e.is_dir);
    assert_eq!(e.identifier, "PSP_GAME");
}

#[test]
fn rejects_a_name_that_is_not_utf8() {
    let r = record(1, 1, false, &[0xff, 0xfe]);
    assert_eq!(parse_directory_entry(&r).err(), Some(IsoError::InvalidName));
}

#[test]
fn directory_listing_skips_dot_records() {
    let mut buf = Vec::new();
    buf.extend(record(20, 2048, true, &[0]));
    buf.extend(record(16, 2048, true, &[1]));
    buf.extend(record(30, 100, false, b"PARAM.SFO;1"));
    buf.extend(record(31, 2048, true, b"USRDIR"));
    buf.resize(2048, 0);
    let entries = read_dir_contents(&buf).unwrap();
    assert_eq!(entries.len(), 2);
    assert!(same(&entries[0], &entry(30, 100, false, "PARAM.SFO")));
    assert!(same(&entries[1], &entry(31, 2048, true, "USRDIR")));
}

#[test]
fn directory_listing_goes_on_at_the_next_block() {
    let mut buf = Vec::new();
    buf.extend(record(20, 4096, true, &[0]));
    buf.extend(record(16, 2048, true, &[1]));
    buf.extend(record(30, 100, false, b"AB"));
    buf.resize(2048, 0);
    buf.extend(record(31, 100, false, b"CD"));
    buf.resize(4096, 0);
    let entries = read_dir_contents(&buf).unwrap();
    assert_eq!(entries.len(), 2);
    assert_eq!(entries[0].identifier, "AB");
    assert_eq!(entries[1].identifier, "CD");
}

#[test]
fn directory_listing_ends_with_the_extent() {
    let mut buf = record(30, 100, false, b"AB");
    buf.push(0);
    buf.extend(record(31, 100, false, b"CD"));
    let entries = read_dir_contents(&buf).unwrap();
    assert_eq!(entries.len(), 1);
    assert_eq!(entries[0].identifier, "AB");
}

#[test]
fn directory_listing_keeps_one_letter_names() {
    let mut buf = Vec::new();
    buf.extend(record(20, 2048, true, &[0]));
    buf.extend(record(16, 2048, true, &[1]));
    buf.extend(record(40, 2048, true, b"A"));
    buf.resize(2048, 0);
    let entries = read_dir_contents(&buf).unwrap();
    assert_eq!(entries.len(), 1);
    assert_eq!(entries[0].identifier, "A");
    assert!(entries[0].is_dir);
}

#[test]
fn directory_listing_reports_truncated_records() {
    let mut buf = record(30, 100, false, b"ABC");
    buf.truncate(20);
    assert_eq!(read_dir_contents(&buf).err(), Some(IsoError::Truncated));
    assert_eq!(read_dir_contents(&[10u8, 0, 0]).err(), Some(IsoError::Truncated));
}

#[test]
fn directory_listing_of_empty_extent() {
    assert_eq!(read_dir_contents(&[]).unwrap().len(), 0);
}

#[test]
fn volume_root_is_read_from_the_primary_descriptor() {
    let mut sector = vec![0u8; 2048];
    sector[0] = 1;
    let root = record(18, 2048, true, &[0]);
    sector[156..156 + root.len()].copy_from_slice(&root);
    let e = read_volume_root(&sector).unwrap();
    assert_eq!(e.lba, 18);
    assert_eq!(e.size, 2048);
    assert!(e.is_dir);
    assert_eq!(e.identifier, "\0");
}

#[test]
fn volume_root_needs_a_primary_descriptor() {
    let mut sector = vec![0u8; 2048];
    sector[0] = 2;
    assert_eq!(read_volume_root(&sector).err(), Some(IsoError::NotPrimaryVolume));
}

#[test]
fn block_offsets() {
    assert_eq!(block_offset(16), 32768);
    assert_eq!(block_offset(0), 0);
}

#[test]
fn component_names_drop_version_and_dot() {
    assert_eq!(entry_component_name(&entry(0, 0, false, "README.;;")), "README");
    assert_eq!(entry_component_name(&entry(0, 0, false, "A.B")), "A.B");
    let list = vec![entry(1, 1, false, "X."), entry(2, 2, false, "Y"), entry(3, 3, false, "Y")];
    assert_eq!(entry_component_name(&list[0]), "X");
    assert_eq!(find_entry(&list, "Y").unwrap().lba, 2);
    assert_eq!(find_entry(&list, "X").unwrap().lba, 1);
    assert!(find_entry(&list, "Z").is_none());
}

#[test]
fn path_lookup_walks_directories() {
    let root = entry(18, 2048, true, "\0");
    let mut lookup = PathLookup::new(&root, "/PSP_GAME/ICON0.PNG");
    match lookup.step() {
        LookupStep::ReadDirectory(d) => assert_eq!(d.lba, 18),
        _ => panic!("expected a directory read"),
    }
    assert!(lookup.enter(&vec![entry(22, 2048, true, "PSP_GAME")]));
    match lookup.step() {
        LookupStep::ReadDirectory(d) => assert_eq!(d.lba, 22),
        _ => panic!("expected a directory read"),
    }
    assert!(lookup.enter(&vec![entry(40, 9, false, "PARAM.SFO"), entry(41, 7, false, "ICON0.PNG")]));
    match lookup.step() {
        LookupStep::Found(e) => assert_eq!(e.lba, 41),
        _ => panic!("expected the entry"),
    }
}

#[test]
fn path_lookup_misses() {
    let root = entry(18, 2048, true, "\0");
    let mut lookup = PathLookup::new(&root, "A/B");
    assert!(!lookup.enter(&vec![entry(22, 2048, true, "C")]));
    assert_eq!(lookup.position(), 0);
    assert!(lookup.enter(&vec![entry(22, 5, false, "A")]));
    assert!(matches!(lookup.step(), LookupStep::Missing));
}

#[test]
fn empty_path_names_the_root() {
    let root = entry(18, 2048, true, "\0");
    let lookup = PathLookup::new(&root, "/");
    match lookup.step() {
        LookupStep::Found(e) => assert_eq!(e.lba, 18),
        _ => panic!("expected the root"),
    }
}

#[test]
fn extraction_targets() {
    assert_eq!(extraction_target(None).err(), Some(ExtractError::NotFound));
    assert_eq!(
        extraction_target(Some(entry(1, 1, true, "D"))).err(),
        Some(ExtractError::IsDirectory)
    );
    assert_eq!(extraction_target(Some(entry(1, 5, false, "F"))).unwrap().size, 5);
}

#[test]
fn directory_listing_passes_over_a_record_without_its_name_byte() {
    let mut short = vec![0u8; 33];
    short[0] = 33;
    short[32] = 1;
    let mut buf = short;
    buf.extend(record(41, 10, false, b"XY"));
    let entries = read_dir_contents(&buf).unwrap();
    assert_eq!(entries.len(), 1);
    assert_eq!(entries[0].identifier, "XY");
}
