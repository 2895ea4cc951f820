use open_depacker::scan::{is_scan_candidate, max_scan_depth, scan_offset_count, ScanState};

#[test]
fn walk_depth_follows_recursion_flag() {
    assert_eq!(max_scan_depth(false), 1);
    assert_eq!(max_scan_depth(true), usize::MAX);
}

#[test]
fn listings_and_directories_are_not_scanned() {
    assert!(is_scan_candidate("disk/game.adf", true));
    assert!(!is_scan_candidate("disk/game.adf.listing", true));
    assert!(!is_scan_candidate("disk/game.adf", false));
    assert!(is_scan_candidate(".listin", true));
    assert!(!is_scan_candidate(".listing", true));
    assert!(is_scan_candidate("a.listinG", true));
    assert!(is_scan_candidate("", true));
    assert!(is_scan_candidate("ä.lis", true));
}

#[test]
fn same_contents_are_written_once() {
    let mut state = ScanState::new();
    assert_eq!(state.dir_entry, 0);
    state.begin_archive();
    assert!(state.admit_entry(b"abc"));
    assert!(!state.admit_entry(b"abc"));
    assert!(state.admit_entry(b"abd"));
    assert!(state.did_write);
    state.end_archive();
    assert_eq!(state.dir_entry, 1);
    // the same archive found again at a later offset writes nothing
    state.begin_archive();
    assert!(!state.admit_entry(b"abc"));
    assert!(!state.admit_entry(b"abd"));
    assert!(!state.did_write);
    state.end_archive();
    assert_eq!(state.dir_entry, 1);
    assert_eq!(state.seen.len(), 2);
}

#[test]
fn entries_are_told_apart_by_sha256() {
    let mut state = ScanState::new();
    assert!(state.admit_entry(b"abc"));
    let expected: [u8; 32] = [
        0xba, 0x78, 0x16, 0xbf, 0x8f, 0x01, 0xcf, 0xea, 0x41, 0x41, 0x40, 0xde, 0x5d, 0xae,
        0x22, 0x23, 0xb0, 0x03, 0x61, 0xa3, 0x96, 0x17, 0x7a, 0x9c, 0xb4, 0x10, 0xff, 0x61,
        0xf2, 0x00, 0x15, 0xad,
    ];
    assert_eq!(state.seen[0], expected.to_vec());
}

#[test]
fn every_offset_but_the_last_three_is_tried() {
    assert_eq!(scan_offset_count(3), 0);
    assert_eq!(scan_offset_count(100), 97);
}

#[test]
fn ending_an_archive_that_wrote_nothing_keeps_the_directory() {
    let mut state = ScanState::new();
    state.dir_entry = i32::MAX;
    state.begin_archive();
    state.end_archive();
    assert_eq!(state.dir_entry, i32::MAX);
}
