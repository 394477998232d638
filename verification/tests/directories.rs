use filesystem::directories::{
    allocate_block, dirent_slot, dirents_are_complete, dirents_end_in_block, encode_dirent,
    encode_dirents, find_dirent, is_dir, lexer, parse_dirents, path_start,
    payload_chunks, dirent_place, DirentPlace,
};
use filesystem::file_errors::FileError;

fn s(x: &str) -> String {
    String::from(x)
}

#[test]
fn is_dir_checks_type_bits() {
    assert!(is_dir(0o040755));
    assert!(!is_dir(0o100644));
    assert!(!is_dir(0o140000));
}

#[test]
fn lexer_splits_on_slashes() {
    assert_eq!(lexer(&s("/a/bc//d/")), vec![s("a"), s("bc"), s("d")]);
    assert_eq!(lexer(&s("")), Vec::<String>::new());
    assert_eq!(lexer(&s("///")), Vec::<String>::new());
    assert_eq!(lexer(&s("x")), vec![s("x")]);
}

#[test]
fn lexer_escapes_slash() {
    assert_eq!(lexer(&s("a\\/b/c")), vec![s("a/b"), s("c")]);
    // A pending escape survives ordinary characters until the next slash.
    assert_eq!(lexer(&s("a\\b/c")), vec![s("ab/c")]);
}

#[test]
fn lexer_names_are_nonempty_and_slash_free() {
    for t in lexer(&s("//one/two///three")) {
        assert!(!t.is_empty());
        assert!(!t.contains('/'));
    }
}

#[test]
fn dirent_layout() {
    assert_eq!(encode_dirent(&s("ab"), 0x01020304), vec![2, 0, b'a', b'b', 4, 3, 2, 1]);
}

#[test]
fn dirents_round_trip() {
    let ds = vec![(s("."), 5usize), (s(".."), 0usize), (s("héllo"), 77usize)];
    let bytes = encode_dirents(&ds);
    assert!(dirents_are_complete(&bytes));
    assert_eq!(parse_dirents(&bytes), Ok(ds));
}

#[test]
fn dirents_empty() {
    assert_eq!(parse_dirents(&[]), Ok(vec![]));
}

#[test]
fn dirents_invalid_utf8_is_corrupted() {
    let bytes = vec![1, 0, 0xFF, 1, 0, 0, 0];
    assert!(dirents_are_complete(&bytes));
    assert_eq!(parse_dirents(&bytes), Err(FileError::CorruptedINode));
}

#[test]
fn dirents_truncated_are_incomplete() {
    assert!(!dirents_are_complete(&[3, 0, b'a', b'b']));
    assert!(!dirents_are_complete(&[1]));
}

#[test]
fn find_dirent_first_match() {
    let ds = vec![(s("a"), 1usize), (s("b"), 2usize), (s("b"), 3usize)];
    assert_eq!(find_dirent(&ds, &s("b")), Some(1));
    assert_eq!(find_dirent(&ds, &s("c")), None);
}

#[test]
fn dirent_slot_after_existing_entries() {
    let mut buf = vec![0u8; 4096];
    let e = encode_dirent(&s("abc"), 9);
    buf[14..14 + e.len()].copy_from_slice(&e);
    assert!(dirents_end_in_block(&buf));
    assert_eq!(dirent_slot(&buf, 20), Some(14 + 9));
    assert_eq!(dirent_slot(&buf, 4096), None);
}

#[test]
fn dirents_running_off_the_block() {
    let mut buf = vec![0u8; 40];
    buf[14] = 200;
    assert!(!dirents_end_in_block(&buf));
}

#[test]
fn allocate_block_takes_first_free() {
    let mut bitmap = vec![0b0000_1011u8, 0];
    assert_eq!(allocate_block(&mut bitmap), Ok(2));
    assert_eq!(bitmap, vec![0b0000_1111, 0]);
    let mut full = vec![0xFFu8];
    assert_eq!(allocate_block(&mut full), Err(FileError::NoMoreBlocks));
    assert_eq!(full, vec![0xFF]);
}

#[test]
fn path_start_root_or_current() {
    assert_eq!(path_start(&s(""), 7), 0);
    assert_eq!(path_start(&s("/a"), 7), 0);
    assert_eq!(path_start(&s("a/b"), 7), 7);
}

#[test]
fn payload_chunks_cover_the_bytes_block_by_block() {
    assert_eq!(payload_chunks(0), vec![]);
    assert_eq!(payload_chunks(10), vec![(0, 0, 10)]);
    assert_eq!(payload_chunks(4082), vec![(0, 0, 4082)]);
    assert_eq!(payload_chunks(5000), vec![(0, 0, 4082), (1, 4082, 5000)]);
    assert_eq!(payload_chunks(8164), vec![(0, 0, 4082), (1, 4082, 8164)]);
}

#[test]
fn dirent_place_first_block_with_room_else_a_new_one() {
    let mut full = vec![0u8; 4096];
    let big = encode_dirent(&"x".repeat(4070), 3);
    full[14..14 + big.len()].copy_from_slice(&big);
    let mut roomy = vec![0u8; 4096];
    let e = encode_dirent(&s("abc"), 9);
    roomy[14..14 + e.len()].copy_from_slice(&e);
    let blocks = vec![full.clone(), roomy.clone(), roomy.clone()];
    assert_eq!(dirent_place(&blocks, 20), DirentPlace::InBlock { index: 1, offset: 14 + 9 });
    let blocks = vec![full.clone(), full.clone()];
    assert_eq!(dirent_place(&blocks, 20), DirentPlace::NewBlock { logical: 2 });
    assert_eq!(dirent_place(&vec![], 20), DirentPlace::NewBlock { logical: 0 });
}
