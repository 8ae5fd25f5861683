use builder_cpp::hasher::{
    get_hash, hash_bytes, hex_digit, is_file_changed, load_hashes_from_file, record_paths,
    save_hash, save_hashes_to_file, to_hex, FileHasher, PathHash, CHUNK_SIZE,
};

#[test]
fn digest_of_known_text() {
    assert_eq!(hash_bytes(b"hello world"), "2aae6c35c94fcfb415dbe95f408b9ce91ee846ed");
    assert_eq!(hash_bytes(b"abc"), "a9993e364706816aba3e25717850c26c9cd0d89d");
}

#[test]
fn digest_of_nothing() {
    assert_eq!(hash_bytes(b""), "da39a3ee5e6b4b0d3255bfef95601890afd80709");
}

#[test]
fn digest_differs_from_input() {
    let digest = hash_bytes(b"2aae6c35c94fcfb415dbe95f408b9ce91ee846ed");
    assert_ne!(digest, "2aae6c35c94fcfb415dbe95f408b9ce91ee846ed");
    assert_eq!(digest.len(), 40);
}

#[test]
fn hex_digits_are_lower_case() {
    assert_eq!(hex_digit(0), '0');
    assert_eq!(hex_digit(9), '9');
    assert_eq!(hex_digit(10), 'a');
    assert_eq!(hex_digit(15), 'f');
    assert_eq!(to_hex(&vec![0x00, 0x0f, 0xa5, 0xff]), "000fa5ff");
    assert_eq!(to_hex(&vec![]), "");
}

#[test]
fn hasher_fed_in_pieces_gives_the_digest_of_the_whole() {
    let mut hasher = FileHasher::new(11);
    assert_eq!(hasher.wanted(), 11);
    hasher.feed(b"hello");
    assert_eq!(hasher.wanted(), 6);
    hasher.feed(b" world");
    assert_eq!(hasher.wanted(), 0);
    assert_eq!(hasher.finish(), "2aae6c35c94fcfb415dbe95f408b9ce91ee846ed");
}

#[test]
fn hasher_never_wants_more_than_a_chunk() {
    let len = (CHUNK_SIZE as u64) * 3 + 5;
    let mut hasher = FileHasher::new(len);
    assert_eq!(hasher.wanted(), CHUNK_SIZE);
    let block = vec![7u8; CHUNK_SIZE];
    hasher.feed(&block);
    hasher.feed(&block);
    hasher.feed(&block);
    assert_eq!(hasher.wanted(), 5);
    hasher.feed(&block[0..5]);
    assert_eq!(hasher.wanted(), 0);
    let whole = vec![7u8; CHUNK_SIZE * 3 + 5];
    assert_eq!(hasher.finish(), hash_bytes(&whole));
}

#[test]
fn hasher_stops_when_the_file_ends_early() {
    let mut hasher = FileHasher::new(100);
    hasher.feed(b"abc");
    assert_eq!(hasher.wanted(), 97);
    hasher.feed(b"");
    assert_eq!(hasher.wanted(), 0);
    assert_eq!(hasher.finish(), "a9993e364706816aba3e25717850c26c9cd0d89d");
}

#[test]
fn unknown_path_has_no_hash_and_counts_as_changed() {
    let store = PathHash::new();
    assert_eq!(store.len(), 0);
    assert_eq!(get_hash("src/main.c", &store), None);
    assert!(is_file_changed("src/main.c", &store, "abcd"));
}

#[test]
fn saved_hash_is_found_and_unchanged() {
    let mut store = PathHash::new();
    save_hash("src/main.c", &mut store, "abcd");
    assert_eq!(get_hash("src/main.c", &store), Some("abcd".to_string()));
    assert!(!is_file_changed("src/main.c", &store, "abcd"));
    assert!(is_file_changed("src/main.c", &store, "abce"));
    assert!(is_file_changed("src/other.c", &store, "abcd"));
}

#[test]
fn saving_again_overwrites_in_place() {
    let mut store = PathHash::new();
    save_hash("a.c", &mut store, "1");
    save_hash("b.c", &mut store, "2");
    save_hash("a.c", &mut store, "3");
    assert_eq!(store.len(), 2);
    assert_eq!(store.path_at(0), "a.c");
    assert_eq!(store.digest_at(0), "3");
    assert_eq!(store.path_at(1), "b.c");
    assert_eq!(store.find("b.c"), 1);
    assert_eq!(store.find("c.c"), 2);
}

#[test]
fn hash_file_is_one_line_per_entry() {
    let mut store = PathHash::new();
    store.set("src/a.c", "11");
    store.set("src/b.h", "22");
    assert_eq!(save_hashes_to_file(&store), "src/a.c 11\nsrc/b.h 22\n");
    assert_eq!(save_hashes_to_file(&PathHash::new()), "");
}

#[test]
fn hash_file_is_read_back() {
    let store = load_hashes_from_file("src/a.c 11\nsrc/b.h 22\n");
    assert_eq!(store.len(), 2);
    assert_eq!(get_hash("src/a.c", &store), Some("11".to_string()));
    assert_eq!(get_hash("src/b.h", &store), Some("22".to_string()));
}

#[test]
fn hash_file_round_trip() {
    let mut store = PathHash::new();
    store.set("src/a.c", &hash_bytes(b"int main() {}"));
    store.set("src/include/a.h", &hash_bytes(b"#pragma once"));
    let text = save_hashes_to_file(&store);
    let read = load_hashes_from_file(&text);
    assert_eq!(read.len(), 2);
    assert_eq!(save_hashes_to_file(&read), text);
}

#[test]
fn missing_hash_file_gives_empty_store() {
    assert_eq!(load_hashes_from_file("").len(), 0);
}

#[test]
fn hash_file_tolerates_odd_lines() {
    let store = load_hashes_from_file("a.c 1\n\nbroken\nb.c 2 extra\r\nc.c 3");
    assert_eq!(store.len(), 3);
    assert_eq!(get_hash("a.c", &store), Some("1".to_string()));
    assert_eq!(get_hash("broken", &store), None);
    assert_eq!(get_hash("b.c", &store), Some("2".to_string()));
    assert_eq!(get_hash("c.c", &store), Some("3".to_string()));
}

#[test]
fn later_line_wins_for_the_same_path() {
    let store = load_hashes_from_file("a.c 1\na.c 2\n");
    assert_eq!(store.len(), 1);
    assert_eq!(get_hash("a.c", &store), Some("2".to_string()));
}

#[test]
fn path_with_space_is_not_read_back() {
    let mut store = PathHash::new();
    store.set("my file.c", "11");
    let read = load_hashes_from_file(&save_hashes_to_file(&store));
    assert_eq!(get_hash("my file.c", &read), None);
    assert_eq!(get_hash("my", &read), Some("file.c".to_string()));
}

#[test]
fn recording_takes_digests_from_the_snapshot() {
    let mut store = PathHash::new();
    store.set("a.c", "old");
    store.set("keep.c", "kept");
    let mut current = PathHash::new();
    current.set("a.c", "new");
    current.set("b.h", "fresh");
    let paths = vec!["a.c".to_string(), "b.h".to_string(), "missing.h".to_string()];
    record_paths(&mut store, &current, &paths);
    assert_eq!(get_hash("a.c", &store), Some("new".to_string()));
    assert_eq!(get_hash("b.h", &store), Some("fresh".to_string()));
    assert_eq!(get_hash("keep.c", &store), Some("kept".to_string()));
    assert_eq!(get_hash("missing.h", &store), None);
    assert_eq!(store.len(), 3);
}
