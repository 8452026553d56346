use compi::{hash_files, has_distinct_paths, to_hex, InputFile};

fn file(path: &str, contents: &[u8]) -> InputFile {
    InputFile { path: path.to_string(), contents: Some(contents.to_vec()) }
}

fn expected_key(records: &[(&str, &[u8])]) -> String {
    let mut chain = Vec::new();
    for (path, contents) in records {
        let mut rec = format!("{}:{}", path.len(), path).into_bytes();
        rec.extend_from_slice(contents);
        chain.extend_from_slice(blake3::hash(&rec).as_bytes());
    }
    blake3::hash(&chain).to_hex().to_string()
}

#[test]
fn key_follows_the_record_format() {
    let key = hash_files(vec![file("b.txt", b"beta"), file("a.txt", b"alpha")]);
    assert_eq!(key, expected_key(&[("a.txt", b"alpha"), ("b.txt", b"beta")]));
}

#[test]
fn key_does_not_depend_on_declaration_order() {
    let one = hash_files(vec![file("x/1", b"one"), file("x/2", b"two"), file("y", b"three")]);
    let two = hash_files(vec![file("y", b"three"), file("x/1", b"one"), file("x/2", b"two")]);
    assert_eq!(one, two);
}

#[test]
fn changing_one_byte_changes_the_key() {
    let one = hash_files(vec![file("a", b"hello"), file("b", b"world")]);
    let two = hash_files(vec![file("a", b"hello"), file("b", b"worle")]);
    assert_ne!(one, two);
}

#[test]
fn path_is_part_of_the_key() {
    let one = hash_files(vec![file("a", b"same")]);
    let two = hash_files(vec![file("b", b"same")]);
    assert_ne!(one, two);
}

#[test]
fn empty_set_is_the_hash_of_nothing() {
    let key = hash_files(Vec::new());
    assert_eq!(key, "af1349b9f5f9a1a6a0404dea36dcc9499bcb25c9adc112b7cc9a93cae41f3262");
    assert_eq!(key, blake3::hash(b"").to_hex().to_string());
}

#[test]
fn unreadable_files_do_not_enter_the_key() {
    let unreadable = InputFile { path: "gone".to_string(), contents: None };
    let with = hash_files(vec![file("a", b"x"), unreadable]);
    let without = hash_files(vec![file("a", b"x")]);
    assert_eq!(with, without);
    let only = hash_files(vec![InputFile { path: "gone".to_string(), contents: None }]);
    assert_eq!(only, hash_files(Vec::new()));
}

#[test]
fn non_ascii_path_counts_bytes() {
    let key = hash_files(vec![file("é.txt", b"z")]);
    assert_eq!(key, expected_key(&[("é.txt", b"z")]));
}

#[test]
fn hex_is_lowercase_two_digits_per_byte() {
    assert_eq!(to_hex(&vec![0x00, 0xff, 0x1a, 0x09]), "00ff1a09");
    assert_eq!(to_hex(&Vec::new()), "");
}

#[test]
fn distinct_paths_check() {
    assert!(has_distinct_paths(&vec![file("a", b""), file("b", b"")]));
    assert!(!has_distinct_paths(&vec![file("a", b""), file("a", b"x")]));
}
