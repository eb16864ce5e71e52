use tack::nar::{b64, hash_path, sort_entries, NarEntry, NarError, NarNode};

fn file(contents: &[u8], mode: u32) -> NarNode {
    NarNode::Regular { mode, size: contents.len() as u64, contents: contents.to_vec() }
}

fn entry(name: &str, node: NarNode) -> NarEntry {
    NarEntry { name: name.as_bytes().to_vec(), node }
}

fn hash(n: &NarNode) -> String {
    match hash_path(n) {
        Ok(s) => s,
        Err(_) => panic!("hashing failed"),
    }
}

#[test]
fn b64_rfc4648_vectors() {
    assert_eq!(b64(b""), "");
    assert_eq!(b64(b"f"), "Zg==");
    assert_eq!(b64(b"fo"), "Zm8=");
    assert_eq!(b64(b"foo"), "Zm9v");
    assert_eq!(b64(b"foob"), "Zm9vYg==");
    assert_eq!(b64(b"fooba"), "Zm9vYmE=");
    assert_eq!(b64(b"foobar"), "Zm9vYmFy");
    assert_eq!(b64(&[0xfb, 0xff]), "+/8=");
}

#[test]
fn b64_of_digest_is_44_chars() {
    let d = [7u8; 32];
    let s = b64(&d);
    assert_eq!(s.len(), 44);
    assert!(s.ends_with('='));
}

#[test]
fn hash_regular_file() {
    assert_eq!(hash(&file(b"hello\n", 0o644)), "sha256-HDfQGvQL4ugGkd48w99EN3ppmvuxfGjwgJZLL9Bx/BM=");
}

#[test]
fn hash_executable_file() {
    assert_eq!(hash(&file(b"#!/bin/sh\n", 0o755)), "sha256-YoPBZoJg+QPRqJXAzWuCL6S2h2K7CxfO3vLTnZfiZVQ=");
}

#[test]
fn hash_symlink() {
    let n = NarNode::Symlink { target: b"target/path".to_vec() };
    assert_eq!(hash(&n), "sha256-j5ZH0kgvW6DvLZgZcoomRGobashdVOKwuAi3++qWrEw=");
}

#[test]
fn hash_empty_directory() {
    assert_eq!(hash(&NarNode::directory(Vec::new())), "sha256-pQpattmS9VmO3ZIQUFn66az8GSmB4IvYhTTCFn6SUmo=");
}

#[test]
fn hash_directory_entries_sorted_whatever_the_listing_order() {
    let inner = || NarNode::directory(vec![entry("x", NarNode::Symlink { target: b"../b.txt".to_vec() })]);
    let d1 = NarNode::directory(vec![entry("b.txt", file(b"bbb", 0o644)), entry("a", inner())]);
    let d2 = NarNode::directory(vec![entry("a", inner()), entry("b.txt", file(b"bbb", 0o644))]);
    let want = "sha256-ORgrBxIBlgy7pkhlpyf/ZVAQ5fEao0qWpg10qQS2ZSw=";
    assert_eq!(hash(&d1), want);
    assert_eq!(hash(&d2), want);
}

#[test]
fn sort_entries_orders_bytewise() {
    let es = vec![
        entry("b", file(b"", 0)),
        entry("B", file(b"", 0)),
        entry("ab", file(b"", 0)),
        entry("a", file(b"", 0)),
    ];
    let sorted = sort_entries(es);
    let names: Vec<&[u8]> = sorted.iter().map(|e| e.name.as_slice()).collect();
    assert_eq!(names, vec![&b"B"[..], &b"a"[..], &b"ab"[..], &b"b"[..]]);
}

#[test]
fn size_mismatch_names_the_file() {
    let bad = NarNode::Regular { mode: 0o644, size: 10, contents: b"short".to_vec() };
    let d = NarNode::directory(vec![
        entry("ok", file(b"fine", 0o644)),
        entry("sub", NarNode::directory(vec![entry("grown", bad)])),
    ]);
    match hash_path(&d) {
        Err(NarError::SizeChanged { path }) => {
            assert_eq!(path, vec![b"sub".to_vec(), b"grown".to_vec()]);
        }
        Ok(_) => panic!("expected a size error"),
    }
}

#[test]
fn size_mismatch_at_root() {
    let bad = NarNode::Regular { mode: 0, size: 1, contents: Vec::new() };
    match hash_path(&bad) {
        Err(NarError::SizeChanged { path }) => assert!(path.is_empty()),
        Ok(_) => panic!("expected a size error"),
    }
}

#[test]
fn only_the_owner_execute_bit_marks_executable() {
    assert_eq!(hash(&file(b"hello\n", 0o654)), hash(&file(b"hello\n", 0o644)));
    assert_eq!(hash(&file(b"hello\n", 0o645)), hash(&file(b"hello\n", 0o644)));
    assert_eq!(hash(&file(b"#!/bin/sh\n", 0o744)), hash(&file(b"#!/bin/sh\n", 0o755)));
}

#[test]
fn sri_hash_is_51_chars_ending_in_padding() {
    let s = hash(&file(b"x", 0o644));
    assert!(s.starts_with("sha256-"));
    assert_eq!(s.len(), 51);
    assert!(s.ends_with('='));
}

#[test]
fn size_error_message_names_the_path() {
    let e = NarError::SizeChanged { path: vec![b"sub".to_vec(), b"grown".to_vec()] };
    assert_eq!(e.message(b"/tmp/src"), b"/tmp/src/sub/grown changed size during hashing".to_vec());
    assert_eq!(e.message(b"/tmp/src/"), b"/tmp/src/sub/grown changed size during hashing".to_vec());
    let root = NarError::SizeChanged { path: vec![] };
    assert_eq!(root.message(b"/f"), b"/f changed size during hashing".to_vec());
}
