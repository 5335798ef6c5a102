use git_objects::object::{Entry, GitError, Object};

const HELLO: &str = "ce013625030ba8dba906f756967f9e9ca394464a";
const EMPTY_TREE: &str = "4b825dc642cb6eb9a060e54bf8d69288fbee4904";

fn hello_blob() -> Object {
    Object::blob(b"hello\n".to_vec())
}

fn entry(mode: u32, name: &str, sha1: &str) -> Entry {
    let type_ = if format!("{:o}", mode).starts_with('1') { "blob" } else { "tree" };
    Entry { mode, type_: type_.to_string(), name: name.to_string(), sha1: sha1.to_string() }
}

fn two_entry_tree_bytes() -> Vec<u8> {
    let mut body = b"100644 a.txt\0".to_vec();
    body.extend(hex_bytes(HELLO));
    body.extend(b"40000 sub\0");
    body.extend(hex_bytes(EMPTY_TREE));
    let mut plain = format!("tree {}\0", body.len()).into_bytes();
    plain.extend(body);
    plain
}

fn hex_bytes(s: &str) -> Vec<u8> {
    (0..s.len()).step_by(2).map(|i| u8::from_str_radix(&s[i..i + 2], 16).unwrap()).collect()
}

#[test]
fn blob_holds_its_length() {
    match hello_blob() {
        Object::Blob { len, content } => {
            assert_eq!(len, 6);
            assert_eq!(content, b"hello\n".to_vec());
        },
        _ => panic!("not a blob"),
    }
}

#[test]
fn blob_canonical_bytes() {
    assert_eq!(hello_blob().encode(), b"blob 6\0hello\n".to_vec());
}

#[test]
fn blob_address_matches_the_canonical_digest() {
    assert_eq!(hello_blob().get_sha1(), HELLO);
    assert_eq!(hello_blob().get_sha1(), hello_blob().get_sha1());
    assert_eq!(Object::blob(Vec::new()).get_sha1(), "e69de29bb2d1d6434b8b29ae775ad8c2e48c5391");
}

#[test]
fn blob_content_is_binary_safe() {
    let content = vec![0u8, 0xff, 0xfe, 0, 10];
    let plain = Object::blob(content.clone()).encode();
    match Object::decode(&plain) {
        Ok(Object::Blob { len, content: c }) => {
            assert_eq!(len, 5);
            assert_eq!(c, content);
        },
        other => panic!("unexpected {:?}", other),
    }
}

#[test]
fn empty_tree_address() {
    let tree = Object::tree(Vec::new()).unwrap();
    assert_eq!(tree.encode(), b"tree 0\0".to_vec());
    assert_eq!(tree.get_sha1(), EMPTY_TREE);
}

#[test]
fn entry_bytes_are_octal_mode_name_and_raw_address() {
    let e = entry(0o100644, "a.txt", HELLO);
    let mut expected = b"100644 a.txt\0".to_vec();
    expected.extend(hex_bytes(HELLO));
    assert_eq!(e.to_bytes(), expected);
    assert_eq!(e.len(), 33);
}

#[test]
fn tree_from_entries_counts_their_bytes() {
    let tree = Object::tree(vec![entry(0o100644, "a.txt", HELLO), entry(0o40000, "sub", EMPTY_TREE)])
        .unwrap();
    match &tree {
        Object::Tree { len, entries } => {
            assert_eq!(*len, 63);
            assert_eq!(entries.len(), 2);
        },
        _ => panic!("not a tree"),
    }
    assert_eq!(tree.encode(), two_entry_tree_bytes());
    assert_eq!(tree.get_sha1(), "7a470b9a36089343017f7b179b2bec6a56f208e1");
}

#[test]
fn entry_from_object_takes_the_object_address() {
    let e = Entry::from_object("hello.txt".to_string(), 0o100644, &hello_blob()).unwrap();
    assert_eq!(e, entry(0o100644, "hello.txt", HELLO));
    let d = Entry::from_object("sub".to_string(), 0o40755, &Object::tree(Vec::new()).unwrap())
        .unwrap();
    assert_eq!(d.type_, "tree");
    assert_eq!(d.sha1, EMPTY_TREE);
}

#[test]
fn entry_from_object_rejects_a_nul_in_the_name() {
    assert_eq!(
        Entry::from_object("a\0b".to_string(), 0o100644, &hello_blob()),
        Err(GitError::UnreadableName())
    );
}

#[test]
fn decode_blob() {
    match Object::decode(b"blob 6\0hello\n") {
        Ok(Object::Blob { len, content }) => {
            assert_eq!(len, 6);
            assert_eq!(content, b"hello\n".to_vec());
        },
        other => panic!("unexpected {:?}", other),
    }
}

#[test]
fn decode_tree_keeps_entry_order() {
    match Object::decode(&two_entry_tree_bytes()) {
        Ok(Object::Tree { len, entries }) => {
            assert_eq!(len, 63);
            assert_eq!(
                entries,
                vec![entry(0o100644, "a.txt", HELLO), entry(0o40000, "sub", EMPTY_TREE)]
            );
            assert_eq!(entries[0].type_, "blob");
            assert_eq!(entries[1].type_, "tree");
        },
        other => panic!("unexpected {:?}", other),
    }
}

#[test]
fn decode_rejects_an_unknown_type() {
    assert_eq!(Object::decode(b"commit 10\00123456789"), Err(GitError::CorruptObject()));
}

#[test]
fn decode_rejects_a_truncated_entry() {
    let mut plain = two_entry_tree_bytes();
    plain.truncate(plain.len() - 5);
    let body_len = plain.len() - b"tree 63\0".len();
    let mut fixed = format!("tree {}\0", body_len).into_bytes();
    fixed.extend(&plain[b"tree 63\0".len()..]);
    assert_eq!(Object::decode(&fixed), Err(GitError::CorruptObject()));
}

#[test]
fn decode_rejects_missing_delimiters_and_wrong_lengths() {
    assert_eq!(Object::decode(b"blob"), Err(GitError::CorruptObject()));
    assert_eq!(Object::decode(b"blob 6"), Err(GitError::CorruptObject()));
    assert_eq!(Object::decode(b"blob x\0hello\n"), Err(GitError::CorruptObject()));
    assert_eq!(Object::decode(b"blob 5\0hello\n"), Err(GitError::CorruptObject()));
    assert_eq!(Object::decode(b""), Err(GitError::CorruptObject()));
}

#[test]
fn decode_rejects_a_bad_mode() {
    let mut body = b"10064x a\0".to_vec();
    body.extend(hex_bytes(HELLO));
    let mut plain = format!("tree {}\0", body.len()).into_bytes();
    plain.extend(body);
    assert_eq!(Object::decode(&plain), Err(GitError::CorruptObject()));
}

#[test]
fn error_messages() {
    assert_eq!(GitError::InvalidArgs("why".to_string()).message(), "why");
    assert_eq!(GitError::IoError("disk".to_string()).message(), "disk");
    assert_eq!(GitError::CorruptFile().message(), "Could not read corrupted file");
    assert_eq!(GitError::CorruptObject().message(), "Corrupted object");
    assert_eq!(GitError::InvalidAddress().message(), "Not a valid object name");
    assert_eq!(GitError::UnreadableName().message(), "File name cannot be stored");
}
