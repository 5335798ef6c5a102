use flate2::write::ZlibEncoder;
use flate2::Compression;
use git_objects::object::{GitError, Object};
use std::io::Write;
use git_objects::store::{is_ignored, path_for};

const HELLO: &str = "ce013625030ba8dba906f756967f9e9ca394464a";

#[test]
fn store_then_read_gives_the_blob_back() {
    let blob = Object::blob(b"hello\n".to_vec());
    let w = blob.to_loose();
    assert_eq!(w.address, HELLO);
    assert_ne!(w.data, b"blob 6\0hello\n".to_vec());
    match Object::read_from_sha1(&w.address, &w.data) {
        Ok(Object::Blob { len, content }) => {
            assert_eq!(len, 6);
            assert_eq!(content, b"hello\n".to_vec());
        },
        other => panic!("unexpected {:?}", other),
    }
}

#[test]
fn store_then_read_gives_the_tree_back() {
    let tree = Object::tree(Vec::new()).unwrap();
    let w = tree.to_loose();
    assert_eq!(Object::read_from_sha1(&w.address, &w.data), Ok(tree));
}

#[test]
fn storing_twice_writes_the_same() {
    let blob = Object::blob(b"hello\n".to_vec());
    let a = blob.to_loose();
    let b = blob.to_loose();
    assert_eq!(a.address, b.address);
    assert_eq!(a.dir, b.dir);
    assert_eq!(a.file, b.file);
    assert_eq!(
        Object::read_from_sha1(&a.address, &a.data),
        Object::read_from_sha1(&b.address, &b.data)
    );
}

#[test]
fn path_for_splits_after_two_digits() {
    let (dir, file) = path_for(HELLO).unwrap();
    assert_eq!(dir, "ce");
    assert_eq!(file, "013625030ba8dba906f756967f9e9ca394464a");
    assert_eq!(format!("{}{}", dir, file), HELLO);
}

#[test]
fn path_for_rejects_malformed_addresses() {
    assert_eq!(path_for("ce01"), Err(GitError::InvalidAddress()));
    assert_eq!(path_for(&HELLO.to_uppercase()), Err(GitError::InvalidAddress()));
    assert_eq!(path_for(&format!("{}0", HELLO)), Err(GitError::InvalidAddress()));
    assert_eq!(path_for("zz013625030ba8dba906f756967f9e9ca394464a"), Err(GitError::InvalidAddress()));
}

#[test]
fn read_rejects_a_bad_address() {
    let w = Object::blob(b"hello\n".to_vec()).to_loose();
    assert_eq!(Object::read_from_sha1("nope", &w.data), Err(GitError::InvalidAddress()));
}

#[test]
fn read_rejects_bytes_that_do_not_inflate() {
    assert_eq!(Object::read_from_sha1(HELLO, b"not zlib"), Err(GitError::CorruptFile()));
    let w = Object::blob(b"hello\n".to_vec()).to_loose();
    let cut = &w.data[..w.data.len() / 2];
    assert_eq!(Object::read_from_sha1(HELLO, cut), Err(GitError::CorruptFile()));
}

fn zlib(bytes: &[u8]) -> Vec<u8> {
    let mut e = ZlibEncoder::new(Vec::new(), Compression::default());
    e.write_all(bytes).unwrap();
    e.finish().unwrap()
}

#[test]
fn read_rejects_an_inflated_object_of_unknown_type() {
    let stored = zlib(b"commit 10\00123456789");
    assert_eq!(Object::read_from_sha1(HELLO, &stored), Err(GitError::CorruptObject()));
}

#[test]
fn read_accepts_another_compressor_output() {
    let stored = zlib(b"blob 6\0hello\n");
    assert_eq!(Object::read_from_sha1(HELLO, &stored), Ok(Object::blob(b"hello\n".to_vec())));
}

#[test]
fn ignored_names() {
    assert!(is_ignored("target"));
    assert!(is_ignored(".git"));
    assert!(!is_ignored("src"));
    assert!(!is_ignored(".gitignore"));
}

#[test]
fn read_tree_keeps_the_stored_entry_order() {
    let x = [0x11u8; 20];
    let y = [0x22u8; 20];
    let mut plain = b"tree 63\0100644 a.txt\0".to_vec();
    plain.extend(x);
    plain.extend(b"40000 sub\0");
    plain.extend(y);
    match Object::read_from_sha1(HELLO, &zlib(&plain)) {
        Ok(Object::Tree { len, entries }) => {
            assert_eq!(len, 63);
            assert_eq!(entries.len(), 2);
            assert_eq!(entries[0].name, "a.txt");
            assert_eq!(entries[0].sha1, "11".repeat(20));
            assert_eq!(entries[0].type_, "blob");
            assert_eq!(entries[0].mode, 0o100644);
            assert_eq!(entries[1].name, "sub");
            assert_eq!(entries[1].sha1, "22".repeat(20));
            assert_eq!(entries[1].type_, "tree");
            assert_eq!(entries[1].mode, 0o40000);
        },
        other => panic!("unexpected {:?}", other),
    }
}
