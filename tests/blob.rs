use gity::{Blob, Object, ObjectType};

#[test]
fn empty_blob() {
    let blob = Blob::new("file.txt".to_string(), "".to_string());
    assert_eq!(blob.get_hash(), "e69de29bb2d1d6434b8b29ae775ad8c2e48c5391");
}

#[test]
fn hello_world_blob() {
    let blob = Blob::new("file.txt".to_string(), "hello world".to_string());
    assert_eq!(blob.get_hash(), "95d09f2b10159347eece71399a7e2e907ea3df4f");
}

#[test]
fn readme_blob() {
    let blob = Blob::new("README.md".to_string(), "#42-ssl_md5\nThis is a project from 42 School that aims to reimplement the md5 and sha256 hashing function. The goal is to understand the internal workings of cryptographic hash functions and implement them from scratch in C.".to_string());
    assert_eq!(blob.get_hash(), "0eacb9f1b5e88fc03fe5130bc1fe636f66c2efd8");
}

#[test]
fn blob_hash_is_the_same_twice_and_ignores_the_name() {
    let a = Blob::new("a.txt".to_string(), "same bytes".to_string());
    let b = Blob::new("a.txt".to_string(), "same bytes".to_string());
    let c = Blob::new("other.md".to_string(), "same bytes".to_string());
    assert_eq!(a.get_hash(), b.get_hash());
    assert_eq!(a.get_hash(), c.get_hash());
    let d = Blob::new("a.txt".to_string(), "other bytes".to_string());
    assert_ne!(a.get_hash(), d.get_hash());
}

#[test]
fn blob_accessors() {
    let blob = Blob::new("file.txt".to_string(), "hello world".to_string());
    assert_eq!(blob.get_name(), "file.txt");
    assert_eq!(blob.get_content(), b"hello world".to_vec());
    assert!(matches!(blob.get_type(), ObjectType::Blob));
}

#[test]
fn blob_raw_data_has_type_and_length_header() {
    let object = Object::Blob(Blob::new("file.txt".to_string(), "hello world".to_string()));
    assert_eq!(object.get_raw_data(), b"blob 11\0hello world".to_vec());
    let empty = Object::Blob(Blob::new("e".to_string(), "".to_string()));
    assert_eq!(empty.get_raw_data(), b"blob 0\0".to_vec());
}

#[test]
fn blob_non_ascii_content_is_hashed_as_utf8() {
    let object = Object::Blob(Blob::new("f".to_string(), "é".to_string()));
    assert_eq!(object.get_raw_data(), vec![98, 108, 111, 98, 32, 50, 0, 0xc3, 0xa9]);
}

#[test]
fn storage_location_splits_the_hash() {
    let object = Object::Blob(Blob::new("file.txt".to_string(), "".to_string()));
    let (dir, file) = object.storage_location();
    assert_eq!(dir, "e6");
    assert_eq!(file, "9de29bb2d1d6434b8b29ae775ad8c2e48c5391");
}

#[test]
fn object_type_tags() {
    assert_eq!(ObjectType::Blob.as_str(), "blob");
    assert_eq!(ObjectType::Tree.as_str(), "tree");
    assert_eq!(ObjectType::Commit.as_str(), "commit");
    assert!(matches!(ObjectType::from_str("blob"), Some(ObjectType::Blob)));
    assert!(matches!(ObjectType::from_str("tree"), Some(ObjectType::Tree)));
    assert!(matches!(ObjectType::from_str("commit"), Some(ObjectType::Commit)));
    assert!(ObjectType::from_str("Blob").is_none());
    assert!(ObjectType::from_str("").is_none());
    assert!(ObjectType::from_str("commits").is_none());
}
