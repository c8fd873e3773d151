use gity::{Blob, Object, ObjectType, Tree};

#[test]
fn hello_world_tree() {
    let blob = Blob::new("file.txt".to_string(), "hello world".to_string());
    let tree = Tree::new("mydir".to_string(), vec![Object::Blob(blob)]);
    assert_eq!(tree.get_hash(), "6c6a54b9bfc715ac30dae119b85cdad3df15e5b2");
}

#[test]
fn multiple_blobs() {
    let blob1 = Blob::new("file.txt".to_string(), "hello world".to_string());
    let blob2 = Blob::new("file2.txt".to_string(), "hello world2".to_string());
    let tree = Tree::new("mydir".to_string(), vec![Object::Blob(blob1), Object::Blob(blob2)]);
    assert_eq!(tree.get_hash(), "f1c42276c6120e25f284e73392108dc75d670fe7");
}

#[test]
fn multiple_blobs_reverse() {
    let blob1 = Blob::new("file.txt".to_string(), "hello world".to_string());
    let blob2 = Blob::new("file2.txt".to_string(), "hello world2".to_string());
    let tree = Tree::new("mydir".to_string(), vec![Object::Blob(blob2), Object::Blob(blob1)]);
    assert_eq!(tree.get_hash(), "f1c42276c6120e25f284e73392108dc75d670fe7");
}

#[test]
fn subdirectories() {
    let blob1 = Blob::new("number.txt".to_string(), "123".to_string());
    let blob2 = Blob::new("hello.py".to_string(), "hello python".to_string());
    let subdir = Tree::new("subdir".to_string(), vec![Object::Blob(blob2)]);
    let tree = Tree::new("mydir".to_string(), vec![Object::Tree(subdir), Object::Blob(blob1)]);
    assert_eq!(tree.get_hash(), "f2221879a80b2554253e773fe73f22b91ba53caa");
}

#[test]
fn empty_tree_hash() {
    let tree = Tree::new("".to_string(), vec![]);
    assert_eq!(tree.get_hash(), "4b825dc642cb6eb9a060e54bf8d69288fbee4904");
    assert!(tree.get_content().is_empty());
}

fn three_blobs(order: [usize; 3]) -> Tree {
    let names = ["b.txt", "a.txt", "c.txt"];
    let contents = ["two", "one", "three"];
    let mut objects = Vec::new();
    for i in order {
        objects.push(Object::Blob(Blob::new(names[i].to_string(), contents[i].to_string())));
    }
    Tree::new("d".to_string(), objects)
}

#[test]
fn tree_hash_ignores_insertion_order() {
    let first = three_blobs([0, 1, 2]);
    let expected = first.get_hash().clone();
    for order in [[0, 2, 1], [1, 0, 2], [1, 2, 0], [2, 0, 1], [2, 1, 0]] {
        assert_eq!(three_blobs(order).get_hash(), &expected);
    }
}

#[test]
fn tree_children_are_sorted_by_name() {
    let tree = three_blobs([2, 0, 1]);
    let names: Vec<String> = tree.get_objects().iter().map(|o| o.get_name().clone()).collect();
    assert_eq!(names, vec!["a.txt", "b.txt", "c.txt"]);
}

#[test]
fn tree_content_records_mode_name_and_digest() {
    let blob = Blob::new("file.txt".to_string(), "".to_string());
    let sub = Tree::new("sub".to_string(), vec![]);
    let tree = Tree::new("".to_string(), vec![Object::Tree(sub), Object::Blob(blob)]);
    let mut expected = b"100644 file.txt\0".to_vec();
    expected.extend_from_slice(&hex::decode("e69de29bb2d1d6434b8b29ae775ad8c2e48c5391").unwrap());
    expected.extend_from_slice(b"40000 sub\0");
    expected.extend_from_slice(&hex::decode("4b825dc642cb6eb9a060e54bf8d69288fbee4904").unwrap());
    assert_eq!(tree.get_content(), expected);
    assert!(matches!(tree.get_type(), ObjectType::Tree));
    assert_eq!(tree.get_name(), "");
}

#[test]
fn tree_with_duplicate_names_keeps_both() {
    let a = Blob::new("same".to_string(), "1".to_string());
    let b = Blob::new("same".to_string(), "2".to_string());
    let tree = Tree::new("d".to_string(), vec![Object::Blob(a), Object::Blob(b)]);
    assert_eq!(tree.get_objects().len(), 2);
    assert_eq!(tree.get_content().len(), 2 * (7 + 5 + 20));
}
