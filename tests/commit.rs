use gity::{Blob, Commit, Object, Signature, Timestamp, Tree, User};

fn signature(seconds: i64, utc_offset: i32) -> Signature {
    Signature {
        user: User {
            username: "tdameros".to_string(),
            email: "tdameros@something.com".to_string(),
        },
        date_time: Timestamp { seconds, utc_offset },
    }
}

#[test]
fn simple_commit() {
    let blob = Blob::new("file.txt".to_string(), "".to_string());
    let tree = Tree::new("".to_string(), vec![Object::Blob(blob)]);
    let user = signature(1751551520, 2 * 3600);
    let commit = Commit::new("first commit".to_string(), tree, user, None);
    assert_eq!(commit.get_hash(), "14a16a8d50b0bea47b6277b3500dde4f5e9be43a");
}

#[test]
fn multiple_commits() {
    let blob_file_txt = Blob::new("file.txt".to_string(), "".to_string());
    let tree = Tree::new("".to_string(), vec![Object::Blob(blob_file_txt)]);
    let sig = signature(1751551520, 2 * 3600);
    let commit = Commit::new("first commit".to_string(), tree, sig.clone(), None);
    assert_eq!(commit.get_hash(), "14a16a8d50b0bea47b6277b3500dde4f5e9be43a");
    let blob_file_txt = Blob::new("file.txt".to_string(), "".to_string());
    let blob_hello_py = Blob::new("hello.py".to_string(), "".to_string());
    let second_tree = Tree::new(
        "".to_string(),
        vec![Object::Blob(blob_file_txt), Object::Blob(blob_hello_py)],
    );
    let second_signature = signature(1751551598, 2 * 3600);
    let second_commit = Commit::new("second commit".to_string(), second_tree, second_signature, Some(commit));
    assert_eq!(second_commit.get_hash(), "87d97756f779ec23e8f46aa0b73e0f0423d2d5ea");
}

fn empty_tree() -> Tree {
    Tree::new("".to_string(), vec![])
}

#[test]
fn commit_content_rows() {
    let root = Commit::new("root".to_string(), empty_tree(), signature(5, 0), None);
    let root_hash = root.get_hash().clone();
    let commit = Commit::new("next".to_string(), empty_tree(), signature(-5, -19800), Some(root));
    let expected = format!(
        "tree 4b825dc642cb6eb9a060e54bf8d69288fbee4904\nparent {}\nauthor tdameros <tdameros@something.com> -5 -0530\ncommitter tdameros <tdameros@something.com> -5 -0530\n\nnext\n",
        root_hash
    );
    assert_eq!(commit.get_content(), expected.into_bytes());
    assert_eq!(commit.get_name(), "next");
}

#[test]
fn commit_hash_depends_on_every_input() {
    let base = Commit::new("m".to_string(), empty_tree(), signature(100, 3600), None);
    let same = Commit::new("m".to_string(), empty_tree(), signature(100, 3600), None);
    assert_eq!(base.get_hash(), same.get_hash());
    let other_message = Commit::new("n".to_string(), empty_tree(), signature(100, 3600), None);
    let other_time = Commit::new("m".to_string(), empty_tree(), signature(101, 3600), None);
    let other_offset = Commit::new("m".to_string(), empty_tree(), signature(100, 0), None);
    let tree = Tree::new("".to_string(), vec![Object::Blob(Blob::new("x".to_string(), "".to_string()))]);
    let other_tree = Commit::new("m".to_string(), tree, signature(100, 3600), None);
    let parent = Commit::new("p".to_string(), empty_tree(), signature(1, 0), None);
    let with_parent = Commit::new("m".to_string(), empty_tree(), signature(100, 3600), Some(parent));
    for c in [&other_message, &other_time, &other_offset, &other_tree, &with_parent] {
        assert_ne!(c.get_hash(), base.get_hash());
    }
}

#[test]
fn formatted_utc_offsets() {
    let commit = Commit::new("m".to_string(), empty_tree(), signature(0, 0), None);
    let fmt = |o: i32| commit.get_formatted_utc_offset(&Timestamp { seconds: 0, utc_offset: o });
    assert_eq!(fmt(7200), "+0200");
    assert_eq!(fmt(0), "+0000");
    assert_eq!(fmt(-19800), "-0530");
    assert_eq!(fmt(20700), "+0545");
    assert_eq!(fmt(-43200), "-1200");
    assert_eq!(fmt(-59), "-0000");
}
