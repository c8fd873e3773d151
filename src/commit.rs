use vstd::prelude::*;
use vstd::string::*;
use vstd::utf8::*;

use crate::hashing::{
    append_str, decimal, hash_content, hash_of, hex_of, push_decimal, push_signed_decimal,
    signed_decimal, ObjectType,
};
use crate::config::User;
use crate::object::{hex_of_digest, Tree};

verus! {

/// A point in time: seconds since the Unix epoch, and the local offset from
/// UTC in seconds (east of UTC is positive).
#[derive(Clone, Copy, Debug, PartialEq, Eq, Structural)]
pub struct Timestamp {
    pub seconds: i64,
    pub utc_offset: i32,
}

/// An identity and the time at which it acted.
#[derive(Clone, Debug)]
pub struct Signature {
    pub user: User,
    pub date_time: Timestamp,
}

/// A number below one hundred as two digits, zero-padded; larger ones in full.
pub open spec fn two_digits(n: nat) -> Seq<u8> {
    if n < 10 {
        seq![48u8] + decimal(n)
    } else {
        decimal(n)
    }
}

/// The magnitude of an integer.
pub open spec fn magnitude(v: int) -> nat {
    if v < 0 {
        (-v) as nat
    } else {
        v as nat
    }
}

/// A UTC offset in seconds as sign, hours and minutes: `+0200`, `-0530`.
pub open spec fn offset_text(offset: int) -> Seq<u8> {
    (if offset >= 0 {
        seq![43u8]
    } else {
        seq![45u8]
    }) + two_digits(magnitude(offset) / 3600) + two_digits((magnitude(offset) % 3600) / 60)
}

/// One signature row: `<label><name> <<email>> <seconds> <offset>\n`.
pub open spec fn signature_line(label: Seq<u8>, s: Signature) -> Seq<u8> {
    label + encode_utf8(s.user.username@) + " <".spec_bytes() + encode_utf8(s.user.email@)
        + "> ".spec_bytes() + signed_decimal(s.date_time.seconds as int) + " ".spec_bytes()
        + offset_text(s.date_time.utc_offset as int) + "\n".spec_bytes()
}

/// The canonical content of a commit: tree row, parent row when there is a
/// parent, author and committer rows (each with its own signature's time),
/// a blank line and the message.
pub open spec fn commit_text(
    tree_hash: Seq<char>,
    parent_hash: Option<Seq<char>>,
    author: Signature,
    committer: Signature,
    message: Seq<char>,
) -> Seq<u8> {
    "tree ".spec_bytes() + encode_utf8(tree_hash) + "\n".spec_bytes() + match parent_hash {
        Some(p) => "parent ".spec_bytes() + encode_utf8(p) + "\n".spec_bytes(),
        None => Seq::<u8>::empty(),
    } + signature_line("author ".spec_bytes(), author) + signature_line(
        "committer ".spec_bytes(),
        committer,
    ) + "\n".spec_bytes() + encode_utf8(message) + "\n".spec_bytes()
}

/// Appends two digits, zero-padded, of a number.
fn push_two_digits(out: &mut Vec<u8>, n: u128)
    ensures
        final(out)@ == old(out)@ + two_digits(n as nat),
{
    if n < 10 {
        out.push(48u8);
    }
    push_decimal(out, n);
    assert(final(out)@ =~= old(out)@ + two_digits(n as nat));
}

/// Appends a UTC offset as sign, hours and minutes.
fn push_offset(out: &mut Vec<u8>, offset: i32)
    ensures
        final(out)@ == old(out)@ + offset_text(offset as int),
{
    let total: i64 = offset as i64;
    let abs: u128 = if total < 0 {
        (0 - total) as u128
    } else {
        total as u128
    };
    if total >= 0 {
        out.push(43u8);
    } else {
        out.push(45u8);
    }
    push_two_digits(out, abs / 3600);
    push_two_digits(out, (abs % 3600) / 60);
    assert(final(out)@ =~= old(out)@ + offset_text(offset as int));
}

/// Appends one signature row.
fn push_signature_line(out: &mut Vec<u8>, label: &str, s: &Signature)
    ensures
        final(out)@ == old(out)@ + signature_line(label.spec_bytes(), *s),
{
    append_str(out, label);
    append_str(out, s.user.username.as_str());
    append_str(out, " <");
    append_str(out, s.user.email.as_str());
    append_str(out, "> ");
    push_signed_decimal(out, s.date_time.seconds);
    append_str(out, " ");
    push_offset(out, s.date_time.utc_offset);
    append_str(out, "\n");
    assert(final(out)@ =~= old(out)@ + signature_line(label.spec_bytes(), *s));
}

/// Builds the canonical content of a commit.
fn encode_commit(
    tree_hash: &String,
    parent_hash: Option<&String>,
    author: &Signature,
    committer: &Signature,
    message: &String,
) -> (r: Vec<u8>)
    ensures
        r@ == commit_text(
            tree_hash@,
            match parent_hash {
                Some(p) => Some(p@),
                None => None,
            },
            *author,
            *committer,
            message@,
        ),
{
    let mut out: Vec<u8> = Vec::new();
    append_str(&mut out, "tree ");
    append_str(&mut out, tree_hash.as_str());
    append_str(&mut out, "\n");
    match parent_hash {
        Some(p) => {
            append_str(&mut out, "parent ");
            append_str(&mut out, p.as_str());
            append_str(&mut out, "\n");
        },
        None => {},
    }
    push_signature_line(&mut out, "author ", author);
    push_signature_line(&mut out, "committer ", committer);
    append_str(&mut out, "\n");
    append_str(&mut out, message.as_str());
    append_str(&mut out, "\n");
    assert(out@ =~= commit_text(
        tree_hash@,
        match parent_hash {
            Some(p) => Some(p@),
            None => None,
        },
        *author,
        *committer,
        message@,
    ));
    out
}

/// Relies on `String::from_utf8`: valid UTF-8 gives the string with those
/// bytes.
#[verifier::external_body]
fn string_from_utf8(bytes: Vec<u8>) -> (r: String)
    requires
        valid_utf8(bytes@),
    ensures
        encode_utf8(r@) == bytes@,
{
    String::from_utf8(bytes).unwrap()
}

/// A snapshot of a tree, with authorship and an optional parent.
pub struct Commit {
    author: Signature,
    committer: Signature,
    hash: String,
    content: String,
    tree: Tree,
    parent: Option<Box<Commit>>,
}

impl Commit {
    #[verifier::type_invariant]
    spec fn well_formed(&self) -> bool {
        &&& self.hash@ == self.spec_hash()
        &&& hex_of_digest(self.hash@)
    }

    pub closed spec fn spec_message(&self) -> Seq<char> {
        self.content@
    }

    /// The hash of the canonical content.
    pub closed spec fn spec_hash(&self) -> Seq<char> {
        hash_of(ObjectType::Commit, self.spec_content())
    }

    pub closed spec fn spec_tree_hash(&self) -> Seq<char> {
        self.tree.spec_hash()
    }

    pub closed spec fn spec_parent_hash(&self) -> Option<Seq<char>> {
        match self.parent {
            Some(p) => Some(p.hash@),
            None => None,
        }
    }

    pub closed spec fn spec_author(&self) -> Signature {
        self.author
    }

    pub closed spec fn spec_committer(&self) -> Signature {
        self.committer
    }

    /// The canonical content, from which the hash is computed.
    pub open spec fn spec_content(&self) -> Seq<u8> {
        commit_text(
            self.spec_tree_hash(),
            self.spec_parent_hash(),
            self.spec_author(),
            self.spec_committer(),
            self.spec_message(),
        )
    }

    /// A commit of `tree` by `user`, as both author and committer, after
    /// `parent` if there is one.
    pub fn new(content: String, tree: Tree, user: Signature, parent: Option<Commit>) -> (r: Commit)
        ensures
            r.spec_message() == content@,
            r.spec_tree_hash() == tree.spec_hash(),
            r.spec_parent_hash() == match parent {
                Some(p) => Some(p.spec_hash()),
                None => None::<Seq<char>>,
            },
            r.spec_author() == user,
            r.spec_committer() == user,
            r.spec_hash() == hash_of(ObjectType::Commit, r.spec_content()),
    {
        let author = Signature {
            user: User { username: user.user.username.clone(), email: user.user.email.clone() },
            date_time: user.date_time,
        };
        assert(author == user);
        let ghost parent_hash: Option<Seq<char>> = match &parent {
            Some(p) => Some(p.spec_hash()),
            None => None,
        };
        let parent = match parent {
            Some(p) => {
                proof {
                    use_type_invariant(&p);
                }
                Some(Box::new(p))
            },
            None => None,
        };
        let tree_hash = tree.get_hash();
        let stored_parent_hash = match &parent {
            Some(p) => Some(&p.hash),
            None => None,
        };
        assert(match stored_parent_hash {
            Some(p) => Some(p@),
            None => None,
        } == parent_hash);
        let raw = encode_commit(tree_hash, stored_parent_hash, &author, &user, &content);
        let ghost text = commit_text(tree.spec_hash(), parent_hash, user, user, content@);
        assert(raw@ == text);
        let hash = hash_content(ObjectType::Commit, raw.as_slice());
        proof {
            crate::object::lemma_hash_is_hex(ObjectType::Commit, text);
        }
        Commit { author, committer: user, hash, content, tree, parent }
    }

    pub fn get_type(&self) -> (r: ObjectType)
        ensures
            r == ObjectType::Commit,
    {
        ObjectType::Commit
    }

    /// The canonical content: tree, parent, author and committer rows, a
    /// blank line and the message.
    pub fn get_content(&self) -> (r: Vec<u8>)
        ensures
            r@ == self.spec_content(),
    {
        let parent_hash = match &self.parent {
            Some(p) => Some(&p.hash),
            None => None,
        };
        let tree_hash = self.tree.get_hash();
        let r = encode_commit(tree_hash, parent_hash, &self.author, &self.committer, &self.content);
        assert(match parent_hash {
            Some(p) => Some(p@),
            None => None,
        } == self.spec_parent_hash());
        r
    }

    pub fn get_hash(&self) -> (r: &String)
        ensures
            r@ == self.spec_hash(),
            r@ == hash_of(ObjectType::Commit, self.spec_content()),
            hex_of_digest(r@),
    {
        proof {
            use_type_invariant(self);
        }
        &self.hash
    }

    /// The message, which stands as a commit's name.
    pub fn get_name(&self) -> (r: &String)
        ensures
            r@ == self.spec_message(),
    {
        &self.content
    }

    /// A UTC offset as sign, two-digit hours and two-digit minutes.
    pub fn get_formatted_utc_offset(&self, date: &Timestamp) -> (r: String)
        ensures
            encode_utf8(r@) == offset_text(date.utc_offset as int),
    {
        let mut out: Vec<u8> = Vec::new();
        push_offset(&mut out, date.utc_offset);
        proof {
            lemma_offset_text_ascii(date.utc_offset as int);
        }
        string_from_utf8(out)
    }
}

/// A commit's hash is determined by its tree hash, its parent's hash, its
/// two signatures and its message: commits that agree on all of these have
/// the same hash.
pub proof fn lemma_commit_hash_determined(a: Commit, b: Commit)
    requires
        a.spec_tree_hash() == b.spec_tree_hash(),
        a.spec_parent_hash() == b.spec_parent_hash(),
        a.spec_author() == b.spec_author(),
        a.spec_committer() == b.spec_committer(),
        a.spec_message() == b.spec_message(),
    ensures
        a.spec_hash() == b.spec_hash(),
{
}

/// The decimal digits are ASCII.
proof fn lemma_decimal_ascii(n: nat)
    ensures
        forall|i: int| 0 <= i < decimal(n).len() ==> #[trigger] decimal(n)[i] < 128,
    decreases n,
{
    if n >= 10 {
        lemma_decimal_ascii(n / 10);
        let s = decimal(n / 10);
        assert forall|i: int| 0 <= i < decimal(n).len() implies #[trigger] decimal(n)[i] < 128 by {
            if i < s.len() {
                assert(decimal(n)[i] == s[i]);
            }
        }
    }
}

/// Bytes below 128 are valid UTF-8.
proof fn lemma_ascii_valid_utf8(b: Seq<u8>)
    requires
        forall|i: int| 0 <= i < b.len() ==> #[trigger] b[i] < 128,
    ensures
        valid_utf8(b),
{
    let chars = Seq::new(b.len(), |i: int| b[i] as char);
    assert(is_ascii_chars(chars));
    is_ascii_chars_encode_utf8(chars);
    assert(encode_utf8(chars) =~= b);
    encode_utf8_valid_utf8(chars);
}

/// An offset's text is valid UTF-8.
proof fn lemma_offset_text_ascii(offset: int)
    ensures
        valid_utf8(offset_text(offset)),
{
    let m = magnitude(offset);
    lemma_decimal_ascii(m / 3600);
    lemma_decimal_ascii((m % 3600) / 60);
    let t = offset_text(offset);
    assert forall|i: int| 0 <= i < t.len() implies #[trigger] t[i] < 128 by {}
    lemma_ascii_valid_utf8(t);
}

} // verus!
