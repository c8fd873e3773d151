use vstd::prelude::*;
use vstd::multiset::Multiset;
use vstd::seq_lib::*;
use vstd::string::*;
use vstd::utf8::*;

use crate::commit::Commit;
use crate::hashing::{
    append_bytes, append_str, decode_hash, hash_content, hash_of, hex_of, lemma_hex_round_trip,
    raw_data, raw_data_of, unhex, ObjectType,
};
use crate::order::{bytes_le, bytes_le_exec, lemma_bytes_le_total, lemma_bytes_le_transitive};

verus! {

/// A named payload of bytes, with no children.
pub struct Blob {
    name: String,
    content: String,
    hash: String,
}

impl Blob {
    #[verifier::type_invariant]
    spec fn well_formed(&self) -> bool {
        &&& self.hash@ == hash_of(ObjectType::Blob, encode_utf8(self.content@))
        &&& hex_of_digest(self.hash@)
    }

    pub closed spec fn spec_name(&self) -> Seq<char> {
        self.name@
    }

    pub closed spec fn spec_content(&self) -> Seq<char> {
        self.content@
    }

    /// The hash, which depends on the content alone.
    pub closed spec fn spec_hash(&self) -> Seq<char> {
        hash_of(ObjectType::Blob, encode_utf8(self.content@))
    }

    /// A blob, with its hash computed from the content alone.
    pub fn new(name: String, content: String) -> (r: Blob)
        ensures
            r.spec_name() == name@,
            r.spec_content() == content@,
            r.spec_hash() == hash_of(ObjectType::Blob, encode_utf8(content@)),
    {
        let hash = hash_content(ObjectType::Blob, content.as_str().as_bytes());
        proof {
            lemma_hash_is_hex(ObjectType::Blob, encode_utf8(content@));
        }
        Blob { name, content, hash }
    }

    pub fn get_type(&self) -> (r: ObjectType)
        ensures
            r == ObjectType::Blob,
    {
        ObjectType::Blob
    }

    /// The canonical content: the bytes of the payload.
    pub fn get_content(&self) -> (r: Vec<u8>)
        ensures
            r@ == encode_utf8(self.spec_content()),
    {
        let mut out: Vec<u8> = Vec::new();
        append_str(&mut out, self.content.as_str());
        out
    }

    pub fn get_hash(&self) -> (r: &String)
        ensures
            r@ == self.spec_hash(),
            r@ == hash_of(ObjectType::Blob, encode_utf8(self.spec_content())),
            hex_of_digest(r@),
    {
        proof {
            use_type_invariant(self);
        }
        &self.hash
    }

    pub fn get_name(&self) -> (r: &String)
        ensures
            r@ == self.spec_name(),
    {
        &self.name
    }
}

/// A hash that is the hex rendering of a twenty-byte digest.
pub open spec fn hex_of_digest(h: Seq<char>) -> bool {
    exists|d: Seq<u8>| d.len() == 20 && h == hex_of(d)
}

/// Any stored object.
pub enum Object {
    Blob(Blob),
    Tree(Tree),
    Commit(Commit),
}

/// What a tree records of one child: its kind, its name and its hash.
pub struct EntryModel {
    pub kind: ObjectType,
    pub name: Seq<char>,
    pub hash: Seq<char>,
}

impl Object {
    pub open spec fn entry(&self) -> EntryModel {
        match self {
            Object::Blob(b) => EntryModel {
                kind: ObjectType::Blob,
                name: b.spec_name(),
                hash: b.spec_hash(),
            },
            Object::Tree(t) => EntryModel {
                kind: ObjectType::Tree,
                name: t.spec_name(),
                hash: t.spec_hash(),
            },
            Object::Commit(c) => EntryModel {
                kind: ObjectType::Commit,
                name: c.spec_message(),
                hash: c.spec_hash(),
            },
        }
    }

    /// The canonical content of the object.
    pub open spec fn spec_content(&self) -> Seq<u8> {
        match self {
            Object::Blob(b) => encode_utf8(b.spec_content()),
            Object::Tree(t) => entries_bytes(entries(t.spec_objects())),
            Object::Commit(c) => c.spec_content(),
        }
    }

    pub fn get_type(&self) -> (r: ObjectType)
        ensures
            r == self.entry().kind,
    {
        match self {
            Object::Blob(_) => ObjectType::Blob,
            Object::Tree(_) => ObjectType::Tree,
            Object::Commit(_) => ObjectType::Commit,
        }
    }

    pub fn get_hash(&self) -> (r: &String)
        ensures
            r@ == self.entry().hash,
            r@ == hash_of(self.entry().kind, self.spec_content()),
            hex_of_digest(r@),
    {
        match self {
            Object::Blob(b) => b.get_hash(),
            Object::Tree(t) => t.get_hash(),
            Object::Commit(c) => c.get_hash(),
        }
    }

    /// The name of a blob or tree; the message of a commit.
    pub fn get_name(&self) -> (r: &String)
        ensures
            r@ == self.entry().name,
    {
        match self {
            Object::Blob(b) => b.get_name(),
            Object::Tree(t) => t.get_name(),
            Object::Commit(c) => c.get_name(),
        }
    }

    /// The canonical content: what is hashed after the header.
    pub fn get_content(&self) -> (r: Vec<u8>)
        ensures
            r@ == self.spec_content(),
    {
        match self {
            Object::Blob(b) => b.get_content(),
            Object::Tree(t) => t.get_content(),
            Object::Commit(c) => c.get_content(),
        }
    }

    /// The header `"<type> <length>\0"` and the content: what is hashed
    /// and, compressed, stored.
    pub fn get_raw_data(&self) -> (r: Vec<u8>)
        ensures
            r@ == raw_data_of(self.entry().kind, self.spec_content()),
    {
        let content = self.get_content();
        raw_data(self.get_type(), content.as_slice())
    }

    /// Where the object is stored under the objects directory: a directory
    /// named by the first two hex digits of the hash, and a file named by
    /// the other thirty-eight.
    pub fn storage_location(&self) -> (r: (String, String))
        ensures
            r.0@ == self.entry().hash.subrange(0, 2),
            r.1@ == self.entry().hash.subrange(2, 40),
    {
        let hash = self.get_hash();
        let ghost d = choose|d: Seq<u8>| d.len() == 20 && hash@ == hex_of(d);
        proof {
            lemma_hex_round_trip(d);
        }
        let text = hash.as_str();
        let dir = text.substring_ascii(0, 2).to_owned();
        let file = text.substring_ascii(2, 40).to_owned();
        (dir, file)
    }
}

/// The entries that a sequence of objects records.
pub open spec fn entries(s: Seq<Object>) -> Seq<EntryModel> {
    s.map_values(|o: Object| o.entry())
}

/// The key by which children are ordered: the bytes of the name.
pub open spec fn name_key(e: EntryModel) -> Seq<u8> {
    encode_utf8(e.name)
}

/// Entries in ascending byte order of their names.
pub open spec fn sorted_by_name(s: Seq<EntryModel>) -> bool {
    forall|i: int, j: int| 0 <= i < j < s.len() ==> bytes_le(name_key(s[i]), name_key(s[j]))
}

/// The directory-entry mode: `"40000"` for a tree, `"100644"` otherwise.
pub open spec fn mode_of(kind: ObjectType) -> Seq<u8> {
    if kind == ObjectType::Tree {
        seq![52u8, 48, 48, 48, 48]
    } else {
        seq![49u8, 48, 48, 54, 52, 52]
    }
}

/// One directory entry: mode, space, name, NUL, the twenty raw digest bytes.
pub open spec fn entry_record(e: EntryModel) -> Seq<u8> {
    mode_of(e.kind) + seq![32u8] + encode_utf8(e.name) + seq![0u8] + unhex(encode_utf8(e.hash))
}

/// The canonical content of a tree: its entries' records, in order.
pub open spec fn entries_bytes(s: Seq<EntryModel>) -> Seq<u8>
    decreases s.len(),
{
    if s.len() == 0 {
        seq![]
    } else {
        entries_bytes(s.drop_last()) + entry_record(s.last())
    }
}

/// The hash of a tree whose entries, in stored order, are `s`.
pub open spec fn tree_hash(s: Seq<EntryModel>) -> Seq<char> {
    hash_of(ObjectType::Tree, entries_bytes(s))
}

/// A directory: a name and children sorted by name.
pub struct Tree {
    name: String,
    hash: String,
    objects: Vec<Object>,
}

impl Tree {
    #[verifier::type_invariant]
    spec fn well_formed(&self) -> bool {
        &&& self.hash@ == tree_hash(entries(self.objects@))
        &&& hex_of_digest(self.hash@)
        &&& sorted_by_name(entries(self.objects@))
        &&& forall|i: int|
            0 <= i < self.objects@.len() ==> !(#[trigger] self.objects@[i] is Commit)
    }

    pub closed spec fn spec_name(&self) -> Seq<char> {
        self.name@
    }

    pub closed spec fn spec_hash(&self) -> Seq<char> {
        self.hash@
    }

    pub closed spec fn spec_objects(&self) -> Seq<Object> {
        self.objects@
    }

    /// A tree holding `objects` sorted by name, with its hash computed over
    /// the sorted entries. Children with equal names are all kept, in the
    /// order given. A commit cannot be a child.
    pub fn new(name: String, objects: Vec<Object>) -> (r: Tree)
        requires
            forall|i: int| 0 <= i < objects@.len() ==> !(#[trigger] objects@[i] is Commit),
        ensures
            r.spec_name() == name@,
            entries(r.spec_objects()).to_multiset() == entries(objects@).to_multiset(),
            sorted_by_name(entries(r.spec_objects())),
            exists|ix: Seq<int>|
                taken_in_order(
                    entries(objects@),
                    entries(r.spec_objects()),
                    ix,
                    objects@.len() as int,
                ),
            r.spec_hash() == tree_hash(entries(r.spec_objects())),
    {
        let sorted = sort_by_name(objects);
        let content = encode_entries(&sorted);
        let hash = hash_content(ObjectType::Tree, content.as_slice());
        proof {
            lemma_hash_is_hex(ObjectType::Tree, content@);
        }
        Tree { name, hash, objects: sorted }
    }

    pub fn get_type(&self) -> (r: ObjectType)
        ensures
            r == ObjectType::Tree,
    {
        ObjectType::Tree
    }

    /// The canonical content: one record per child, in sorted order.
    pub fn get_content(&self) -> (r: Vec<u8>)
        ensures
            r@ == entries_bytes(entries(self.spec_objects())),
    {
        proof {
            use_type_invariant(self);
        }
        encode_entries(&self.objects)
    }

    pub fn get_hash(&self) -> (r: &String)
        ensures
            r@ == self.spec_hash(),
            r@ == tree_hash(entries(self.spec_objects())),
            hex_of_digest(r@),
    {
        proof {
            use_type_invariant(self);
        }
        &self.hash
    }

    pub fn get_name(&self) -> (r: &String)
        ensures
            r@ == self.spec_name(),
    {
        &self.name
    }

    /// The children, in sorted order.
    pub fn get_objects(&self) -> (r: &Vec<Object>)
        ensures
            r@ == self.spec_objects(),
            sorted_by_name(entries(r@)),
    {
        proof {
            use_type_invariant(self);
        }
        &self.objects
    }
}

/// A blob's hash depends on its content alone: two blobs with the same
/// content, whatever their names, have the same hash.
pub proof fn lemma_blob_hash_determined(a: Blob, b: Blob)
    requires
        a.spec_content() == b.spec_content(),
    ensures
        a.spec_hash() == b.spec_hash(),
{
}

/// No two entries share a name.
pub open spec fn names_distinct(s: Seq<EntryModel>) -> bool {
    forall|i: int, j: int| 0 <= i < s.len() && 0 <= j < s.len() && i != j ==> name_key(s[i]) != name_key(s[j])
}

/// Two name-sorted orderings of the same entries, no two names alike, are
/// one and the same sequence.
pub proof fn lemma_sorted_entries_unique(a: Seq<EntryModel>, b: Seq<EntryModel>)
    requires
        a.to_multiset() == b.to_multiset(),
        sorted_by_name(a),
        sorted_by_name(b),
        names_distinct(a),
    ensures
        a == b,
    decreases a.len(),
{
    broadcast use vstd::seq_lib::group_to_multiset_ensures;

    to_multiset_len(a);
    to_multiset_len(b);
    if a.len() == 0 {
        assert(a =~= b);
    } else {
        to_multiset_contains(b, a[0]);
        to_multiset_contains(a, b[0]);
        assert(a.contains(a[0]));
        assert(b.contains(b[0]));
        let j = choose|j: int| 0 <= j < b.len() && b[j] == a[0];
        let i = choose|i: int| 0 <= i < a.len() && a[i] == b[0];
        if j > 0 {
            assert(bytes_le(name_key(b[0]), name_key(b[j])));
        }
        lemma_bytes_le_refl(name_key(a[0]));
        lemma_bytes_le_refl(name_key(b[0]));
        if i > 0 {
            assert(bytes_le(name_key(a[0]), name_key(a[i])));
        }
        crate::order::lemma_bytes_le_antisymmetric(name_key(a[0]), name_key(b[0]));
        assert(i == 0);
        to_multiset_remove(a, 0);
        to_multiset_remove(b, 0);
        assert(a.remove(0) =~= a.drop_first());
        assert(b.remove(0) =~= b.drop_first());
        let a1 = a.drop_first();
        let b1 = b.drop_first();
        assert(sorted_by_name(a1)) by {
            assert forall|p: int, q: int| 0 <= p < q < a1.len() implies bytes_le(
                name_key(a1[p]),
                name_key(a1[q]),
            ) by {
                assert(a1[p] == a[p + 1] && a1[q] == a[q + 1]);
            }
        }
        assert(sorted_by_name(b1)) by {
            assert forall|p: int, q: int| 0 <= p < q < b1.len() implies bytes_le(
                name_key(b1[p]),
                name_key(b1[q]),
            ) by {
                assert(b1[p] == b[p + 1] && b1[q] == b[q + 1]);
            }
        }
        assert(names_distinct(a1)) by {
            assert forall|p: int, q: int|
                0 <= p < a1.len() && 0 <= q < a1.len() && p != q implies name_key(a1[p])
                != name_key(a1[q]) by {
                assert(a1[p] == a[p + 1] && a1[q] == a[q + 1]);
            }
        }
        lemma_sorted_entries_unique(a1, b1);
        assert(a[0] == b[0]);
        assert forall|k: int| 0 <= k < a.len() implies a[k] == b[k] by {
            if k > 0 {
                assert(a[k] == a1[k - 1] && b[k] == b1[k - 1]);
            }
        }
        assert(a =~= b);
    }
}

/// A tree's hash does not depend on the order in which its children were
/// given: `Tree::new` keeps the given entries and sorts them by name, and any
/// two such sortings of the same children, no two names alike, give the same
/// hash.
pub proof fn lemma_tree_hash_order_independent(
    given1: Seq<EntryModel>,
    given2: Seq<EntryModel>,
    sorted1: Seq<EntryModel>,
    sorted2: Seq<EntryModel>,
)
    requires
        given1.to_multiset() == given2.to_multiset(),
        names_distinct(given1),
        sorted1.to_multiset() == given1.to_multiset(),
        sorted2.to_multiset() == given2.to_multiset(),
        sorted_by_name(sorted1),
        sorted_by_name(sorted2),
    ensures
        tree_hash(sorted1) == tree_hash(sorted2),
{
    lemma_names_distinct_permutation(given1, sorted1);
    lemma_sorted_entries_unique(sorted1, sorted2);
}

/// Distinct names stay distinct under a permutation.
proof fn lemma_names_distinct_permutation(a: Seq<EntryModel>, b: Seq<EntryModel>)
    requires
        a.to_multiset() == b.to_multiset(),
        names_distinct(a),
    ensures
        names_distinct(b),
{
    broadcast use vstd::seq_lib::group_to_multiset_ensures;

    assert forall|p: int, q: int|
        0 <= p < b.len() && 0 <= q < b.len() && p != q implies name_key(b[p]) != name_key(b[q]) by {
        to_multiset_contains(b, b[p]);
        to_multiset_contains(b, b[q]);
        assert(b.contains(b[p]));
        assert(b.contains(b[q]));
        to_multiset_contains(a, b[p]);
        to_multiset_contains(a, b[q]);
        let i = choose|i: int| 0 <= i < a.len() && a[i] == b[p];
        let j = choose|j: int| 0 <= j < a.len() && a[j] == b[q];
        if i == j {
            // the same entry twice in `b`: then it is twice in `a`, where names are distinct
            assert(b.remove(p).contains(b[q])) by {
                if q < p {
                    assert(b.remove(p)[q] == b[q]);
                } else {
                    assert(b.remove(p)[q - 1] == b[q]);
                }
            }
            to_multiset_remove(b, p);
            to_multiset_contains(b.remove(p), b[q]);
            assert(b.to_multiset().count(b[p]) >= 2);
            to_multiset_remove(a, i);
            to_multiset_contains(a.remove(i), a[i]);
            let k = choose|k: int| 0 <= k < a.remove(i).len() && a.remove(i)[k] == a[i];
            if k < i {
                assert(a[k] == a[i]);
            } else {
                assert(a[k + 1] == a[i]);
            }
        }
    }
}

/// Every byte sequence sorts before or equal to itself.
proof fn lemma_bytes_le_refl(a: Seq<u8>)
    ensures
        bytes_le(a, a),
{
    lemma_bytes_le_total(a, a);
}

/// A hash computed by `hash_content` renders a twenty-byte digest.
pub(crate) proof fn lemma_hash_is_hex(kind: ObjectType, content: Seq<u8>)
    requires
        crate::hashing::digest_of(kind, content).len() == 20,
    ensures
        hex_of_digest(hash_of(kind, content)),
{
    assert(hash_of(kind, content) == hex_of(crate::hashing::digest_of(kind, content)));
}

/// The index at which `key` goes into `sorted` after every entry whose name
/// sorts before or equal to it.
fn insertion_point(sorted: &Vec<Object>, key: &[u8]) -> (r: usize)
    requires
        sorted_by_name(entries(sorted@)),
    ensures
        r <= sorted@.len(),
        forall|k: int| 0 <= k < r ==> bytes_le(name_key(#[trigger] sorted@[k].entry()), key@),
        r < sorted@.len() ==> !bytes_le(name_key(sorted@[r as int].entry()), key@),
{
    let mut j: usize = 0;
    while j < sorted.len()
        invariant
            j <= sorted@.len(),
            forall|k: int| 0 <= k < j ==> bytes_le(name_key(#[trigger] sorted@[k].entry()), key@),
        decreases sorted@.len() - j,
    {
        let name = sorted[j].get_name();
        if !bytes_le_exec(name.as_str().as_bytes(), key) {
            return j;
        }
        j = j + 1;
    }
    j
}

/// `r` takes each of its entries from a distinct position of `given` below
/// `bound`, as `ix` says, and entries with equal names keep their order in
/// `given`.
pub open spec fn taken_in_order(
    given: Seq<EntryModel>,
    r: Seq<EntryModel>,
    ix: Seq<int>,
    bound: int,
) -> bool {
    &&& ix.len() == r.len()
    &&& forall|p: int| 0 <= p < r.len() ==> 0 <= #[trigger] ix[p] < bound && r[p] == given[ix[p]]
    &&& forall|p: int, q: int| 0 <= p < q < r.len() ==> ix[p] != ix[q]
    &&& forall|p: int, q: int|
        0 <= p < q < r.len() && name_key(r[p]) == name_key(r[q]) ==> ix[p] < ix[q]
}

/// Inserting the entry at position `k` of `given` where `insertion_point`
/// puts it keeps the entries taken in order.
proof fn lemma_insert_in_order(
    given: Seq<EntryModel>,
    o: Seq<EntryModel>,
    ix: Seq<int>,
    k: int,
    pos: int,
)
    requires
        taken_in_order(given, o, ix, k),
        sorted_by_name(o),
        0 <= k < given.len(),
        0 <= pos <= o.len(),
        pos < o.len() ==> !bytes_le(name_key(o[pos]), name_key(given[k])),
    ensures
        taken_in_order(given, o.insert(pos, given[k]), ix.insert(pos, k), k + 1),
{
    let s = o.insert(pos, given[k]);
    let jx = ix.insert(pos, k);
    let x = given[k];
    assert forall|p: int| 0 <= p < s.len() implies 0 <= #[trigger] jx[p] < k + 1 && s[p]
        == given[jx[p]] by {
        if p > pos {
            assert(jx[p] == ix[p - 1] && s[p] == o[p - 1]);
        } else if p < pos {
            assert(jx[p] == ix[p] && s[p] == o[p]);
        }
    }
    assert forall|p: int, q: int| 0 <= p < q < s.len() implies jx[p] != jx[q] by {
        if p != pos && q != pos {
            let p0 = if p < pos { p } else { p - 1 };
            let q0 = if q < pos { q } else { q - 1 };
            assert(jx[p] == ix[p0] && jx[q] == ix[q0]);
        } else if p == pos {
            assert(jx[q] == ix[q - 1]);
        } else {
            assert(jx[p] == ix[p]);
        }
    }
    assert forall|p: int, q: int|
        0 <= p < q < s.len() && name_key(s[p]) == name_key(s[q]) implies jx[p] < jx[q] by {
        if p != pos && q != pos {
            let p0 = if p < pos { p } else { p - 1 };
            let q0 = if q < pos { q } else { q - 1 };
            assert(jx[p] == ix[p0] && jx[q] == ix[q0]);
            assert(s[p] == o[p0] && s[q] == o[q0]);
        } else if q == pos {
            assert(jx[p] == ix[p]);
        } else {
            assert(s[q] == o[q - 1]);
            if q - 1 > pos {
                assert(bytes_le(name_key(o[pos]), name_key(o[q - 1])));
            } else {
                lemma_bytes_le_refl(name_key(o[pos]));
            }
        }
    }
}

/// Sorts objects by name, keeping equal names in their given order.
fn sort_by_name(objects: Vec<Object>) -> (r: Vec<Object>)
    requires
        forall|i: int| 0 <= i < objects@.len() ==> !(#[trigger] objects@[i] is Commit),
    ensures
        entries(r@).to_multiset() == entries(objects@).to_multiset(),
        sorted_by_name(entries(r@)),
        exists|ix: Seq<int>| taken_in_order(entries(objects@), entries(r@), ix, objects@.len() as int),
        forall|i: int| 0 <= i < r@.len() ==> !(#[trigger] r@[i] is Commit),
{
    broadcast use vstd::seq_lib::group_to_multiset_ensures;

    let ghost given = entries(objects@);
    let ghost n = objects@.len() as int;
    let ghost mut ix = Seq::<int>::empty();
    let mut rest = objects;
    let mut sorted: Vec<Object> = Vec::new();
    assert(rest@.subrange(0, n) =~= rest@);
    while rest.len() > 0
        invariant
            given == entries(objects@),
            n == objects@.len(),
            rest@.len() <= n,
            rest@ == objects@.subrange(n - rest@.len(), n),
            taken_in_order(given, entries(sorted@), ix, n - rest@.len()),
            entries(sorted@).to_multiset().add(entries(rest@).to_multiset()) == entries(
                objects@,
            ).to_multiset(),
            sorted_by_name(entries(sorted@)),
            forall|i: int| 0 <= i < rest@.len() ==> !(#[trigger] rest@[i] is Commit),
            forall|i: int| 0 <= i < sorted@.len() ==> !(#[trigger] sorted@[i] is Commit),
        decreases rest@.len(),
    {
        let ghost old_sorted = sorted@;
        let ghost old_rest = rest@;
        let ghost k = n - rest@.len();
        let item = rest.remove(0);
        let pos = insertion_point(&sorted, item.get_name().as_str().as_bytes());
        let ghost x = item.entry();
        sorted.insert(pos, item);
        proof {
            assert(old_rest[0] == objects@[k]);
            assert(rest@ =~= objects@.subrange(n - rest@.len(), n));
            assert(given[k] == x);
            lemma_insert_in_order(given, entries(old_sorted), ix, k, pos as int);
            ix = ix.insert(pos as int, k);
            assert(entries(rest@) =~= entries(old_rest).remove(0));
            assert(entries(sorted@) =~= entries(old_sorted).insert(pos as int, x));
            to_multiset_remove(entries(old_rest), 0);
            to_multiset_insert(entries(old_sorted), pos as int, x);
            assert(entries(old_rest)[0] == x);
            to_multiset_contains(entries(old_rest), x);
            assert(entries(old_rest).to_multiset().count(x) > 0);
            assert(entries(sorted@).to_multiset().add(entries(rest@).to_multiset()) =~= entries(
                old_sorted,
            ).to_multiset().add(entries(old_rest).to_multiset()));
            let s = entries(sorted@);
            let o = entries(old_sorted);
            assert forall|i: int, j: int| 0 <= i < j < s.len() implies bytes_le(
                name_key(s[i]),
                name_key(s[j]),
            ) by {
                if i < pos && j < pos {
                    assert(s[i] == o[i] && s[j] == o[j]);
                } else if i < pos && j == pos {
                    assert(s[i] == o[i] && o[i] == old_sorted[i].entry());
                } else if i < pos {
                    assert(s[i] == o[i] && s[j] == o[j - 1]);
                } else if i == pos {
                    assert(s[j] == o[j - 1]);
                    lemma_bytes_le_total(name_key(o[pos as int]), name_key(x));
                    assert(o[pos as int] == old_sorted[pos as int].entry());
                    if j - 1 > pos {
                        lemma_bytes_le_transitive(
                            name_key(x),
                            name_key(o[pos as int]),
                            name_key(o[j - 1]),
                        );
                    }
                } else {
                    assert(s[i] == o[i - 1] && s[j] == o[j - 1]);
                }
            }
        }
    }
    assert(entries(rest@) =~= Seq::<EntryModel>::empty());
    assert(entries(rest@).to_multiset() =~= Multiset::empty());
    assert(entries(sorted@).to_multiset().add(Multiset::empty()) =~= entries(sorted@).to_multiset());
    assert(taken_in_order(entries(objects@), entries(sorted@), ix, objects@.len() as int));
    sorted
}

/// The record of each child, one after another.
fn encode_entries(objects: &Vec<Object>) -> (r: Vec<u8>)
    requires
        forall|i: int| 0 <= i < objects@.len() ==> !(#[trigger] objects@[i] is Commit),
    ensures
        r@ == entries_bytes(entries(objects@)),
{
    let mut out: Vec<u8> = Vec::new();
    let mut i: usize = 0;
    while i < objects.len()
        invariant
            i <= objects@.len(),
            forall|k: int| 0 <= k < objects@.len() ==> !(#[trigger] objects@[k] is Commit),
            out@ == entries_bytes(entries(objects@.subrange(0, i as int))),
        decreases objects@.len() - i,
    {
        let object = &objects[i];
        let ghost before = out@;
        match object {
            Object::Tree(_) => {
                let mode: [u8; 5] = [52, 48, 48, 48, 48];
                append_bytes(&mut out, &mode);
                assert(mode@ =~= mode_of(ObjectType::Tree));
            },
            _ => {
                let mode: [u8; 6] = [49, 48, 48, 54, 52, 52];
                append_bytes(&mut out, &mode);
                assert(mode@ =~= mode_of(object.entry().kind));
            },
        }
        out.push(32u8);
        append_str(&mut out, object.get_name().as_str());
        out.push(0u8);
        let hash = object.get_hash();
        let digest = decode_hash(hash.as_str());
        proof {
            lemma_hex_round_trip(digest@);
        }
        append_bytes(&mut out, digest.as_slice());
        proof {
            let e = object.entry();
            assert(out@ =~= before + entry_record(e));
            let s = entries(objects@.subrange(0, i + 1));
            assert(s.drop_last() =~= entries(objects@.subrange(0, i as int)));
            assert(s.last() == e);
        }
        i = i + 1;
    }
    assert(objects@.subrange(0, i as int) =~= objects@);
    out
}

} // verus!
