use vstd::prelude::*;
use vstd::string::*;
use vstd::utf8::*;

verus! {


/// The lowercase hexadecimal digit of a value below sixteen.
pub open spec fn hex_digit(v: u8) -> char {
    if v < 10 {
        (48 + v) as u8 as char
    } else {
        (87 + v) as u8 as char
    }
}

/// Two lowercase hex digits per byte, high nibble first.
pub open spec fn hex_of(b: Seq<u8>) -> Seq<char> {
    Seq::new(
        2 * b.len(),
        |i: int|
            if i % 2 == 0 {
                hex_digit(b[i / 2] / 16)
            } else {
                hex_digit(b[i / 2] % 16)
            },
    )
}

/// A byte that is a hex digit, in either case.
pub open spec fn is_hex_byte(c: u8) -> bool {
    (48 <= c <= 57) || (97 <= c <= 102) || (65 <= c <= 70)
}

/// The value of a hex digit byte.
pub open spec fn hex_value(c: u8) -> u8 {
    if 48 <= c <= 57 {
        (c - 48) as u8
    } else if 97 <= c <= 102 {
        (c - 87) as u8
    } else {
        (c - 55) as u8
    }
}

/// Text that decodes as hex: an even number of hex digits.
pub open spec fn is_hex_text(s: Seq<u8>) -> bool {
    s.len() % 2 == 0 && forall|i: int| 0 <= i < s.len() ==> is_hex_byte(#[trigger] s[i])
}

/// The bytes that a hex text stands for, one per pair of digits.
pub open spec fn unhex(s: Seq<u8>) -> Seq<u8> {
    Seq::new(
        s.len() / 2,
        |i: int| (hex_value(s[2 * i]) * 16 + hex_value(s[2 * i + 1])) as u8,
    )
}

/// The SHA-1 digest of a byte sequence.
pub uninterp spec fn sha1_of(data: Seq<u8>) -> Seq<u8>;

/// Relies on `sha1::Sha1` through `Digest::digest`: the SHA-1 digest of the
/// bytes, which depends on them alone and is twenty bytes long.
#[verifier::external_body]
fn sha1_digest(data: &[u8]) -> (r: Vec<u8>)
    ensures
        r@ == sha1_of(data@),
        r@.len() == 20,
{
    <sha1::Sha1 as sha1::Digest>::digest(data).to_vec()
}

/// Relies on `hex::encode`: two lowercase digits per byte, high nibble first.
#[verifier::external_body]
fn hex_encode(data: &[u8]) -> (r: String)
    ensures
        r@ == hex_of(data@),
{
    hex::encode(data)
}

/// Relies on `hex::decode`: an odd length or a byte that is no hex digit is an
/// error; otherwise each pair of digits (either case) gives one byte.
#[verifier::external_body]
fn hex_decode(text: &str) -> (r: Option<Vec<u8>>)
    ensures
        r.is_some() == is_hex_text(text.spec_bytes()),
        r.is_some() ==> r.unwrap()@ == unhex(text.spec_bytes()),
{
    match hex::decode(text) {
        Ok(v) => Some(v),
        Err(_) => None,
    }
}

/// A hex rendering of any byte sequence is ASCII, and decoding it gives the
/// bytes back.
pub proof fn lemma_hex_round_trip(d: Seq<u8>)
    ensures
        is_ascii_chars(hex_of(d)),
        is_hex_text(encode_utf8(hex_of(d))),
        unhex(encode_utf8(hex_of(d))) == d,
{
    let h = hex_of(d);
    assert forall|i: int| 0 <= i < h.len() implies '\0' <= #[trigger] h[i] <= '\u{7f}' by {
        let b = d[i / 2];
        assert(b / 16 < 16 && b % 16 < 16);
    }
    is_ascii_chars_encode_utf8(h);
    let e = encode_utf8(h);
    assert forall|i: int| 0 <= i < e.len() implies is_hex_byte(#[trigger] e[i]) by {
        let b = d[i / 2];
        assert(b / 16 < 16 && b % 16 < 16);
        assert(e[i] == h[i] as u8);
    }
    assert forall|i: int| 0 <= i < d.len() implies #[trigger] unhex(e)[i] == d[i] by {
        let b = d[i];
        assert(e[2 * i] == h[2 * i] as u8);
        assert(e[2 * i + 1] == h[2 * i + 1] as u8);
        assert((2 * i) / 2 == i && (2 * i + 1) / 2 == i && (2 * i) % 2 == 0 && (2 * i + 1) % 2
            == 1);
        assert(hex_value(hex_digit(b / 16) as u8) == b / 16);
        assert(hex_value(hex_digit(b % 16) as u8) == b % 16);
        assert((b / 16) * 16 + b % 16 == b);
    }
    assert(unhex(e) =~= d);
}

/// The decimal digits of a natural number, most significant first.
pub open spec fn decimal(n: nat) -> Seq<u8>
    decreases n,
{
    if n < 10 {
        seq![(48 + n) as u8]
    } else {
        decimal(n / 10).push((48 + n % 10) as u8)
    }
}

/// A decimal integer, with a leading minus sign when negative.
pub open spec fn signed_decimal(v: int) -> Seq<u8> {
    if v < 0 {
        seq![45u8] + decimal((-v) as nat)
    } else {
        decimal(v as nat)
    }
}

/// Appends the decimal digits of `n`.
pub fn push_decimal(out: &mut Vec<u8>, n: u128)
    ensures
        final(out)@ == old(out)@ + decimal(n as nat),
    decreases n,
{
    if n >= 10 {
        push_decimal(out, n / 10);
    }
    out.push((48 + n % 10) as u8);
    assert(final(out)@ =~= old(out)@ + decimal(n as nat));
}

/// Appends a signed decimal integer.
pub fn push_signed_decimal(out: &mut Vec<u8>, v: i64)
    ensures
        final(out)@ == old(out)@ + signed_decimal(v as int),
{
    if v < 0 {
        out.push(45u8);
        let magnitude: u64 = (0 - (v as i128)) as u64;
        push_decimal(out, magnitude as u128);
    } else {
        push_decimal(out, v as u128);
    }
    assert(final(out)@ =~= old(out)@ + signed_decimal(v as int));
}

/// Appends a slice of bytes.
pub fn append_bytes(out: &mut Vec<u8>, b: &[u8])
    ensures
        final(out)@ == old(out)@ + b@,
{
    let ghost start = out@;
    let mut i: usize = 0;
    while i < b.len()
        invariant
            i <= b@.len(),
            out@ == start + b@.subrange(0, i as int),
        decreases b@.len() - i,
    {
        out.push(b[i]);
        i = i + 1;
        assert(out@ =~= start + b@.subrange(0, i as int));
    }
    assert(b@.subrange(0, i as int) =~= b@);
}

/// Appends the UTF-8 bytes of a string.
pub fn append_str(out: &mut Vec<u8>, s: &str)
    ensures
        final(out)@ == old(out)@ + s.spec_bytes(),
{
    append_bytes(out, s.as_bytes());
}

/// Whether two strings hold the same characters.
fn text_equals(s: &str, expected: &str) -> (r: bool)
    ensures
        r == (s@ == expected@),
{
    let n = s.unicode_len();
    if n != expected.unicode_len() {
        return false;
    }
    let mut i: usize = 0;
    while i < n
        invariant
            n == s@.len() == expected@.len(),
            i <= n,
            s@.subrange(0, i as int) == expected@.subrange(0, i as int),
        decreases n - i,
    {
        if s.get_char(i) != expected.get_char(i) {
            assert(s@[i as int] != expected@[i as int]);
            return false;
        }
        assert(s@.subrange(0, i + 1) =~= s@.subrange(0, i as int).push(s@[i as int]));
        assert(expected@.subrange(0, i + 1) =~= expected@.subrange(0, i as int).push(
            expected@[i as int],
        ));
        i = i + 1;
    }
    assert(s@ =~= s@.subrange(0, n as int));
    assert(expected@ =~= expected@.subrange(0, n as int));
    true
}

/// The three kinds of stored object.
#[derive(Clone, Copy, PartialEq, Eq, Structural, Debug)]
pub enum ObjectType {
    Blob,
    Tree,
    Commit,
}

/// The lowercase tag of an object kind.
pub open spec fn kind_tag(t: ObjectType) -> Seq<char> {
    match t {
        ObjectType::Blob => seq!['b', 'l', 'o', 'b'],
        ObjectType::Tree => seq!['t', 'r', 'e', 'e'],
        ObjectType::Commit => seq!['c', 'o', 'm', 'm', 'i', 't'],
    }
}

impl ObjectType {
    /// The lowercase tag of this kind.
    pub fn as_str(&self) -> (r: &str)
        ensures
            r@ == kind_tag(*self),
    {
        match self {
            ObjectType::Blob => {
                proof {
                    reveal_strlit("blob");
                }
                "blob"
            },
            ObjectType::Tree => {
                proof {
                    reveal_strlit("tree");
                }
                "tree"
            },
            ObjectType::Commit => {
                proof {
                    reveal_strlit("commit");
                }
                "commit"
            },
        }
    }

    /// The kind whose tag is `s`, if any.
    pub fn from_str(s: &str) -> (r: Option<ObjectType>)
        ensures
            match r {
                Some(t) => s@ == kind_tag(t),
                None => forall|t: ObjectType| s@ != #[trigger] kind_tag(t),
            },
    {
        let kinds = [ObjectType::Blob, ObjectType::Tree, ObjectType::Commit];
        let mut i: usize = 0;
        while i < 3
            invariant
                i <= 3,
                kinds@ == seq![ObjectType::Blob, ObjectType::Tree, ObjectType::Commit],
                forall|j: int| 0 <= j < i ==> s@ != kind_tag(#[trigger] kinds@[j]),
            decreases 3 - i,
        {
            let kind = kinds[i];
            if text_equals(s, kind.as_str()) {
                return Some(kind);
            }
            i = i + 1;
        }
        assert forall|t: ObjectType| s@ != #[trigger] kind_tag(t) by {
            match t {
                ObjectType::Blob => assert(kind_tag(kinds@[0]) == kind_tag(t)),
                ObjectType::Tree => assert(kind_tag(kinds@[1]) == kind_tag(t)),
                ObjectType::Commit => assert(kind_tag(kinds@[2]) == kind_tag(t)),
            }
        }
        None
    }
}

/// What is hashed and stored for an object: `"<type> <length>\0"` and then
/// the content.
pub open spec fn raw_data_of(t: ObjectType, content: Seq<u8>) -> Seq<u8> {
    encode_utf8(kind_tag(t)) + seq![32u8] + decimal(content.len()) + seq![0u8] + content
}

/// The digest that names an object of kind `t` with this content.
pub open spec fn digest_of(t: ObjectType, content: Seq<u8>) -> Seq<u8> {
    sha1_of(raw_data_of(t, content))
}

/// The 40-digit hex hash of an object of kind `t` with this content.
pub open spec fn hash_of(t: ObjectType, content: Seq<u8>) -> Seq<char> {
    hex_of(digest_of(t, content))
}

/// The header and the content of an object, as hashed and as stored.
pub fn raw_data(kind: ObjectType, content: &[u8]) -> (r: Vec<u8>)
    ensures
        r@ == raw_data_of(kind, content@),
{
    let mut out: Vec<u8> = Vec::new();
    append_str(&mut out, kind.as_str());
    out.push(32u8);
    push_decimal(&mut out, content.len() as u128);
    out.push(0u8);
    append_bytes(&mut out, content);
    assert(out@ =~= raw_data_of(kind, content@));
    out
}

/// The hex hash of an object of the given kind and content.
pub fn hash_content(kind: ObjectType, content: &[u8]) -> (r: String)
    ensures
        r@ == hash_of(kind, content@),
        digest_of(kind, content@).len() == 20,
{
    let raw = raw_data(kind, content);
    let digest = sha1_digest(raw.as_slice());
    hex_encode(digest.as_slice())
}

/// The raw digest bytes that a well-formed hash stands for.
pub fn decode_hash(hash: &str) -> (r: Vec<u8>)
    requires
        exists|d: Seq<u8>| hash@ == hex_of(d),
    ensures
        hash@ == hex_of(r@),
{
    let ghost d = choose|d: Seq<u8>| hash@ == hex_of(d);
    proof {
        lemma_hex_round_trip(d);
    }
    let r = hex_decode(hash);
    r.unwrap()
}

} // verus!
