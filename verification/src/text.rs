//! Strings as the format sees them: UTF-8 bytes, ordered byte by byte.
use vstd::prelude::*;
use vstd::utf8::*;

verus! {

/// How one value stands to another in an order.
#[derive(Debug, Clone, Copy, PartialEq, Eq, Structural)]
pub enum Relation {
    Less,
    Equal,
    Greater,
}

/// The error of `String::from_utf8`. Nothing is known of it.
#[verifier::external_type_specification]
#[verifier::external_body]
pub struct ExFromUtf8Error(std::string::FromUtf8Error);

/// `String::from_utf8`: the bytes make a string exactly when they are valid
/// UTF-8, and the string then holds the characters that they encode. Nothing is
/// said of the error.
pub assume_specification[ std::string::String::from_utf8 ](vec: Vec<u8>) -> (r: Result<
    std::string::String,
    std::string::FromUtf8Error,
>)
    ensures
        r is Ok <==> valid_utf8(vec@),
        r matches Ok(s) ==> s@ == decode_utf8(vec@),
;

/// Whether `a` comes before `b` in the lexicographic order of bytes.
pub open spec fn lex_lt(a: Seq<u8>, b: Seq<u8>) -> bool
    decreases a.len(),
{
    if b.len() == 0 {
        false
    } else if a.len() == 0 {
        true
    } else if a[0] != b[0] {
        a[0] < b[0]
    } else {
        lex_lt(a.skip(1), b.skip(1))
    }
}

pub proof fn lemma_lex_lt_irreflexive(a: Seq<u8>)
    ensures
        !lex_lt(a, a),
    decreases a.len(),
{
    if a.len() > 0 {
        lemma_lex_lt_irreflexive(a.skip(1));
    }
}

pub proof fn lemma_lex_lt_transitive(a: Seq<u8>, b: Seq<u8>, c: Seq<u8>)
    requires
        lex_lt(a, b),
        lex_lt(b, c),
    ensures
        lex_lt(a, c),
    decreases a.len(),
{
    if a.len() > 0 && a[0] == b[0] && b[0] == c[0] {
        lemma_lex_lt_transitive(a.skip(1), b.skip(1), c.skip(1));
    }
}

pub proof fn lemma_lex_lt_total(a: Seq<u8>, b: Seq<u8>)
    ensures
        lex_lt(a, b) || a == b || lex_lt(b, a),
    decreases a.len(),
{
    if a.len() > 0 && b.len() > 0 && a[0] == b[0] {
        lemma_lex_lt_total(a.skip(1), b.skip(1));
        if a.skip(1) == b.skip(1) {
            assert(a =~= seq![a[0]] + a.skip(1));
            assert(b =~= seq![b[0]] + b.skip(1));
        }
    } else if a.len() == 0 && b.len() == 0 {
        assert(a =~= b);
    }
}

/// Strings with the same UTF-8 bytes are the same.
pub proof fn lemma_utf8_injective(a: Seq<char>, b: Seq<char>)
    requires
        encode_utf8(a) == encode_utf8(b),
    ensures
        a == b,
{
    encode_utf8_decode_utf8(a);
    encode_utf8_decode_utf8(b);
}

/// How `a` stands to `b` in the lexicographic order.
pub fn compare_bytes(a: &[u8], b: &[u8]) -> (r: Relation)
    ensures
        match r {
            Relation::Less => lex_lt(a@, b@),
            Relation::Equal => a@ == b@,
            Relation::Greater => lex_lt(b@, a@),
        },
{
    let mut i: usize = 0;
    assert(a@.skip(0) =~= a@);
    assert(b@.skip(0) =~= b@);
    while i < a.len() && i < b.len()
        invariant
            i <= a@.len(),
            i <= b@.len(),
            a@.take(i as int) == b@.take(i as int),
            lex_lt(a@, b@) == lex_lt(a@.skip(i as int), b@.skip(i as int)),
            lex_lt(b@, a@) == lex_lt(b@.skip(i as int), a@.skip(i as int)),
        decreases a@.len() - i,
    {
        let x: u8 = a[i];
        let y: u8 = b[i];
        assert(a@.skip(i as int)[0] == x);
        assert(b@.skip(i as int)[0] == y);
        if x < y {
            return Relation::Less;
        }
        if y < x {
            return Relation::Greater;
        }
        assert(a@.skip(i as int).skip(1) =~= a@.skip(i + 1));
        assert(b@.skip(i as int).skip(1) =~= b@.skip(i + 1));
        assert(a@.take(i + 1) =~= a@.take(i as int).push(x));
        assert(b@.take(i + 1) =~= b@.take(i as int).push(y));
        i += 1;
    }
    if i < b.len() {
        Relation::Less
    } else if i < a.len() {
        Relation::Greater
    } else {
        assert(a@.take(i as int) =~= a@);
        assert(b@.take(i as int) =~= b@);
        Relation::Equal
    }
}

/// How `a` stands to `b` in the order of strings, which is that of their UTF-8
/// bytes.
pub fn compare_text(a: &String, b: &String) -> (r: Relation)
    ensures
        match r {
            Relation::Less => lex_lt(encode_utf8(a@), encode_utf8(b@)),
            Relation::Equal => a@ == b@,
            Relation::Greater => lex_lt(encode_utf8(b@), encode_utf8(a@)),
        },
{
    let r = compare_bytes(a.as_str().as_bytes(), b.as_str().as_bytes());
    proof {
        if r == Relation::Equal {
            lemma_utf8_injective(a@, b@);
        }
    }
    r
}

/// The number of UTF-8 bytes of `s`.
pub fn text_len(s: &String) -> (n: usize)
    ensures
        n == encode_utf8(s@).len(),
{
    s.as_str().as_bytes().len()
}

} // verus!
