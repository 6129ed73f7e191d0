//! Variable-length lengths: the base-128 encoding of the `integer_encoding`
//! crate, and what reading it back gives.
use crate::bytes::IoError;
use integer_encoding::{VarInt, VarIntReader};
use vstd::prelude::*;

verus! {

/// The base-128 digits of `n`, least significant first, each in a byte whose
/// high bit says whether another follows.
pub open spec fn varint_bytes(n: nat) -> Seq<u8>
    decreases n,
{
    if n < 128 {
        seq![n as u8]
    } else {
        seq![(128 + n % 128) as u8] + varint_bytes(n / 128)
    }
}

/// How many bytes at the front of `s` announce another one.
pub open spec fn continuation_run(s: Seq<u8>) -> nat
    decreases s.len(),
{
    if s.len() > 0 && s[0] >= 128 {
        1 + continuation_run(s.skip(1))
    } else {
        0
    }
}

/// The number whose base-128 digits, least significant first, are the low seven
/// bits of each byte of `s`.
pub open spec fn varint_value(s: Seq<u8>) -> nat
    decreases s.len(),
{
    if s.len() == 0 {
        0
    } else {
        (s[0] % 128) as nat + 128 * varint_value(s.skip(1))
    }
}

/// The most bytes that an encoded `usize` may take.
pub open spec fn max_varint_len() -> int {
    (usize::BITS as int + 7) / 7
}

/// What reading a `usize` from the front of `s` gives: the number and how many
/// bytes it took.
///
/// A run that never ends within the input, and a number that does not fit, count
/// as a premature end; a run that goes on past the longest encoding is invalid.
pub open spec fn varint_decoding(s: Seq<u8>) -> Result<(usize, int), IoError> {
    let run: int = continuation_run(s) as int;
    if run >= max_varint_len() {
        if s.len() > max_varint_len() {
            Err(IoError::InvalidData)
        } else {
            Err(IoError::UnexpectedEof)
        }
    } else if run == s.len() {
        Err(IoError::UnexpectedEof)
    } else if varint_value(s.take(run + 1)) > usize::MAX {
        Err(IoError::UnexpectedEof)
    } else {
        Ok((varint_value(s.take(run + 1)) as usize, run + 1))
    }
}

/// How many bytes of `s` are taken when reading a `usize` fails: one more than the
/// longest encoding for a run that goes on past it, the whole number for one that does
/// not fit. `None` where the input ends first.
pub open spec fn varint_failure_reach(s: Seq<u8>) -> Option<int> {
    let run: int = continuation_run(s) as int;
    if run >= max_varint_len() && s.len() > max_varint_len() {
        Some(max_varint_len() + 1)
    } else if run < max_varint_len() && run < s.len() {
        Some(run + 1)
    } else {
        None
    }
}

/// `VarInt::encode_var_vec` on a `usize`: the returned bytes are the base-128
/// digits of the number, least significant first, and every byte but the last
/// has its high bit set.
#[verifier::external_body]
pub(crate) fn encode_varint(n: usize) -> (r: Vec<u8>)
    ensures
        r@ == varint_bytes(n as nat),
{
    n.encode_var_vec()
}

/// `VarInt::required_space` on a `usize`: the number of bytes of the encoding.
#[verifier::external_body]
pub(crate) fn varint_size(n: usize) -> (r: usize)
    ensures
        r == varint_bytes(n as nat).len(),
{
    n.required_space()
}

/// `VarIntReader::read_varint` for a `usize`, on a slice as the reader: the number at
/// the front of the slice, or the kind of the error; and the rest of the slice behind
/// what was taken, byte by byte. What is left where the slice ends before the number
/// does is not stated.
#[verifier::external_body]
pub(crate) fn read_varint<'a>(src: &'a [u8]) -> (r: (Result<usize, IoError>, &'a [u8]))
    ensures
        match varint_decoding(src@) {
            Ok((n, used)) => r.0 is Ok && r.0->Ok_0 == n && r.1@ == src@.skip(used),
            Err(e) => {
                &&& r.0 is Err
                &&& r.0->Err_0 == e
                &&& varint_failure_reach(src@) matches Some(k) ==> r.1@ == src@.skip(k)
            },
        },
{
    let mut rest: &'a [u8] = src;
    let n = match rest.read_varint::<usize>() {
        Ok(n) => Ok(n),
        Err(e) => match e.kind() {
            std::io::ErrorKind::UnexpectedEof => Err(IoError::UnexpectedEof),
            _ => Err(IoError::InvalidData),
        },
    };
    (n, rest)
}

proof fn lemma_continuation_run_bound(s: Seq<u8>)
    ensures
        continuation_run(s) <= s.len(),
    decreases s.len(),
{
    if s.len() > 0 {
        lemma_continuation_run_bound(s.skip(1));
    }
}

/// Reading a number takes at least one byte, and no more than there is.
pub proof fn lemma_varint_decoding_within_input(s: Seq<u8>)
    ensures
        varint_decoding(s) matches Ok((_, used)) ==> 0 < used <= s.len(),
{
    lemma_continuation_run_bound(s);
}

/// A read that fails takes no more than there is.
pub proof fn lemma_varint_failure_within_input(s: Seq<u8>)
    ensures
        varint_failure_reach(s) matches Some(k) ==> 0 < k <= s.len(),
{
}

/// Lengths below `0x4000` take one or two bytes, and are read back as they were
/// written, whatever follows.
pub proof fn lemma_varint_roundtrip(n: nat, tail: Seq<u8>)
    requires
        n < 0x4000,
    ensures
        varint_bytes(n).len() == if n < 128 { 1int } else { 2int },
        varint_decoding(varint_bytes(n) + tail) == Ok::<(usize, int), IoError>(
            (n as usize, varint_bytes(n).len() as int),
        ),
{
    let enc = varint_bytes(n);
    let s = enc + tail;
    reveal_with_fuel(varint_bytes, 3);
    reveal_with_fuel(continuation_run, 3);
    reveal_with_fuel(varint_value, 3);
    if n < 128 {
        assert(s[0] == n as u8);
        assert(continuation_run(s) == 0);
        assert(s.take(1) =~= seq![n as u8]);
    } else {
        assert(enc =~= seq![(128 + n % 128) as u8, (n / 128) as u8]);
        assert(s[0] == (128 + n % 128) as u8);
        assert(s.skip(1)[0] == (n / 128) as u8);
        assert(continuation_run(s) == 1);
        assert(s.take(2) =~= enc);
        assert(enc.skip(1) =~= seq![(n / 128) as u8]);
        assert(enc.skip(1).skip(1) =~= Seq::<u8>::empty());
        assert(varint_value(enc) == n);
    }
}

/// A length that is cut short is not read.
pub proof fn lemma_varint_truncated(n: nat, k: int)
    requires
        n < 0x4000,
        0 <= k < varint_bytes(n).len(),
    ensures
        varint_decoding(varint_bytes(n).take(k)) is Err,
{
    let cut = varint_bytes(n).take(k);
    lemma_varint_roundtrip(n, Seq::empty());
    reveal_with_fuel(varint_bytes, 3);
    reveal_with_fuel(continuation_run, 3);
    if k == 1 {
        assert(cut =~= seq![(128 + n % 128) as u8]);
        assert(continuation_run(cut) == 1);
    } else {
        assert(cut =~= Seq::<u8>::empty());
    }
}

} // verus!
