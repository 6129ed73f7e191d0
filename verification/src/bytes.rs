//! Byte-level reading and writing: big-endian integers and a reader that walks
//! over a slice.
use vstd::arithmetic::power::pow;
use vstd::prelude::*;

verus! {

/// What can go wrong while bytes are read or written.
#[derive(Debug, Clone, Copy, PartialEq, Eq, Structural)]
pub enum IoError {
    /// The input ended before the value did.
    UnexpectedEof,
    /// The bytes do not stand for any value.
    InvalidData,
    /// There is no room for what is to be written.
    WriteZero,
}

/// The `width` low-order base-256 digits of `n`, most significant first.
pub open spec fn be_bytes(n: nat, width: nat) -> Seq<u8>
    decreases width,
{
    if width == 0 {
        Seq::empty()
    } else {
        be_bytes(n / 256, (width - 1) as nat).push((n % 256) as u8)
    }
}

/// The number whose base-256 digits, most significant first, are `s`.
pub open spec fn be_value(s: Seq<u8>) -> nat
    decreases s.len(),
{
    if s.len() == 0 {
        0
    } else {
        be_value(s.drop_last()) * 256 + s.last() as nat
    }
}

pub proof fn lemma_be_bytes_len(n: nat, width: nat)
    ensures
        be_bytes(n, width).len() == width,
    decreases width,
{
    if width > 0 {
        lemma_be_bytes_len(n / 256, (width - 1) as nat);
    }
}

pub proof fn lemma_pow_256(width: nat)
    ensures
        pow(256, width + 1) == 256 * pow(256, width),
        pow(256, width) > 0,
    decreases width,
{
    reveal(pow);
    if width > 0 {
        lemma_pow_256((width - 1) as nat);
    }
}

/// How many values fit in the widths that the format uses.
pub proof fn lemma_pow_256_widths()
    ensures
        pow(256, 0) == 1,
        pow(256, 1) == 0x100,
        pow(256, 2) == 0x1_0000,
        pow(256, 4) == 0x1_0000_0000,
        pow(256, 8) == 0x1_0000_0000_0000_0000,
{
    reveal(pow);
    lemma_pow_256(0);
    lemma_pow_256(1);
    lemma_pow_256(2);
    lemma_pow_256(3);
    lemma_pow_256(4);
    lemma_pow_256(5);
    lemma_pow_256(6);
    lemma_pow_256(7);
}

/// Reading back a number gives the number, when it fits in its width.
pub proof fn lemma_be_value_of_bytes(n: nat, width: nat)
    requires
        n < pow(256, width),
    ensures
        be_bytes(n, width).len() == width,
        be_value(be_bytes(n, width)) == n,
    decreases width,
{
    lemma_be_bytes_len(n, width);
    if width == 0 {
        reveal(pow);
    } else {
        lemma_pow_256((width - 1) as nat);
        lemma_be_value_of_bytes(n / 256, (width - 1) as nat);
        let s = be_bytes(n, width);
        assert(s.drop_last() =~= be_bytes(n / 256, (width - 1) as nat));
    }
}

pub proof fn lemma_be_value_bound(s: Seq<u8>)
    ensures
        be_value(s) < pow(256, s.len()),
    decreases s.len(),
{
    if s.len() == 0 {
        reveal(pow);
    } else {
        lemma_be_value_bound(s.drop_last());
        lemma_pow_256((s.len() - 1) as nat);
    }
}

/// What reading a big-endian number of `width` bytes from the front of `s` gives:
/// the number and how many bytes it took.
pub open spec fn be_decoding(s: Seq<u8>, width: int) -> Result<(nat, int), IoError> {
    if s.len() < width {
        Err(IoError::UnexpectedEof)
    } else {
        Ok((be_value(s.take(width)), width))
    }
}

/// A number that fits in its width is read back, whatever follows it.
pub proof fn lemma_be_roundtrip(n: nat, width: nat, tail: Seq<u8>)
    requires
        n < pow(256, width),
    ensures
        be_bytes(n, width).len() == width,
        be_decoding(be_bytes(n, width) + tail, width as int) == Ok::<(nat, int), IoError>(
            (n, width as int),
        ),
{
    lemma_be_value_of_bytes(n, width);
    assert((be_bytes(n, width) + tail).take(width as int) =~= be_bytes(n, width));
}

/// What is read in `width` bytes is below `256` to the `width`.
pub proof fn lemma_be_decoding_bound(s: Seq<u8>, width: nat)
    ensures
        be_decoding(s, width as int) matches Ok((n, used)) ==> n < pow(256, width) && used == width
            && width <= s.len(),
{
    if s.len() >= width {
        lemma_be_value_bound(s.take(width as int));
    }
}

/// Appends `n` in `width` bytes, most significant first.
pub fn push_be(out: &mut Vec<u8>, n: u64, width: usize)
    ensures
        final(out)@ == old(out)@ + be_bytes(n as nat, width as nat),
    decreases width,
{
    if width > 0 {
        push_be(out, n / 256, width - 1);
        out.push((n % 256) as u8);
    }
    assert(out@ =~= old(out)@ + be_bytes(n as nat, width as nat));
}

/// The number that at most eight bytes stand for, most significant first.
pub fn be_decode(s: &[u8]) -> (n: u64)
    requires
        s@.len() <= 8,
    ensures
        n == be_value(s@),
{
    let mut acc: u64 = 0;
    let mut i: usize = 0;
    while i < s.len()
        invariant
            i <= s@.len() <= 8,
            acc == be_value(s@.take(i as int)),
        decreases s@.len() - i,
    {
        proof {
            let next = s@.take(i + 1);
            assert(next.drop_last() =~= s@.take(i as int));
            lemma_be_value_bound(next);
            lemma_pow_256_widths();
            vstd::arithmetic::power::lemma_pow_increases(256, (i + 1) as nat, 8);
        }
        acc = acc * 256 + s[i] as u64;
        i += 1;
    }
    proof {
        assert(s@.take(i as int) =~= s@);
    }
    acc
}

/// A reader that consumes a slice from its front. Its view is what is left.
pub struct ByteReader<'a> {
    rest: &'a [u8],
}

impl<'a> View for ByteReader<'a> {
    type V = Seq<u8>;

    closed spec fn view(&self) -> Seq<u8> {
        self.rest@
    }
}

impl<'a> ByteReader<'a> {
    pub fn new(bytes: &'a [u8]) -> (r: Self)
        ensures
            r@ == bytes@,
    {
        ByteReader { rest: bytes }
    }

    /// What has not been read yet.
    pub fn rest(&self) -> (s: &'a [u8])
        ensures
            s@ == self@,
    {
        self.rest
    }

    /// Takes the next `n` bytes, or nothing when fewer are left.
    pub fn take(&mut self, n: usize) -> (r: Result<&'a [u8], IoError>)
        ensures
            match r {
                Ok(s) => n <= old(self)@.len() && s@ == old(self)@.take(n as int) && final(self)@
                    == old(self)@.skip(n as int),
                Err(e) => n > old(self)@.len() && e == IoError::UnexpectedEof && final(self)@
                    == old(self)@,
            },
    {
        let rest: &'a [u8] = self.rest;
        if n > rest.len() {
            return Err(IoError::UnexpectedEof);
        }
        let (head, tail) = rest.split_at(n);
        self.rest = tail;
        assert(head@ =~= old(self)@.take(n as int));
        assert(tail@ =~= old(self)@.skip(n as int));
        Ok(head)
    }

    /// Reads a big-endian number of `width` bytes.
    pub fn read_be(&mut self, width: usize) -> (r: Result<u64, IoError>)
        requires
            width <= 8,
        ensures
            match be_decoding(old(self)@, width as int) {
                Ok((n, used)) => r is Ok && r->Ok_0 == n && n < pow(256, width as nat)
                    && final(self)@ == old(self)@.skip(used),
                Err(e) => r is Err && r->Err_0 == e && final(self)@ == old(self)@,
            },
    {
        proof {
            lemma_be_decoding_bound(self@, width as nat);
        }
        match self.take(width) {
            Ok(s) => Ok(be_decode(s)),
            Err(e) => Err(e),
        }
    }
}

} // verus!
