//! The byte format as a trait, and how it extends to optional values.
use crate::bytes::{ByteReader, IoError};
use vstd::prelude::*;

verus! {

/// `n`, or the largest `usize` where `n` does not fit.
pub open spec fn saturated(n: nat) -> usize {
    if n <= usize::MAX {
        n as usize
    } else {
        usize::MAX
    }
}

/// A type with a byte format.
///
/// The spec functions say, of a value given by its deep view, what is written,
/// whether writing stops short, and what any input is read as. The proof
/// functions are the laws that tie the two directions together.
pub trait Serializable: DeepView + Sized {
    type Error;

    /// Whether `v` is the deep view of a well-formed value.
    spec fn valid(v: Self::V) -> bool;

    /// What is written for `v`, up to where writing stops.
    spec fn encoding(v: Self::V) -> Seq<u8>;

    /// Why writing `v` stops short, if it does.
    spec fn refusal(v: Self::V) -> Option<Self::Error>;

    /// The number of bytes of the full encoding of `v`.
    spec fn size(v: Self::V) -> nat;

    /// What the front of `s` is read as, and how many bytes that takes.
    spec fn decoding(s: Seq<u8>) -> Result<(Self::V, int), Self::Error>;

    /// How many bytes of `s` a read that fails takes. `None` where the read fails for
    /// want of input: how much it takes is then left open.
    spec fn failure_reach(s: Seq<u8>) -> Option<int>;

    /// The error of this type for a failed read.
    spec fn read_failure(e: IoError) -> Self::Error;

    fn read_error(e: IoError) -> (r: Self::Error)
        ensures
            r == Self::read_failure(e),
    ;

    /// Appends the encoding to `w`.
    fn serialize(&self, w: &mut Vec<u8>) -> (r: Result<(), Self::Error>)
        ensures
            final(w)@ == old(w)@ + Self::encoding(self.deep_view()),
            match Self::refusal(self.deep_view()) {
                None => r is Ok,
                Some(e) => r is Err && r->Err_0 == e,
            },
    ;

    /// Reads a value from the front of `r`. How much of `r` is consumed is left open
    /// where there is not enough of it.
    fn deserialize(r: &mut ByteReader<'_>) -> (out: Result<Self, Self::Error>)
        ensures
            match Self::decoding(old(r)@) {
                Ok((v, n)) => {
                    &&& out is Ok
                    &&& out->Ok_0.deep_view() == v
                    &&& final(r)@ == old(r)@.skip(n)
                },
                Err(e) => {
                    &&& out is Err
                    &&& out->Err_0 == e
                    &&& Self::failure_reach(old(r)@) matches Some(n) ==> final(r)@ == old(r)@.skip(
                        n,
                    )
                },
            },
    ;

    /// The number of bytes of the encoding; the largest `usize` where it does not
    /// fit in one.
    fn encoded_size(&self) -> (n: usize)
        ensures
            n == saturated(Self::size(self.deep_view())),
    ;

    /// Reading takes no more than there is.
    proof fn law_decoding_within_input(s: Seq<u8>)
        ensures
            Self::decoding(s) matches Ok((_, n)) ==> 0 <= n <= s.len(),
    ;

    /// A read that fails takes no more than there is.
    proof fn law_failure_within_input(s: Seq<u8>)
        ensures
            Self::failure_reach(s) matches Some(n) ==> 0 <= n <= s.len(),
    ;

    /// The size of a value is the length of its encoding.
    proof fn law_size_is_exact(v: Self::V)
        requires
            Self::refusal(v) is None,
        ensures
            Self::encoding(v).len() == Self::size(v),
    ;

    /// What is written is read back as it was, whatever follows it, and nothing
    /// of what follows is consumed.
    proof fn law_roundtrip(v: Self::V, tail: Seq<u8>)
        requires
            Self::valid(v),
            Self::refusal(v) is None,
        ensures
            Self::decoding(Self::encoding(v) + tail) == Ok::<(Self::V, int), Self::Error>(
                (v, Self::encoding(v).len() as int),
            ),
    ;

    /// An encoding that is cut short is never read as a value.
    proof fn law_truncated_is_refused(v: Self::V, k: int)
        requires
            Self::valid(v),
            Self::refusal(v) is None,
            0 <= k < Self::encoding(v).len(),
        ensures
            Self::decoding(Self::encoding(v).take(k)) is Err,
    ;
}

/// Optional values: a byte `0` for `None`; a byte `1`, then the value, for
/// `Some`. Any other first byte is invalid.
impl<T: Serializable> Serializable for Option<T> {
    type Error = T::Error;

    open spec fn valid(v: Option<T::V>) -> bool {
        v matches Some(x) ==> T::valid(x)
    }

    open spec fn encoding(v: Option<T::V>) -> Seq<u8> {
        match v {
            Some(x) => seq![1u8] + T::encoding(x),
            None => seq![0u8],
        }
    }

    open spec fn refusal(v: Option<T::V>) -> Option<T::Error> {
        match v {
            Some(x) => T::refusal(x),
            None => None,
        }
    }

    open spec fn size(v: Option<T::V>) -> nat {
        match v {
            Some(x) => T::size(x) + 1,
            None => 1,
        }
    }

    open spec fn decoding(s: Seq<u8>) -> Result<(Option<T::V>, int), T::Error> {
        if s.len() == 0 {
            Err(T::read_failure(IoError::UnexpectedEof))
        } else if s[0] == 0 {
            Ok((None, 1))
        } else if s[0] == 1 {
            match T::decoding(s.skip(1)) {
                Ok((x, n)) => Ok((Some(x), n + 1)),
                Err(e) => Err(e),
            }
        } else {
            Err(T::read_failure(IoError::InvalidData))
        }
    }

    open spec fn failure_reach(s: Seq<u8>) -> Option<int> {
        if s.len() == 0 {
            None
        } else if s[0] == 1 {
            match T::failure_reach(s.skip(1)) {
                Some(n) => Some(n + 1),
                None => None,
            }
        } else {
            Some(1)
        }
    }

    open spec fn read_failure(e: IoError) -> T::Error {
        T::read_failure(e)
    }

    fn read_error(e: IoError) -> (r: T::Error) {
        T::read_error(e)
    }

    fn serialize(&self, w: &mut Vec<u8>) -> (r: Result<(), T::Error>) {
        let ghost before = w@;
        match self {
            Some(v) => {
                w.push(1);
                let r = v.serialize(w);
                assert(w@ =~= before + (seq![1u8] + T::encoding(v.deep_view())));
                r
            },
            None => {
                w.push(0);
                assert(w@ =~= before + seq![0u8]);
                Ok(())
            },
        }
    }

    fn deserialize(r: &mut ByteReader<'_>) -> (out: Result<Self, T::Error>) {
        let ghost s = r@;
        let tag: u8 = match r.take(1) {
            Ok(bytes) => bytes[0],
            Err(e) => return Err(T::read_error(e)),
        };
        if tag == 0 {
            Ok(None)
        } else if tag == 1 {
            proof {
                T::law_decoding_within_input(s.skip(1));
            }
            match T::deserialize(r) {
                Ok(v) => {
                    proof {
                        let n = T::decoding(s.skip(1))->Ok_0.1;
                        assert(s.skip(1).skip(n) =~= s.skip(n + 1));
                    }
                    Ok(Some(v))
                },
                Err(e) => {
                    proof {
                        T::law_failure_within_input(s.skip(1));
                        if let Some(n) = T::failure_reach(s.skip(1)) {
                            assert(s.skip(1).skip(n) =~= s.skip(n + 1));
                        }
                    }
                    Err(e)
                },
            }
        } else {
            Err(T::read_error(IoError::InvalidData))
        }
    }

    fn encoded_size(&self) -> (n: usize) {
        match self {
            Some(v) => v.encoded_size().saturating_add(1),
            None => 1,
        }
    }

    proof fn law_decoding_within_input(s: Seq<u8>) {
        if s.len() > 0 && s[0] == 1 {
            T::law_decoding_within_input(s.skip(1));
        }
    }

    proof fn law_failure_within_input(s: Seq<u8>) {
        if s.len() > 0 && s[0] == 1 {
            T::law_failure_within_input(s.skip(1));
        }
    }

    proof fn law_size_is_exact(v: Option<T::V>) {
        if let Some(x) = v {
            T::law_size_is_exact(x);
        }
    }

    proof fn law_roundtrip(v: Option<T::V>, tail: Seq<u8>) {
        if let Some(x) = v {
            T::law_roundtrip(x, tail);
            let s = Self::encoding(v) + tail;
            assert(s.skip(1) =~= T::encoding(x) + tail);
        }
    }

    proof fn law_truncated_is_refused(v: Option<T::V>, k: int) {
        if let Some(x) = v {
            let cut = Self::encoding(v).take(k);
            if k > 0 {
                T::law_truncated_is_refused(x, k - 1);
                assert(cut.skip(1) =~= T::encoding(x).take(k - 1));
            }
        }
    }
}

} // verus!
