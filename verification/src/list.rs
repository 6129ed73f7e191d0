//! Runs of values written one after the other, with nothing in between.
use crate::bytes::ByteReader;
use crate::traits::{saturated, Serializable};
use vstd::prelude::*;

verus! {

/// Whether every element is the deep view of a well-formed value.
pub open spec fn list_valid<T: Serializable>(vs: Seq<T::V>) -> bool {
    forall|i: int| 0 <= i < vs.len() ==> T::valid(#[trigger] vs[i])
}

/// The error of the first element that is refused.
pub open spec fn list_refusal<T: Serializable>(vs: Seq<T::V>) -> Option<T::Error>
    decreases vs.len(),
{
    if vs.len() == 0 {
        None
    } else {
        match list_refusal::<T>(vs.drop_last()) {
            Some(e) => Some(e),
            None => T::refusal(vs.last()),
        }
    }
}

/// The elements in front of the first one that is refused; all of them where none is.
pub open spec fn list_accepted<T: Serializable>(vs: Seq<T::V>) -> Seq<T::V>
    decreases vs.len(),
{
    if vs.len() == 0 || list_refusal::<T>(vs) is None {
        vs
    } else {
        list_accepted::<T>(vs.drop_last())
    }
}

/// The encodings of the elements one after the other, up to where writing stops.
pub open spec fn list_encoding<T: Serializable>(vs: Seq<T::V>) -> Seq<u8>
    decreases vs.len(),
{
    if vs.len() == 0 {
        Seq::empty()
    } else if list_refusal::<T>(vs.drop_last()) is Some {
        list_encoding::<T>(vs.drop_last())
    } else {
        list_encoding::<T>(vs.drop_last()) + T::encoding(vs.last())
    }
}

/// The sum of the sizes of the elements.
pub open spec fn list_size<T: Serializable>(vs: Seq<T::V>) -> nat
    decreases vs.len(),
{
    if vs.len() == 0 {
        0
    } else {
        list_size::<T>(vs.drop_last()) + T::size(vs.last())
    }
}

/// What the front of `s` is read as when `n` elements are read from it.
pub open spec fn list_decoding<T: Serializable>(s: Seq<u8>, n: nat) -> Result<
    (Seq<T::V>, int),
    T::Error,
>
    decreases n,
{
    if n == 0 {
        Ok((Seq::empty(), 0))
    } else {
        match list_decoding::<T>(s, (n - 1) as nat) {
            Err(e) => Err(e),
            Ok((vs, used)) => match T::decoding(s.skip(used)) {
                Err(e) => Err(e),
                Ok((v, k)) => Ok((vs.push(v), used + k)),
            },
        }
    }
}

/// How many bytes of `s` are taken when reading `n` elements fails: those of the
/// elements in front of the one that fails, and what that one takes.
pub open spec fn list_failure_reach<T: Serializable>(s: Seq<u8>, n: nat) -> Option<int>
    decreases n,
{
    if n == 0 {
        None
    } else {
        match list_decoding::<T>(s, (n - 1) as nat) {
            Err(_) => list_failure_reach::<T>(s, (n - 1) as nat),
            Ok((_, used)) => match T::failure_reach(s.skip(used)) {
                Some(k) => Some(used + k),
                None => None,
            },
        }
    }
}

/// Writing a list stops where writing a front part of it stops.
pub proof fn lemma_list_stops_early<T: Serializable>(vs: Seq<T::V>, i: int)
    requires
        0 <= i <= vs.len(),
        list_refusal::<T>(vs.take(i)) is Some,
    ensures
        list_refusal::<T>(vs) == list_refusal::<T>(vs.take(i)),
        list_encoding::<T>(vs) == list_encoding::<T>(vs.take(i)),
    decreases vs.len(),
{
    if i == vs.len() {
        assert(vs.take(i) =~= vs);
    } else {
        assert(vs.drop_last().take(i) =~= vs.take(i));
        lemma_list_stops_early::<T>(vs.drop_last(), i);
    }
}

/// The accepted elements are those in front of the first refused one.
pub proof fn lemma_list_accepted_is<T: Serializable>(vs: Seq<T::V>, i: int)
    requires
        0 <= i < vs.len(),
        list_refusal::<T>(vs.take(i)) is None,
        list_refusal::<T>(vs.take(i + 1)) is Some,
    ensures
        list_accepted::<T>(vs) == vs.take(i),
    decreases vs.len(),
{
    lemma_list_stops_early::<T>(vs, i + 1);
    let front = vs.drop_last();
    assert(front.take(i) =~= vs.take(i));
    if i == vs.len() - 1 {
        assert(front =~= vs.take(i));
        assert(list_accepted::<T>(front) == front);
    } else {
        assert(front.take(i + 1) =~= vs.take(i + 1));
        lemma_list_accepted_is::<T>(front, i);
    }
}

/// Every part of the front that is accepted is part of the accepted elements.
pub proof fn lemma_list_accepted_front<T: Serializable>(vs: Seq<T::V>, i: int)
    requires
        0 <= i <= vs.len(),
        list_refusal::<T>(vs.take(i)) is None,
    ensures
        i <= list_accepted::<T>(vs).len() <= vs.len(),
        list_accepted::<T>(vs).take(i) == vs.take(i),
        list_refusal::<T>(list_accepted::<T>(vs)) is None,
    decreases vs.len(),
{
    if list_refusal::<T>(vs) is Some {
        assert(i < vs.len()) by {
            if i == vs.len() {
                assert(vs.take(i) =~= vs);
            }
        }
        assert(vs.drop_last().take(i) =~= vs.take(i));
        lemma_list_accepted_front::<T>(vs.drop_last(), i);
    }
}

/// The accepted elements are no more, and no larger together, than all of them.
pub proof fn lemma_list_accepted_size<T: Serializable>(vs: Seq<T::V>)
    ensures
        list_accepted::<T>(vs).len() <= vs.len(),
        list_size::<T>(list_accepted::<T>(vs)) <= list_size::<T>(vs),
    decreases vs.len(),
{
    if list_refusal::<T>(vs) is Some {
        lemma_list_accepted_size::<T>(vs.drop_last());
    }
}

/// A list is accepted exactly when each element is.
pub proof fn lemma_list_accepted<T: Serializable>(vs: Seq<T::V>)
    ensures
        list_refusal::<T>(vs) is None <==> forall|i: int|
            0 <= i < vs.len() ==> T::refusal(#[trigger] vs[i]) is None,
    decreases vs.len(),
{
    if vs.len() > 0 {
        let front = vs.drop_last();
        lemma_list_accepted::<T>(front);
        if list_refusal::<T>(vs) is None {
            assert forall|i: int| 0 <= i < vs.len() implies T::refusal(#[trigger] vs[i]) is None by {
                if i < front.len() {
                    assert(front[i] == vs[i]);
                }
            }
        } else if forall|i: int| 0 <= i < vs.len() ==> T::refusal(#[trigger] vs[i]) is None {
            assert forall|i: int| 0 <= i < front.len() implies T::refusal(
                #[trigger] front[i],
            ) is None by {
                assert(vs[i] == front[i]);
            }
            assert(vs[vs.len() - 1] == vs.last());
        }
    }
}

/// One more element: how the encoding of a front part grows.
pub proof fn lemma_list_step<T: Serializable>(vs: Seq<T::V>, i: int)
    requires
        0 <= i < vs.len(),
    ensures
        list_refusal::<T>(vs.take(i)) is None ==> list_refusal::<T>(vs.take(i + 1)) == T::refusal(
            vs[i],
        ) && list_encoding::<T>(vs.take(i + 1)) == list_encoding::<T>(vs.take(i)) + T::encoding(
            vs[i],
        ),
        list_size::<T>(vs.take(i + 1)) == list_size::<T>(vs.take(i)) + T::size(vs[i]),
{
    assert(vs.take(i + 1).drop_last() =~= vs.take(i));
}

/// The size of a front part is at most that of the whole.
pub proof fn lemma_list_size_monotonic<T: Serializable>(vs: Seq<T::V>, i: int)
    requires
        0 <= i <= vs.len(),
    ensures
        list_size::<T>(vs.take(i)) <= list_size::<T>(vs),
    decreases vs.len(),
{
    if i == vs.len() {
        assert(vs.take(i) =~= vs);
    } else {
        assert(vs.drop_last().take(i) =~= vs.take(i));
        lemma_list_size_monotonic::<T>(vs.drop_last(), i);
    }
}

/// The size of two lists one after the other.
pub proof fn lemma_list_size_concat<T: Serializable>(a: Seq<T::V>, b: Seq<T::V>)
    ensures
        list_size::<T>(a + b) == list_size::<T>(a) + list_size::<T>(b),
    decreases b.len(),
{
    if b.len() == 0 {
        assert(a + b =~= a);
    } else {
        lemma_list_size_concat::<T>(a, b.drop_last());
        assert((a + b).drop_last() =~= a + b.drop_last());
    }
}

/// The size of a list is the length of its encoding.
pub proof fn lemma_list_size_is_exact<T: Serializable>(vs: Seq<T::V>)
    requires
        list_refusal::<T>(vs) is None,
    ensures
        list_encoding::<T>(vs).len() == list_size::<T>(vs),
    decreases vs.len(),
{
    if vs.len() > 0 {
        lemma_list_size_is_exact::<T>(vs.drop_last());
        T::law_size_is_exact(vs.last());
    }
}

pub proof fn lemma_list_decoding_within_input<T: Serializable>(s: Seq<u8>, n: nat)
    ensures
        list_decoding::<T>(s, n) matches Ok((vs, used)) ==> 0 <= used <= s.len() && vs.len() == n,
    decreases n,
{
    if n > 0 {
        lemma_list_decoding_within_input::<T>(s, (n - 1) as nat);
        if let Ok((vs, used)) = list_decoding::<T>(s, (n - 1) as nat) {
            T::law_decoding_within_input(s.skip(used));
        }
    }
}

pub proof fn lemma_list_failure_within_input<T: Serializable>(s: Seq<u8>, n: nat)
    ensures
        list_failure_reach::<T>(s, n) matches Some(k) ==> 0 <= k <= s.len(),
    decreases n,
{
    if n > 0 {
        lemma_list_failure_within_input::<T>(s, (n - 1) as nat);
        lemma_list_decoding_within_input::<T>(s, (n - 1) as nat);
        if let Ok((_, used)) = list_decoding::<T>(s, (n - 1) as nat) {
            T::law_failure_within_input(s.skip(used));
        }
    }
}

/// Reading more elements fails where reading fewer does.
pub proof fn lemma_list_decoding_fails_early<T: Serializable>(s: Seq<u8>, i: nat, n: nat)
    requires
        i <= n,
        list_decoding::<T>(s, i) is Err,
    ensures
        list_decoding::<T>(s, n) is Err,
        list_decoding::<T>(s, n)->Err_0 == list_decoding::<T>(s, i)->Err_0,
        list_failure_reach::<T>(s, n) == list_failure_reach::<T>(s, i),
    decreases n,
{
    if i < n {
        lemma_list_decoding_fails_early::<T>(s, i, (n - 1) as nat);
    }
}

/// A list is read back as it was written.
pub proof fn lemma_list_roundtrip<T: Serializable>(vs: Seq<T::V>, tail: Seq<u8>)
    requires
        list_valid::<T>(vs),
        list_refusal::<T>(vs) is None,
    ensures
        list_decoding::<T>(list_encoding::<T>(vs) + tail, vs.len()) == Ok::<
            (Seq<T::V>, int),
            T::Error,
        >((vs, list_encoding::<T>(vs).len() as int)),
    decreases vs.len(),
{
    if vs.len() == 0 {
        assert(vs =~= Seq::empty());
    } else {
        let front = vs.drop_last();
        let enc = T::encoding(vs.last());
        assert forall|i: int| 0 <= i < front.len() implies T::valid(#[trigger] front[i]) by {
            assert(vs[i] == front[i]);
        }
        assert(T::valid(vs[vs.len() - 1]));
        lemma_list_roundtrip::<T>(front, enc + tail);
        T::law_roundtrip(vs.last(), tail);
        let s = list_encoding::<T>(vs) + tail;
        assert(s =~= list_encoding::<T>(front) + (enc + tail));
        assert(s.skip(list_encoding::<T>(front).len() as int) =~= enc + tail);
        assert(front.push(vs.last()) =~= vs);
    }
}

/// A list that is cut short is not read.
pub proof fn lemma_list_truncated<T: Serializable>(vs: Seq<T::V>, k: int)
    requires
        list_valid::<T>(vs),
        list_refusal::<T>(vs) is None,
        0 <= k < list_encoding::<T>(vs).len(),
    ensures
        list_decoding::<T>(list_encoding::<T>(vs).take(k), vs.len()) is Err,
    decreases vs.len(),
{
    let front = vs.drop_last();
    let cut = list_encoding::<T>(vs).take(k);
    let front_len = list_encoding::<T>(front).len() as int;
    assert forall|i: int| 0 <= i < front.len() implies T::valid(#[trigger] front[i]) by {
        assert(vs[i] == front[i]);
    }
    assert(T::valid(vs[vs.len() - 1]));
    if k < front_len {
        lemma_list_truncated::<T>(front, k);
        assert(cut =~= list_encoding::<T>(front).take(k));
    } else {
        let part = T::encoding(vs.last()).take(k - front_len);
        lemma_list_roundtrip::<T>(front, part);
        assert(cut =~= list_encoding::<T>(front) + part);
        assert(cut.skip(front_len) =~= part);
        T::law_truncated_is_refused(vs.last(), k - front_len);
    }
}

/// Appends the encodings of the elements.
pub fn serialize_list<T: Serializable>(items: &Vec<T>, w: &mut Vec<u8>) -> (r: Result<(), T::Error>)
    ensures
        final(w)@ == old(w)@ + list_encoding::<T>(items.deep_view()),
        match list_refusal::<T>(items.deep_view()) {
            None => r is Ok,
            Some(e) => r is Err && r->Err_0 == e,
        },
{
    let ghost vs = items.deep_view();
    let ghost before = w@;
    let mut i: usize = 0;
    assert(vs.take(0) =~= Seq::empty());
    assert(w@ =~= before + list_encoding::<T>(vs.take(0)));
    while i < items.len()
        invariant
            i <= items.len(),
            vs == items.deep_view(),
            before == old(w)@,
            list_refusal::<T>(vs.take(i as int)) is None,
            w@ == before + list_encoding::<T>(vs.take(i as int)),
        decreases items.len() - i,
    {
        proof {
            lemma_list_step::<T>(vs, i as int);
        }
        match items[i].serialize(w) {
            Ok(_) => {},
            Err(e) => {
                proof {
                    lemma_list_stops_early::<T>(vs, i + 1);
                    assert(w@ =~= before + list_encoding::<T>(vs.take(i + 1)));
                }
                return Err(e);
            },
        }
        assert(w@ =~= before + list_encoding::<T>(vs.take(i + 1)));
        i += 1;
    }
    assert(vs.take(i as int) =~= vs);
    Ok(())
}

/// Reads `n` elements from the front of `r`.
pub fn deserialize_list<T: Serializable>(r: &mut ByteReader<'_>, n: usize) -> (out: Result<
    Vec<T>,
    T::Error,
>)
    ensures
        match list_decoding::<T>(old(r)@, n as nat) {
            Ok((vs, used)) => {
                &&& out is Ok
                &&& out->Ok_0.deep_view() == vs
                &&& final(r)@ == old(r)@.skip(used)
            },
            Err(e) => {
                &&& out is Err
                &&& out->Err_0 == e
                &&& list_failure_reach::<T>(old(r)@, n as nat) matches Some(k) ==> final(r)@
                    == old(r)@.skip(k)
            },
        },
{
    let ghost s = r@;
    let mut items: Vec<T> = Vec::new();
    let mut i: usize = 0;
    assert(s.skip(0) =~= s);
    assert(items.deep_view() =~= Seq::empty());
    while i < n
        invariant
            i <= n,
            s == old(r)@,
            list_decoding::<T>(s, i as nat) is Ok,
            list_decoding::<T>(s, i as nat)->Ok_0.0 == items.deep_view(),
            r@ == s.skip(list_decoding::<T>(s, i as nat)->Ok_0.1),
        decreases n - i,
    {
        let ghost used = list_decoding::<T>(s, i as nat)->Ok_0.1;
        let ghost so_far = items.deep_view();
        proof {
            lemma_list_decoding_within_input::<T>(s, i as nat);
            T::law_decoding_within_input(s.skip(used));
        }
        match T::deserialize(r) {
            Ok(item) => {
                proof {
                    let k = T::decoding(s.skip(used))->Ok_0.1;
                    assert(s.skip(used).skip(k) =~= s.skip(used + k));
                }
                items.push(item);
                assert(items.deep_view() =~= so_far.push(item.deep_view()));
            },
            Err(e) => {
                proof {
                    lemma_list_decoding_fails_early::<T>(s, (i + 1) as nat, n as nat);
                    T::law_failure_within_input(s.skip(used));
                    if let Some(k) = T::failure_reach(s.skip(used)) {
                        assert(s.skip(used).skip(k) =~= s.skip(used + k));
                    }
                }
                return Err(e);
            },
        }
        i += 1;
    }
    Ok(items)
}

/// The sum of the encoded sizes of the elements; the largest `usize` where it
/// does not fit in one.
pub fn list_encoded_size<T: Serializable>(items: &Vec<T>) -> (n: usize)
    ensures
        n == saturated(list_size::<T>(items.deep_view())),
{
    let ghost vs = items.deep_view();
    let mut total: usize = 0;
    let mut i: usize = 0;
    assert(vs.take(0) =~= Seq::empty());
    while i < items.len()
        invariant
            i <= items.len(),
            vs == items.deep_view(),
            total == saturated(list_size::<T>(vs.take(i as int))),
        decreases items.len() - i,
    {
        proof {
            lemma_list_step::<T>(vs, i as int);
        }
        total = total.saturating_add(items[i].encoded_size());
        i += 1;
    }
    assert(vs.take(i as int) =~= vs);
    total
}

} // verus!
