//! Items in the order of their keys: what sorted means, and searching.
use crate::commontypes::{
    key_lt, key_relation, law_equal_keys_are_the_same, law_key_order_irreflexive,
    law_key_order_total, law_key_order_transitive, Key, KeyView,
};
use crate::schema::{has_key, row_key, Row, ValueView};
use crate::text::Relation;
use vstd::prelude::*;

verus! {

/// A type whose values are ordered by a key.
pub trait Keyed: DeepView + Sized {
    /// Whether an item with the deep view `v` has a key.
    spec fn keyed(v: Self::V) -> bool;

    /// Its key.
    spec fn key_of(v: Self::V) -> KeyView;

    /// How the key of this item stands to `key`.
    fn relation_to(&self, key: &Key) -> (r: Relation)
        requires
            Self::keyed(self.deep_view()),
        ensures
            r == key_relation(Self::key_of(self.deep_view()), key.deep_view()),
    ;

    /// The key of this item, copied out of it.
    fn copy_key(&self) -> (k: Key)
        requires
            Self::keyed(self.deep_view()),
        ensures
            k.deep_view() == Self::key_of(self.deep_view()),
    ;

    /// Whether this item has a key.
    fn is_keyed(&self) -> (r: bool)
        ensures
            r == Self::keyed(self.deep_view()),
    ;
}

impl Keyed for Key {
    open spec fn keyed(v: KeyView) -> bool {
        true
    }

    open spec fn key_of(v: KeyView) -> KeyView {
        v
    }

    fn relation_to(&self, key: &Key) -> (r: Relation) {
        self.relation(key)
    }

    fn copy_key(&self) -> (k: Key) {
        self.clone()
    }

    fn is_keyed(&self) -> (r: bool) {
        true
    }
}

impl Keyed for Row {
    open spec fn keyed(v: Seq<ValueView>) -> bool {
        has_key(v)
    }

    open spec fn key_of(v: Seq<ValueView>) -> KeyView {
        row_key(v)
    }

    fn relation_to(&self, key: &Key) -> (r: Relation) {
        proof {
            law_key_order_total(row_key(self.deep_view()), key.deep_view());
        }
        match self.cmp_key(key) {
            std::cmp::Ordering::Less => Relation::Less,
            std::cmp::Ordering::Equal => Relation::Equal,
            std::cmp::Ordering::Greater => Relation::Greater,
        }
    }

    fn copy_key(&self) -> (k: Key) {
        assert(self.deep_view()[0] == self.fields[0].deep_view());
        match Key::try_from(&self.fields[0]) {
            Ok(k) => k,
            Err(_) => {
                assert(false);
                Key::Integer(0)
            },
        }
    }

    fn is_keyed(&self) -> (r: bool) {
        if self.fields.is_empty() {
            return false;
        }
        assert(self.deep_view()[0] == self.fields[0].deep_view());
        match Key::try_from(&self.fields[0]) {
            Ok(_) => true,
            Err(_) => false,
        }
    }
}

/// The keys of the items.
pub open spec fn keys_of<T: Keyed>(vs: Seq<T::V>) -> Seq<KeyView> {
    vs.map_values(|v: T::V| T::key_of(v))
}

/// Keys are their own keys.
pub proof fn lemma_keys_of_keys(ks: Seq<KeyView>)
    ensures
        keys_of::<Key>(ks) == ks,
{
    assert(keys_of::<Key>(ks) =~= ks);
}

/// Whether every item has a key.
pub open spec fn all_keyed<T: Keyed>(vs: Seq<T::V>) -> bool {
    forall|i: int| 0 <= i < vs.len() ==> T::keyed(#[trigger] vs[i])
}

/// Whether no key comes before one that stands in front of it.
pub open spec fn sorted(ks: Seq<KeyView>) -> bool {
    forall|i: int, j: int| 0 <= i < j < ks.len() ==> !key_lt(#[trigger] ks[j], #[trigger] ks[i])
}

/// Whether every key comes after all those that stand in front of it.
pub open spec fn strictly_sorted(ks: Seq<KeyView>) -> bool {
    forall|i: int, j: int| 0 <= i < j < ks.len() ==> key_lt(#[trigger] ks[i], #[trigger] ks[j])
}

/// How many of the keys come before `key`.
pub open spec fn rank(ks: Seq<KeyView>, key: KeyView) -> nat
    decreases ks.len(),
{
    if ks.len() == 0 {
        0
    } else {
        rank(ks.drop_last(), key) + if key_lt(ks.last(), key) {
            1nat
        } else {
            0nat
        }
    }
}

/// How many of the keys do not come after `key`.
pub open spec fn rank_through(ks: Seq<KeyView>, key: KeyView) -> nat
    decreases ks.len(),
{
    if ks.len() == 0 {
        0
    } else {
        rank_through(ks.drop_last(), key) + if key_lt(key, ks.last()) {
            0nat
        } else {
            1nat
        }
    }
}

/// A strictly sorted sequence is sorted.
pub proof fn lemma_strictly_sorted_is_sorted(ks: Seq<KeyView>)
    requires
        strictly_sorted(ks),
    ensures
        sorted(ks),
{
    assert forall|i: int, j: int| 0 <= i < j < ks.len() implies !key_lt(
        #[trigger] ks[j],
        #[trigger] ks[i],
    ) by {
        law_key_order_total(ks[i], ks[j]);
    }
}

/// In a sorted sequence, what comes before the key at `i` comes before `key` if
/// that one does.
pub proof fn lemma_sorted_before(ks: Seq<KeyView>, i: int, key: KeyView)
    requires
        sorted(ks),
        0 <= i < ks.len(),
        key_lt(ks[i], key),
    ensures
        forall|j: int| 0 <= j <= i ==> key_lt(#[trigger] ks[j], key),
{
    assert forall|j: int| 0 <= j <= i implies key_lt(#[trigger] ks[j], key) by {
        if j < i {
            law_key_order_total(ks[j], ks[i]);
            if ks[j] != ks[i] {
                law_key_order_transitive(ks[j], ks[i], key);
            }
        }
    }
}

/// In a sorted sequence, what stands behind the key at `i` comes after `key` if
/// that one does.
pub proof fn lemma_sorted_after(ks: Seq<KeyView>, i: int, key: KeyView)
    requires
        sorted(ks),
        0 <= i < ks.len(),
        key_lt(key, ks[i]),
    ensures
        forall|j: int| i <= j < ks.len() ==> key_lt(key, #[trigger] ks[j]),
{
    assert forall|j: int| i <= j < ks.len() implies key_lt(key, #[trigger] ks[j]) by {
        if i < j {
            law_key_order_total(ks[j], ks[i]);
            if ks[j] != ks[i] {
                law_key_order_transitive(key, ks[i], ks[j]);
            }
        }
    }
}

/// The rank is where the keys that come before `key` end.
pub proof fn lemma_rank_is(ks: Seq<KeyView>, key: KeyView, p: int)
    requires
        0 <= p <= ks.len(),
        forall|i: int| 0 <= i < p ==> key_lt(#[trigger] ks[i], key),
        forall|i: int| p <= i < ks.len() ==> !key_lt(#[trigger] ks[i], key),
    ensures
        rank(ks, key) == p,
    decreases ks.len(),
{
    if ks.len() > 0 {
        let front = ks.drop_last();
        assert forall|i: int| 0 <= i < front.len() implies front[i] == #[trigger] ks[i] by {}
        if p == ks.len() {
            lemma_rank_is(front, key, p - 1);
        } else {
            lemma_rank_is(front, key, p);
        }
        assert(ks.last() == ks[ks.len() - 1]);
    }
}

/// The rank through `key` is where the keys that come after it begin.
pub proof fn lemma_rank_through_is(ks: Seq<KeyView>, key: KeyView, p: int)
    requires
        0 <= p <= ks.len(),
        forall|i: int| 0 <= i < p ==> !key_lt(key, #[trigger] ks[i]),
        forall|i: int| p <= i < ks.len() ==> key_lt(key, #[trigger] ks[i]),
    ensures
        rank_through(ks, key) == p,
    decreases ks.len(),
{
    if ks.len() > 0 {
        let front = ks.drop_last();
        assert forall|i: int| 0 <= i < front.len() implies front[i] == #[trigger] ks[i] by {}
        if p == ks.len() {
            lemma_rank_through_is(front, key, p - 1);
        } else {
            lemma_rank_through_is(front, key, p);
        }
        assert(ks.last() == ks[ks.len() - 1]);
    }
}

/// In a sorted sequence the keys before the rank come before `key`, and the
/// others do not.
pub proof fn lemma_rank_splits(ks: Seq<KeyView>, key: KeyView)
    requires
        sorted(ks),
    ensures
        rank(ks, key) <= ks.len(),
        forall|i: int| 0 <= i < rank(ks, key) ==> key_lt(#[trigger] ks[i], key),
        forall|i: int| rank(ks, key) <= i < ks.len() ==> !key_lt(#[trigger] ks[i], key),
    decreases ks.len(),
{
    if ks.len() > 0 {
        let front = ks.drop_last();
        assert(sorted(front));
        lemma_rank_splits(front, key);
        assert forall|i: int| 0 <= i < front.len() implies front[i] == #[trigger] ks[i] by {}
        assert(ks.last() == ks[ks.len() - 1]);
        if key_lt(ks.last(), key) {
            lemma_sorted_before(ks, ks.len() - 1, key);
            if rank(front, key) < front.len() {
                assert(!key_lt(front[rank(front, key) as int], key));
                assert(false);
            }
        }
    }
}

/// In a sorted sequence the keys before the rank through `key` do not come after
/// it, and the others do.
pub proof fn lemma_rank_through_splits(ks: Seq<KeyView>, key: KeyView)
    requires
        sorted(ks),
    ensures
        rank_through(ks, key) <= ks.len(),
        forall|i: int| 0 <= i < rank_through(ks, key) ==> !key_lt(key, #[trigger] ks[i]),
        forall|i: int| rank_through(ks, key) <= i < ks.len() ==> key_lt(key, #[trigger] ks[i]),
    decreases ks.len(),
{
    if ks.len() > 0 {
        let front = ks.drop_last();
        assert(sorted(front));
        lemma_rank_through_splits(front, key);
        assert forall|i: int| 0 <= i < front.len() implies front[i] == #[trigger] ks[i] by {}
        assert(ks.last() == ks[ks.len() - 1]);
        let p = rank_through(front, key);
        if p < front.len() {
            assert(key_lt(key, front[p as int]));
            assert(key_lt(key, ks[p as int]));
            lemma_sorted_after(ks, p as int, key);
        }
    }
}

/// Looks for `key` among sorted items: where it is, or else where it belongs.
pub fn search<T: Keyed>(items: &Vec<T>, key: &Key) -> (r: Result<usize, usize>)
    requires
        all_keyed::<T>(items.deep_view()),
        sorted(keys_of::<T>(items.deep_view())),
    ensures
        match r {
            Ok(i) => i < items.len() && keys_of::<T>(items.deep_view())[i as int]
                == key.deep_view(),
            Err(i) => !keys_of::<T>(items.deep_view()).contains(key.deep_view()) && i == rank(
                keys_of::<T>(items.deep_view()),
                key.deep_view(),
            ) && i <= items.len(),
        },
{
    let ghost vs = items.deep_view();
    let ghost ks = keys_of::<T>(vs);
    let ghost k = key.deep_view();
    let mut lo: usize = 0;
    let mut hi: usize = items.len();
    while lo < hi
        invariant
            vs == items.deep_view(),
            ks == keys_of::<T>(vs),
            k == key.deep_view(),
            all_keyed::<T>(vs),
            sorted(ks),
            lo <= hi <= items.len(),
            forall|i: int| 0 <= i < lo ==> key_lt(#[trigger] ks[i], k),
            forall|i: int| hi <= i < ks.len() ==> key_lt(k, #[trigger] ks[i]),
        decreases hi - lo,
    {
        let mid: usize = lo + (hi - lo) / 2;
        assert(vs[mid as int] == items[mid as int].deep_view());
        assert(ks[mid as int] == T::key_of(vs[mid as int]));
        proof {
            law_equal_keys_are_the_same(ks[mid as int], k);
        }
        match items[mid].relation_to(key) {
            Relation::Equal => {
                return Ok(mid);
            },
            Relation::Less => {
                proof {
                    lemma_sorted_before(ks, mid as int, k);
                }
                lo = mid + 1;
            },
            Relation::Greater => {
                proof {
                    lemma_sorted_after(ks, mid as int, k);
                }
                hi = mid;
            },
        }
    }
    proof {
        assert forall|i: int| 0 <= i < ks.len() implies #[trigger] ks[i] != k && (lo <= i ==> !key_lt(
            ks[i],
            k,
        )) by {
            law_key_order_irreflexive(k);
            law_key_order_total(ks[i], k);
        }
        lemma_rank_is(ks, k, lo as int);
    }
    Err(lo)
}

/// How many of the sorted items do not come after `key`.
pub fn search_through<T: Keyed>(items: &Vec<T>, key: &Key) -> (r: usize)
    requires
        all_keyed::<T>(items.deep_view()),
        sorted(keys_of::<T>(items.deep_view())),
    ensures
        r == rank_through(keys_of::<T>(items.deep_view()), key.deep_view()),
        r <= items.len(),
{
    let ghost vs = items.deep_view();
    let ghost ks = keys_of::<T>(vs);
    let ghost k = key.deep_view();
    let mut lo: usize = 0;
    let mut hi: usize = items.len();
    proof {
        lemma_rank_through_splits(ks, k);
    }
    while lo < hi
        invariant
            vs == items.deep_view(),
            ks == keys_of::<T>(vs),
            k == key.deep_view(),
            all_keyed::<T>(vs),
            sorted(ks),
            lo <= hi <= items.len(),
            lo <= rank_through(ks, k) <= hi,
        decreases hi - lo,
    {
        let mid: usize = lo + (hi - lo) / 2;
        assert(vs[mid as int] == items[mid as int].deep_view());
        assert(ks[mid as int] == T::key_of(vs[mid as int]));
        proof {
            lemma_rank_through_splits(ks, k);
            law_key_order_irreflexive(k);
            law_key_order_total(ks[mid as int], k);
        }
        match items[mid].relation_to(key) {
            Relation::Greater => {
                hi = mid;
            },
            _ => {
                lo = mid + 1;
            },
        }
    }
    lo
}

/// Whether every item has a key and the keys are sorted; with `strict`, whether
/// they are strictly sorted.
pub fn check_order<T: Keyed>(items: &Vec<T>, strict: bool) -> (r: bool)
    ensures
        r == (all_keyed::<T>(items.deep_view()) && if strict {
            strictly_sorted(keys_of::<T>(items.deep_view()))
        } else {
            sorted(keys_of::<T>(items.deep_view()))
        }),
{
    let ghost vs = items.deep_view();
    let ghost ks = keys_of::<T>(vs);
    let mut i: usize = 0;
    while i < items.len()
        invariant
            vs == items.deep_view(),
            ks == keys_of::<T>(vs),
            i <= items.len(),
            all_keyed::<T>(vs.take(i as int)),
            strict ==> strictly_sorted(ks.take(i as int)),
            sorted(ks.take(i as int)),
        decreases items.len() - i,
    {
        assert(vs[i as int] == items[i as int].deep_view());
        assert(ks[i as int] == T::key_of(vs[i as int]));
        if !items[i].is_keyed() {
            assert(!T::keyed(vs[i as int]));
            return false;
        }
        proof {
            assert forall|j: int| 0 <= j < i + 1 implies T::keyed(#[trigger] vs.take(i + 1)[j]) by {
                if j < i {
                    assert(vs.take(i as int)[j] == vs[j]);
                }
            }
        }
        if i > 0 {
            let ghost p: int = i - 1;
            assert(vs[p] == items[p].deep_view());
            assert(ks[p] == T::key_of(vs[p]));
            assert(vs.take(i as int)[p] == vs[p]);
            let key = items[i].copy_key();
            let relation = items[i - 1].relation_to(&key);
            proof {
                law_equal_keys_are_the_same(ks[p], ks[i as int]);
            }
            let good = match relation {
                Relation::Less => true,
                Relation::Equal => !strict,
                Relation::Greater => false,
            };
            if !good {
                proof {
                    law_key_order_irreflexive(ks[p]);
                    law_key_order_total(ks[p], ks[i as int]);
                    assert(strict ==> !key_lt(ks[p], ks[i as int]));
                    assert(!strict ==> key_lt(ks[i as int], ks[p]));
                }
                return false;
            }
            proof {
                let front = ks.take(i as int);
                let next = ks.take(i + 1);
                let last = ks[i as int];
                assert forall|a: int, b: int| 0 <= a < b < next.len() implies !key_lt(
                    #[trigger] next[b],
                    #[trigger] next[a],
                ) && (strict ==> key_lt(next[a], next[b])) by {
                    assert(front[a] == next[a]);
                    if b < i {
                        assert(front[b] == next[b]);
                    } else {
                        assert(front[p] == ks[p]);
                        law_key_order_irreflexive(last);
                        if key_lt(ks[p], last) {
                            lemma_sorted_before(front, p, last);
                            assert(key_lt(front[a], last));
                        }
                        law_key_order_total(front[a], last);
                    }
                }
            }
        }
        i += 1;
    }
    assert(vs.take(i as int) =~= vs);
    assert(ks.take(i as int) =~= ks);
    true
}

} // verus!
