//! What holds of pages across operations.
use crate::commontypes::{
    key_lt, law_key_order_irreflexive, law_key_order_total, law_key_order_transitive,
    law_read_key_can_be_written, Key, KeyView, PageId, PageLsn, SLOT_ENTRY_SIZE,
};
use crate::header::{header_decoding, lemma_header_len, lemma_read_lsn_is_valid};
use crate::insert::{child_for, insert_outcome, internal_insert_outcome};
use crate::layout::{items_decoding, PageItem};
use crate::list::{
    lemma_list_accepted, lemma_list_size_concat, list_decoding, list_refusal, list_size,
};
use crate::order::{
    keys_of, lemma_rank_is, lemma_rank_splits, lemma_rank_through_is, lemma_rank_through_splits,
    lemma_strictly_sorted_is_sorted, rank, rank_through, sorted, strictly_sorted, Keyed,
};
use crate::page::{
    internal_entry, leaf_entry, lemma_part_lens, page_body_decoding, BodyView, Page, PageError,
    PageView, LEAF_TAG, LSN_END, LSN_START, MAX_INTERNAL_HEADER_SIZE, MAX_LEAF_HEADER_SIZE,
    PAGE_SIZE,
};
use crate::schema::{has_key, law_read_row_can_be_written, row_key, Row, ValueView};
use crate::traits::Serializable;
use vstd::prelude::*;

verus! {

/// An item more: by how much a list grows.
proof fn lemma_list_size_insert<T: Serializable>(vs: Seq<T::V>, p: int, v: T::V)
    requires
        0 <= p <= vs.len(),
    ensures
        list_size::<T>(vs.insert(p, v)) == list_size::<T>(vs) + T::size(v),
{
    let one = seq![v];
    assert(vs.insert(p, v) =~= vs.take(p) + one + vs.skip(p));
    assert(vs =~= vs.take(p) + vs.skip(p));
    lemma_list_size_concat::<T>(vs.take(p) + one, vs.skip(p));
    lemma_list_size_concat::<T>(vs.take(p), one);
    lemma_list_size_concat::<T>(vs.take(p), vs.skip(p));
    assert(one.drop_last() =~= Seq::empty());
    assert(list_size::<T>(one) == list_size::<T>(one.drop_last()) + T::size(one.last()));
}

/// An accepted item more: a list stays accepted.
proof fn lemma_list_accepted_insert<T: Serializable>(vs: Seq<T::V>, p: int, v: T::V)
    requires
        0 <= p <= vs.len(),
        list_refusal::<T>(vs) is None,
        T::refusal(v) is None,
    ensures
        list_refusal::<T>(vs.insert(p, v)) is None,
{
    let more = vs.insert(p, v);
    lemma_list_accepted::<T>(vs);
    lemma_list_accepted::<T>(more);
    assert forall|i: int| 0 <= i < more.len() implies T::refusal(#[trigger] more[i]) is None by {
        if i < p {
            assert(more[i] == vs[i]);
        } else if i > p {
            assert(more[i] == vs[i - 1]);
        }
    }
}

/// Where a new key is put, the keys stay sorted; and strictly so, if they were.
proof fn lemma_insert_sorted(ks: Seq<KeyView>, key: KeyView)
    requires
        sorted(ks),
        !ks.contains(key),
    ensures
        rank(ks, key) <= ks.len(),
        sorted(ks.insert(rank(ks, key) as int, key)),
        strictly_sorted(ks) ==> strictly_sorted(ks.insert(rank(ks, key) as int, key)),
{
    let p = rank(ks, key) as int;
    let more = ks.insert(p, key);
    lemma_rank_splits(ks, key);
    assert forall|i: int| p <= i < ks.len() implies key_lt(key, #[trigger] ks[i]) by {
        law_key_order_total(ks[i], key);
        assert(ks.contains(ks[i]));
    }
    assert forall|i: int, j: int| 0 <= i < j < more.len() implies !key_lt(
        #[trigger] more[j],
        #[trigger] more[i],
    ) && (strictly_sorted(ks) ==> key_lt(more[i], more[j])) by {
        law_key_order_total(more[i], more[j]);
        if i < p {
            assert(more[i] == ks[i]);
        } else if i > p {
            assert(more[i] == ks[i - 1]);
        }
        if j < p {
            assert(more[j] == ks[j]);
        } else if j > p {
            assert(more[j] == ks[j - 1]);
        }
    }
}

/// The keys of rows with a row more.
proof fn lemma_keys_of_insert(records: Seq<Seq<ValueView>>, p: int, row: Seq<ValueView>)
    requires
        0 <= p <= records.len(),
    ensures
        keys_of::<Row>(records.insert(p, row)) == keys_of::<Row>(records).insert(p, row_key(row)),
{
    assert(keys_of::<Row>(records.insert(p, row)) =~= keys_of::<Row>(records).insert(
        p,
        row_key(row),
    ));
}

/// Inserting a row into a leaf that is in order leaves it in order, strictly so if
/// it was; the page takes up just the room of the row more, and still fits; and it
/// can still be written, if it could.
pub proof fn law_insert_keeps_page_well_formed(v: PageView, row: Seq<ValueView>)
    requires
        v.body.ordered(),
        has_key(row),
    ensures
        insert_outcome(v, row) matches Ok(w) ==> {
            &&& w.body.ordered()
            &&& strictly_sorted(keys_of::<Row>(v.body->records)) ==> strictly_sorted(
                keys_of::<Row>(w.body->records),
            )
            &&& w.used() == v.used() + leaf_entry(row)
            &&& w.used() <= PAGE_SIZE
            &&& Page::refusal(v) is None && Row::refusal(row) is None ==> Page::refusal(w) is None
        },
{
    if let Ok(w) = insert_outcome(v, row) {
        let records = v.body->records;
        let keys = keys_of::<Row>(records);
        let p = rank(keys, row_key(row)) as int;
        lemma_insert_sorted(keys, row_key(row));
        lemma_keys_of_insert(records, p, row);
        let more = records.insert(p, row);
        assert forall|i: int| 0 <= i < more.len() implies Row::keyed(#[trigger] more[i]) by {
            if i < p {
                assert(more[i] == records[i]);
            } else if i > p {
                assert(more[i] == records[i - 1]);
            }
        }
        lemma_list_size_insert::<Row>(records, p, row);
        assert(SLOT_ENTRY_SIZE as nat * more.len() == SLOT_ENTRY_SIZE as nat * records.len()
            + SLOT_ENTRY_SIZE as nat);
        if list_refusal::<Row>(records) is None && Row::refusal(row) is None {
            lemma_list_accepted_insert::<Row>(records, p, row);
        }
    }
}

/// After a row was inserted the leaf holds its rows and that one, and nothing else.
pub proof fn law_insert_adds_just_the_row(v: PageView, row: Seq<ValueView>)
    requires
        v.body.ordered(),
    ensures
        insert_outcome(v, row) matches Ok(w) ==> {
            &&& w.body is Leaf
            &&& w.body->records.to_multiset() == v.body->records.to_multiset().insert(row)
            &&& w.body->next == v.body->next
            &&& w.body->prev == v.body->prev
            &&& w.page_id == v.page_id
            &&& w.last_update == v.last_update
            &&& w.parent == v.parent
        },
{
    if let Ok(w) = insert_outcome(v, row) {
        let records = v.body->records;
        let keys = keys_of::<Row>(records);
        let p = rank(keys, row_key(row)) as int;
        lemma_insert_sorted(keys, row_key(row));
        let one = seq![row];
        let a = records.take(p);
        let b = records.skip(p);
        assert(records.insert(p, row) =~= a + one + b);
        assert(records =~= a + b);
        vstd::seq_lib::lemma_multiset_commutative(a + one, b);
        vstd::seq_lib::lemma_multiset_commutative(a, one);
        vstd::seq_lib::lemma_multiset_commutative(a, b);
        one.to_multiset_ensures();
        assert(one =~= Seq::<Seq<ValueView>>::empty().push(row));
        Seq::<Seq<ValueView>>::empty().to_multiset_ensures();
        assert(records.insert(p, row).to_multiset() =~= records.to_multiset().insert(row));
    }
}

/// Once a row was inserted, no row with its key can be.
pub proof fn law_second_insert_is_duplicate(
    v: PageView,
    row: Seq<ValueView>,
    again: Seq<ValueView>,
)
    requires
        v.body.ordered(),
        row_key(again) == row_key(row),
    ensures
        insert_outcome(v, row) matches Ok(w) ==> insert_outcome(w, again) == Err::<
            PageView,
            PageError,
        >(PageError::DuplicateKey),
{
    if let Ok(w) = insert_outcome(v, row) {
        let records = v.body->records;
        let keys = keys_of::<Row>(records);
        let p = rank(keys, row_key(row)) as int;
        lemma_insert_sorted(keys, row_key(row));
        lemma_keys_of_insert(records, p, row);
        assert(keys.insert(p, row_key(row))[p] == row_key(row));
    }
}

/// A key more: how the rank of another one changes.
proof fn lemma_rank_insert(ks: Seq<KeyView>, a: KeyView, b: KeyView)
    requires
        sorted(ks),
        !ks.contains(a),
        a != b,
    ensures
        rank(ks.insert(rank(ks, a) as int, a), b) == rank(ks, b) + if key_lt(a, b) {
            1nat
        } else {
            0nat
        },
        key_lt(a, b) ==> rank(ks, a) <= rank(ks, b),
        key_lt(b, a) ==> rank(ks, b) <= rank(ks, a),
{
    let p = rank(ks, a) as int;
    let q = rank(ks, b) as int;
    let more = ks.insert(p, a);
    lemma_rank_splits(ks, a);
    lemma_rank_splits(ks, b);
    law_key_order_total(a, b);
    if key_lt(a, b) {
        if q < p {
            assert(key_lt(ks[q], a));
            law_key_order_transitive(ks[q], a, b);
            assert(false);
        }
        assert forall|i: int| 0 <= i < q + 1 implies key_lt(#[trigger] more[i], b) by {
            if i < p {
                assert(more[i] == ks[i]);
            } else if i > p {
                assert(more[i] == ks[i - 1]);
            }
        }
        assert forall|i: int| q + 1 <= i < more.len() implies !key_lt(#[trigger] more[i], b) by {
            assert(more[i] == ks[i - 1]);
        }
        lemma_rank_is(more, b, q + 1);
    } else {
        if p < q {
            assert(key_lt(ks[p], b));
            law_key_order_transitive(ks[p], b, a);
            assert(false);
        }
        assert forall|i: int| 0 <= i < q implies key_lt(#[trigger] more[i], b) by {
            assert(more[i] == ks[i]);
        }
        assert forall|i: int| q <= i < more.len() implies !key_lt(#[trigger] more[i], b) by {
            if i < p {
                assert(more[i] == ks[i]);
            } else if i > p {
                assert(more[i] == ks[i - 1]);
            }
        }
        lemma_rank_is(more, b, q);
    }
}

/// Rows with two different new keys can be put in their places in either order.
proof fn lemma_two_inserts(records: Seq<Seq<ValueView>>, a: Seq<ValueView>, b: Seq<ValueView>)
    requires
        sorted(keys_of::<Row>(records)),
        !keys_of::<Row>(records).contains(row_key(a)),
        !keys_of::<Row>(records).contains(row_key(b)),
        row_key(a) != row_key(b),
    ensures
        ({
            let keys = keys_of::<Row>(records);
            let with_a = records.insert(rank(keys, row_key(a)) as int, a);
            let with_b = records.insert(rank(keys, row_key(b)) as int, b);
            &&& !keys_of::<Row>(with_b).contains(row_key(a))
            &&& with_a.insert(rank(keys_of::<Row>(with_a), row_key(b)) as int, b)
                == with_b.insert(rank(keys_of::<Row>(with_b), row_key(a)) as int, a)
        }),
{
    let keys = keys_of::<Row>(records);
    let ka = row_key(a);
    let kb = row_key(b);
    let p = rank(keys, ka) as int;
    let q = rank(keys, kb) as int;
    lemma_rank_splits(keys, ka);
    lemma_rank_splits(keys, kb);
    lemma_keys_of_insert(records, p, a);
    lemma_keys_of_insert(records, q, b);
    lemma_rank_insert(keys, ka, kb);
    lemma_rank_insert(keys, kb, ka);
    law_key_order_total(ka, kb);
    let more = keys.insert(q, kb);
    assert forall|i: int| 0 <= i < more.len() implies #[trigger] more[i] != ka by {
        if i < q {
            assert(more[i] == keys[i]);
        } else if i > q {
            assert(more[i] == keys[i - 1]);
        }
    }
    if key_lt(ka, kb) {
        assert(records.insert(p, a).insert(q + 1, b) =~= records.insert(q, b).insert(p, a));
    } else {
        assert(records.insert(p, a).insert(q, b) =~= records.insert(q, b).insert(p + 1, a));
    }
}

/// The order in which rows are inserted does not matter: inserting one and then the
/// other leads to the same page either way.
pub proof fn law_insertion_order_does_not_matter(
    v: PageView,
    va: PageView,
    vab: PageView,
    a: Seq<ValueView>,
    b: Seq<ValueView>,
)
    requires
        v.body.ordered(),
        has_key(a),
        has_key(b),
        insert_outcome(v, a) == Ok::<PageView, PageError>(va),
        insert_outcome(va, b) == Ok::<PageView, PageError>(vab),
    ensures
        insert_outcome(v, b) is Ok,
        insert_outcome(insert_outcome(v, b)->Ok_0, a) == Ok::<PageView, PageError>(vab),
{
    let records = v.body->records;
    let keys = keys_of::<Row>(records);
    let p = rank(keys, row_key(a)) as int;
    let q = rank(keys, row_key(b)) as int;
    let with_a = keys_of::<Row>(va.body->records);
    lemma_insert_sorted(keys, row_key(a));
    lemma_keys_of_insert(records, p, a);
    assert(with_a[p] == row_key(a));
    assert(row_key(a) != row_key(b));
    assert(!keys.contains(row_key(b))) by {
        assert forall|i: int| 0 <= i < keys.len() implies #[trigger] keys[i] != row_key(b) by {
            if i < p {
                assert(with_a[i] == keys[i]);
            } else {
                assert(with_a[i + 1] == keys[i]);
            }
        }
    }
    law_insert_keeps_page_well_formed(v, a);
    law_insert_keeps_page_well_formed(v, b);
    law_insert_keeps_page_well_formed(va, b);
    lemma_two_inserts(records, a, b);
}

/// Inserting a key into an internal page that is in order leaves it in order; the
/// page takes up just the room of the key and the child more, and still fits.
pub proof fn law_internal_insert_keeps_page_well_formed(v: PageView, key: KeyView, child: PageId)
    requires
        v.body.ordered(),
    ensures
        internal_insert_outcome(v, key, child) matches Ok(w) ==> {
            &&& w.body.ordered()
            &&& w.used() == v.used() + internal_entry(key)
            &&& w.used() <= PAGE_SIZE
            &&& Page::refusal(v) is None && Key::refusal(key) is None ==> Page::refusal(w) is None
        },
{
    if let Ok(w) = internal_insert_outcome(v, key, child) {
        let keys = v.body->keys;
        let p = rank(keys, key) as int;
        lemma_strictly_sorted_is_sorted(keys);
        lemma_insert_sorted(keys, key);
        lemma_list_size_insert::<Key>(keys, p, key);
        if list_refusal::<Key>(keys) is None && Key::refusal(key) is None {
            lemma_list_accepted_insert::<Key>(keys, p, key);
        }
    }
}

/// Once a key was inserted, it cannot be inserted again.
pub proof fn law_second_internal_insert_is_duplicate(
    v: PageView,
    key: KeyView,
    child: PageId,
    other: PageId,
)
    requires
        v.body.ordered(),
    ensures
        internal_insert_outcome(v, key, child) matches Ok(w) ==> internal_insert_outcome(
            w,
            key,
            other,
        ) == Err::<PageView, PageError>(PageError::DuplicateKey),
{
    if let Ok(w) = internal_insert_outcome(v, key, child) {
        let keys = v.body->keys;
        let p = rank(keys, key) as int;
        lemma_strictly_sorted_is_sorted(keys);
        lemma_insert_sorted(keys, key);
        assert(keys.insert(p, key)[p] == key);
    }
}

/// In an internal page that is in order every key leads to a child: the one behind
/// the last key that does not come after it, and in front of the first that does.
pub proof fn law_every_key_has_a_child(v: PageView, key: KeyView)
    requires
        v.body.ordered(),
        v.body is Internal,
    ensures
        ({
            let keys = v.body->keys;
            let i = rank_through(keys, key) as int;
            &&& child_for(v.body, key) == Some(v.body->children[i])
            &&& 0 <= i <= keys.len()
            &&& 0 < i ==> !key_lt(key, keys[i - 1])
            &&& i < keys.len() ==> key_lt(key, keys[i])
        }),
{
    lemma_strictly_sorted_is_sorted(v.body->keys);
    lemma_rank_through_splits(v.body->keys, key);
}

/// An inserted child is found under its key, and under every key from there up to the
/// next one in the page. Every other key leads where it led before.
pub proof fn law_inserted_child_is_found(v: PageView, key: KeyView, child: PageId, k: KeyView)
    requires
        v.body.ordered(),
    ensures
        internal_insert_outcome(v, key, child) matches Ok(w) ==> {
            let keys = v.body->keys;
            &&& child_for(w.body, key) == Some(child)
            &&& child_for(w.body, k) == if !key_lt(k, key) && rank_through(keys, k)
                == rank_through(keys, key) {
                Some(child)
            } else {
                child_for(v.body, k)
            }
        },
{
    if internal_insert_outcome(v, key, child) is Ok {
        lemma_rank_through_insert(v.body->keys, key, k);
        lemma_rank_through_insert(v.body->keys, key, key);
        law_key_order_irreflexive(key);
    }
}

/// A key more: how many keys another one is not before.
proof fn lemma_rank_through_insert(ks: Seq<KeyView>, key: KeyView, k: KeyView)
    requires
        strictly_sorted(ks),
        !ks.contains(key),
    ensures
        rank(ks, key) <= ks.len(),
        rank_through(ks, k) <= ks.len(),
        rank_through(ks, key) == rank(ks, key),
        rank_through(ks.insert(rank(ks, key) as int, key), k) == rank_through(ks, k) + if key_lt(
            k,
            key,
        ) {
            0nat
        } else {
            1nat
        },
        key_lt(k, key) ==> rank_through(ks, k) <= rank(ks, key),
        !key_lt(k, key) ==> rank_through(ks, k) >= rank(ks, key),
{
    let p = rank(ks, key) as int;
    let r = rank_through(ks, k) as int;
    let more = ks.insert(p, key);
    lemma_strictly_sorted_is_sorted(ks);
    lemma_insert_sorted(ks, key);
    lemma_rank_splits(ks, key);
    lemma_rank_through_splits(ks, k);
    assert forall|i: int| 0 <= i < p implies !key_lt(key, #[trigger] ks[i]) by {
        law_key_order_total(ks[i], key);
        if key_lt(key, ks[i]) {
            law_key_order_transitive(key, ks[i], key);
            law_key_order_irreflexive(key);
        }
    }
    assert forall|i: int| p <= i < ks.len() implies key_lt(key, #[trigger] ks[i]) by {
        law_key_order_total(ks[i], key);
        assert(ks.contains(ks[i]));
    }
    lemma_rank_through_is(ks, key, p);
    if key_lt(k, key) {
        if r > p {
            law_key_order_transitive(k, key, ks[p]);
        }
        assert forall|i: int| 0 <= i < r implies !key_lt(k, #[trigger] more[i]) by {
            assert(more[i] == ks[i]);
        }
        assert forall|i: int| r <= i < more.len() implies key_lt(k, #[trigger] more[i]) by {
            if i < p {
                assert(more[i] == ks[i]);
            } else if i > p {
                assert(more[i] == ks[i - 1]);
            }
        }
        lemma_rank_through_is(more, k, r);
    } else {
        law_key_order_total(k, key);
        if r < p {
            assert(key_lt(k, ks[r]));
            assert(key_lt(ks[r], key));
            law_key_order_transitive(k, ks[r], key);
        }
        assert forall|i: int| 0 <= i < r + 1 implies !key_lt(k, #[trigger] more[i]) by {
            if i < p {
                assert(more[i] == ks[i]);
            } else if i > p {
                assert(more[i] == ks[i - 1]);
            }
        }
        assert forall|i: int| r + 1 <= i < more.len() implies key_lt(k, #[trigger] more[i]) by {
            assert(more[i] == ks[i - 1]);
        }
        lemma_rank_through_is(more, k, r + 1);
    }
}

/// The header constants are right: no header is longer, and one whose optional ids
/// are all present is just as long.
pub proof fn law_header_constants_are_right(v: PageView)
    ensures
        match v.body {
            BodyView::Leaf { next, prev, .. } => {
                &&& v.header().len() <= MAX_LEAF_HEADER_SIZE
                &&& v.parent is Some && next is Some && prev is Some ==> v.header().len()
                    == MAX_LEAF_HEADER_SIZE
            },
            BodyView::Internal { .. } => {
                &&& v.header().len() <= MAX_INTERNAL_HEADER_SIZE
                &&& v.parent is Some ==> v.header().len() == MAX_INTERNAL_HEADER_SIZE
            },
        },
{
    lemma_header_len(v);
}

/// The LSN lies in every header where the constants say.
pub proof fn law_lsn_constants_are_right(v: PageView)
    ensures
        LSN_END <= v.header().len(),
        v.header().subrange(LSN_START as int, LSN_END as int) == PageLsn::encoding(v.last_update),
{
    lemma_header_len(v);
    PageId::law_size_is_exact(v.page_id);
    PageLsn::law_size_is_exact(v.last_update);
    assert(v.header().subrange(LSN_START as int, LSN_END as int) =~= PageLsn::encoding(
        v.last_update,
    ));
}

/// The free space of a page is the gap between its slots and its data, less what its
/// header falls short of the largest one.
pub proof fn law_free_space_is_the_gap(v: PageView)
    requires
        Page::refusal(v) is None,
    ensures
        v.free_space() is Some,
        ({
            let slots_end = v.header().len() + v.front().len();
            let data_start = PAGE_SIZE - v.back().len();
            let largest_header = match v.body {
                BodyView::Leaf { .. } => MAX_LEAF_HEADER_SIZE,
                BodyView::Internal { .. } => MAX_INTERNAL_HEADER_SIZE,
            };
            data_start - slots_end == v.free_space()->0 + (largest_header - v.header().len())
        }),
{
    lemma_part_lens(v);
}

/// Whatever bytes a page is read from, it is in order: its rows have keys and are
/// sorted by them, or its keys are strictly sorted and have children on both sides.
pub proof fn law_read_page_is_well_formed(s: Seq<u8>)
    ensures
        Page::decoding(s) matches Ok((v, _)) ==> Page::valid(v),
{
    if let Ok((v, _)) = Page::decoding(s) {
        let raw = s.take(PAGE_SIZE as int);
        lemma_read_lsn_is_valid(raw[0] == LEAF_TAG, raw.skip(1));
    }
}

/// Items that are read from a page can be written, where any item that is read can be.
proof fn lemma_read_items_accepted<T: PageItem>(raw: Seq<u8>, slots: Seq<u8>, n: nat)
    requires
        forall|s: Seq<u8>| (#[trigger] T::decoding(s)) matches Ok((v, _)) ==> T::refusal(v) is None,
    ensures
        items_decoding::<T>(raw, slots, n) matches Ok(vs) ==> list_refusal::<T>(vs) is None,
    decreases n,
{
    if n > 0 {
        lemma_read_items_accepted::<T>(raw, slots, (n - 1) as nat);
        if let (Ok(vs), Ok(all)) = (
            items_decoding::<T>(raw, slots, (n - 1) as nat),
            items_decoding::<T>(raw, slots, n),
        ) {
            assert(all.drop_last() =~= vs);
        }
    }
}

/// Every row or key of a page that is read can be written. So the page can be, unless
/// its slots share so much data that it does not fit in a page without.
pub proof fn law_read_items_can_be_written(s: Seq<u8>)
    ensures
        Page::decoding(s) matches Ok((v, _)) ==> {
            &&& v.item_refusal() is None
            &&& v.used() <= PAGE_SIZE ==> Page::refusal(v) is None
        },
{
    if let Ok((v, _)) = Page::decoding(s) {
        let raw = s.take(PAGE_SIZE as int);
        let leaf = raw[0] == LEAF_TAG;
        let (h, used) = header_decoding(leaf, raw.skip(1))->Ok_0;
        let rest = raw.skip(1 + used);
        reveal(page_body_decoding);
        assert forall|t: Seq<u8>| (#[trigger] Row::decoding(t)) matches Ok((row, _))
            ==> Row::refusal(row) is None by {
            law_read_row_can_be_written(t);
        }
        assert forall|t: Seq<u8>| (#[trigger] Key::decoding(t)) matches Ok((key, _))
            ==> Key::refusal(key) is None by {
            law_read_key_can_be_written(t);
        }
        if leaf {
            lemma_read_items_accepted::<Row>(raw, rest, h.num_items);
        } else if let Ok((_, n)) = list_decoding::<PageId>(rest, h.num_items + 1) {
            lemma_read_items_accepted::<Key>(raw, rest.skip(n), h.num_items);
        }
    }
}

} // verus!
