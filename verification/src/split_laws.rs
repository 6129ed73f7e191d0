//! What holds of a page that is split.
use crate::commontypes::{
    key_lt, law_key_order_irreflexive, law_key_order_total, Key, KeyView, PageId, PAGE_ID_SIZE,
    SLOT_ENTRY_SIZE,
};
use crate::insert::{child_for, insert_outcome, internal_insert_outcome};
use crate::list::{lemma_list_accepted, lemma_list_size_concat, list_refusal, list_size};
use crate::order::{
    all_keyed, keys_of, lemma_rank_splits, lemma_rank_through_is, lemma_rank_through_splits,
    lemma_strictly_sorted_is_sorted, rank, rank_through, sorted, strictly_sorted, Keyed,
};
use crate::page::{
    internal_entry, leaf_entry, BodyView, Page, PageError, PageView, MAX_INTERNAL_ENTRY_SIZE,
    MAX_LEAF_ENTRY_SIZE, MAX_LEAF_HEADER_SIZE, PAGE_SIZE,
};
use crate::schema::{row_key, storable, Row, ValueView};
use crate::split::{is_split_point, larger_half, lemma_room_step, room, split_outcome, split_point};
use crate::traits::Serializable;
use vstd::prelude::*;

verus! {

/// Among the first `m` points there is a best one.
proof fn lemma_best_point(records: Seq<Seq<ValueView>>, m: int) -> (i: int)
    requires
        1 < m <= records.len(),
    ensures
        1 <= i < m,
        forall|j: int| 1 <= j < m ==> larger_half(records, i) <= #[trigger] larger_half(records, j),
        forall|j: int| 1 <= j < i ==> larger_half(records, i) < #[trigger] larger_half(records, j),
    decreases m,
{
    if m == 2 {
        1
    } else {
        let i = lemma_best_point(records, m - 1);
        if larger_half(records, m - 1) < larger_half(records, i) {
            m - 1
        } else {
            i
        }
    }
}

/// Two rows or more have a point to cut at.
pub proof fn lemma_split_point_exists(records: Seq<Seq<ValueView>>)
    requires
        records.len() >= 2,
    ensures
        is_split_point(records, split_point(records)),
{
    let i = lemma_best_point(records, records.len() as int);
    assert(is_split_point(records, i));
}

/// Splitting loses nothing and adds nothing: the two pages hold, one after the
/// other, what the page held, but for the separating key of internal pages, which
/// stood between their keys.
pub proof fn law_split_loses_nothing(v: PageView, new_id: PageId)
    requires
        v.body.ordered(),
    ensures
        split_outcome(v, new_id) matches Ok((left, key, right)) ==> match v.body {
            BodyView::Leaf { records, .. } => {
                &&& left.body is Leaf
                &&& right.body is Leaf
                &&& left.body->records + right.body->records == records
            },
            BodyView::Internal { keys, children } => {
                &&& left.body is Internal
                &&& right.body is Internal
                &&& left.body->keys + seq![key] + right.body->keys == keys
                &&& left.body->children + right.body->children == children
            },
        },
{
    if let Ok((left, key, right)) = split_outcome(v, new_id) {
        match v.body {
            BodyView::Leaf { records, .. } => {
                lemma_split_point_exists(records);
                assert(left.body->records + right.body->records =~= records);
            },
            BodyView::Internal { keys, children } => {
                assert(left.body->keys + seq![key] + right.body->keys =~= keys);
                assert(left.body->children + right.body->children =~= children);
            },
        }
    }
}

/// Splitting succeeds exactly for a leaf with two rows or more and an internal page with
/// three keys or more; a smaller page is refused under its own id.
pub proof fn law_split_succeeds_whenever_it_can(v: PageView, new_id: PageId)
    ensures
        ({
            let enough = match v.body {
                BodyView::Leaf { records, .. } => records.len() >= 2,
                BodyView::Internal { keys, .. } => keys.len() >= 3,
            };
            &&& split_outcome(v, new_id) is Ok <==> enough
            &&& !enough ==> split_outcome(v, new_id) == Err::<
                (PageView, KeyView, PageView),
                PageError,
            >(PageError::TooSmallToSplit(v.page_id))
        }),
{
}

/// Where an internal page is cut: half of its keys, rounded down, stay, each with the
/// child in front of it and one more behind; the separating key is the next one. The
/// separating key of a leaf is the key of the first row of the new page.
pub proof fn law_split_key_is_next(v: PageView, new_id: PageId)
    ensures
        split_outcome(v, new_id) matches Ok((left, key, right)) ==> match v.body {
            BodyView::Internal { keys, children } => {
                &&& left.body is Internal
                &&& right.body is Internal
                &&& left.body->keys.len() == keys.len() / 2
                &&& left.body->keys + seq![key] + right.body->keys == keys
                &&& children.len() == keys.len() + 1 ==> left.body->children.len()
                    == left.body->keys.len() + 1
            },
            BodyView::Leaf { records, .. } => {
                &&& right.body is Leaf
                &&& right.body->records.len() > 0
                &&& key == row_key(right.body->records[0])
            },
        },
{
    if let Ok((left, key, right)) = split_outcome(v, new_id) {
        match v.body {
            BodyView::Internal { keys, .. } => {
                assert(left.body->keys + seq![key] + right.body->keys =~= keys);
            },
            BodyView::Leaf { records, .. } => {
                lemma_split_point_exists(records);
            },
        }
    }
}

/// A leaf is cut where the larger of its halves is smallest, and at the first such place:
/// no other way to cut its rows in two leaves a smaller larger half, and none further up
/// front leaves one as small.
pub proof fn law_leaf_is_cut_evenly(
    v: PageView,
    new_id: PageId,
    low: Seq<Seq<ValueView>>,
    high: Seq<Seq<ValueView>>,
)
    requires
        v.body matches BodyView::Leaf { records, .. } && records == low + high,
        low.len() > 0,
        high.len() > 0,
    ensures
        split_outcome(v, new_id) matches Ok((left, key, right)) ==> {
            let with = |rs: Seq<Seq<ValueView>>|
                PageView { body: BodyView::Leaf { records: rs, next: None, prev: None }, ..v };
            let larger = |a: PageView, b: PageView|
                if a.used() >= b.used() {
                    a.used()
                } else {
                    b.used()
                };
            &&& larger(left, right) <= larger(with(low), with(high))
            &&& low.len() < left.body->records.len() ==> larger(left, right) < larger(
                with(low),
                with(high),
            )
        },
{
    if let Ok((left, key, right)) = split_outcome(v, new_id) {
        let records = v.body->records;
        let n = records.len() as int;
        let j = low.len() as int;
        let cut = split_point(records);
        let a = PageView { body: BodyView::Leaf { records: low, next: None, prev: None }, ..v };
        let b = PageView { body: BodyView::Leaf { records: high, next: None, prev: None }, ..v };
        lemma_split_point_exists(records);
        assert(records.take(j) =~= low);
        assert(records.skip(j) =~= high);
        lemma_leaf_used(a);
        lemma_leaf_used(b);
        lemma_leaf_used(left);
        lemma_leaf_used(right);
        lemma_room_parts(records, j);
        lemma_room_parts(records, cut);
        assert(larger_half(records, cut) <= larger_half(records, j));
        if j < cut {
            assert(larger_half(records, cut) < larger_half(records, j));
        }
    }
}

/// A part of a sorted sequence is sorted.
proof fn lemma_part_sorted(ks: Seq<KeyView>, i: int, j: int)
    requires
        0 <= i <= j <= ks.len(),
    ensures
        sorted(ks) ==> sorted(ks.subrange(i, j)),
        strictly_sorted(ks) ==> strictly_sorted(ks.subrange(i, j)),
{
    let part = ks.subrange(i, j);
    assert forall|a: int, b: int| 0 <= a < b < part.len() implies (sorted(ks) ==> !key_lt(
        #[trigger] part[b],
        #[trigger] part[a],
    )) && (strictly_sorted(ks) ==> key_lt(part[a], part[b])) by {
        assert(part[a] == ks[i + a]);
        assert(part[b] == ks[i + b]);
    }
}

/// A part of the rows of a leaf in order is in order.
proof fn lemma_part_ordered(records: Seq<Seq<ValueView>>, i: int, j: int)
    requires
        0 <= i <= j <= records.len(),
        all_keyed::<Row>(records),
    ensures
        all_keyed::<Row>(records.subrange(i, j)),
        keys_of::<Row>(records.subrange(i, j)) == keys_of::<Row>(records).subrange(i, j),
{
    let part = records.subrange(i, j);
    assert forall|k: int| 0 <= k < part.len() implies Row::keyed(#[trigger] part[k]) by {
        assert(part[k] == records[i + k]);
    }
    assert(keys_of::<Row>(part) =~= keys_of::<Row>(records).subrange(i, j));
}

/// Both pages of a split are in order, strictly so if the page was, and neither is
/// empty.
pub proof fn law_split_keeps_order(v: PageView, new_id: PageId)
    requires
        v.body.ordered(),
    ensures
        split_outcome(v, new_id) matches Ok((left, key, right)) ==> {
            &&& left.body.ordered()
            &&& right.body.ordered()
            &&& left.num_items() > 0
            &&& right.num_items() > 0
            &&& v.body is Leaf && strictly_sorted(keys_of::<Row>(v.body->records))
                ==> strictly_sorted(keys_of::<Row>(left.body->records)) && strictly_sorted(
                keys_of::<Row>(right.body->records),
            )
        },
{
    if let Ok((left, key, right)) = split_outcome(v, new_id) {
        match v.body {
            BodyView::Leaf { records, .. } => {
                let cut = split_point(records);
                let n = records.len() as int;
                lemma_split_point_exists(records);
                assert(records.take(cut) =~= records.subrange(0, cut));
                assert(records.skip(cut) =~= records.subrange(cut, n));
                lemma_part_ordered(records, 0, cut);
                lemma_part_ordered(records, cut, n);
                lemma_part_sorted(keys_of::<Row>(records), 0, cut);
                lemma_part_sorted(keys_of::<Row>(records), cut, n);
            },
            BodyView::Internal { keys, children } => {
                let cut = keys.len() as int / 2;
                let n = keys.len() as int;
                assert(keys.take(cut) =~= keys.subrange(0, cut));
                assert(keys.skip(cut + 1) =~= keys.subrange(cut + 1, n));
                lemma_part_sorted(keys, 0, cut);
                lemma_part_sorted(keys, cut + 1, n);
            },
        }
    }
}

/// The separating key separates: in a page that is strictly in order, every key of
/// the lower page comes before it, and no key of the new page does; in an internal
/// one every key of the new page comes after it.
pub proof fn law_split_key_separates(v: PageView, new_id: PageId)
    requires
        v.body.ordered(),
        v.body is Leaf ==> strictly_sorted(keys_of::<Row>(v.body->records)),
    ensures
        split_outcome(v, new_id) matches Ok((left, key, right)) ==> match v.body {
            BodyView::Leaf { .. } => {
                let low = left.body->records;
                let high = right.body->records;
                &&& forall|i: int| 0 <= i < low.len() ==> key_lt(row_key(#[trigger] low[i]), key)
                &&& forall|i: int|
                    0 <= i < high.len() ==> !key_lt(row_key(#[trigger] high[i]), key)
                &&& row_key(high[0]) == key
            },
            BodyView::Internal { .. } => {
                let low = left.body->keys;
                let high = right.body->keys;
                &&& forall|i: int| 0 <= i < low.len() ==> key_lt(#[trigger] low[i], key)
                &&& forall|i: int| 0 <= i < high.len() ==> key_lt(key, #[trigger] high[i])
            },
        },
{
    if let Ok((left, key, right)) = split_outcome(v, new_id) {
        match v.body {
            BodyView::Leaf { records, .. } => {
                let keys = keys_of::<Row>(records);
                let cut = split_point(records);
                lemma_split_point_exists(records);
                let low = left.body->records;
                let high = right.body->records;
                assert(keys[cut] == key);
                assert forall|i: int| 0 <= i < low.len() implies key_lt(
                    row_key(#[trigger] low[i]),
                    key,
                ) by {
                    assert(keys[i] == row_key(low[i]));
                }
                assert forall|i: int| 0 <= i < high.len() implies !key_lt(
                    row_key(#[trigger] high[i]),
                    key,
                ) by {
                    assert(keys[cut + i] == row_key(high[i]));
                    law_key_order_total(keys[cut + i], key);
                    law_key_order_irreflexive(key);
                }
            },
            BodyView::Internal { keys, .. } => {},
        }
    }
}

/// Splitting links the pages: the new leaf stands between the page and its old next
/// one, and both pages have the same parent.
pub proof fn law_split_links_siblings(v: PageView, new_id: PageId)
    ensures
        split_outcome(v, new_id) matches Ok((left, key, right)) ==> {
            &&& left.page_id == v.page_id
            &&& right.page_id == new_id
            &&& left.parent == v.parent
            &&& right.parent == v.parent
            &&& left.last_update == v.last_update
            &&& right.last_update is None
            &&& v.body is Leaf ==> {
                &&& left.body->next == Some(new_id)
                &&& left.body->prev == v.body->prev
                &&& right.body->prev == Some(v.page_id)
                &&& right.body->next == v.body->next
            }
        },
{
}

/// The room of a leaf.
proof fn lemma_leaf_used(v: PageView)
    requires
        v.body is Leaf,
    ensures
        v.used() == MAX_LEAF_HEADER_SIZE + room(v.body->records, v.body->records.len() as int),
{
    let records = v.body->records;
    assert(records.take(records.len() as int) =~= records);
}

/// The room of the two parts of a list of rows.
proof fn lemma_room_parts(records: Seq<Seq<ValueView>>, cut: int)
    requires
        0 <= cut <= records.len(),
    ensures
        room(records.take(cut), cut) == room(records, cut),
        room(records.skip(cut), records.len() - cut) + room(records, cut) == room(
            records,
            records.len() as int,
        ),
{
    let a = records.take(cut);
    let b = records.skip(cut);
    assert(a.take(cut) =~= a);
    assert(b.take(records.len() - cut) =~= b);
    assert(records.take(records.len() as int) =~= a + b);
    lemma_list_size_concat::<Row>(a, b);
}

/// A part of an accepted list is accepted.
proof fn lemma_part_accepted<T: Serializable>(vs: Seq<T::V>, part: Seq<T::V>, at: int)
    requires
        list_refusal::<T>(vs) is None,
        0 <= at,
        at + part.len() <= vs.len(),
        forall|i: int| 0 <= i < part.len() ==> #[trigger] part[i] == vs[at + i],
    ensures
        list_refusal::<T>(part) is None,
{
    lemma_list_accepted::<T>(vs);
    lemma_list_accepted::<T>(part);
    assert forall|i: int| 0 <= i < part.len() implies T::refusal(#[trigger] part[i]) is None by {
        assert(part[i] == vs[at + i]);
    }
}

/// Neither page of a split takes up more room than the page did, and both can be
/// written, if it could.
pub proof fn law_split_pages_fit(v: PageView, new_id: PageId)
    requires
        v.body.ordered(),
    ensures
        split_outcome(v, new_id) matches Ok((left, key, right)) ==> {
            &&& left.used() <= v.used()
            &&& right.used() <= v.used()
            &&& Page::refusal(v) is None ==> Page::refusal(left) is None && Page::refusal(
                right,
            ) is None
        },
{
    if let Ok((left, key, right)) = split_outcome(v, new_id) {
        match v.body {
            BodyView::Leaf { records, .. } => {
                let cut = split_point(records);
                lemma_split_point_exists(records);
                lemma_leaf_used(v);
                lemma_leaf_used(left);
                lemma_leaf_used(right);
                lemma_room_parts(records, cut);
                if list_refusal::<Row>(records) is None {
                    lemma_part_accepted::<Row>(records, records.take(cut), 0);
                    lemma_part_accepted::<Row>(records, records.skip(cut), cut);
                }
            },
            BodyView::Internal { keys, children } => {
                let cut = keys.len() as int / 2;
                let low = keys.take(cut);
                let high = keys.skip(cut + 1);
                let one = seq![keys[cut]];
                assert(keys =~= low + one + high);
                lemma_list_size_concat::<Key>(low + one, high);
                lemma_list_size_concat::<Key>(low, one);
                if list_refusal::<Key>(keys) is None {
                    lemma_part_accepted::<Key>(keys, low, 0);
                    lemma_part_accepted::<Key>(keys, high, cut + 1);
                }
            },
        }
    }
}

/// Some cut leaves room for the largest row in either half.
proof fn lemma_cut_with_room(records: Seq<Seq<ValueView>>, j: int) -> (cut: int)
    requires
        1 <= j < records.len(),
        room(records, j) <= 2 * MAX_LEAF_ENTRY_SIZE,
        room(records, records.len() as int) <= 3 * MAX_LEAF_ENTRY_SIZE,
        forall|i: int|
            0 <= i < records.len() ==> leaf_entry(#[trigger] records[i]) <= MAX_LEAF_ENTRY_SIZE,
    ensures
        1 <= cut < records.len(),
        larger_half(records, cut) <= 2 * MAX_LEAF_ENTRY_SIZE,
    decreases records.len() - j,
{
    lemma_room_step(records, j);
    if j + 1 == records.len() {
        j
    } else if room(records, j + 1) <= 2 * MAX_LEAF_ENTRY_SIZE {
        lemma_cut_with_room(records, j + 1)
    } else {
        assert(room(records, j) > MAX_LEAF_ENTRY_SIZE);
        j
    }
}

/// After a leaf was split there is room for a row in either half: an insert that
/// failed because the leaf was full succeeds on the retry. The rows must be no
/// larger than validated ones are.
pub proof fn law_retry_after_split_fits(v: PageView, new_id: PageId, row: Seq<ValueView>)
    requires
        v.body.ordered(),
        v.used() <= PAGE_SIZE,
        v.body matches BodyView::Leaf { records, .. } && forall|i: int|
            0 <= i < records.len() ==> leaf_entry(#[trigger] records[i]) <= MAX_LEAF_ENTRY_SIZE,
        leaf_entry(row) <= MAX_LEAF_ENTRY_SIZE,
    ensures
        split_outcome(v, new_id) matches Ok((left, key, right)) ==> {
            &&& left.used() + leaf_entry(row) <= PAGE_SIZE
            &&& right.used() + leaf_entry(row) <= PAGE_SIZE
            &&& !keys_of::<Row>(v.body->records).contains(row_key(row)) ==> {
                &&& insert_outcome(left, row) is Ok
                &&& insert_outcome(right, row) is Ok
            }
        },
{
    if let Ok((left, key, right)) = split_outcome(v, new_id) {
        let records = v.body->records;
        let cut = split_point(records);
        lemma_split_point_exists(records);
        lemma_leaf_used(v);
        lemma_leaf_used(left);
        lemma_leaf_used(right);
        lemma_room_parts(records, cut);
        lemma_room_step(records, 0);
        assert(records.take(0) =~= Seq::empty());
        let good = lemma_cut_with_room(records, 1);
        assert(larger_half(records, cut) <= larger_half(records, good));
        let keys = keys_of::<Row>(records);
        if !keys.contains(row_key(row)) {
            let low = keys_of::<Row>(records.take(cut));
            let high = keys_of::<Row>(records.skip(cut));
            assert forall|i: int| 0 <= i < low.len() implies #[trigger] low[i] != row_key(row) by {
                assert(keys[i] == low[i]);
            }
            assert forall|i: int| 0 <= i < high.len() implies #[trigger] high[i] != row_key(row) by {
                assert(keys[cut + i] == high[i]);
            }
        }
    }
}

/// A row that is inserted after a leaf was split, on its side of the separating key,
/// leaves that key between the two pages.
pub proof fn law_retry_after_split_keeps_pages_apart(
    v: PageView,
    new_id: PageId,
    row: Seq<ValueView>,
)
    requires
        v.body.ordered(),
        v.body matches BodyView::Leaf { records, .. } && strictly_sorted(keys_of::<Row>(records)),
    ensures
        split_outcome(v, new_id) matches Ok((left, key, right)) ==> {
            &&& key_lt(row_key(row), key) ==> (insert_outcome(left, row) matches Ok(w) ==> (
            forall|i: int|
                0 <= i < w.body->records.len() ==> key_lt(
                    row_key(#[trigger] w.body->records[i]),
                    key,
                )))
            &&& !key_lt(row_key(row), key) ==> (insert_outcome(right, row) matches Ok(w) ==> (
            forall|i: int|
                0 <= i < w.body->records.len() ==> !key_lt(
                    row_key(#[trigger] w.body->records[i]),
                    key,
                )))
        },
{
    if let Ok((left, key, right)) = split_outcome(v, new_id) {
        law_split_key_separates(v, new_id);
        law_split_keeps_order(v, new_id);
        let side = if key_lt(row_key(row), key) {
            left
        } else {
            right
        };
        if let Ok(w) = insert_outcome(side, row) {
            let records = side.body->records;
            let keys = keys_of::<Row>(records);
            let p = rank(keys, row_key(row)) as int;
            lemma_rank_splits(keys, row_key(row));
            assert forall|i: int| 0 <= i < w.body->records.len() implies key_lt(
                row_key(#[trigger] w.body->records[i]),
                key,
            ) == key_lt(row_key(row), key) by {
                if i < p {
                    assert(w.body->records[i] == records[i]);
                } else if i > p {
                    assert(w.body->records[i] == records[i - 1]);
                }
            }
        }
    }
}

/// The room that rows of bounded size take.
proof fn lemma_room_bound(records: Seq<Seq<ValueView>>, i: int)
    requires
        0 <= i <= records.len(),
        forall|k: int|
            0 <= k < records.len() ==> leaf_entry(#[trigger] records[k]) <= MAX_LEAF_ENTRY_SIZE,
    ensures
        room(records, i) <= i * MAX_LEAF_ENTRY_SIZE,
    decreases i,
{
    if i == 0 {
        assert(records.take(0) =~= Seq::empty());
    } else {
        let most = MAX_LEAF_ENTRY_SIZE as int;
        lemma_room_bound(records, i - 1);
        lemma_room_step(records, i - 1);
        assert(i * most == (i - 1) * most + most) by (nonlinear_arith);
    }
}

/// A leaf that is too full for a validated row can be split, when its own rows are
/// no larger than validated ones are.
pub proof fn law_full_leaf_can_be_split(v: PageView, new_id: PageId, row: Seq<ValueView>)
    requires
        v.body matches BodyView::Leaf { records, .. } && forall|i: int|
            0 <= i < records.len() ==> leaf_entry(#[trigger] records[i]) <= MAX_LEAF_ENTRY_SIZE,
        storable(row),
        insert_outcome(v, row) == Err::<PageView, PageError>(PageError::PageFull),
    ensures
        split_outcome(v, new_id) is Ok,
{
    let records = v.body->records;
    lemma_leaf_used(v);
    let n = records.len() as int;
    let most = MAX_LEAF_ENTRY_SIZE as int;
    lemma_room_bound(records, n);
    if n < 2 {
        assert(n * most <= most) by (nonlinear_arith)
            requires
                0 <= n < 2,
                0 <= most,
        ;
    }
}

/// The room that keys of bounded size take, each with its slot and a child.
proof fn lemma_internal_bound(keys: Seq<KeyView>)
    requires
        forall|k: int|
            0 <= k < keys.len() ==> internal_entry(#[trigger] keys[k]) <= MAX_INTERNAL_ENTRY_SIZE,
    ensures
        list_size::<Key>(keys) + (SLOT_ENTRY_SIZE + PAGE_ID_SIZE) * keys.len() <= keys.len()
            * MAX_INTERNAL_ENTRY_SIZE,
    decreases keys.len(),
{
    if keys.len() > 0 {
        let front = keys.drop_last();
        assert forall|k: int| 0 <= k < front.len() implies internal_entry(#[trigger] front[k])
            <= MAX_INTERNAL_ENTRY_SIZE by {
            assert(front[k] == keys[k]);
        }
        lemma_internal_bound(front);
        assert(internal_entry(keys[keys.len() - 1]) <= MAX_INTERNAL_ENTRY_SIZE);
        let n = keys.len() as int;
        let most = MAX_INTERNAL_ENTRY_SIZE as int;
        assert(n * most == (n - 1) * most + most) by (nonlinear_arith);
    }
}

/// An internal page that is too full for the key of a validated row can be split,
/// when its own keys are no larger than those of validated rows are.
pub proof fn law_full_internal_can_be_split(v: PageView, new_id: PageId, key: KeyView, child: PageId)
    requires
        v.body.ordered(),
        v.body matches BodyView::Internal { keys, .. } && forall|i: int|
            0 <= i < keys.len() ==> internal_entry(#[trigger] keys[i]) <= MAX_INTERNAL_ENTRY_SIZE,
        internal_entry(key) <= MAX_INTERNAL_ENTRY_SIZE,
        internal_insert_outcome(v, key, child) == Err::<PageView, PageError>(PageError::PageFull),
    ensures
        split_outcome(v, new_id) is Ok,
{
    let n = v.body->keys.len() as int;
    let most = MAX_INTERNAL_ENTRY_SIZE as int;
    lemma_internal_bound(v.body->keys);
    if n < 3 {
        assert(n * most <= 2 * most) by (nonlinear_arith)
            requires
                0 <= n < 3,
                0 <= most,
        ;
    }
}

/// After an internal page was split, a key leads to the same child as before: through
/// the lower page if it comes before the separating key, else through the new one.
pub proof fn law_split_then_route(v: PageView, new_id: PageId, key: KeyView)
    requires
        v.body is Internal,
        v.body.ordered(),
    ensures
        split_outcome(v, new_id) matches Ok((left, split_key, right)) ==> child_for(v.body, key)
            == if key_lt(key, split_key) {
            child_for(left.body, key)
        } else {
            child_for(right.body, key)
        },
{
    if let Ok((left, split_key, right)) = split_outcome(v, new_id) {
        let keys = v.body->keys;
        let children = v.body->children;
        let cut = keys.len() as int / 2;
        let low = keys.take(cut);
        let high = keys.skip(cut + 1);
        let r = rank_through(keys, key) as int;
        lemma_strictly_sorted_is_sorted(keys);
        lemma_rank_through_splits(keys, key);
        if key_lt(key, split_key) {
            assert(r <= cut);
            assert forall|i: int| 0 <= i < r implies !key_lt(key, #[trigger] low[i]) by {
                assert(low[i] == keys[i]);
            }
            assert forall|i: int| r <= i < low.len() implies key_lt(key, #[trigger] low[i]) by {
                assert(low[i] == keys[i]);
            }
            lemma_rank_through_is(low, key, r);
        } else {
            assert(r >= cut + 1);
            assert forall|i: int| 0 <= i < r - cut - 1 implies !key_lt(key, #[trigger] high[i]) by {
                assert(high[i] == keys[cut + 1 + i]);
            }
            assert forall|i: int| r - cut - 1 <= i < high.len() implies key_lt(
                key,
                #[trigger] high[i],
            ) by {
                assert(high[i] == keys[cut + 1 + i]);
            }
            lemma_rank_through_is(high, key, r - cut - 1);
        }
    }
}

} // verus!
