//! When inserting succeeds and where it puts things, said of the page's items themselves.
use crate::commontypes::{key_lt, law_key_order_total, Key, KeyView, PageId};
use crate::insert::{child_for, insert_outcome, internal_insert_outcome};
use crate::list::list_size;
use crate::order::{
    keys_of, lemma_rank_splits, lemma_rank_through_splits, lemma_strictly_sorted_is_sorted, rank,
    rank_through, sorted,
};
use crate::page::{internal_entry, leaf_entry, BodyView, PageError, PageView};
use crate::schema::{has_key, row_key, Row, ValueView};
use crate::traits::Serializable;
use vstd::prelude::*;

verus! {

/// Inserting a row succeeds whenever it can: into a leaf that holds no row with its key
/// and has room for it. It fails otherwise, with the error that says why.
pub proof fn law_insert_succeeds_whenever_it_can(v: PageView, row: Seq<ValueView>)
    ensures
        match v.body {
            BodyView::Internal { .. } => insert_outcome(v, row) == Err::<PageView, PageError>(
                PageError::NotLeaf,
            ),
            BodyView::Leaf { records, .. } => {
                let taken = exists|i: int|
                    0 <= i < records.len() && row_key(#[trigger] records[i]) == row_key(row);
                let room = v.used() + Row::size(row) + 4 <= 4096;
                let out = insert_outcome(v, row);
                &&& out is Ok <==> !taken && room
                &&& out == Err::<PageView, PageError>(PageError::DuplicateKey) <==> taken
                &&& out == Err::<PageView, PageError>(PageError::PageFull) <==> !taken && !room
            },
        },
{
    if let BodyView::Leaf { records, .. } = v.body {
        let keys = keys_of::<Row>(records);
        if keys.contains(row_key(row)) {
            let i = choose|i: int| 0 <= i < keys.len() && keys[i] == row_key(row);
            assert(row_key(records[i]) == row_key(row));
        }
        if exists|i: int|
            0 <= i < records.len() && row_key(#[trigger] records[i]) == row_key(row) {
            let i = choose|i: int|
                0 <= i < records.len() && row_key(#[trigger] records[i]) == row_key(row);
            assert(keys[i] == row_key(row));
        }
    }
}

/// An inserted row stands behind all rows with smaller keys and in front of all others,
/// and nothing else of the page changes.
pub proof fn law_insert_puts_row_in_place(v: PageView, row: Seq<ValueView>)
    requires
        v.body.ordered(),
        has_key(row),
    ensures
        insert_outcome(v, row) matches Ok(w) ==> {
            let before = v.body->records;
            let after = w.body->records;
            &&& w.page_id == v.page_id
            &&& w.last_update == v.last_update
            &&& w.parent == v.parent
            &&& w.body is Leaf
            &&& w.body->next == v.body->next
            &&& w.body->prev == v.body->prev
            &&& exists|p: int|
                #![trigger before.insert(p, row)]
                {
                    &&& 0 <= p <= before.len()
                    &&& after == before.insert(p, row)
                    &&& forall|i: int|
                        0 <= i < p ==> key_lt(row_key(#[trigger] before[i]), row_key(row))
                    &&& forall|i: int|
                        p <= i < before.len() ==> key_lt(
                            row_key(row),
                            row_key(#[trigger] before[i]),
                        )
                }
        },
{
    if let Ok(w) = insert_outcome(v, row) {
        let before = v.body->records;
        let keys = keys_of::<Row>(before);
        let p = rank(keys, row_key(row)) as int;
        lemma_rank_splits(keys, row_key(row));
        assert forall|i: int| 0 <= i < p implies key_lt(
            row_key(#[trigger] before[i]),
            row_key(row),
        ) by {
            assert(keys[i] == row_key(before[i]));
        }
        assert forall|i: int| p <= i < before.len() implies key_lt(
            row_key(row),
            row_key(#[trigger] before[i]),
        ) by {
            assert(keys[i] == row_key(before[i]));
            law_key_order_total(keys[i], row_key(row));
        }
        assert(w.body->records == before.insert(p, row));
    }
}

/// Inserting a key and a child succeeds whenever it can: into an internal page that does
/// not hold the key and has room for both. It fails otherwise, with the error that says
/// why.
pub proof fn law_internal_insert_succeeds_whenever_it_can(
    v: PageView,
    key: KeyView,
    child: PageId,
)
    ensures
        match v.body {
            BodyView::Leaf { .. } => internal_insert_outcome(v, key, child) == Err::<
                PageView,
                PageError,
            >(PageError::NotInternal),
            BodyView::Internal { keys, .. } => {
                let taken = exists|i: int| 0 <= i < keys.len() && #[trigger] keys[i] == key;
                let room = v.used() + Key::size(key) + 4 + 8 <= 4096;
                let out = internal_insert_outcome(v, key, child);
                &&& out is Ok <==> !taken && room
                &&& out == Err::<PageView, PageError>(PageError::DuplicateKey) <==> taken
                &&& out == Err::<PageView, PageError>(PageError::PageFull) <==> !taken && !room
            },
        },
{
}

/// An inserted key stands behind all smaller keys and in front of all larger ones, with
/// its child right behind it, and nothing else of the page changes.
pub proof fn law_internal_insert_puts_key_in_place(v: PageView, key: KeyView, child: PageId)
    requires
        v.body.ordered(),
    ensures
        internal_insert_outcome(v, key, child) matches Ok(w) ==> {
            let before = v.body->keys;
            &&& w.page_id == v.page_id
            &&& w.last_update == v.last_update
            &&& w.parent == v.parent
            &&& w.body is Internal
            &&& exists|p: int|
                #![trigger before.insert(p, key)]
                {
                    &&& 0 <= p <= before.len()
                    &&& w.body->keys == before.insert(p, key)
                    &&& w.body->children == v.body->children.insert(p + 1, child)
                    &&& forall|i: int| 0 <= i < p ==> key_lt(#[trigger] before[i], key)
                    &&& forall|i: int| p <= i < before.len() ==> key_lt(key, #[trigger] before[i])
                }
        },
{
    if let Ok(w) = internal_insert_outcome(v, key, child) {
        let before = v.body->keys;
        let p = rank(before, key) as int;
        lemma_strictly_sorted_is_sorted(before);
        lemma_rank_splits(before, key);
        assert forall|i: int| p <= i < before.len() implies key_lt(key, #[trigger] before[i]) by {
            law_key_order_total(before[i], key);
            assert(before.contains(before[i]));
        }
        assert(w.body->keys == before.insert(p, key));
    }
}

/// A key leads to the child behind all keys that are not larger and in front of all that
/// are, if there is one; in a leaf, to none.
pub proof fn law_keys_lead_between_their_neighbours(body: BodyView, key: KeyView)
    requires
        body matches BodyView::Internal { keys, .. } ==> sorted(keys),
    ensures
        match body {
            BodyView::Leaf { .. } => child_for(body, key) is None,
            BodyView::Internal { keys, children } => exists|i: int|
                #![trigger keys.take(i)]
                {
                    &&& 0 <= i <= keys.len()
                    &&& forall|j: int|
                        0 <= j < i ==> key_lt(#[trigger] keys[j], key) || keys[j] == key
                    &&& forall|j: int| i <= j < keys.len() ==> key_lt(key, #[trigger] keys[j])
                    &&& child_for(body, key) == if i < children.len() {
                        Some(children[i])
                    } else {
                        None
                    }
                },
        },
{
    if let BodyView::Internal { keys, children } = body {
        let i = rank_through(keys, key) as int;
        lemma_rank_through_splits(keys, key);
        assert forall|j: int| 0 <= j < i implies key_lt(#[trigger] keys[j], key) || keys[j]
            == key by {
            law_key_order_total(keys[j], key);
        }
        assert(0 <= keys.take(i).len());
    }
}

/// The room of a page adds up: 46 bytes for a leaf without rows, and for each row its size
/// and 4 bytes; 28 bytes for an internal page without keys and children, for each key its
/// size and 4 bytes, and 8 bytes for each child. Ids, LSNs and links do not matter.
pub proof fn law_room_adds_up(
    v: PageView,
    row: Seq<ValueView>,
    key: KeyView,
    child: PageId,
    next: Option<PageId>,
    prev: Option<PageId>,
)
    ensures
        match v.body {
            BodyView::Leaf { records, .. } => {
                let with = |rs: Seq<Seq<ValueView>>|
                    PageView { body: BodyView::Leaf { records: rs, next, prev }, ..v };
                &&& with(Seq::empty()).used() == 46
                &&& with(records).used() == v.used()
                &&& with(records.push(row)).used() == v.used() + Row::size(row) + 4
            },
            BodyView::Internal { keys, children } => {
                let with = |ks: Seq<KeyView>, cs: Seq<PageId>|
                    PageView { body: BodyView::Internal { keys: ks, children: cs }, ..v };
                &&& with(Seq::empty(), Seq::empty()).used() == 28
                &&& with(keys.push(key), children).used() == v.used() + Key::size(key) + 4
                &&& with(keys, children.push(child)).used() == v.used() + 8
            },
        },
        leaf_entry(row) == Row::size(row) + 4,
        internal_entry(key) == Key::size(key) + 12,
        v.free_space() == if v.used() <= 4096 {
            Some((4096 - v.used()) as usize)
        } else {
            None
        },
{
    match v.body {
        BodyView::Leaf { records, .. } => {
            assert(records.push(row).drop_last() =~= records);
            assert(list_size::<Row>(records.push(row)) == list_size::<Row>(records) + Row::size(row));
        },
        BodyView::Internal { keys, .. } => {
            assert(keys.push(key).drop_last() =~= keys);
            assert(list_size::<Key>(keys.push(key)) == list_size::<Key>(keys) + Key::size(key));
        },
    }
}

} // verus!
