//! Splitting a page in two.
use crate::commontypes::{Key, KeyView, PageId, PageLsn, SLOT_ENTRY_SIZE};
use crate::list::{lemma_list_step, list_size};
use crate::order::Keyed;
use crate::page::{leaf_entry, BodyView, Page, PageBody, PageError, PageView};
use crate::schema::{row_key, Row, ValueView};
use crate::traits::Serializable;
use vstd::prelude::*;

verus! {

/// The room that the first `i` rows take in a leaf.
pub open spec fn room(records: Seq<Seq<ValueView>>, i: int) -> nat {
    list_size::<Row>(records.take(i)) + SLOT_ENTRY_SIZE as nat * i as nat
}

/// The room that the larger half takes when the first `i` rows are cut off.
pub open spec fn larger_half(records: Seq<Seq<ValueView>>, i: int) -> int {
    let left = room(records, i) as int;
    let right = room(records, records.len() as int) - left;
    if left >= right {
        left
    } else {
        right
    }
}

/// Whether cutting in front of row `i` leaves the smallest larger half, and no
/// earlier cut leaves one that is as small. Neither half is empty.
pub open spec fn is_split_point(records: Seq<Seq<ValueView>>, i: int) -> bool {
    &&& 1 <= i < records.len()
    &&& forall|j: int|
        1 <= j < records.len() ==> larger_half(records, i) <= #[trigger] larger_half(records, j)
    &&& forall|j: int| 1 <= j < i ==> larger_half(records, i) < #[trigger] larger_half(records, j)
}

/// Where a leaf is cut.
pub open spec fn split_point(records: Seq<Seq<ValueView>>) -> int {
    choose|i: int| is_split_point(records, i)
}

/// There is only one point to cut at.
pub proof fn lemma_split_point_is(records: Seq<Seq<ValueView>>, i: int)
    requires
        is_split_point(records, i),
    ensures
        split_point(records) == i,
{
    let k = split_point(records);
    assert(is_split_point(records, k));
    assert(larger_half(records, i) <= larger_half(records, k));
    assert(larger_half(records, k) <= larger_half(records, i));
}

/// What splitting the page `v` gives: what is left of it, the key that separates
/// the two pages, and the new page, whose id is `new_id`; or the error.
///
/// A leaf is cut so that its halves take up about the same room; its separating
/// key stays in the new page. An internal page is cut at the middle key, which
/// moves out of both.
pub open spec fn split_outcome(v: PageView, new_id: PageId) -> Result<
    (PageView, KeyView, PageView),
    PageError,
> {
    match v.body {
        BodyView::Internal { keys, children } => if keys.len() < 3 {
            Err(PageError::TooSmallToSplit(v.page_id))
        } else {
            let cut = keys.len() as int / 2;
            Ok(
                (
                    PageView {
                        body: BodyView::Internal {
                            keys: keys.take(cut),
                            children: children.take(cut + 1),
                        },
                        ..v
                    },
                    keys[cut],
                    PageView {
                        page_id: new_id,
                        last_update: None,
                        parent: v.parent,
                        body: BodyView::Internal {
                            keys: keys.skip(cut + 1),
                            children: children.skip(cut + 1),
                        },
                    },
                ),
            )
        },
        BodyView::Leaf { records, next, prev } => if records.len() < 2 {
            Err(PageError::TooSmallToSplit(v.page_id))
        } else {
            let cut = split_point(records);
            Ok(
                (
                    PageView {
                        body: BodyView::Leaf {
                            records: records.take(cut),
                            next: Some(new_id),
                            prev,
                        },
                        ..v
                    },
                    row_key(records[cut]),
                    PageView {
                        page_id: new_id,
                        last_update: None,
                        parent: v.parent,
                        body: BodyView::Leaf {
                            records: records.skip(cut),
                            next,
                            prev: Some(v.page_id),
                        },
                    },
                ),
            )
        },
    }
}

/// One more row: how much more room it takes.
pub proof fn lemma_room_step(records: Seq<Seq<ValueView>>, i: int)
    requires
        0 <= i < records.len(),
    ensures
        room(records, i + 1) == room(records, i) + leaf_entry(records[i]),
        room(records, i + 1) <= room(records, records.len() as int),
    decreases records.len() - i,
{
    lemma_list_step::<Row>(records, i);
    if i + 1 < records.len() {
        lemma_room_step(records, i + 1);
    }
}

/// Where to cut a leaf with these rows.
fn find_split_point(records: &Vec<Row>) -> (cut: usize)
    requires
        records@.len() >= 2,
        room(records.deep_view(), records@.len() as int) <= usize::MAX,
    ensures
        is_split_point(records.deep_view(), cut as int),
{
    let ghost rows = records.deep_view();
    let ghost n = rows.len() as int;
    let mut total: usize = 0;
    let mut i: usize = 0;
    assert(rows.take(0) =~= Seq::empty());
    while i < records.len()
        invariant
            rows == records.deep_view(),
            n == rows.len(),
            i <= records.len(),
            room(rows, n) <= usize::MAX,
            total == room(rows, i as int),
        decreases records.len() - i,
    {
        proof {
            lemma_room_step(rows, i as int);
            assert(rows[i as int] == records[i as int].deep_view());
        }
        total += Page::leaf_entry_size(&records[i]);
        i += 1;
    }
    proof {
        lemma_room_step(rows, 0);
        assert(rows[0] == records[0].deep_view());
    }
    let mut left: usize = Page::leaf_entry_size(&records[0]);
    let mut cut: usize = 1;
    let mut best: usize = if left >= total - left {
        left
    } else {
        total - left
    };
    let mut j: usize = 1;
    while j + 1 < records.len()
        invariant
            rows == records.deep_view(),
            n == rows.len(),
            1 <= cut <= j < records.len(),
            room(rows, n) <= usize::MAX,
            total == room(rows, n),
            left == room(rows, j as int),
            best == larger_half(rows, cut as int),
            forall|k: int| 1 <= k <= j ==> best <= #[trigger] larger_half(rows, k),
            forall|k: int| 1 <= k < cut ==> best < #[trigger] larger_half(rows, k),
        decreases records.len() - j,
    {
        proof {
            lemma_room_step(rows, j as int);
            assert(rows[j as int] == records[j as int].deep_view());
        }
        left += Page::leaf_entry_size(&records[j]);
        j += 1;
        let half: usize = if left >= total - left {
            left
        } else {
            total - left
        };
        if half < best {
            best = half;
            cut = j;
        }
    }
    cut
}

impl Page {
    /// Splits off the upper part of the page into a new page, and gives the key that
    /// separates the two.
    ///
    /// The old right neighbour's `prev` pointer will need to be updated to point to
    /// the new page.
    pub fn split_page(&mut self, new_page_id: PageId) -> (r: Result<(Key, Page), PageError>)
        requires
            split_outcome(old(self).deep_view(), new_page_id) is Ok ==> {
                &&& old(self).deep_view().body.ordered()
                &&& old(self).deep_view().body is Leaf ==> old(self).deep_view().used()
                    <= usize::MAX
            },
        ensures
            match split_outcome(old(self).deep_view(), new_page_id) {
                Ok((left, key, right)) => {
                    &&& r is Ok
                    &&& final(self).deep_view() == left
                    &&& r->Ok_0.0.deep_view() == key
                    &&& r->Ok_0.1.deep_view() == right
                },
                Err(e) => r is Err && r->Err_0 == e && *final(self) == *old(self),
            },
    {
        let curr_page_id = self.page_id;
        let parent = self.parent;
        match &mut self.body {
            PageBody::Internal { keys, children } => {
                if keys.len() < 3 {
                    return Err(PageError::TooSmallToSplit(curr_page_id));
                }
                let ghost all_keys = keys.deep_view();
                let ghost all_children = children.deep_view();
                let cut: usize = keys.len() / 2;
                let mut new_keys = keys.split_off(cut);
                let new_children = children.split_off(cut + 1);
                let split_key = new_keys.remove(0);
                proof {
                    assert(keys.deep_view() =~= all_keys.take(cut as int));
                    assert(children.deep_view() =~= all_children.take(cut + 1));
                    assert(new_keys.deep_view() =~= all_keys.skip(cut + 1));
                    assert(new_children.deep_view() =~= all_children.skip(cut + 1));
                }
                Ok(
                    (
                        split_key,
                        Page {
                            page_id: new_page_id,
                            last_update: PageLsn(None),
                            parent,
                            body: PageBody::Internal { keys: new_keys, children: new_children },
                        },
                    ),
                )
            },
            PageBody::Leaf { records, next, .. } => {
                if records.len() < 2 {
                    return Err(PageError::TooSmallToSplit(curr_page_id));
                }
                let ghost all = records.deep_view();
                assert(all.take(all.len() as int) =~= all);
                let cut: usize = find_split_point(records);
                let new_records = records.split_off(cut);
                proof {
                    lemma_split_point_is(all, cut as int);
                    assert(records.deep_view() =~= all.take(cut as int));
                    assert(new_records.deep_view() =~= all.skip(cut as int));
                    assert(new_records.deep_view()[0] == all[cut as int]);
                    assert(new_records[0].deep_view() == all[cut as int]);
                }
                let split_key = new_records[0].copy_key();
                let new_page = Page {
                    page_id: new_page_id,
                    last_update: PageLsn(None),
                    parent,
                    body: PageBody::Leaf {
                        records: new_records,
                        prev: Some(curr_page_id),
                        next: *next,
                    },
                };
                // connect current node to new right neighbor
                *next = Some(new_page_id);
                Ok((split_key, new_page))
            },
        }
    }
}

} // verus!
