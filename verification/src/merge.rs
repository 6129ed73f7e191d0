//! Merging a page with its right neighbour.
use crate::commontypes::{Key, KeyView, PageId};
use crate::list::{lemma_list_accepted, list_refusal};
use crate::order::{
    all_keyed, check_order, keys_of, lemma_keys_of_keys, lemma_strictly_sorted_is_sorted,
    strictly_sorted, Keyed,
};
use crate::page::{BodyView, Page, PageBody, PageError, PageView, PAGE_SIZE};
use crate::schema::Row;
use crate::split::split_outcome;
use crate::split_laws::{law_split_loses_nothing, lemma_split_point_exists};
use crate::traits::Serializable;
use vstd::prelude::*;

verus! {

/// The page `v` with what its right neighbour `w` holds behind what it holds itself.
/// Between the keys of internal pages stands `separator`, the key that separates the
/// two pages.
pub open spec fn joined(v: PageView, separator: KeyView, w: PageView) -> PageView {
    match (v.body, w.body) {
        (
            BodyView::Leaf { records: low, prev, .. },
            BodyView::Leaf { records: high, next, .. },
        ) => PageView { body: BodyView::Leaf { records: low + high, next, prev }, ..v },
        (
            BodyView::Internal { keys: low, children: low_children },
            BodyView::Internal { keys: high, children: high_children },
        ) => PageView {
            body: BodyView::Internal {
                keys: low + seq![separator] + high,
                children: low_children + high_children,
            },
            ..v
        },
        _ => v,
    }
}

/// Whether `v` and `w` are pages of one kind that follow each other: leaves that point
/// at each other, or internal pages whose every key has a child on both sides; and
/// the keys are strictly sorted throughout.
pub open spec fn mergeable(v: PageView, separator: KeyView, w: PageView) -> bool {
    match (v.body, w.body) {
        (
            BodyView::Leaf { records: low, next, .. },
            BodyView::Leaf { records: high, prev, .. },
        ) => {
            &&& next == Some(w.page_id)
            &&& prev == Some(v.page_id)
            &&& all_keyed::<Row>(low + high)
            &&& strictly_sorted(keys_of::<Row>(low + high))
        },
        (
            BodyView::Internal { keys: low, children: low_children },
            BodyView::Internal { keys: high, children: high_children },
        ) => {
            &&& low_children.len() == low.len() + 1
            &&& high_children.len() == high.len() + 1
            &&& strictly_sorted(low + seq![separator] + high)
        },
        _ => false,
    }
}

/// What merging the page `v` with its right neighbour `w` gives, or the error.
pub open spec fn merge_outcome(v: PageView, separator: KeyView, w: PageView) -> Result<
    PageView,
    PageError,
> {
    if !mergeable(v, separator, w) {
        Err(PageError::InvalidMerge)
    } else if joined(v, separator, w).used() > PAGE_SIZE {
        Err(PageError::PageFull)
    } else {
        Ok(joined(v, separator, w))
    }
}

/// Copies of `low` and then of `high`.
fn joined_rows(low: &Vec<Row>, high: &Vec<Row>) -> (rows: Vec<Row>)
    ensures
        rows.deep_view() == low.deep_view() + high.deep_view(),
{
    let mut rows = low.clone();
    let mut more = high.clone();
    assert(rows.deep_view() =~= low.deep_view());
    assert(more.deep_view() =~= high.deep_view());
    rows.append(&mut more);
    assert(rows.deep_view() =~= low.deep_view() + high.deep_view());
    rows
}

/// Copies of `low`, then of `separator`, then of `high`.
fn joined_keys(low: &Vec<Key>, separator: &Key, high: &Vec<Key>) -> (keys: Vec<Key>)
    ensures
        keys.deep_view() == low.deep_view() + seq![separator.deep_view()] + high.deep_view(),
{
    let mut keys = low.clone();
    let mut more = high.clone();
    assert(keys.deep_view() =~= low.deep_view());
    assert(more.deep_view() =~= high.deep_view());
    keys.push(separator.clone());
    keys.append(&mut more);
    assert(keys.deep_view() =~= low.deep_view() + seq![separator.deep_view()] + high.deep_view());
    keys
}

/// Copies of `low` and then of `high`.
fn joined_children(low: &Vec<PageId>, high: &Vec<PageId>) -> (children: Vec<PageId>)
    ensures
        children.deep_view() == low.deep_view() + high.deep_view(),
{
    let mut children = low.clone();
    let mut more = high.clone();
    assert(children@ =~= low@);
    assert(more@ =~= high@);
    children.append(&mut more);
    assert(children.deep_view() =~= low.deep_view() + high.deep_view());
    children
}

impl Page {
    /// Moves what `right`, the right neighbour, holds into this page, and gives the
    /// id of the page that is free now, which is that of `right`. `separator` is the
    /// key that separates the two pages; internal pages take it in.
    pub fn merge_page(&mut self, separator: &Key, right: &Page) -> (r: Result<PageId, PageError>)
        ensures
            match merge_outcome(
                old(self).deep_view(),
                separator.deep_view(),
                right.deep_view(),
            ) {
                Ok(v) => r is Ok && r->Ok_0 == right.page_id && final(self).deep_view() == v,
                Err(e) => r is Err && r->Err_0 == e && *final(self) == *old(self),
            },
    {
        let body = match (&self.body, &right.body) {
            (
                PageBody::Leaf { records: low, next: low_next, prev },
                PageBody::Leaf { records: high, next, prev: high_prev },
            ) => {
                let linked = match (low_next, high_prev) {
                    (Some(after), Some(before)) => *after == right.page_id && *before
                        == self.page_id,
                    _ => false,
                };
                if !linked {
                    return Err(PageError::InvalidMerge);
                }
                let records = joined_rows(low, high);
                if !check_order(&records, true) {
                    return Err(PageError::InvalidMerge);
                }
                PageBody::Leaf { records, next: *next, prev: *prev }
            },
            (
                PageBody::Internal { keys: low, children: low_children },
                PageBody::Internal { keys: high, children: high_children },
            ) => {
                if low_children.len() == 0 || low_children.len() - 1 != low.len()
                    || high_children.len() == 0 || high_children.len() - 1 != high.len() {
                    return Err(PageError::InvalidMerge);
                }
                let keys = joined_keys(low, separator, high);
                proof {
                    lemma_keys_of_keys(keys.deep_view());
                }
                if !check_order(&keys, true) {
                    return Err(PageError::InvalidMerge);
                }
                PageBody::Internal { keys, children: joined_children(low_children, high_children) }
            },
            _ => return Err(PageError::InvalidMerge),
        };
        let merged = Page {
            page_id: self.page_id,
            last_update: self.last_update,
            parent: self.parent,
            body,
        };
        if merged.free_space().is_none() {
            return Err(PageError::PageFull);
        }
        *self = merged;
        Ok(right.page_id)
    }
}

/// Lists that are accepted make one that is.
proof fn lemma_joined_accepted<T: Serializable>(low: Seq<T::V>, high: Seq<T::V>)
    requires
        list_refusal::<T>(low) is None,
        list_refusal::<T>(high) is None,
    ensures
        list_refusal::<T>(low + high) is None,
{
    lemma_list_accepted::<T>(low);
    lemma_list_accepted::<T>(high);
    lemma_list_accepted::<T>(low + high);
    assert forall|i: int| 0 <= i < (low + high).len() implies T::refusal(
        #[trigger] (low + high)[i],
    ) is None by {
        if i < low.len() {
            assert((low + high)[i] == low[i]);
        } else {
            assert((low + high)[i] == high[i - low.len()]);
        }
    }
}

/// A merged page is in order, and fits; and it can be written, if both pages and the
/// separating key could.
pub proof fn law_merge_keeps_page_well_formed(v: PageView, separator: KeyView, w: PageView)
    ensures
        merge_outcome(v, separator, w) matches Ok(m) ==> {
            &&& m.body.ordered()
            &&& m.used() <= PAGE_SIZE
            &&& Page::refusal(v) is None && Page::refusal(w) is None && Key::refusal(
                separator,
            ) is None ==> Page::refusal(m) is None
        },
{
    if let Ok(m) = merge_outcome(v, separator, w) {
        let writable = Page::refusal(v) is None && Page::refusal(w) is None && Key::refusal(
            separator,
        ) is None;
        match (v.body, w.body) {
            (BodyView::Leaf { records: low, .. }, BodyView::Leaf { records: high, .. }) => {
                lemma_strictly_sorted_is_sorted(keys_of::<Row>(low + high));
                if writable {
                    lemma_joined_accepted::<Row>(low, high);
                }
            },
            (BodyView::Internal { keys: low, .. }, BodyView::Internal { keys: high, .. }) => {
                if writable {
                    let one = seq![separator];
                    lemma_list_accepted::<Key>(one);
                    lemma_joined_accepted::<Key>(low, one);
                    lemma_joined_accepted::<Key>(low + one, high);
                }
            },
            _ => {},
        }
    }
}

/// Merging undoes splitting: the two pages of a split, with the key that separates
/// them, merge to the page that was split.
pub proof fn law_merge_undoes_split(v: PageView, new_id: PageId)
    requires
        v.body.ordered(),
        v.body is Leaf ==> strictly_sorted(keys_of::<Row>(v.body->records)),
        v.used() <= PAGE_SIZE,
    ensures
        split_outcome(v, new_id) matches Ok((left, key, right)) ==> merge_outcome(left, key, right)
            == Ok::<PageView, PageError>(v),
{
    law_split_loses_nothing(v, new_id);
    if let Ok((left, key, right)) = split_outcome(v, new_id) {
        if v.body is Leaf {
            lemma_split_point_exists(v.body->records);
        }
        assert(joined(left, key, right) =~= v);
    }
}

} // verus!
