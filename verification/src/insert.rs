//! Inserting rows into leaves, and keys with their children into internal pages.
use crate::commontypes::{Key, KeyView, PageId, PageLsn};
use crate::insert_laws::law_insert_succeeds_whenever_it_can;
use crate::order::{
    keys_of, lemma_keys_of_keys, lemma_strictly_sorted_is_sorted, rank, rank_through, search,
    search_through, sorted,
};
use crate::page::{
    internal_entry, leaf_entry, leaf_ordered, BodyView, Page, PageBody, PageError, PageView,
    PAGE_SIZE,
};
use crate::schema::{row_key, Row, ValidatedRow, ValueView};
use crate::traits::Serializable;
use vstd::prelude::*;

verus! {

/// What inserting `row` into the page `v` gives: the page with the row where its
/// key belongs, or the error.
pub open spec fn insert_outcome(v: PageView, row: Seq<ValueView>) -> Result<PageView, PageError> {
    match v.body {
        BodyView::Internal { .. } => Err(PageError::NotLeaf),
        BodyView::Leaf { records, next, prev } => {
            let keys = keys_of::<Row>(records);
            if keys.contains(row_key(row)) {
                Err(PageError::DuplicateKey)
            } else if v.used() + leaf_entry(row) > PAGE_SIZE {
                Err(PageError::PageFull)
            } else {
                Ok(
                    PageView {
                        body: BodyView::Leaf {
                            records: records.insert(rank(keys, row_key(row)) as int, row),
                            next,
                            prev,
                        },
                        ..v
                    },
                )
            }
        },
    }
}

/// What inserting `key`, with `child` behind it, into the page `v` gives: the page
/// with the key where it belongs, or the error.
pub open spec fn internal_insert_outcome(v: PageView, key: KeyView, child: PageId) -> Result<
    PageView,
    PageError,
> {
    match v.body {
        BodyView::Leaf { .. } => Err(PageError::NotInternal),
        BodyView::Internal { keys, children } => if keys.contains(key) {
            Err(PageError::DuplicateKey)
        } else if v.used() + internal_entry(key) > PAGE_SIZE {
            Err(PageError::PageFull)
        } else {
            Ok(
                PageView {
                    body: BodyView::Internal {
                        keys: keys.insert(rank(keys, key) as int, key),
                        children: children.insert((rank(keys, key) + 1) as int, child),
                    },
                    ..v
                },
            )
        },
    }
}

impl Page {
    /// A page without an LSN or a parent.
    pub fn empty_page(page_id: PageId, body: PageBody) -> (page: Page)
        ensures
            page.deep_view() == (PageView {
                page_id,
                last_update: None,
                parent: None,
                body: body.deep_view(),
            }),
    {
        Page { page_id, last_update: PageLsn(None), parent: None, body }
    }

    /// A leaf without rows or neighbours.
    pub fn empty_leaf(page_id: PageId) -> (page: Page)
        ensures
            page.deep_view() == (PageView {
                page_id,
                last_update: None,
                parent: None,
                body: BodyView::Leaf { records: Seq::empty(), next: None, prev: None },
            }),
    {
        let records: Vec<Row> = Vec::new();
        assert(records.deep_view() =~= Seq::empty());
        Page::empty_page(page_id, PageBody::Leaf { records, next: None, prev: None })
    }

    /// Inserts a row into a leaf, where its key belongs.
    pub fn insert(&mut self, validated_row: ValidatedRow) -> (r: Result<(), PageError>)
        requires
            old(self).deep_view().body matches BodyView::Leaf { records, .. } ==> leaf_ordered(
                records,
            ),
        ensures
            match insert_outcome(old(self).deep_view(), validated_row.row().deep_view()) {
                Ok(v) => r is Ok && final(self).deep_view() == v,
                Err(e) => r is Err && r->Err_0 == e && *final(self) == *old(self),
            },
            r is Ok <==> {
                let row = validated_row.row().deep_view();
                &&& old(self).deep_view().body is Leaf
                &&& forall|i: int|
                    0 <= i < old(self).deep_view().body->records.len() ==> row_key(
                        #[trigger] old(self).deep_view().body->records[i],
                    ) != row_key(row)
                &&& old(self).deep_view().used() + Row::size(row) + 4 <= 4096
            },
    {
        proof {
            law_insert_succeeds_whenever_it_can(self.deep_view(), validated_row.row().deep_view());
        }
        let new_key = validated_row.primary_key();
        let row = validated_row.into_inner();
        let can_insert = self.can_insert(&row);
        match &mut self.body {
            PageBody::Internal { .. } => Err(PageError::NotLeaf),
            PageBody::Leaf { records, .. } => {
                let ghost before = records.deep_view();
                let insert_pos: usize = match search(records, &new_key) {
                    Ok(_) => return Err(PageError::DuplicateKey),
                    Err(i) => i,
                };
                if !can_insert {
                    return Err(PageError::PageFull);
                }
                records.insert(insert_pos, row);
                assert(records.deep_view() =~= before.insert(insert_pos as int, row.deep_view()));
                Ok(())
            },
        }
    }

    /// Inserts a key into an internal page, where it belongs, and `child` behind it.
    pub fn internal_insert(&mut self, key: Key, child: PageId) -> (r: Result<(), PageError>)
        requires
            old(self).deep_view().body is Internal ==> old(self).deep_view().body.ordered(),
        ensures
            match internal_insert_outcome(old(self).deep_view(), key.deep_view(), child) {
                Ok(v) => r is Ok && final(self).deep_view() == v,
                Err(e) => r is Err && r->Err_0 == e && *final(self) == *old(self),
            },
    {
        let needed: usize = Page::internal_entry_size(&key);
        let can_insert = match self.free_space() {
            None => false,
            Some(free_space) => needed <= free_space,
        };
        match &mut self.body {
            PageBody::Leaf { .. } => Err(PageError::NotInternal),
            PageBody::Internal { keys, children } => {
                let ghost keys_before = keys.deep_view();
                let ghost children_before = children.deep_view();
                proof {
                    lemma_keys_of_keys(keys_before);
                    lemma_strictly_sorted_is_sorted(keys_before);
                }
                let insert_pos: usize = match search(keys, &key) {
                    Ok(_) => return Err(PageError::DuplicateKey),
                    Err(i) => i,
                };
                if !can_insert {
                    return Err(PageError::PageFull);
                }
                keys.insert(insert_pos, key);
                children.insert(insert_pos + 1, child);
                assert(keys.deep_view() =~= keys_before.insert(
                    insert_pos as int,
                    key.deep_view(),
                ));
                assert(children.deep_view() =~= children_before.insert(insert_pos + 1, child));
                Ok(())
            },
        }
    }
}

/// The child of an internal page where `key` belongs: the one behind all keys that
/// do not come after it.
pub open spec fn child_for(body: BodyView, key: KeyView) -> Option<PageId> {
    match body {
        BodyView::Internal { keys, children } => {
            let i = rank_through(keys, key) as int;
            if i < children.len() {
                Some(children[i])
            } else {
                None
            }
        },
        BodyView::Leaf { .. } => None,
    }
}

impl PageBody {
    /// The child of an internal page where `search_key` belongs.
    pub fn find_child(&self, search_key: &Key) -> (r: Option<PageId>)
        requires
            self.deep_view() matches BodyView::Internal { keys, .. } ==> sorted(keys),
        ensures
            r == child_for(self.deep_view(), search_key.deep_view()),
    {
        match self {
            PageBody::Internal { keys, children } => {
                proof {
                    lemma_keys_of_keys(keys.deep_view());
                }
                let idx: usize = search_through(keys, search_key);
                if idx < children.len() {
                    Some(children[idx])
                } else {
                    None
                }
            },
            PageBody::Leaf { .. } => None,
        }
    }
}

} // verus!
