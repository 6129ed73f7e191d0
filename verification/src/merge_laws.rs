//! What merging gives and when it succeeds, said of the two pages themselves.
use crate::commontypes::{key_lt, law_key_order_total, law_key_order_transitive, Key, KeyView};
use crate::insert::child_for;
use crate::list::{lemma_list_size_concat, list_size};
use crate::merge::merge_outcome;
use crate::order::{
    keys_of, lemma_rank_through_is, lemma_rank_through_splits, lemma_strictly_sorted_is_sorted,
    rank_through, strictly_sorted, Keyed,
};
use crate::page::{BodyView, PageError, PageView};
use crate::schema::{has_key, row_key, Row};
use crate::traits::Serializable;
use vstd::prelude::*;

verus! {

/// Merging loses nothing and reorders nothing: the merged page holds what the page held
/// and behind it what its right neighbour held, with the separating key in between where
/// the pages are internal. It keeps its id, LSN and parent; a leaf keeps its left link and
/// takes over the right link of the other.
pub proof fn law_merge_loses_nothing(v: PageView, separator: KeyView, w: PageView)
    ensures
        merge_outcome(v, separator, w) matches Ok(m) ==> {
            &&& m.page_id == v.page_id
            &&& m.last_update == v.last_update
            &&& m.parent == v.parent
            &&& match (v.body, w.body) {
                (
                    BodyView::Leaf { records: low, prev, .. },
                    BodyView::Leaf { records: high, next, .. },
                ) => m.body == (BodyView::Leaf { records: low + high, next, prev }),
                (
                    BodyView::Internal { keys: low, children: low_children },
                    BodyView::Internal { keys: high, children: high_children },
                ) => {
                    &&& m.body is Internal
                    &&& m.body->keys == low + seq![separator] + high
                    &&& m.body->children == low_children + high_children
                },
                _ => false,
            }
        },
{
}

/// After a merge of internal pages every key leads where it led before: through the lower
/// page if it comes before the separating key, else through the upper one.
pub proof fn law_merge_then_route(v: PageView, separator: KeyView, w: PageView, k: KeyView)
    requires
        v.body is Internal,
    ensures
        merge_outcome(v, separator, w) matches Ok(m) ==> child_for(m.body, k) == if key_lt(
            k,
            separator,
        ) {
            child_for(v.body, k)
        } else {
            child_for(w.body, k)
        },
{
    if let Ok(m) = merge_outcome(v, separator, w) {
        let low = v.body->keys;
        let high = w.body->keys;
        let all = m.body->keys;
        let n = low.len() as int;
        assert(all =~= low + seq![separator] + high);
        assert(all[n] == separator);
        assert forall|i: int| 0 <= i < low.len() implies low[i] == #[trigger] all[i] by {}
        assert forall|i: int| 0 <= i < high.len() implies #[trigger] high[i] == all[n + 1 + i] by {}
        assert(strictly_sorted(low)) by {
            assert forall|i: int, j: int| 0 <= i < j < low.len() implies key_lt(
                #[trigger] low[i],
                #[trigger] low[j],
            ) by {
                assert(key_lt(all[i], all[j]));
            }
        }
        assert(strictly_sorted(high)) by {
            assert forall|i: int, j: int| 0 <= i < j < high.len() implies key_lt(
                #[trigger] high[i],
                #[trigger] high[j],
            ) by {
                assert(key_lt(all[n + 1 + i], all[n + 1 + j]));
            }
        }
        lemma_strictly_sorted_is_sorted(low);
        lemma_strictly_sorted_is_sorted(high);
        law_key_order_total(k, separator);
        if key_lt(k, separator) {
            let r = rank_through(low, k) as int;
            lemma_rank_through_splits(low, k);
            assert forall|i: int| 0 <= i < r implies !key_lt(k, #[trigger] all[i]) by {
                assert(low[i] == all[i]);
            }
            assert forall|i: int| r <= i < all.len() implies key_lt(k, #[trigger] all[i]) by {
                if i < n {
                    assert(low[i] == all[i]);
                } else if i > n {
                    assert(key_lt(all[n], all[i]));
                    law_key_order_transitive(k, separator, all[i]);
                }
            }
            lemma_rank_through_is(all, k, r);
        } else {
            let r = rank_through(high, k) as int;
            lemma_rank_through_splits(high, k);
            assert forall|i: int| 0 <= i < n + 1 + r implies !key_lt(k, #[trigger] all[i]) by {
                if i < n {
                    assert(key_lt(all[i], all[n]));
                    law_key_order_total(k, all[i]);
                    if key_lt(k, all[i]) {
                        law_key_order_transitive(k, all[i], separator);
                    }
                } else if i > n {
                    assert(high[i - n - 1] == all[i]);
                }
            }
            assert forall|i: int| n + 1 + r <= i < all.len() implies key_lt(
                k,
                #[trigger] all[i],
            ) by {
                assert(high[i - n - 1] == all[i]);
            }
            lemma_rank_through_is(all, k, n + 1 + r);
        }
    }
}

/// Merging succeeds whenever it can: leaves that point at each other and whose rows, one
/// after the other, have keys that grow; internal pages with a child more than keys whose
/// keys, with the separating one in between, grow; if what both hold fits in one page. It
/// fails otherwise, with the error that says why.
pub proof fn law_merge_succeeds_whenever_it_can(v: PageView, separator: KeyView, w: PageView)
    ensures
        ({
            let out = merge_outcome(v, separator, w);
            let (matching, room) = match (v.body, w.body) {
                (
                    BodyView::Leaf { records: low, next, .. },
                    BodyView::Leaf { records: high, prev, .. },
                ) => {
                    let all = low + high;
                    (
                        {
                            &&& next == Some(w.page_id)
                            &&& prev == Some(v.page_id)
                            &&& forall|i: int| 0 <= i < all.len() ==> has_key(#[trigger] all[i])
                            &&& forall|i: int, j: int|
                                0 <= i < j < all.len() ==> key_lt(
                                    row_key(#[trigger] all[i]),
                                    row_key(#[trigger] all[j]),
                                )
                        },
                        v.used() + w.used() - 46 <= 4096,
                    )
                },
                (
                    BodyView::Internal { keys: low, children: low_children },
                    BodyView::Internal { keys: high, children: high_children },
                ) => {
                    let all = low + seq![separator] + high;
                    (
                        {
                            &&& low_children.len() == low.len() + 1
                            &&& high_children.len() == high.len() + 1
                            &&& forall|i: int, j: int|
                                0 <= i < j < all.len() ==> key_lt(
                                    #[trigger] all[i],
                                    #[trigger] all[j],
                                )
                        },
                        v.used() + w.used() - 28 + Key::size(separator) + 4 <= 4096,
                    )
                },
                _ => (false, false),
            };
            &&& out is Ok <==> matching && room
            &&& out == Err::<PageView, PageError>(PageError::InvalidMerge) <==> !matching
            &&& out == Err::<PageView, PageError>(PageError::PageFull) <==> matching && !room
        }),
{
    match (v.body, w.body) {
        (BodyView::Leaf { records: low, .. }, BodyView::Leaf { records: high, .. }) => {
            let all = low + high;
            let keys = keys_of::<Row>(all);
            lemma_list_size_concat::<Row>(low, high);
            assert forall|i: int| 0 <= i < all.len() implies #[trigger] keys[i] == row_key(
                all[i],
            ) by {}
            if strictly_sorted(keys) {
                assert forall|i: int, j: int| 0 <= i < j < all.len() implies key_lt(
                    row_key(#[trigger] all[i]),
                    row_key(#[trigger] all[j]),
                ) by {
                    assert(key_lt(keys[i], keys[j]));
                }
            }
            if forall|i: int, j: int|
                0 <= i < j < all.len() ==> key_lt(
                    row_key(#[trigger] all[i]),
                    row_key(#[trigger] all[j]),
                ) {
                assert forall|i: int, j: int| 0 <= i < j < keys.len() implies key_lt(
                    #[trigger] keys[i],
                    #[trigger] keys[j],
                ) by {
                    assert(key_lt(row_key(all[i]), row_key(all[j])));
                }
            }
        },
        (BodyView::Internal { keys: low, .. }, BodyView::Internal { keys: high, .. }) => {
            let one = seq![separator];
            lemma_list_size_concat::<Key>(low + one, high);
            lemma_list_size_concat::<Key>(low, one);
            assert(one.drop_last() =~= Seq::empty());
            assert(list_size::<Key>(one) == list_size::<Key>(one.drop_last()) + Key::size(
                one.last(),
            ));
        },
        _ => {},
    }
}

} // verus!
