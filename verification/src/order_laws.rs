//! What the order of keys is, said of the values themselves.
use crate::commontypes::{
    key_lt, key_of_value, key_relation, law_key_order_irreflexive, law_key_order_total,
    law_key_order_transitive, value_of_key, Key, KeyError, KeyView,
};
use crate::order::{all_keyed, keys_of, rank, rank_through, sorted, strictly_sorted, Keyed};
use crate::page::{BodyView, PageView};
use crate::schema::{has_key, row_key, Row, ValueView};
use crate::text::{lex_lt, Relation};
use vstd::prelude::*;
use vstd::utf8::encode_utf8;

verus! {

/// Byte strings are ordered as in a dictionary: one comes before another exactly when it
/// is a proper prefix of it, or they agree up to some byte and its byte is the smaller
/// one there.
pub proof fn law_bytes_are_ordered_as_in_a_dictionary(a: Seq<u8>, b: Seq<u8>)
    ensures
        lex_lt(a, b) <==> {
            ||| a.len() < b.len() && b.take(a.len() as int) == a
            ||| exists|i: int|
                0 <= i < a.len() && i < b.len() && #[trigger] a.take(i) == b.take(i) && a[i] < b[i]
        },
    decreases a.len(),
{
    if a.len() > 0 && b.len() > 0 {
        let x = a.skip(1);
        let y = b.skip(1);
        if a[0] != b[0] {
            assert(a.take(0) =~= b.take(0));
            if a.len() < b.len() && b.take(a.len() as int) == a {
                assert(b.take(a.len() as int)[0] == a[0]);
            }
            if exists|i: int|
                0 <= i < a.len() && i < b.len() && #[trigger] a.take(i) == b.take(i) && a[i]
                    < b[i] {
                let i = choose|i: int|
                    0 <= i < a.len() && i < b.len() && #[trigger] a.take(i) == b.take(i) && a[i]
                        < b[i];
                if i > 0 {
                    assert(a.take(i)[0] == b.take(i)[0]);
                }
            }
        } else {
            law_bytes_are_ordered_as_in_a_dictionary(x, y);
            assert(a =~= seq![a[0]] + x);
            assert(b =~= seq![b[0]] + y);
            if y.len() >= x.len() {
                assert(b.take(a.len() as int) =~= seq![b[0]] + y.take(x.len() as int));
                assert(b.take(a.len() as int).skip(1) =~= y.take(x.len() as int));
            }
            if exists|i: int|
                0 <= i < x.len() && i < y.len() && #[trigger] x.take(i) == y.take(i) && x[i]
                    < y[i] {
                let i = choose|i: int|
                    0 <= i < x.len() && i < y.len() && #[trigger] x.take(i) == y.take(i) && x[i]
                        < y[i];
                assert(a.take(i + 1) =~= seq![a[0]] + x.take(i));
                assert(b.take(i + 1) =~= seq![b[0]] + y.take(i));
                assert(a.take(i + 1) == b.take(i + 1) && a[i + 1] < b[i + 1]);
            }
            if exists|i: int|
                0 <= i < a.len() && i < b.len() && #[trigger] a.take(i) == b.take(i) && a[i]
                    < b[i] {
                let i = choose|i: int|
                    0 <= i < a.len() && i < b.len() && #[trigger] a.take(i) == b.take(i) && a[i]
                        < b[i];
                assert(i > 0);
                assert(x.take(i - 1) =~= a.take(i).skip(1));
                assert(y.take(i - 1) =~= b.take(i).skip(1));
                assert(x.take(i - 1) == y.take(i - 1) && x[i - 1] < y[i - 1]);
            }
        }
    } else if b.len() > 0 {
        assert(b.take(0) =~= a);
    }
}

/// Integers are ordered by value and come before all strings; strings are ordered by
/// their UTF-8 bytes as in a dictionary.
pub proof fn law_key_order_is_by_value(m: i64, n: i64, s: Seq<char>, t: Seq<char>)
    ensures
        key_lt(KeyView::Integer(m), KeyView::Integer(n)) <==> m < n,
        key_lt(KeyView::Integer(m), KeyView::Text(s)),
        !key_lt(KeyView::Text(s), KeyView::Integer(m)),
        key_lt(KeyView::Text(s), KeyView::Text(t)) <==> {
            let a = encode_utf8(s);
            let b = encode_utf8(t);
            ||| a.len() < b.len() && b.take(a.len() as int) == a
            ||| exists|i: int|
                0 <= i < a.len() && i < b.len() && #[trigger] a.take(i) == b.take(i) && a[i] < b[i]
        },
{
    law_bytes_are_ordered_as_in_a_dictionary(encode_utf8(s), encode_utf8(t));
}

/// How one key stands to another is what their order says.
pub proof fn law_key_relation_is_the_order(a: KeyView, b: KeyView)
    ensures
        key_relation(a, b) == Relation::Less <==> key_lt(a, b),
        key_relation(a, b) == Relation::Greater <==> key_lt(b, a),
        key_relation(a, b) == Relation::Equal <==> a == b,
{
    law_key_order_total(a, b);
    law_key_order_irreflexive(a);
}

/// Integers and strings make keys, each the key of its value. Null, floats and booleans
/// do not, each with its own error.
pub proof fn law_integers_and_strings_are_keys(n: i64, s: Seq<char>, bits: u64, b: bool)
    ensures
        key_of_value(ValueView::Integer(n)) == Ok::<KeyView, KeyError>(KeyView::Integer(n)),
        key_of_value(ValueView::Text(s)) == Ok::<KeyView, KeyError>(KeyView::Text(s)),
        key_of_value(ValueView::Null) == Err::<KeyView, KeyError>(KeyError::NullKey),
        key_of_value(ValueView::Float(bits)) == Err::<KeyView, KeyError>(KeyError::NotOrderable),
        key_of_value(ValueView::Boolean(b)) == Err::<KeyView, KeyError>(KeyError::BoolKey),
        value_of_key(KeyView::Integer(n)) == ValueView::Integer(n),
        value_of_key(KeyView::Text(s)) == ValueView::Text(s),
{
}

/// A row has a key exactly when its first field is an integer or a string, and that is
/// its key.
pub proof fn law_first_field_is_the_key(row: Seq<ValueView>)
    ensures
        has_key(row) <==> row.len() > 0 && (row[0] is Integer || row[0] is Text),
        row.len() > 0 && row[0] is Integer ==> row_key(row) == KeyView::Integer(row[0]->Integer_0),
        row.len() > 0 && row[0] is Text ==> row_key(row) == KeyView::Text(row[0]->Text_0),
{
}

/// The keys of rows are the keys of the first fields, one by one; keys are their own.
pub proof fn law_keys_are_taken_one_by_one(rows: Seq<Seq<ValueView>>, keys: Seq<KeyView>)
    ensures
        keys_of::<Row>(rows).len() == rows.len(),
        forall|i: int|
            0 <= i < rows.len() ==> #[trigger] keys_of::<Row>(rows)[i] == row_key(rows[i]),
        all_keyed::<Row>(rows) <==> forall|i: int| 0 <= i < rows.len() ==> has_key(#[trigger] rows[i]),
        keys_of::<Key>(keys) == keys,
        all_keyed::<Key>(keys),
{
    assert(keys_of::<Key>(keys) =~= keys);
}

/// To be sorted is to be sorted step by step: no key is followed at once by one that
/// comes before it; to be strictly sorted, each key is followed by one that comes after.
pub proof fn law_sorted_step_by_step(ks: Seq<KeyView>)
    ensures
        sorted(ks) <==> forall|i: int, j: int|
            0 <= i && j == i + 1 && j < ks.len() ==> !key_lt(#[trigger] ks[j], #[trigger] ks[i]),
        strictly_sorted(ks) <==> forall|i: int, j: int|
            0 <= i && j == i + 1 && j < ks.len() ==> key_lt(#[trigger] ks[i], #[trigger] ks[j]),
{
    if forall|i: int, j: int|
        0 <= i && j == i + 1 && j < ks.len() ==> !key_lt(#[trigger] ks[j], #[trigger] ks[i]) {
        assert forall|i: int, j: int| 0 <= i < j < ks.len() implies !key_lt(
            #[trigger] ks[j],
            #[trigger] ks[i],
        ) by {
            lemma_chain(ks, i, j);
        }
    }
    if forall|i: int, j: int|
        0 <= i && j == i + 1 && j < ks.len() ==> key_lt(#[trigger] ks[i], #[trigger] ks[j]) {
        assert forall|i: int, j: int| 0 <= i < j < ks.len() implies key_lt(
            #[trigger] ks[i],
            #[trigger] ks[j],
        ) by {
            lemma_strict_chain(ks, i, j);
        }
    }
}

proof fn lemma_chain(ks: Seq<KeyView>, i: int, j: int)
    requires
        0 <= i < j < ks.len(),
        forall|a: int, b: int|
            0 <= a && b == a + 1 && b < ks.len() ==> !key_lt(#[trigger] ks[b], #[trigger] ks[a]),
    ensures
        !key_lt(ks[j], ks[i]),
    decreases j - i,
{
    if i + 1 < j {
        lemma_chain(ks, i, j - 1);
        let k = j - 1;
        assert(!key_lt(ks[j], ks[k]));
        law_key_order_total(ks[i], ks[k]);
        law_key_order_total(ks[k], ks[j]);
        if key_lt(ks[j], ks[i]) {
            if ks[i] != ks[k] {
                law_key_order_transitive(ks[j], ks[i], ks[k]);
            }
        }
    }
}

proof fn lemma_strict_chain(ks: Seq<KeyView>, i: int, j: int)
    requires
        0 <= i < j < ks.len(),
        forall|a: int, b: int|
            0 <= a && b == a + 1 && b < ks.len() ==> key_lt(#[trigger] ks[a], #[trigger] ks[b]),
    ensures
        key_lt(ks[i], ks[j]),
    decreases j - i,
{
    if i + 1 < j {
        lemma_strict_chain(ks, i, j - 1);
        let k = j - 1;
        assert(key_lt(ks[k], ks[j]));
        law_key_order_transitive(ks[i], ks[k], ks[j]);
    }
}

/// The rank of a key counts the keys before it, and the rank through it also those that
/// equal it: one key more counts just where it does.
pub proof fn law_ranks_count(ks: Seq<KeyView>, more: KeyView, key: KeyView)
    ensures
        rank(Seq::empty(), key) == 0,
        rank_through(Seq::empty(), key) == 0,
        rank(ks.push(more), key) == rank(ks, key) + if key_lt(more, key) {
            1nat
        } else {
            0nat
        },
        rank_through(ks.push(more), key) == rank_through(ks, key) + if key_lt(more, key) || more
            == key {
            1nat
        } else {
            0nat
        },
{
    assert(ks.push(more).drop_last() =~= ks);
    law_key_order_total(more, key);
    law_key_order_irreflexive(key);
}

/// A leaf is in order when every row has a key and no key is followed by one that comes
/// before it; an internal page, when each key is followed by one that comes after it and
/// there is one child more than there are keys.
pub proof fn law_what_order_means(v: PageView)
    ensures
        match v.body {
            BodyView::Leaf { records, .. } => v.body.ordered() <==> {
                &&& forall|i: int|
                    0 <= i < records.len() ==> (#[trigger] records[i]).len() > 0 && (
                    records[i][0] is Integer || records[i][0] is Text)
                &&& forall|i: int, j: int|
                    0 <= i && j == i + 1 && j < records.len() ==> !key_lt(
                        row_key(#[trigger] records[j]),
                        row_key(#[trigger] records[i]),
                    )
            },
            BodyView::Internal { keys, children } => v.body.ordered() <==> {
                &&& children.len() == keys.len() + 1
                &&& forall|i: int, j: int|
                    0 <= i && j == i + 1 && j < keys.len() ==> key_lt(
                        #[trigger] keys[i],
                        #[trigger] keys[j],
                    )
            },
        },
{
    match v.body {
        BodyView::Leaf { records, .. } => {
            let ks = keys_of::<Row>(records);
            law_keys_are_taken_one_by_one(records, ks);
            law_sorted_step_by_step(ks);
            assert forall|i: int| 0 <= i < records.len() implies has_key(#[trigger] records[i]) == ({
                records[i].len() > 0 && (records[i][0] is Integer || records[i][0] is Text)
            }) by {
                law_first_field_is_the_key(records[i]);
            }
            if sorted(ks) {
                assert forall|i: int, j: int|
                    0 <= i && j == i + 1 && j < records.len() implies !key_lt(
                    row_key(#[trigger] records[j]),
                    row_key(#[trigger] records[i]),
                ) by {
                    assert(ks[i] == row_key(records[i]));
                    assert(ks[j] == row_key(records[j]));
                }
            }
            if forall|i: int, j: int|
                0 <= i && j == i + 1 && j < records.len() ==> !key_lt(
                    row_key(#[trigger] records[j]),
                    row_key(#[trigger] records[i]),
                ) {
                assert forall|i: int, j: int| 0 <= i && j == i + 1 && j < ks.len() implies !key_lt(
                    #[trigger] ks[j],
                    #[trigger] ks[i],
                ) by {
                    assert(ks[i] == row_key(records[i]));
                    assert(ks[j] == row_key(records[j]));
                }
            }
        },
        BodyView::Internal { keys, .. } => law_sorted_step_by_step(keys),
    }
}

} // verus!
