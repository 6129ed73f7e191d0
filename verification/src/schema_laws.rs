//! What a schema is and what it lets in, said of the columns and the fields themselves.
use crate::commontypes::Key;
use crate::page::{internal_entry, leaf_entry};
use crate::schema::{
    columns_fault, field_fault, first_field_fault, has_key, row_fault, row_key, storable,
    value_type, values_equal, Column, ColumnType, Row, RowValue, SchemaError, ValueView,
};
use crate::traits::{saturated, Serializable};
use vstd::prelude::*;

verus! {

/// Every schema has a usable primary key, and every list of columns with one is a schema:
/// there are 1 to 255 columns, and the first holds integers or strings and no nulls.
pub proof fn law_schemas_have_a_primary_key(cols: Seq<Column>)
    ensures
        columns_fault(cols) is None <==> {
            &&& 1 <= cols.len() <= 255
            &&& !cols[0].nullable
            &&& cols[0].col_type == ColumnType::Integer || cols[0].col_type == ColumnType::String
        },
{
}

/// Why a list of columns is no schema: it is empty; or its first column holds floats or
/// booleans; or that one may be null; or there are more than 255.
pub proof fn law_refused_columns_say_why(cols: Seq<Column>)
    ensures
        ({
            let fault = columns_fault(cols);
            let first = cols[0];
            let keyless = first.col_type == ColumnType::Float || first.col_type == ColumnType::Bool;
            &&& fault == Some(SchemaError::EmptyColumns) <==> cols.len() == 0
            &&& fault == Some(SchemaError::NonOrdPrimaryKey) <==> cols.len() > 0 && keyless
            &&& fault == Some(SchemaError::NullablePrimaryKey) <==> cols.len() > 0 && !keyless
                && first.nullable
            &&& fault == Some(SchemaError::TooManyColumns) <==> cols.len() > 255 && !keyless
                && !first.nullable
            &&& fault matches Some(e) ==> e is EmptyColumns || e is NonOrdPrimaryKey
                || e is NullablePrimaryKey || e is TooManyColumns
        }),
{
}

/// Whether a field is one that a column holds: null where the column is nullable, or a
/// value of the column's type.
pub open spec fn fits_column(col: Column, v: ValueView) -> bool {
    ||| v is Null && col.nullable
    ||| v is Integer && col.col_type == ColumnType::Integer
    ||| v is Float && col.col_type == ColumnType::Float
    ||| v is Text && col.col_type == ColumnType::String
    ||| v is Boolean && col.col_type == ColumnType::Bool
}

proof fn lemma_no_fault_up_to(cols: Seq<Column>, row: Seq<ValueView>, n: int)
    requires
        n <= cols.len(),
    ensures
        first_field_fault(cols, row, n) is None <==> forall|i: int|
            #![trigger cols[i]]
            #![trigger row[i]]
            0 <= i < n ==> field_fault(cols[i], row[i], i) is None,
    decreases n,
{
    if n > 0 {
        lemma_no_fault_up_to(cols, row, n - 1);
        if first_field_fault(cols, row, n) is None {
            assert forall|i: int|
                #![trigger cols[i]]
                #![trigger row[i]]
                0 <= i < n implies field_fault(cols[i], row[i], i) is None by {}
        } else if first_field_fault(cols, row, n - 1) is None {
            let last = n - 1;
            assert(field_fault(cols[last], row[last], last) is Some);
        }
    }
}

/// A validated row conforms to its schema, field by field, and keeps within the size
/// limits; and every row that does is accepted.
pub proof fn law_validated_rows_conform(cols: Seq<Column>, row: Seq<ValueView>)
    requires
        columns_fault(cols) is None,
    ensures
        row_fault(cols, row) is None <==> {
            &&& row.len() == cols.len()
            &&& row[0] is Integer || row[0] is Text
            &&& forall|i: int|
                0 <= i < cols.len() ==> {
                    ||| row[i] is Null && cols[i].nullable
                    ||| row[i] is Integer && cols[i].col_type == ColumnType::Integer
                    ||| row[i] is Float && cols[i].col_type == ColumnType::Float
                    ||| row[i] is Text && cols[i].col_type == ColumnType::String
                    ||| row[i] is Boolean && cols[i].col_type == ColumnType::Bool
                }
            &&& forall|i: int|
                0 <= i < row.len() ==> (#[trigger] row[i]) is Null || RowValue::size(row[i]) <= 1350
            &&& Row::size(row) + 4 <= 1350
            &&& Key::size(row_key(row)) + 4 + 8 <= 1353
        },
{
    lemma_no_fault_up_to(cols, row, cols.len() as int);
    if row_fault(cols, row) is None {
        assert forall|i: int|
            0 <= i < cols.len() implies {
            ||| row[i] is Null && cols[i].nullable
            ||| row[i] is Integer && cols[i].col_type == ColumnType::Integer
            ||| row[i] is Float && cols[i].col_type == ColumnType::Float
            ||| row[i] is Text && cols[i].col_type == ColumnType::String
            ||| row[i] is Boolean && cols[i].col_type == ColumnType::Bool
        } by {
            assert(field_fault(cols[i], row[i], i) is None);
        }
        assert forall|i: int| 0 <= i < row.len() implies (#[trigger] row[i]) is Null
            || RowValue::size(row[i]) <= 1350 by {
            assert(field_fault(cols[i], row[i], i) is None);
        }
    }
}

/// Why a row is not validated: the checks come in this order. It has another number of
/// fields than there are columns; it takes too much room; its first field is no key; that
/// key takes too much room; or some field, the first one that is reported, is a null that
/// is not allowed, of another type, or too long.
pub proof fn law_refused_rows_say_why(cols: Seq<Column>, row: Seq<ValueView>)
    requires
        columns_fault(cols) is None,
        cols.len() <= usize::MAX,
    ensures
        ({
            let fault = row_fault(cols, row);
            let small = Row::size(row) + 4 <= 1350;
            let keyed = row[0] is Integer || row[0] is Text;
            let key_small = Key::size(row_key(row)) + 4 + 8 <= 1353;
            &&& row.len() != cols.len() <==> fault == Some(SchemaError::ColumnCountMismatch)
            &&& row.len() == cols.len() && !small <==> fault is Some && fault->0 is RowTooLong
            &&& row.len() == cols.len() && small && !keyed <==> fault == Some(
                SchemaError::InvalidKey,
            )
            &&& row.len() == cols.len() && small && keyed && !key_small <==> fault is Some
                && fault->0 is KeyTooLong
            &&& fault matches Some(SchemaError::RowTooLong(n)) ==> n == saturated(
                Row::size(row) + 4,
            )
            &&& fault matches Some(SchemaError::KeyTooLong(n)) ==> n == saturated(
                Key::size(row_key(row)) + 12,
            )
            &&& row.len() == cols.len() && small && keyed && key_small && fault is Some ==> exists|
                i: int,
            |
                0 <= i < cols.len() && #[trigger] reported(cols, row, i, fault->0)
        }),
{
    lemma_no_fault_up_to(cols, row, cols.len() as int);
    if row.len() == cols.len() && first_field_fault(cols, row, cols.len() as int) is Some {
        let i = lemma_first_fault_at(cols, row, cols.len() as int);
        if leaf_entry(row) <= 1350 && has_key(row) && internal_entry(row_key(row)) <= 1353 {
            assert(reported(cols, row, i, row_fault(cols, row)->0));
        }
    }
}

/// Whether the field `i` is the first that is not as its column asks, and `e` says in
/// which way.
pub open spec fn reported(cols: Seq<Column>, row: Seq<ValueView>, i: int, e: SchemaError) -> bool {
    let typed = row[i] is Null || fits_column(cols[i], row[i]);
    &&& forall|j: int|
        0 <= j < i ==> fits_column(cols[j], #[trigger] row[j]) && (row[j] is Null || RowValue::size(
            row[j],
        ) <= 1350)
    &&& match e {
        SchemaError::NullValueInNonNullCol(k) => k == i && row[i] is Null && !cols[i].nullable,
        SchemaError::TypeMismatch(k) => k == i && !typed,
        SchemaError::FieldTooLong(n) => !(row[i] is Null) && typed && RowValue::size(row[i]) > 1350
            && n == saturated(RowValue::size(row[i])),
        _ => false,
    }
}

proof fn lemma_first_fault_at(cols: Seq<Column>, row: Seq<ValueView>, n: int) -> (i: int)
    requires
        n <= cols.len() == row.len(),
        cols.len() <= usize::MAX,
        first_field_fault(cols, row, n) is Some,
    ensures
        0 <= i < n,
        reported(cols, row, i, first_field_fault(cols, row, n)->0),
    decreases n,
{
    if first_field_fault(cols, row, n - 1) is Some {
        lemma_first_fault_at(cols, row, n - 1)
    } else {
        lemma_no_fault_up_to(cols, row, n - 1);
        let i = n - 1;
        assert forall|j: int| 0 <= j < i implies fits_column(cols[j], #[trigger] row[j]) && (
        row[j] is Null || RowValue::size(row[j]) <= 1350) by {
            assert(field_fault(cols[j], row[j], j) is None);
        }
        i
    }
}

/// A validated row can be stored: it has a key, it is written without an error, and
/// there is room for it and for its key in pages of their own.
pub proof fn law_storable_means(row: Seq<ValueView>)
    ensures
        storable(row) <==> {
            &&& row.len() > 0
            &&& row[0] is Integer || row[0] is Text
            &&& Row::refusal(row) is None
            &&& Row::size(row) + 4 <= 1350
            &&& Key::size(row_key(row)) + 4 + 8 <= 1353
        },
{
}

/// The type of the columns that hold a value goes by the kind of the value.
pub proof fn law_value_types(n: i64, bits: u64, s: Seq<char>, b: bool)
    ensures
        value_type(ValueView::Integer(n)) == Some(ColumnType::Integer),
        value_type(ValueView::Float(bits)) == Some(ColumnType::Float),
        value_type(ValueView::Text(s)) == Some(ColumnType::String),
        value_type(ValueView::Boolean(b)) == Some(ColumnType::Bool),
        value_type(ValueView::Null) is None,
        ColumnType::Integer.keyable(),
        ColumnType::String.keyable(),
        !ColumnType::Float.keyable(),
        !ColumnType::Bool.keyable(),
{
}

/// Equality of values: of any two that are not both floats, that they are the same; of
/// floats, that neither has a NaN's bits and they are the same or both zero.
pub proof fn law_value_equality(a: ValueView, b: ValueView, x: u64, y: u64)
    ensures
        !(a is Float && b is Float) ==> (values_equal(a, b) <==> a == b),
        values_equal(ValueView::Float(x), ValueView::Float(y)) <==> {
            let nan = |z: u64| z % 0x8000_0000_0000_0000 > 0x7ff0_0000_0000_0000;
            let zero = |z: u64| z == 0 || z == 0x8000_0000_0000_0000;
            !nan(x) && !nan(y) && (x == y || zero(x) && zero(y))
        },
{
}

} // verus!
