//! What rows mean, value by value: which values a column takes, and what is read where a row has more
//! or fewer values than there are columns.

use vstd::prelude::*;

use crate::catalog::{columns_of, PropertyDefView};
use crate::error::ErrorView;
use crate::storage::edge_group::numbered_columns;
use crate::table::node::{padded, types_match};
use crate::table::row;
use crate::table::row::{aligned_row, empty_columns, first_mismatch, RowView};
use crate::types::{ColumnId, DataType, PropertyView};

verus! {

/// A column of the type takes the value. Vectors are held as bytes.
pub open spec fn of_type(value: PropertyView, data_type: DataType) -> bool {
    match (value, data_type) {
        (PropertyView::Bool(_), DataType::Bool) => true,
        (PropertyView::Int64(_), DataType::Int64) => true,
        (PropertyView::Float64(_), DataType::Float64) => true,
        (PropertyView::String(_), DataType::String) => true,
        (PropertyView::Bytes(_), DataType::Bytes) => true,
        (PropertyView::Bytes(_), DataType::Vector { .. }) => true,
        _ => false,
    }
}

/// Each value is taken by the column in its place; values behind the last column are not looked at.
pub open spec fn acceptable(properties: Seq<PropertyDefView>, values: Seq<PropertyView>) -> bool {
    forall|i: int|
        0 <= i < values.len() && i < properties.len() ==> of_type(
            #[trigger] values[i],
            properties[i].data_type,
        )
}

/// The first value that is not taken by the column in its place.
pub open spec fn first_refused(
    properties: Seq<PropertyDefView>,
    values: Seq<PropertyView>,
    i: int,
) -> bool {
    &&& 0 <= i < values.len()
    &&& i < properties.len()
    &&& !of_type(values[i], properties[i].data_type)
    &&& forall|j: int| 0 <= j < i ==> of_type(#[trigger] values[j], properties[j].data_type)
}

/// The row has an entry for each of `width` columns: the value in its place, or nothing where there are
/// fewer values.
pub open spec fn holds_values(row: RowView, width: nat, values: Seq<PropertyView>) -> bool {
    &&& row.len() == width
    &&& forall|i: int|
        0 <= i < width && i < values.len() ==> #[trigger] row[i] == Some(values[i])
    &&& forall|i: int| values.len() <= i < width ==> #[trigger] row[i] is None
}

/// The type of a value is one that takes it, and it is not that of vectors.
pub proof fn law_data_type(value: PropertyView)
    ensures
        of_type(value, value.data_type()),
        !(value.data_type() is Vector),
{
}

/// A row fits columns exactly if each column takes the value in its place, if there is one.
pub proof fn law_types_match(schema: Seq<(ColumnId, DataType)>, values: RowView)
    ensures
        types_match(schema, values) <==> forall|i: int|
            0 <= i < schema.len() && i < values.len() ==> (#[trigger] values[i] matches Some(v)
                ==> of_type(v, schema[i].1)),
{
    lemma_first_mismatch(schema, values, schema.len());
}

proof fn lemma_first_mismatch(schema: Seq<(ColumnId, DataType)>, values: RowView, n: nat)
    requires
        n <= schema.len(),
    ensures
        first_mismatch(empty_columns(schema), values, n) is None <==> forall|i: int|
            0 <= i < n && i < values.len() ==> (#[trigger] values[i] matches Some(v) ==> of_type(
                v,
                schema[i].1,
            )),
    decreases n,
{
    if n > 0 {
        lemma_first_mismatch(schema, values, (n - 1) as nat);
        if n - 1 < values.len() {
            assert(row::value_for(values, n - 1) == values[n - 1]);
        }
    }
}

/// The error of a row that does not fit names the type of the first column that does not take its
/// value, and the type of the value.
pub proof fn law_mismatch_error(schema: Seq<(ColumnId, DataType)>, values: RowView, i: int)
    requires
        0 <= i < schema.len(),
        i < values.len(),
        values[i] matches Some(v) && !of_type(v, schema[i].1),
        forall|j: int|
            0 <= j < i ==> (#[trigger] values[j] matches Some(v) ==> of_type(v, schema[j].1)),
    ensures
        first_mismatch(empty_columns(schema), values, schema.len()) == Some(
            ErrorView::ColumnTypeMismatch {
                expected: schema[i].1,
                got: values[i]->Some_0.data_type(),
            },
        ),
{
    lemma_first_mismatch(schema, values, i as nat);
    lemma_mismatch_stays(schema, values, i, schema.len());
}

proof fn lemma_mismatch_stays(schema: Seq<(ColumnId, DataType)>, values: RowView, i: int, n: nat)
    requires
        0 <= i < n <= schema.len(),
        i < values.len(),
        values[i] matches Some(v) && !of_type(v, schema[i].1),
        first_mismatch(empty_columns(schema), values, i as nat) is None,
    ensures
        first_mismatch(empty_columns(schema), values, n) == Some(
            ErrorView::ColumnTypeMismatch {
                expected: schema[i].1,
                got: values[i]->Some_0.data_type(),
            },
        ),
    decreases n,
{
    if n - 1 > i {
        lemma_mismatch_stays(schema, values, i, (n - 1) as nat);
    }
}

/// A row is read with one entry for each column: the entry in its place, or nothing where the row is
/// shorter.
pub proof fn law_padded(schema: Seq<(ColumnId, DataType)>, values: RowView)
    ensures
        padded(schema, values).len() == schema.len(),
        forall|i: int|
            0 <= i < schema.len() && i < values.len() ==> #[trigger] padded(schema, values)[i]
                == values[i],
        forall|i: int|
            values.len() <= i < schema.len() ==> #[trigger] padded(schema, values)[i] is None,
{
}

/// The values of a command are put into columns by their place.
pub proof fn law_aligned_row(n: nat, values: Seq<PropertyView>)
    ensures
        holds_values(aligned_row(n, values), n, values),
{
}

/// Each property has a column, with its id, or its place in the plain edge groups, and its type.
pub proof fn law_columns_of(properties: Seq<PropertyDefView>)
    ensures
        columns_of(properties).len() == properties.len(),
        forall|i: int|
            0 <= i < properties.len() ==> #[trigger] columns_of(properties)[i] == (
                properties[i].column_id,
                properties[i].data_type,
            ),
        numbered_columns(properties).len() == properties.len(),
        forall|i: int|
            0 <= i < properties.len() ==> (#[trigger] numbered_columns(properties)[i]).1
                == properties[i].data_type,
        forall|i: int|
            0 <= i < properties.len() && i <= u32::MAX ==> (
            #[trigger] numbered_columns(properties)[i]).0.0 == i,
{
}

/// The values of a command fit the columns of a schema exactly if each is taken by the column in its
/// place.
pub proof fn lemma_acceptable(
    schema: Seq<(ColumnId, DataType)>,
    properties: Seq<PropertyDefView>,
    values: Seq<PropertyView>,
)
    requires
        schema.len() == properties.len(),
        forall|i: int|
            0 <= i < properties.len() ==> (#[trigger] schema[i]).1 == properties[i].data_type,
    ensures
        ({
            let row = aligned_row(properties.len(), values);
            &&& types_match(schema, row) <==> acceptable(properties, values)
            &&& holds_values(padded(schema, row), properties.len(), values)
            &&& forall|i: int| #[trigger]
                first_refused(properties, values, i) ==> first_mismatch(
                    empty_columns(schema),
                    row,
                    schema.len(),
                ) == Some(
                    ErrorView::ColumnTypeMismatch {
                        expected: properties[i].data_type,
                        got: values[i].data_type(),
                    },
                )
        }),
{
    let row = aligned_row(properties.len(), values);
    law_aligned_row(properties.len(), values);
    law_types_match(schema, row);
    law_padded(schema, row);
    assert(types_match(schema, row) <==> acceptable(properties, values)) by {
        if types_match(schema, row) {
            assert forall|i: int| 0 <= i < values.len() && i < properties.len() implies of_type(
                #[trigger] values[i],
                properties[i].data_type,
            ) by {
                assert(row[i] == Some(values[i]));
                assert(schema[i].1 == properties[i].data_type);
            }
        }
        if acceptable(properties, values) {
            assert forall|i: int| 0 <= i < schema.len() && i < row.len() implies (
            #[trigger] row[i] matches Some(v) ==> of_type(v, schema[i].1)) by {
                assert(schema[i].1 == properties[i].data_type);
                if i < values.len() {
                    assert(of_type(values[i], properties[i].data_type));
                }
            }
        }
    }
    assert forall|i: int| #[trigger] first_refused(properties, values, i) implies first_mismatch(
        empty_columns(schema),
        row,
        schema.len(),
    ) == Some(
        ErrorView::ColumnTypeMismatch {
            expected: properties[i].data_type,
            got: values[i].data_type(),
        },
    ) by {
        assert(row[i] == Some(values[i]));
        assert(schema[i].1 == properties[i].data_type);
        assert forall|j: int| 0 <= j < i implies (#[trigger] row[j] matches Some(v) ==> of_type(
            v,
            schema[j].1,
        )) by {
            assert(row[j] == Some(values[j]));
            assert(schema[j].1 == properties[j].data_type);
            assert(of_type(values[j], properties[j].data_type));
        }
        law_mismatch_error(schema, row, i);
    }
}

} // verus!
