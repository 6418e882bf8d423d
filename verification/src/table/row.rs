//! Rows that run across several columns.

use vstd::prelude::*;

use crate::command::values_view;
use crate::error::{ErrorView, StorageError};
use crate::io::binary;
use crate::io::binary::{low_u32, overwrite};
use crate::io::codec;
use crate::io::codec::{blob_start, collect, concat, Decoded};
use crate::table::column::{stored_type, ColumnChunk, ColumnView};
use crate::table::column;
use crate::types::{ColumnId, DataType, PropertyValue, PropertyView, RowIdx};

verus! {

broadcast use binary::group_lengths;

/// A row: a value or nothing for each column.
pub type RowView = Seq<Option<PropertyView>>;

pub open spec fn opt_view(v: Option<PropertyValue>) -> Option<PropertyView> {
    match v {
        Some(v) => Some(v@),
        None => None,
    }
}

pub open spec fn row_view(values: Seq<Option<PropertyValue>>) -> RowView {
    Seq::new(values.len(), |i: int| opt_view(values[i]))
}

/// What a list of columns stands for.
pub open spec fn columns_view(columns: Seq<ColumnChunk>) -> Seq<ColumnView> {
    Seq::new(columns.len(), |i: int| columns[i]@)
}

pub open spec fn columns_wf(columns: Seq<ColumnChunk>) -> bool {
    forall|i: int| 0 <= i < columns.len() ==> (#[trigger] columns[i]).wf()
}

/// Columns without rows for a schema.
pub open spec fn empty_columns(schema: Seq<(ColumnId, DataType)>) -> Seq<ColumnView> {
    Seq::new(schema.len(), |i: int| ColumnView::empty(schema[i].0, schema[i].1))
}

/// The columns are those of a schema, in its order.
pub open spec fn has_schema(columns: Seq<ColumnView>, schema: Seq<(ColumnId, DataType)>) -> bool {
    &&& columns.len() == schema.len()
    &&& forall|i: int|
        0 <= i < columns.len() ==> (#[trigger] columns[i]).column_id == schema[i].0
            && columns[i].data_type == schema[i].1
}

/// The value for column `i`; columns past the end of the row get nothing.
pub open spec fn value_for(values: RowView, i: int) -> Option<PropertyView> {
    if i < values.len() {
        values[i]
    } else {
        None
    }
}

/// The error of a value that is of another type than its column.
pub open spec fn mismatch(c: ColumnView, value: Option<PropertyView>) -> Option<ErrorView> {
    match value {
        Some(v) if v.data_type() != stored_type(c.data_type) => Some(
            ErrorView::ColumnTypeMismatch { expected: c.data_type, got: v.data_type() },
        ),
        _ => None,
    }
}

/// The error of the first of the first `n` columns that is of another type than its value.
pub open spec fn first_mismatch(columns: Seq<ColumnView>, values: RowView, n: nat) -> Option<
    ErrorView,
>
    decreases n,
{
    if n == 0 {
        None
    } else {
        match first_mismatch(columns, values, (n - 1) as nat) {
            Some(e) => Some(e),
            None => mismatch(columns[n - 1], value_for(values, n - 1)),
        }
    }
}

/// The columns after the row was appended to the first `n` of them one after the other,
/// up to the first that refuses its value, and that refusal.
pub open spec fn append_upto(columns: Seq<ColumnView>, values: RowView, n: nat) -> (
    Seq<ColumnView>,
    Option<ErrorView>,
)
    decreases n,
{
    if n == 0 {
        (columns, None)
    } else {
        match append_upto(columns, values, (n - 1) as nat) {
            (cs, Some(e)) => (cs, Some(e)),
            (cs, None) => {
                let v = value_for(values, n - 1);
                match columns[n - 1].refusal(v) {
                    Some(e) => (cs, Some(e)),
                    None => (cs.update(n - 1, columns[n - 1].append(v)), None),
                }
            },
        }
    }
}

/// The columns after the row was appended to all of them, and the first refusal.
pub open spec fn append_all(columns: Seq<ColumnView>, values: RowView) -> (
    Seq<ColumnView>,
    Option<ErrorView>,
) {
    append_upto(columns, values, columns.len())
}

/// The columns with the row at their ends.
pub open spec fn with_row(columns: Seq<ColumnView>, values: RowView) -> Seq<ColumnView> {
    Seq::new(columns.len(), |i: int| columns[i].append(value_for(values, i)))
}

pub open spec fn row_reader(columns: Seq<ColumnView>, row: u64) -> spec_fn(int) -> Decoded<
    Option<PropertyView>,
> {
    |i: int| Some(columns[i].read(row))
}

/// What reading a row from all columns gives: its values, or the error of the first column that
/// does not have it.
pub open spec fn read_all(columns: Seq<ColumnView>, row: u64) -> Result<RowView, ErrorView> {
    collect(columns.len(), row_reader(columns, row))->Some_0
}

/// The encoded columns.
pub open spec fn column_blobs(columns: Seq<ColumnView>) -> Seq<Seq<u8>> {
    Seq::new(columns.len(), |i: int| columns[i].encoding())
}

/// The lengths of the encoded columns, as they are written.
pub open spec fn column_lens(columns: Seq<ColumnView>) -> Seq<u32> {
    Seq::new(columns.len(), |i: int| low_u32(columns[i].encoding().len() as int))
}

/// A length that is not there counts as 0.
pub open spec fn len_at(lens: Seq<u32>, i: int) -> nat {
    if 0 <= i < lens.len() {
        lens[i] as nat
    } else {
        0
    }
}

/// The sum of the first `i` lengths.
pub open spec fn sum_upto(lens: Seq<u32>, i: nat) -> nat
    decreases i,
{
    if i == 0 {
        0
    } else {
        sum_upto(lens, (i - 1) as nat) + len_at(lens, i - 1)
    }
}

/// Column `i` of the columns that stand in `buf` from `pos` on with the given lengths.
pub open spec fn parse_column(
    schema: Seq<(ColumnId, DataType)>,
    buf: Seq<u8>,
    pos: int,
    lens: Seq<u32>,
    i: int,
) -> Decoded<ColumnView> {
    let from = pos + sum_upto(lens, i as nat);
    let to = from + len_at(lens, i);
    if to <= buf.len() {
        ColumnView::parse(schema[i].0, schema[i].1, buf.subrange(from, to))
    } else {
        None
    }
}

pub open spec fn column_parser(
    schema: Seq<(ColumnId, DataType)>,
    buf: Seq<u8>,
    pos: int,
    lens: Seq<u32>,
) -> spec_fn(int) -> Decoded<ColumnView> {
    |i: int| parse_column(schema, buf, pos, lens, i)
}

pub open spec fn parse_columns(
    schema: Seq<(ColumnId, DataType)>,
    buf: Seq<u8>,
    pos: int,
    lens: Seq<u32>,
) -> Decoded<Seq<ColumnView>> {
    collect(schema.len(), column_parser(schema, buf, pos, lens))
}

// ---------------------------------------------------------------------------------------------
// Facts

pub proof fn lemma_columns_valid(columns: Seq<ColumnChunk>)
    requires
        columns_wf(columns),
    ensures
        forall|i: int|
            0 <= i < columns.len() ==> (#[trigger] columns_view(columns)[i]).valid(),
{
    assert forall|i: int| 0 <= i < columns.len() implies (#[trigger] columns_view(
        columns,
    )[i]).valid() by {
        columns[i].lemma_wf();
    }
}

pub proof fn lemma_append_upto_len(columns: Seq<ColumnView>, values: RowView, n: nat)
    requires
        n <= columns.len(),
    ensures
        append_upto(columns, values, n).0.len() == columns.len(),
        forall|i: int|
            n <= i < columns.len() ==> #[trigger] append_upto(columns, values, n).0[i]
                == columns[i],
    decreases n,
{
    if n > 0 {
        lemma_append_upto_len(columns, values, (n - 1) as nat);
    }
}

/// Appending does not change which columns there are.
pub proof fn lemma_append_keeps_schema(
    columns: Seq<ColumnView>,
    values: RowView,
    n: nat,
    schema: Seq<(ColumnId, DataType)>,
)
    requires
        n <= columns.len(),
        has_schema(columns, schema),
    ensures
        has_schema(append_upto(columns, values, n).0, schema),
    decreases n,
{
    if n > 0 {
        lemma_append_keeps_schema(columns, values, (n - 1) as nat, schema);
        let before = append_upto(columns, values, (n - 1) as nat).0;
        let after = append_upto(columns, values, n).0;
        assert forall|i: int| 0 <= i < after.len() implies (#[trigger] after[i]).column_id
            == schema[i].0 && after[i].data_type == schema[i].1 by {
            assert(before[i].column_id == schema[i].0);
            assert(columns[n - 1].column_id == schema[n - 1].0);
        }
    }
}

/// Appending keeps columns valid, whether or not a value is refused.
pub proof fn lemma_append_keeps_valid(columns: Seq<ColumnView>, values: RowView, n: nat)
    requires
        n <= columns.len(),
        forall|i: int| 0 <= i < columns.len() ==> (#[trigger] columns[i]).valid(),
    ensures
        append_upto(columns, values, n).0.len() == columns.len(),
        forall|i: int|
            0 <= i < columns.len() ==> (#[trigger] append_upto(columns, values, n).0[i]).valid(),
    decreases n,
{
    if n > 0 {
        lemma_append_keeps_valid(columns, values, (n - 1) as nat);
        let before = append_upto(columns, values, (n - 1) as nat).0;
        let after = append_upto(columns, values, n).0;
        assert forall|i: int| 0 <= i < columns.len() implies (#[trigger] after[i]).valid() by {
            assert(before[i].valid());
            assert(columns[n - 1].valid());
            let v = value_for(values, n - 1);
            if columns[n - 1].refusal(v) is None {
                column::law_append_then_read(columns[n - 1], v, 0);
            }
        }
    }
}

/// Where appending was refused, it goes no further.
pub proof fn lemma_append_upto_stuck(columns: Seq<ColumnView>, values: RowView, i: nat, n: nat)
    requires
        i <= n,
        append_upto(columns, values, i).1 is Some,
    ensures
        append_upto(columns, values, n) == append_upto(columns, values, i),
    decreases n - i,
{
    if i < n {
        lemma_append_upto_stuck(columns, values, i, (n - 1) as nat);
    }
}

/// A row that was appended to all columns was refused by none of them.
pub proof fn lemma_append_unrefused(columns: Seq<ColumnView>, values: RowView, n: nat)
    requires
        append_upto(columns, values, n).1 is None,
    ensures
        forall|i: int| 0 <= i < n ==> (#[trigger] columns[i]).refusal(value_for(values, i)) is None,
        first_mismatch(columns, values, n) is None,
    decreases n,
{
    if n > 0 {
        lemma_append_unrefused(columns, values, (n - 1) as nat);
    }
}

/// Appending, whether or not a value is refused, leaves the rows that were there.
pub proof fn lemma_append_keeps_rows(columns: Seq<ColumnView>, values: RowView, n: nat)
    requires
        n <= columns.len(),
        forall|i: int| 0 <= i < columns.len() ==> (#[trigger] columns[i]).valid(),
    ensures
        append_upto(columns, values, n).0.len() == columns.len(),
        forall|i: int|
            0 <= i < columns.len() ==> (#[trigger] append_upto(columns, values, n).0[i]).len()
                >= columns[i].len(),
        forall|i: int, row: int|
            0 <= i < columns.len() && 0 <= row < columns[i].len() ==> #[trigger] append_upto(
                columns,
                values,
                n,
            ).0[i].value(row) == columns[i].value(row),
    decreases n,
{
    if n > 0 {
        lemma_append_keeps_rows(columns, values, (n - 1) as nat);
        let before = append_upto(columns, values, (n - 1) as nat).0;
        let after = append_upto(columns, values, n).0;
        let v = value_for(values, n - 1);
        assert(columns[n - 1].valid());
        assert forall|i: int| 0 <= i < columns.len() implies (#[trigger] after[i]).len()
            >= columns[i].len() by {
            assert(before[i].len() >= columns[i].len());
        }
        assert forall|i: int, row: int|
            0 <= i < columns.len() && 0 <= row < columns[i].len() implies #[trigger] after[i].value(
            row,
        ) == columns[i].value(row) by {
            assert(before[i].value(row) == columns[i].value(row));
        }
    }
}

/// Appending does not change what a column is.
pub proof fn lemma_append_keeps_kind(columns: Seq<ColumnView>, values: RowView, n: nat, i: int)
    requires
        n <= columns.len(),
        0 <= i < columns.len(),
    ensures
        append_upto(columns, values, n).0.len() == columns.len(),
        append_upto(columns, values, n).0[i].column_id == columns[i].column_id,
        append_upto(columns, values, n).0[i].data_type == columns[i].data_type,
    decreases n,
{
    if n > 0 {
        lemma_append_keeps_kind(columns, values, (n - 1) as nat, i);
    }
}

/// If no column refuses its value, each has it at its end.
pub proof fn lemma_append_accepted(columns: Seq<ColumnView>, values: RowView, n: nat)
    requires
        n <= columns.len(),
        forall|i: int|
            0 <= i < n ==> (#[trigger] columns[i]).refusal(value_for(values, i)) is None,
    ensures
        append_upto(columns, values, n).1 is None,
        append_upto(columns, values, n).0 == with_row(columns.take(n as int), values)
            + columns.skip(n as int),
        n == columns.len() ==> append_all(columns, values) == (with_row(columns, values), None::<ErrorView>),
    decreases n,
{
    if n > 0 {
        lemma_append_accepted(columns, values, (n - 1) as nat);
        let m = n - 1;
        assert(columns[m].refusal(value_for(values, m)) is None);
        assert(append_upto(columns, values, n).0 =~= with_row(columns.take(n as int), values)
            + columns.skip(n as int));
    } else {
        assert(append_upto(columns, values, n).0 =~= with_row(columns.take(n as int), values)
            + columns.skip(n as int));
    }
    if n == columns.len() {
        assert(with_row(columns.take(n as int), values) + columns.skip(n as int) =~= with_row(
            columns,
            values,
        ));
    }
}

pub proof fn lemma_first_mismatch_stuck(columns: Seq<ColumnView>, values: RowView, i: nat, n: nat)
    requires
        i <= n,
        first_mismatch(columns, values, i) is Some,
    ensures
        first_mismatch(columns, values, n) == first_mismatch(columns, values, i),
    decreases n - i,
{
    if i < n {
        lemma_first_mismatch_stuck(columns, values, i, (n - 1) as nat);
    }
}

/// No mismatch at all means that every value is of its column's type.
pub proof fn lemma_no_mismatch(columns: Seq<ColumnView>, values: RowView, n: nat)
    requires
        first_mismatch(columns, values, n) is None,
    ensures
        forall|i: int|
            0 <= i < n ==> mismatch(#[trigger] columns[i], value_for(values, i)) is None,
    decreases n,
{
    if n > 0 {
        lemma_no_mismatch(columns, values, (n - 1) as nat);
    }
}

/// Whether values are of the columns' types depends on the types alone.
pub proof fn lemma_mismatch_by_type(
    a: Seq<ColumnView>,
    b: Seq<ColumnView>,
    values: RowView,
    n: nat,
)
    requires
        n <= a.len(),
        a.len() == b.len(),
        forall|i: int| 0 <= i < a.len() ==> (#[trigger] a[i]).data_type == b[i].data_type,
    ensures
        first_mismatch(a, values, n) == first_mismatch(b, values, n),
    decreases n,
{
    if n > 0 {
        lemma_mismatch_by_type(a, b, values, (n - 1) as nat);
        assert(a[n - 1].data_type == b[n - 1].data_type);
    }
}

/// A row that all columns have is read as the values in them.
pub proof fn lemma_read_all_values(columns: Seq<ColumnView>, row: u64)
    requires
        forall|i: int| 0 <= i < columns.len() ==> row < (#[trigger] columns[i]).len(),
    ensures
        read_all(columns, row) == Ok::<RowView, ErrorView>(
            Seq::new(columns.len(), |i: int| columns[i].value(row as int)),
        ),
{
    let s = Seq::new(columns.len(), |i: int| columns[i].value(row as int));
    let f = row_reader(columns, row);
    assert forall|i: int| 0 <= i < s.len() implies #[trigger] f(i) == Some(
        Ok::<Option<PropertyView>, ErrorView>(s[i]),
    ) by {
        assert(row < columns[i].len());
    }
    codec::lemma_collect_all(s, f);
}

proof fn lemma_own_encoding(c: ColumnView)
    requires
        c.valid(),
        c.encoding().len() <= u32::MAX,
    ensures
        ColumnView::parse(c.column_id, c.data_type, c.encoding()) == Some(
            Ok::<ColumnView, ErrorView>(c),
        ),
{
    binary::lemma_holds_self(c.encoding(), Seq::empty());
    column::lemma_small_fits(c);
    column::law_column_roundtrip(c, c.encoding());
}

proof fn lemma_column_roundtrip(
    columns: Seq<ColumnView>,
    schema: Seq<(ColumnId, DataType)>,
    buf: Seq<u8>,
    pos: int,
    i: int,
)
    requires
        has_schema(columns, schema),
        forall|i: int|
            0 <= i < columns.len() ==> (#[trigger] columns[i]).valid()
                && columns[i].encoding().len() <= u32::MAX,
        binary::holds_at(buf, pos, concat(column_blobs(columns))),
        0 <= i < columns.len(),
    ensures
        parse_column(schema, buf, pos, column_lens(columns), i) == Some(
            Ok::<ColumnView, ErrorView>(columns[i]),
        ),
{
    let c = columns[i];
    assert(c.column_id == schema[i].0 && c.data_type == schema[i].1);
    lemma_own_encoding(c);
    lemma_column_place(columns, buf, pos, i);
    lemma_parse_column(schema, buf, pos, column_lens(columns), i, c.encoding());
}

/// Column `i` is parsed from its own bytes.
proof fn lemma_parse_column(
    schema: Seq<(ColumnId, DataType)>,
    buf: Seq<u8>,
    pos: int,
    lens: Seq<u32>,
    i: int,
    bytes: Seq<u8>,
)
    requires
        len_at(lens, i) == bytes.len(),
        binary::holds_at(buf, pos + sum_upto(lens, i as nat), bytes),
    ensures
        parse_column(schema, buf, pos, lens, i) == ColumnView::parse(
            schema[i].0,
            schema[i].1,
            bytes,
        ),
{
    binary::lemma_holds_subrange(buf, pos + sum_upto(lens, i as nat), bytes);
}

/// The bytes of column `i` stand behind those of the columns before it.
proof fn lemma_column_place(columns: Seq<ColumnView>, buf: Seq<u8>, pos: int, i: int)
    requires
        forall|i: int| 0 <= i < columns.len() ==> (#[trigger] columns[i]).encoding().len()
            <= u32::MAX,
        binary::holds_at(buf, pos, concat(column_blobs(columns))),
        0 <= i < columns.len(),
    ensures
        len_at(column_lens(columns), i) == columns[i].encoding().len(),
        binary::holds_at(
            buf,
            pos + sum_upto(column_lens(columns), i as nat),
            columns[i].encoding(),
        ),
{
    lemma_sum_is_blob_start(columns, i as nat);
    codec::lemma_concat_holds(buf, pos, column_blobs(columns), i);
    assert(column_blobs(columns)[i] == columns[i].encoding());
    assert(columns[i].encoding().len() <= u32::MAX);
}

/// Columns that stand in a buffer one after the other are read back.
pub proof fn lemma_columns_roundtrip(
    columns: Seq<ColumnView>,
    schema: Seq<(ColumnId, DataType)>,
    buf: Seq<u8>,
    pos: int,
)
    requires
        has_schema(columns, schema),
        forall|i: int|
            0 <= i < columns.len() ==> (#[trigger] columns[i]).valid()
                && columns[i].encoding().len() <= u32::MAX,
        binary::holds_at(buf, pos, concat(column_blobs(columns))),
    ensures
        parse_columns(schema, buf, pos, column_lens(columns)) == Some(
            Ok::<Seq<ColumnView>, ErrorView>(columns),
        ),
{
    let lens = column_lens(columns);
    let f = column_parser(schema, buf, pos, lens);
    assert forall|i: int| 0 <= i < columns.len() implies #[trigger] f(i) == Some(
        Ok::<ColumnView, ErrorView>(columns[i]),
    ) by {
        lemma_column_roundtrip(columns, schema, buf, pos, i);
        assert(f(i) == parse_column(schema, buf, pos, lens, i));
    }
    codec::lemma_collect_all(columns, f);
}

pub proof fn lemma_sum_mono(lens: Seq<u32>, i: nat, n: nat)
    requires
        i <= n,
    ensures
        sum_upto(lens, i) <= sum_upto(lens, n),
    decreases n - i,
{
    if i < n {
        lemma_sum_mono(lens, i, (n - 1) as nat);
    }
}

/// The written lengths add up to where a column starts.
pub proof fn lemma_sum_is_blob_start(columns: Seq<ColumnView>, i: nat)
    requires
        i <= columns.len(),
        forall|j: int|
            0 <= j < columns.len() ==> (#[trigger] columns[j]).encoding().len() <= u32::MAX,
    ensures
        sum_upto(column_lens(columns), i) == blob_start(column_blobs(columns), i as int),
    decreases i,
{
    let blobs = column_blobs(columns);
    if i > 0 {
        lemma_sum_is_blob_start(columns, (i - 1) as nat);
        codec::lemma_concat_take(blobs, i - 1);
        assert(columns[i - 1].encoding().len() <= u32::MAX);
    } else {
        assert(blobs.take(0) =~= Seq::empty());
    }
}

// ---------------------------------------------------------------------------------------------
// Operations

/// Columns without rows for a schema.
pub fn new_columns(schema: &[(ColumnId, DataType)]) -> (columns: Vec<ColumnChunk>)
    ensures
        columns_wf(columns@),
        columns_view(columns@) == empty_columns(schema@),
{
    let mut columns: Vec<ColumnChunk> = Vec::new();
    let mut i: usize = 0;
    while i < schema.len()
        invariant
            i <= schema@.len(),
            columns@.len() == i,
            columns_wf(columns@),
            forall|j: int|
                0 <= j < i ==> #[trigger] columns@[j]@ == ColumnView::empty(
                    schema@[j].0,
                    schema@[j].1,
                ),
        decreases schema@.len() - i,
    {
        columns.push(ColumnChunk::new(schema[i].0, schema[i].1));
        i = i + 1;
    }
    assert(columns_view(columns@) =~= empty_columns(schema@));
    columns
}

fn value_ref(values: &[Option<PropertyValue>], i: usize) -> (v: Option<&PropertyValue>)
    ensures
        value_for(row_view(values@), i as int) == (match v {
            Some(v) => Some(v@),
            None => None,
        }),
{
    if i < values.len() {
        values[i].as_ref()
    } else {
        None
    }
}

/// Checks the type of each value that is there.
pub fn check_types(columns: &Vec<ColumnChunk>, values: &[Option<PropertyValue>]) -> (r: Result<
    (),
    StorageError,
>)
    ensures
        ({
            let m = first_mismatch(columns_view(columns@), row_view(values@), columns@.len());
            match r {
                Ok(()) => m is None,
                Err(e) => m == Some(e@),
            }
        }),
{
    let ghost cs = columns_view(columns@);
    let ghost vs = row_view(values@);
    let mut i: usize = 0;
    while i < columns.len()
        invariant
            i <= columns@.len(),
            cs == columns_view(columns@),
            vs == row_view(values@),
            first_mismatch(cs, vs, i as nat) is None,
        decreases columns@.len() - i,
    {
        match value_ref(values, i) {
            Some(v) => {
                match columns[i].type_check(v) {
                    Ok(()) => {},
                    Err(e) => {
                        proof {
                            lemma_first_mismatch_stuck(cs, vs, (i + 1) as nat, cs.len());
                        }
                        return Err(e);
                    },
                }
            },
            None => {},
        }
        i = i + 1;
    }
    Ok(())
}

/// Appends a row, column by column. A column that refuses its value ends it; the columns before
/// it keep theirs.
pub fn append_row(columns: &mut Vec<ColumnChunk>, values: &[Option<PropertyValue>]) -> (r: Result<
    (),
    StorageError,
>)
    requires
        columns_wf(old(columns)@),
    ensures
        columns_wf(final(columns)@),
        ({
            let (cs, e) = append_all(columns_view(old(columns)@), row_view(values@));
            &&& columns_view(final(columns)@) == cs
            &&& match r {
                Ok(()) => e is None,
                Err(err) => e == Some(err@),
            }
        }),
{
    let ghost cs = columns_view(columns@);
    let ghost vs = row_view(values@);
    let n: usize = columns.len();
    let mut i: usize = 0;
    while i < n
        invariant
            i <= n,
            n == cs.len(),
            cs == columns_view(old(columns)@),
            vs == row_view(values@),
            columns@.len() == n,
            columns_wf(columns@),
            append_upto(cs, vs, i as nat) == (columns_view(columns@), None::<ErrorView>),
        decreases n - i,
    {
        let ghost before = columns@;
        proof {
            lemma_append_upto_len(cs, vs, i as nat);
            assert(columns_view(before)[i as int] == cs[i as int]);
        }
        let r = columns[i].append_value(value_ref(values, i));
        assert(columns@ == before.update(i as int, columns@[i as int]));
        match r {
            Ok(()) => {
                assert(columns_view(columns@) =~= columns_view(before).update(
                    i as int,
                    cs[i as int].append(value_for(vs, i as int)),
                ));
            },
            Err(e) => {
                assert(columns_view(columns@) =~= columns_view(before));
                proof {
                    lemma_append_upto_stuck(cs, vs, (i + 1) as nat, n as nat);
                }
                return Err(e);
            },
        }
        i = i + 1;
    }
    Ok(())
}

/// Reads a row from all columns.
pub fn read_row(columns: &Vec<ColumnChunk>, row: RowIdx) -> (r: Result<
    Vec<Option<PropertyValue>>,
    StorageError,
>)
    requires
        columns_wf(columns@),
    ensures
        match r {
            Ok(v) => read_all(columns_view(columns@), row) == Ok::<RowView, ErrorView>(row_view(v@)),
            Err(e) => read_all(columns_view(columns@), row) == Err::<RowView, ErrorView>(e@),
        },
{
    let ghost cs = columns_view(columns@);
    let ghost f = row_reader(cs, row);
    let mut values: Vec<Option<PropertyValue>> = Vec::new();
    let mut i: usize = 0;
    assert(row_view(values@) =~= Seq::empty());
    while i < columns.len()
        invariant
            i <= columns@.len(),
            columns_wf(columns@),
            cs == columns_view(columns@),
            f == row_reader(cs, row),
            values@.len() == i,
            collect(i as nat, f) == Some(Ok::<RowView, ErrorView>(row_view(values@))),
        decreases columns@.len() - i,
    {
        let ghost before = values@;
        assert(f(i as int) == Some(cs[i as int].read(row)));
        match columns[i].get(row) {
            Ok(v) => {
                values.push(v);
                assert(row_view(values@) =~= row_view(before).push(opt_view(v)));
            },
            Err(e) => {
                proof {
                    codec::lemma_collect_stuck((i + 1) as nat, cs.len(), f);
                }
                return Err(e);
            },
        }
        i = i + 1;
    }
    Ok(values)
}

/// `start` and the number of bytes that the columns take; `None` where that is too large.
pub fn add_columns_len(columns: &Vec<ColumnChunk>, start: usize) -> (len: Option<usize>)
    requires
        columns_wf(columns@),
    ensures
        match len {
            Some(n) => n == start + concat(column_blobs(columns_view(columns@))).len(),
            None => start + concat(column_blobs(columns_view(columns@))).len() > usize::MAX,
        },
{
    let ghost blobs = column_blobs(columns_view(columns@));
    let mut total: usize = start;
    let mut i: usize = 0;
    assert(blobs.take(0) =~= Seq::empty());
    while i < columns.len()
        invariant
            i <= columns@.len(),
            columns_wf(columns@),
            blobs == column_blobs(columns_view(columns@)),
            total == start + blob_start(blobs, i as int),
        decreases columns@.len() - i,
    {
        proof {
            codec::lemma_concat_take(blobs, i as int);
            codec::lemma_blob_start_mono(blobs, i + 1, blobs.len() as int);
        }
        match columns[i].checked_len() {
            Some(len) => {
                match total.checked_add(len) {
                    Some(n) => {
                        total = n;
                    },
                    None => {
                        return None;
                    },
                }
            },
            None => {
                return None;
            },
        }
        i = i + 1;
    }
    assert(blobs.take(blobs.len() as int) =~= blobs);
    Some(total)
}

/// Writes the length of each column.
pub fn write_column_lens(columns: &Vec<ColumnChunk>, buf: &mut [u8], pos: &mut usize)
    requires
        columns_wf(columns@),
        *old(pos) + 4 * columns@.len() <= old(buf)@.len(),
        concat(column_blobs(columns_view(columns@))).len() <= usize::MAX,
    ensures
        final(buf)@ == overwrite(
            old(buf)@,
            *old(pos) as int,
            binary::ints_le(column_lens(columns_view(columns@))),
        ),
        final(buf)@.len() == old(buf)@.len(),
        *final(pos) == *old(pos) + 4 * columns@.len(),
{
    let ghost start = *pos as int;
    let ghost lens = column_lens(columns_view(columns@));
    let ghost blobs = column_blobs(columns_view(columns@));
    let mut i: usize = 0;
    proof {
        binary::lemma_overwrite_empty(buf@, start);
        assert(binary::ints_le(lens.take(0)) =~= Seq::empty());
    }
    while i < columns.len()
        invariant
            i <= columns@.len(),
            columns_wf(columns@),
            lens == column_lens(columns_view(columns@)),
            blobs == column_blobs(columns_view(columns@)),
            concat(blobs).len() <= usize::MAX,
            start == *old(pos),
            *pos == start + 4 * i,
            start + 4 * columns@.len() <= old(buf)@.len(),
            buf@.len() == old(buf)@.len(),
            buf@ == overwrite(old(buf)@, start, binary::ints_le(lens.take(i as int))),
        decreases columns@.len() - i,
    {
        proof {
            codec::lemma_concat_take(blobs, i as int);
            codec::lemma_blob_start_mono(blobs, i + 1, blobs.len() as int);
        }
        let len: u32 = binary::to_low_u32(columns[i].serialized_len());
        binary::write_u32(buf, pos, len);
        proof {
            assert(lens.take(i + 1) =~= lens.take(i as int).push(len));
            binary::lemma_overwrite_append(
                old(buf)@,
                start,
                binary::ints_le(lens.take(i as int)),
                binary::u32_le(len),
            );
            binary::lemma_ints_push(lens.take(i as int), len);
        }
        i = i + 1;
    }
    assert(lens.take(lens.len() as int) =~= lens);
}

/// Writes the columns one after the other.
pub fn write_columns(columns: &Vec<ColumnChunk>, buf: &mut [u8], pos: &mut usize)
    requires
        columns_wf(columns@),
        *old(pos) + concat(column_blobs(columns_view(columns@))).len() <= old(buf)@.len(),
    ensures
        final(buf)@ == overwrite(
            old(buf)@,
            *old(pos) as int,
            concat(column_blobs(columns_view(columns@))),
        ),
        final(buf)@.len() == old(buf)@.len(),
        *final(pos) == *old(pos) + concat(column_blobs(columns_view(columns@))).len(),
{
    let ghost start = *pos as int;
    let ghost blobs = column_blobs(columns_view(columns@));
    let mut i: usize = 0;
    proof {
        binary::lemma_overwrite_empty(buf@, start);
        assert(blobs.take(0) =~= Seq::empty());
    }
    while i < columns.len()
        invariant
            i <= columns@.len(),
            columns_wf(columns@),
            blobs == column_blobs(columns_view(columns@)),
            start == *old(pos),
            *pos == start + blob_start(blobs, i as int),
            start + concat(blobs).len() <= old(buf)@.len(),
            buf@.len() == old(buf)@.len(),
            buf@ == overwrite(old(buf)@, start, concat(blobs.take(i as int))),
        decreases columns@.len() - i,
    {
        proof {
            codec::lemma_concat_take(blobs, i as int);
            codec::lemma_blob_start_mono(blobs, i + 1, blobs.len() as int);
            binary::lemma_overwrite_append(
                old(buf)@,
                start,
                concat(blobs.take(i as int)),
                blobs[i as int],
            );
        }
        columns[i].write_to(buf, pos);
        i = i + 1;
    }
    assert(blobs.take(blobs.len() as int) =~= blobs);
}

/// Reads the columns of a schema one after the other. `None` where a column reaches past the end
/// of the buffer or points outside of its own bytes.
pub fn try_read_columns(
    schema: &[(ColumnId, DataType)],
    buf: &[u8],
    start: usize,
    lens: &Vec<u32>,
) -> (r: Option<Result<Vec<ColumnChunk>, StorageError>>)
    requires
        start <= buf@.len(),
    ensures
        ({
            let d = parse_columns(schema@, buf@, start as int, lens@);
            match r {
                Some(Ok(cs)) => columns_wf(cs@) && d == Some(
                    Ok::<Seq<ColumnView>, ErrorView>(columns_view(cs@)),
                ),
                Some(Err(e)) => d == Some(Err::<Seq<ColumnView>, ErrorView>(e@)),
                None => d is None,
            }
        }),
{
    let ghost f = column_parser(schema@, buf@, start as int, lens@);
    let mut columns: Vec<ColumnChunk> = Vec::new();
    let mut pos: usize = start;
    let mut i: usize = 0;
    assert(columns_view(columns@) =~= Seq::empty());
    while i < schema.len()
        invariant
            i <= schema@.len(),
            f == column_parser(schema@, buf@, start as int, lens@),
            pos == start + sum_upto(lens@, i as nat),
            pos <= buf@.len(),
            columns@.len() == i,
            columns_wf(columns@),
            collect(i as nat, f) == Some(
                Ok::<Seq<ColumnView>, ErrorView>(columns_view(columns@)),
            ),
        decreases schema@.len() - i,
    {
        let ghost before = columns@;
        assert(f(i as int) == parse_column(schema@, buf@, start as int, lens@, i as int));
        let len: usize = if i < lens.len() {
            lens[i] as usize
        } else {
            0
        };
        if len > buf.len() - pos {
            proof {
                codec::lemma_collect_stuck((i + 1) as nat, schema@.len(), f);
            }
            return None;
        }
        let bytes = binary::read_bytes(buf, &mut pos, len);
        match ColumnChunk::try_deserialize(schema[i].0, schema[i].1, bytes) {
            Some(Ok(c)) => {
                columns.push(c);
                assert(columns_view(columns@) =~= columns_view(before).push(c@));
            },
            Some(Err(e)) => {
                proof {
                    codec::lemma_collect_stuck((i + 1) as nat, schema@.len(), f);
                }
                return Some(Err(e));
            },
            None => {
                proof {
                    codec::lemma_collect_stuck((i + 1) as nat, schema@.len(), f);
                }
                return None;
            },
        }
        i = i + 1;
    }
    Some(Ok(columns))
}

// ---------------------------------------------------------------------------------------------
// Rows from commands

/// The row of `n` columns that values stand for by their place: extra values are dropped, missing
/// ones are nothing.
pub open spec fn aligned_row(n: nat, values: Seq<PropertyView>) -> RowView {
    Seq::new(
        n,
        |i: int|
            if i < values.len() {
                Some(values[i])
            } else {
                None
            },
    )
}

/// Maps the values of a command onto `n` columns by their place. Values past the last column are
/// ignored, and columns past the last value get `None`.
pub fn align_properties(n: usize, values: &[PropertyValue]) -> (row: Vec<Option<PropertyValue>>)
    ensures
        row_view(row@) == aligned_row(n as nat, values_view(values@)),
{
    let mut row: Vec<Option<PropertyValue>> = Vec::new();
    let mut i: usize = 0;
    while i < n
        invariant
            i <= n,
            row@.len() == i,
            forall|j: int|
                0 <= j < i ==> opt_view(#[trigger] row@[j]) == aligned_row(
                    n as nat,
                    values_view(values@),
                )[j],
        decreases n - i,
    {
        if i < values.len() {
            row.push(Some(values[i].clone()));
        } else {
            row.push(None);
        }
        i = i + 1;
    }
    assert(row_view(row@) =~= aligned_row(n as nat, values_view(values@)));
    row
}

} // verus!
