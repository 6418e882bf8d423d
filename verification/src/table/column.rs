//! Typed columns.

use vstd::prelude::*;
use vstd::slice::{slice_subrange, slice_to_vec};
use vstd::string::StringExecFns;
use vstd::utf8::{decode_utf8, encode_utf8, valid_utf8};

use crate::config::StorageConfig;
use crate::error::{ErrorView, StorageError};
use crate::io::binary;
use crate::io::binary::{
    bitmask, holds_at, i64_bits, i64_of_bits, ints_at, ints_le, low_u32, mask_len, overwrite,
    u32_at, u32_le, u64_le, unmasked, words_at, words_le,
};
use crate::io::codec;
use crate::io::codec::{blob_start, collect, concat, Decoded};
use crate::types::{ColumnId, DataType, PropertyValue, PropertyView, RowIdx};
use crate::utf8::{string_from_utf8, utf8_error_text};

verus! {

broadcast use binary::group_lengths;

enum ColumnData {
    Bool(Vec<bool>),
    Int64(Vec<i64>),
    Float64(Vec<u64>),
    String(Vec<Option<String>>),
    Bytes(Vec<Option<Vec<u8>>>),
}

/// One typed column within a node group.
/// Stores up to NODE_GROUP_SIZE values, with a separate null mask.
pub struct ColumnChunk {
    column_id: ColumnId,
    data_type: DataType,
    data: ColumnData,
    null_mask: Vec<bool>,
    num_rows: u64,
}

// ---------------------------------------------------------------------------------------------
// The model

/// What a [`ColumnChunk`] stands for. A row that is null has a cell too, which nobody reads but
/// which is written to disk.
#[verifier::ext_equal]
pub struct ColumnView {
    pub column_id: ColumnId,
    pub data_type: DataType,
    pub nulls: Seq<bool>,
    pub cells: Seq<PropertyView>,
}

/// The type of the values that a column of type `t` holds: vectors are held as bytes.
pub open spec fn stored_type(t: DataType) -> DataType {
    match t {
        DataType::Vector { .. } => DataType::Bytes,
        _ => t,
    }
}

/// The cell of a null row.
pub open spec fn default_cell(t: DataType) -> PropertyView {
    match stored_type(t) {
        DataType::Bool => PropertyView::Bool(false),
        DataType::Int64 => PropertyView::Int64(0),
        DataType::Float64 => PropertyView::Float64(0),
        DataType::String => PropertyView::String(Seq::empty()),
        _ => PropertyView::Bytes(Seq::empty()),
    }
}

/// The bytes of a cell of variable width.
pub open spec fn cell_bytes(c: PropertyView) -> Seq<u8> {
    match c {
        PropertyView::String(s) => encode_utf8(s),
        PropertyView::Bytes(b) => b,
        _ => Seq::empty(),
    }
}

pub open spec fn cell_byte(c: PropertyView) -> u8 {
    if c == PropertyView::Bool(true) {
        1
    } else {
        0
    }
}

/// The bit pattern of a number cell.
pub open spec fn cell_word(c: PropertyView) -> u64 {
    match c {
        PropertyView::Int64(n) => i64_bits(n),
        PropertyView::Float64(x) => x,
        _ => 0,
    }
}

/// Where each blob starts, counted from the first one, and at last where they all end.
pub open spec fn offsets_of(blobs: Seq<Seq<u8>>) -> Seq<u32> {
    Seq::new(blobs.len() + 1, |i: int| low_u32(blob_start(blobs, i) as int))
}

/// A slot of the variable-width part: the bytes between two offsets, as text where `text` says so.
pub open spec fn parse_slot(
    text: bool,
    buf: Seq<u8>,
    data_start: int,
    offsets: Seq<u32>,
    i: int,
) -> Decoded<PropertyView> {
    let from = data_start + offsets[i];
    let to = data_start + offsets[i + 1];
    if from <= to <= buf.len() {
        let bytes = buf.subrange(from, to);
        if !text {
            Some(Ok(PropertyView::Bytes(bytes)))
        } else if valid_utf8(bytes) {
            Some(Ok(PropertyView::String(decode_utf8(bytes))))
        } else {
            Some(Err(ErrorView::SerDe("invalid UTF-8: "@ + utf8_error_text(bytes))))
        }
    } else {
        None
    }
}

pub open spec fn slots(text: bool, buf: Seq<u8>, data_start: int, offsets: Seq<u32>) -> spec_fn(
    int,
) -> Decoded<PropertyView> {
    |i: int| parse_slot(text, buf, data_start, offsets, i)
}

/// The `n` cells that stand in `buf` from `pos` on.
pub open spec fn parse_cells(t: DataType, buf: Seq<u8>, pos: int, n: nat) -> Decoded<
    Seq<PropertyView>,
> {
    match stored_type(t) {
        DataType::Bool => if pos + n <= buf.len() {
            Some(Ok(Seq::new(n, |i: int| PropertyView::Bool(buf[pos + i] != 0))))
        } else {
            None
        },
        DataType::Int64 => if pos + 8 * n <= buf.len() {
            Some(
                Ok(Seq::new(n, |i: int| PropertyView::Int64(i64_of_bits(words_at(buf, pos, n)[i])))),
            )
        } else {
            None
        },
        DataType::Float64 => if pos + 8 * n <= buf.len() {
            Some(Ok(Seq::new(n, |i: int| PropertyView::Float64(words_at(buf, pos, n)[i]))))
        } else {
            None
        },
        stored => if pos + 4 * (n + 1) <= buf.len() {
            collect(
                n,
                slots(
                    stored == DataType::String,
                    buf,
                    pos + 4 * (n + 1),
                    ints_at(buf, pos, n + 1),
                ),
            )
        } else {
            None
        },
    }
}

impl ColumnView {
    /// The number of rows.
    pub open spec fn len(self) -> nat {
        self.nulls.len()
    }

    /// Each row has a cell of the column's type.
    pub open spec fn valid(self) -> bool {
        &&& self.cells.len() == self.nulls.len()
        &&& self.nulls.len() <= u32::MAX
        &&& forall|i: int|
            0 <= i < self.cells.len() ==> (#[trigger] self.cells[i]).data_type() == stored_type(
                self.data_type,
            )
    }

    /// A column without rows.
    pub open spec fn empty(column_id: ColumnId, data_type: DataType) -> ColumnView {
        ColumnView { column_id, data_type, nulls: Seq::empty(), cells: Seq::empty() }
    }

    /// The value of a row; `None` where it is null.
    pub open spec fn value(self, row: int) -> Option<PropertyView> {
        if self.nulls[row] {
            None
        } else {
            Some(self.cells[row])
        }
    }

    /// The column with one more row.
    pub open spec fn append(self, value: Option<PropertyView>) -> ColumnView {
        ColumnView {
            nulls: self.nulls.push(value is None),
            cells: self.cells.push(
                match value {
                    Some(v) => v,
                    None => default_cell(self.data_type),
                },
            ),
            ..self
        }
    }

    /// Whether a value can be stored, and else why not.
    pub open spec fn refusal(self, value: Option<PropertyView>) -> Option<ErrorView> {
        if self.len() >= StorageConfig::NODE_GROUP_SIZE {
            Some(ErrorView::NodeGroupFull)
        } else {
            match value {
                Some(v) if v.data_type() != stored_type(self.data_type) => Some(
                    ErrorView::ColumnTypeMismatch { expected: self.data_type, got: v.data_type() },
                ),
                _ => None,
            }
        }
    }

    /// What reading a row gives.
    pub open spec fn read(self, row: u64) -> Result<Option<PropertyView>, ErrorView> {
        if row >= self.len() {
            Err(ErrorView::RowOutOfBounds { row, len: self.len() as u64 })
        } else {
            Ok(self.value(row as int))
        }
    }

    /// The cells of variable width, as bytes.
    pub open spec fn blobs(self) -> Seq<Seq<u8>> {
        Seq::new(self.cells.len(), |i: int| cell_bytes(self.cells[i]))
    }

    /// The bit patterns of the number cells.
    pub open spec fn words(self) -> Seq<u64> {
        Seq::new(self.cells.len(), |i: int| cell_word(self.cells[i]))
    }

    /// Offsets into the cells of variable width can be written in 32 bits.
    pub open spec fn fits(self) -> bool {
        concat(self.blobs()).len() <= u32::MAX
    }

    /// The cells on disk.
    pub open spec fn payload(self) -> Seq<u8> {
        match stored_type(self.data_type) {
            DataType::Bool => Seq::new(self.cells.len(), |i: int| cell_byte(self.cells[i])),
            DataType::Int64 | DataType::Float64 => words_le(self.words()),
            _ => ints_le(offsets_of(self.blobs())) + concat(self.blobs()),
        }
    }

    /// The column on disk: number of rows, bit-packed null mask, cells.
    #[verifier::opaque]
    pub open spec fn encoding(self) -> Seq<u8> {
        u32_le(self.len() as u32) + bitmask(self.nulls) + self.payload()
    }

    /// The column that `buf` holds.
    #[verifier::opaque]
    pub open spec fn parse(column_id: ColumnId, data_type: DataType, buf: Seq<u8>) -> Decoded<
        ColumnView,
    > {
        if buf.len() < 4 {
            Some(Err(ErrorView::SerDe("buffer too short for num_rows"@)))
        } else {
            let n = u32_at(buf, 0) as nat;
            let m = mask_len(n);
            if 4 + m > buf.len() {
                None
            } else {
                match parse_cells(data_type, buf, 4 + m as int, n) {
                    Some(Ok(cells)) => Some(
                        Ok(
                            ColumnView {
                                column_id,
                                data_type,
                                nulls: unmasked(buf.subrange(4, 4 + m as int), n),
                                cells,
                            },
                        ),
                    ),
                    Some(Err(e)) => Some(Err(e)),
                    None => None,
                }
            }
        }
    }
}

// ---------------------------------------------------------------------------------------------
// The column

spec fn text_cell(s: Option<String>) -> PropertyView {
    PropertyView::String(
        match s {
            Some(s) => s@,
            None => Seq::empty(),
        },
    )
}

spec fn bytes_cell(b: Option<Vec<u8>>) -> PropertyView {
    PropertyView::Bytes(
        match b {
            Some(b) => b@,
            None => Seq::empty(),
        },
    )
}

spec fn text_cells(v: Seq<Option<String>>) -> Seq<PropertyView> {
    Seq::new(v.len(), |i: int| text_cell(v[i]))
}

spec fn bytes_cells(v: Seq<Option<Vec<u8>>>) -> Seq<PropertyView> {
    Seq::new(v.len(), |i: int| bytes_cell(v[i]))
}

impl ColumnData {
    spec fn cells(&self) -> Seq<PropertyView> {
        match self {
            ColumnData::Bool(v) => Seq::new(v@.len(), |i: int| PropertyView::Bool(v@[i])),
            ColumnData::Int64(v) => Seq::new(v@.len(), |i: int| PropertyView::Int64(v@[i])),
            ColumnData::Float64(v) => Seq::new(v@.len(), |i: int| PropertyView::Float64(v@[i])),
            ColumnData::String(v) => text_cells(v@),
            ColumnData::Bytes(v) => bytes_cells(v@),
        }
    }

    /// The type of the values.
    spec fn stored_type(&self) -> DataType {
        match self {
            ColumnData::Bool(_) => DataType::Bool,
            ColumnData::Int64(_) => DataType::Int64,
            ColumnData::Float64(_) => DataType::Float64,
            ColumnData::String(_) => DataType::String,
            ColumnData::Bytes(_) => DataType::Bytes,
        }
    }

    /// A value is there, not only a default for it.
    spec fn present(&self, i: int) -> bool {
        match self {
            ColumnData::String(v) => v@[i] is Some,
            ColumnData::Bytes(v) => v@[i] is Some,
            _ => true,
        }
    }
}

impl View for ColumnChunk {
    type V = ColumnView;

    closed spec fn view(&self) -> ColumnView {
        ColumnView {
            column_id: self.column_id,
            data_type: self.data_type,
            nulls: self.null_mask@,
            cells: self.data.cells(),
        }
    }
}

impl ColumnChunk {
    /// The null mask and the data have an entry for each row, and a row that is not null has a
    /// value.
    pub closed spec fn wf(&self) -> bool {
        &&& self.data.stored_type() == stored_type(self.data_type)
        &&& self.null_mask@.len() == self.num_rows
        &&& self.data.cells().len() == self.num_rows
        &&& self.num_rows <= u32::MAX
        &&& forall|i: int|
            0 <= i < self.num_rows && !#[trigger] self.null_mask@[i] ==> self.data.present(i)
    }

    pub proof fn lemma_wf(&self)
        requires
            self.wf(),
        ensures
            self@.valid(),
    {
    }

    #[must_use]
    pub fn new(column_id: ColumnId, data_type: DataType) -> (c: Self)
        ensures
            c.wf(),
            c@ == ColumnView::empty(column_id, data_type),
    {
        let data = match &data_type {
            DataType::Bool => ColumnData::Bool(Vec::new()),
            DataType::Int64 => ColumnData::Int64(Vec::new()),
            DataType::Float64 => ColumnData::Float64(Vec::new()),
            DataType::String => ColumnData::String(Vec::new()),
            DataType::Bytes | DataType::Vector { .. } => ColumnData::Bytes(Vec::new()),
        };
        let c = ColumnChunk { column_id, data_type, data, null_mask: Vec::new(), num_rows: 0 };
        assert(c@ =~= ColumnView::empty(column_id, data_type));
        c
    }

    #[must_use]
    pub fn column_id(&self) -> (id: ColumnId)
        ensures
            id == self@.column_id,
    {
        self.column_id
    }

    #[must_use]
    pub fn data_type(&self) -> (t: &DataType)
        ensures
            *t == self@.data_type,
    {
        &self.data_type
    }

    #[must_use]
    pub fn len(&self) -> (n: u64)
        requires
            self.wf(),
        ensures
            n == self@.len(),
    {
        self.num_rows
    }

    #[must_use]
    pub fn is_empty(&self) -> (b: bool)
        requires
            self.wf(),
        ensures
            b == (self@.len() == 0),
    {
        self.num_rows == 0
    }

    #[must_use]
    pub fn is_full(&self) -> (b: bool)
        requires
            self.wf(),
        ensures
            b == (self@.len() >= StorageConfig::NODE_GROUP_SIZE),
    {
        self.num_rows >= StorageConfig::NODE_GROUP_SIZE
    }

    /// A row that does not exist is not null.
    #[must_use]
    pub fn is_null(&self, row: RowIdx) -> (b: bool)
        requires
            self.wf(),
        ensures
            b == (row < self@.len() && self@.nulls[row as int]),
    {
        row < self.num_rows && self.null_mask[row as usize]
    }

    /// Adds a row, unless the column is full or the value is of another type.
    pub fn append_value(&mut self, value: Option<&PropertyValue>) -> (r: Result<(), StorageError>)
        requires
            old(self).wf(),
        ensures
            final(self).wf(),
            ({
                let v = match value {
                    Some(v) => Some(v@),
                    None => None,
                };
                match r {
                    Ok(()) => old(self)@.refusal(v) is None && final(self)@ == old(self)@.append(v),
                    Err(e) => old(self)@.refusal(v) == Some(e@) && final(self)@ == old(self)@,
                }
            }),
    {
        if self.is_full() {
            return Err(StorageError::NodeGroupFull);
        }
        match value {
            None => {
                self.push_default();
                self.null_mask.push(true);
                self.num_rows = self.num_rows + 1;
                assert(self@ =~= old(self)@.append(None));
            },
            Some(v) => {
                match self.type_check(v) {
                    Err(e) => {
                        return Err(e);
                    },
                    Ok(()) => {},
                }
                self.push_value(v);
                self.null_mask.push(false);
                self.num_rows = self.num_rows + 1;
                assert(self@ =~= old(self)@.append(Some(v@)));
            },
        }
        Ok(())
    }

    /// The value of a row, or `None` where it is null.
    #[must_use]
    pub fn get(&self, row: RowIdx) -> (r: Result<Option<PropertyValue>, StorageError>)
        requires
            self.wf(),
        ensures
            match r {
                Ok(Some(v)) => self@.read(row) == Ok::<_, ErrorView>(Some(v@)),
                Ok(None) => self@.read(row) == Ok::<Option<PropertyView>, ErrorView>(None),
                Err(e) => self@.read(row) == Err::<Option<PropertyView>, ErrorView>(e@),
            },
    {
        if row >= self.num_rows {
            return Err(StorageError::RowOutOfBounds { row, len: self.num_rows });
        }
        if self.null_mask[row as usize] {
            return Ok(None);
        }
        Ok(Some(self.read_value(row as usize)))
    }

    /// Whether a value is of the column's type.
    pub fn type_check(&self, value: &PropertyValue) -> (r: Result<(), StorageError>)
        ensures
            match r {
                Ok(()) => value@.data_type() == stored_type(self@.data_type),
                Err(e) => value@.data_type() != stored_type(self@.data_type) && e@
                    == (ErrorView::ColumnTypeMismatch {
                    expected: self@.data_type,
                    got: value@.data_type(),
                }),
            },
    {
        let got = value.data_type();
        let compatible = match (self.data_type, got) {
            (DataType::Vector { .. }, DataType::Bytes) => true,
            (expected, _) => expected == got,
        };
        if compatible {
            Ok(())
        } else {
            Err(StorageError::ColumnTypeMismatch { expected: self.data_type, got })
        }
    }

    fn push_default(&mut self)
        requires
            old(self).wf(),
        ensures
            *final(self) == (ColumnChunk { data: final(self).data, ..*old(self) }),
            final(self).data.stored_type() == old(self).data.stored_type(),
            final(self).data.cells() == old(self).data.cells().push(
                default_cell(old(self).data_type),
            ),
            forall|i: int|
                0 <= i < old(self).num_rows ==> final(self).data.present(i) == old(
                    self,
                ).data.present(i),
    {
        match &mut self.data {
            ColumnData::Bool(v) => v.push(false),
            ColumnData::Int64(v) => v.push(0),
            ColumnData::Float64(v) => v.push(0),
            ColumnData::String(v) => v.push(None),
            ColumnData::Bytes(v) => v.push(None),
        }
        assert(self.data.cells() =~= old(self).data.cells().push(
            default_cell(old(self).data_type),
        ));
    }

    fn push_value(&mut self, value: &PropertyValue)
        requires
            old(self).wf(),
            value@.data_type() == stored_type(old(self).data_type),
        ensures
            *final(self) == (ColumnChunk { data: final(self).data, ..*old(self) }),
            final(self).data.stored_type() == old(self).data.stored_type(),
            final(self).data.cells() == old(self).data.cells().push(value@),
            forall|i: int|
                0 <= i < old(self).num_rows ==> final(self).data.present(i) == old(
                    self,
                ).data.present(i),
            final(self).data.present(old(self).num_rows as int),
    {
        match (&mut self.data, value) {
            (ColumnData::Bool(v), PropertyValue::Bool(b)) => v.push(*b),
            (ColumnData::Int64(v), PropertyValue::Int64(n)) => v.push(*n),
            (ColumnData::Float64(v), PropertyValue::Float64(x)) => v.push(*x),
            (ColumnData::String(v), PropertyValue::String(s)) => v.push(Some(s.clone())),
            (ColumnData::Bytes(v), PropertyValue::Bytes(b)) => {
                let c = b.clone();
                assert(c@ =~= b@);
                v.push(Some(c));
            },
            _ => {},
        }
        assert(self.data.cells() =~= old(self).data.cells().push(value@));
    }

    fn read_value(&self, i: usize) -> (v: PropertyValue)
        requires
            self.wf(),
            i < self.num_rows,
            !self.null_mask@[i as int],
        ensures
            v@ == self@.cells[i as int],
    {
        match &self.data {
            ColumnData::Bool(v) => PropertyValue::Bool(v[i]),
            ColumnData::Int64(v) => PropertyValue::Int64(v[i]),
            ColumnData::Float64(v) => PropertyValue::Float64(v[i]),
            ColumnData::String(v) => {
                match &v[i] {
                    Some(s) => PropertyValue::String(s.clone()),
                    None => PropertyValue::String(String::new()),
                }
            },
            ColumnData::Bytes(v) => {
                match &v[i] {
                    Some(b) => {
                        let c = b.clone();
                        assert(c@ =~= b@);
                        PropertyValue::Bytes(c)
                    },
                    None => PropertyValue::Bytes(Vec::new()),
                }
            },
        }
    }
}

// ---------------------------------------------------------------------------------------------
// Serialization

proof fn lemma_offsets_take(blobs: Seq<Seq<u8>>, i: int)
    requires
        0 <= i <= blobs.len(),
    ensures
        offsets_of(blobs).take(i + 1) == offsets_of(blobs).take(i).push(
            low_u32(blob_start(blobs, i) as int),
        ),
{
    assert(offsets_of(blobs).take(i + 1) =~= offsets_of(blobs).take(i).push(
        low_u32(blob_start(blobs, i) as int),
    ));
}

impl ColumnChunk {
    /// The bytes of a cell of variable width; `None` where nothing is stored.
    fn blob(&self, i: usize) -> (b: Option<&[u8]>)
        requires
            self.wf(),
            i < self.num_rows,
        ensures
            self@.blobs()[i as int] == (match b {
                Some(b) => b@,
                None => Seq::empty(),
            }),
    {
        match &self.data {
            ColumnData::String(v) => match &v[i] {
                Some(s) => Some(s.as_str().as_bytes()),
                None => {
                    assert(encode_utf8(Seq::<char>::empty()) =~= Seq::empty());
                    None
                },
            },
            ColumnData::Bytes(v) => match &v[i] {
                Some(b) => Some(b.as_slice()),
                None => None,
            },
            _ => None,
        }
    }

    fn blob_len(&self, i: usize) -> (n: usize)
        requires
            self.wf(),
            i < self.num_rows,
        ensures
            n == self@.blobs()[i as int].len(),
    {
        match self.blob(i) {
            Some(b) => b.len(),
            None => 0,
        }
    }

    /// The number of bytes that [`ColumnChunk::serialize`] writes.
    #[must_use]
    pub fn serialized_len(&self) -> (len: usize)
        requires
            self.wf(),
            self@.encoding().len() <= usize::MAX,
        ensures
            len == self@.encoding().len(),
    {
        self.checked_len().unwrap()
    }

    /// Like [`ColumnChunk::serialized_len`]; `None` where the number is too large.
    pub fn checked_len(&self) -> (len: Option<usize>)
        requires
            self.wf(),
        ensures
            match len {
                Some(n) => n == self@.encoding().len(),
                None => self@.encoding().len() > usize::MAX,
            },
    {
        reveal(ColumnView::encoding);
        let num: usize = self.null_mask.len();
        let base: usize = 4 + binary::bitmask_len(num);
        let fixed: usize = match &self.data {
            ColumnData::Bool(_) => num,
            ColumnData::Int64(_) | ColumnData::Float64(_) => match num.checked_mul(8) {
                Some(n) => n,
                None => {
                    return None;
                },
            },
            ColumnData::String(_) | ColumnData::Bytes(_) => {
                if num > usize::MAX / 4 - 1 {
                    return None;
                }
                (num + 1) * 4
            },
        };
        let start: usize = match base.checked_add(fixed) {
            Some(n) => n,
            None => {
                return None;
            },
        };
        match &self.data {
            ColumnData::String(_) | ColumnData::Bytes(_) => self.add_blob_lens(start),
            _ => Some(start),
        }
    }

    /// `start` and the lengths of all cells of variable width.
    fn add_blob_lens(&self, start: usize) -> (len: Option<usize>)
        requires
            self.wf(),
        ensures
            match len {
                Some(n) => n == start + concat(self@.blobs()).len(),
                None => start + concat(self@.blobs()).len() > usize::MAX,
            },
    {
        let num: usize = self.null_mask.len();
        let mut total: usize = start;
        let mut i: usize = 0;
        let ghost blobs = self@.blobs();
        assert(blobs.take(0) =~= Seq::empty());
        while i < num
            invariant
                self.wf(),
                i <= num,
                num == self.num_rows,
                blobs == self@.blobs(),
                blobs.len() == num,
                total == start + blob_start(blobs, i as int),
            decreases num - i,
        {
            proof {
                codec::lemma_concat_take(blobs, i as int);
                codec::lemma_blob_start_mono(blobs, i + 1, num as int);
            }
            match total.checked_add(self.blob_len(i)) {
                Some(n) => {
                    total = n;
                },
                None => {
                    return None;
                },
            }
            i = i + 1;
        }
        assert(blobs.take(num as int) =~= blobs);
        Some(total)
    }

    /// Writes the column at the start of `buf` and gives the number of bytes written.
    /// Format: `[num_rows: u32] [null_mask: bit-packed] [data...]`
    pub fn serialize(&self, buf: &mut [u8]) -> (r: Result<usize, StorageError>)
        requires
            self.wf(),
            self@.encoding().len() <= old(buf)@.len(),
        ensures
            r == Ok::<usize, StorageError>(self@.encoding().len() as usize),
            final(buf)@ == overwrite(old(buf)@, 0, self@.encoding()),
            final(buf)@.len() == old(buf)@.len(),
    {
        let mut pos: usize = 0;
        self.write_to(buf, &mut pos);
        Ok(pos)
    }

    /// Writes the column at `pos` and moves `pos` past it.
    pub fn write_to(&self, buf: &mut [u8], pos: &mut usize)
        requires
            self.wf(),
            *old(pos) + self@.encoding().len() <= old(buf)@.len(),
        ensures
            final(buf)@ == overwrite(old(buf)@, *old(pos) as int, self@.encoding()),
            final(buf)@.len() == old(buf)@.len(),
            *final(pos) == *old(pos) + self@.encoding().len(),
    {
        reveal(ColumnView::encoding);
        let ghost start = *pos as int;
        binary::write_u32(buf, pos, self.num_rows as u32);
        let mask = binary::pack_bitmask(self.null_mask.as_slice());
        binary::write_bytes(buf, pos, mask.as_slice());
        let ghost head = u32_le(self.num_rows as u32) + bitmask(self.null_mask@);
        proof {
            binary::lemma_overwrite_append(
                old(buf)@,
                start,
                u32_le(self.num_rows as u32),
                bitmask(self.null_mask@),
            );
        }
        match &self.data {
            ColumnData::Bool(_) => self.write_bools(buf, pos),
            ColumnData::Int64(_) | ColumnData::Float64(_) => self.write_words(buf, pos),
            ColumnData::String(_) | ColumnData::Bytes(_) => self.serialize_var_width(buf, pos),
        }
        proof {
            binary::lemma_overwrite_append(old(buf)@, start, head, self@.payload());
        }
    }

    fn write_bools(&self, buf: &mut [u8], pos: &mut usize)
        requires
            self.wf(),
            self.data is Bool,
            *old(pos) + self@.payload().len() <= old(buf)@.len(),
        ensures
            final(buf)@ == overwrite(old(buf)@, *old(pos) as int, self@.payload()),
            final(buf)@.len() == old(buf)@.len(),
            *final(pos) == *old(pos) + self@.payload().len(),
    {
        let ghost start = *pos as int;
        let ghost payload = self@.payload();
        if let ColumnData::Bool(v) = &self.data {
            let mut i: usize = 0;
            proof {
                binary::lemma_overwrite_empty(buf@, start);
                assert(payload.take(0) =~= Seq::empty());
            }
            while i < v.len()
                invariant
                    self.wf(),
                    self.data == ColumnData::Bool(*v),
                    payload == self@.payload(),
                    payload.len() == v@.len(),
                    i <= v@.len(),
                    start == *old(pos),
                    *pos == start + i,
                    start + payload.len() <= old(buf)@.len(),
                    buf@.len() == old(buf)@.len(),
                    buf@ == overwrite(old(buf)@, start, payload.take(i as int)),
                decreases v@.len() - i,
            {
                let byte: u8 = if v[i] {
                    1
                } else {
                    0
                };
                binary::write_u8(buf, pos, byte);
                proof {
                    binary::lemma_overwrite_append(
                        old(buf)@,
                        start,
                        payload.take(i as int),
                        seq![byte],
                    );
                    assert(payload.take(i + 1) =~= payload.take(i as int) + seq![byte]);
                }
                i = i + 1;
            }
            assert(payload.take(v@.len() as int) =~= payload);
        }
    }

    /// The bit pattern of a number.
    fn word(&self, i: usize) -> (w: u64)
        requires
            self.wf(),
            i < self.num_rows,
        ensures
            w == self@.words()[i as int],
    {
        match &self.data {
            ColumnData::Int64(v) => binary::to_i64_bits(v[i]),
            ColumnData::Float64(v) => v[i],
            _ => 0,
        }
    }

    fn write_words(&self, buf: &mut [u8], pos: &mut usize)
        requires
            self.wf(),
            self.data is Int64 || self.data is Float64,
            *old(pos) + self@.payload().len() <= old(buf)@.len(),
        ensures
            final(buf)@ == overwrite(old(buf)@, *old(pos) as int, self@.payload()),
            final(buf)@.len() == old(buf)@.len(),
            *final(pos) == *old(pos) + self@.payload().len(),
    {
        let ghost start = *pos as int;
        let ghost words = self@.words();
        let num: usize = self.null_mask.len();
        let mut i: usize = 0;
        proof {
            binary::lemma_overwrite_empty(buf@, start);
            assert(words_le(words.take(0)) =~= Seq::empty());
        }
        while i < num
            invariant
                self.wf(),
                i <= num,
                num == self.num_rows,
                words == self@.words(),
                words.len() == num,
                start == *old(pos),
                *pos == start + 8 * i,
                start + 8 * num <= old(buf)@.len(),
                buf@.len() == old(buf)@.len(),
                buf@ == overwrite(old(buf)@, start, words_le(words.take(i as int))),
            decreases num - i,
        {
            let w: u64 = self.word(i);
            binary::write_u64(buf, pos, w);
            proof {
                binary::lemma_overwrite_append(
                    old(buf)@,
                    start,
                    words_le(words.take(i as int)),
                    u64_le(w),
                );
                binary::lemma_words_push(words.take(i as int), w);
                assert(words.take(i + 1) =~= words.take(i as int).push(w));
            }
            i = i + 1;
        }
        assert(words.take(num as int) =~= words);
    }

    /// Writes the offsets and then the bytes of the cells.
    fn serialize_var_width(&self, buf: &mut [u8], pos: &mut usize)
        requires
            self.wf(),
            self.data is String || self.data is Bytes,
            *old(pos) + self@.payload().len() <= old(buf)@.len(),
        ensures
            final(buf)@ == overwrite(old(buf)@, *old(pos) as int, self@.payload()),
            final(buf)@.len() == old(buf)@.len(),
            *final(pos) == *old(pos) + self@.payload().len(),
    {
        let ghost start = *pos as int;
        let ghost blobs = self@.blobs();
        let ghost offsets = offsets_of(blobs);
        let num: usize = self.null_mask.len();
        let end: usize = buf.len();
        let mut off: usize = 0;
        let mut i: usize = 0;
        proof {
            binary::lemma_overwrite_empty(buf@, start);
            assert(ints_le(offsets.take(0)) =~= Seq::empty());
            assert(blobs.take(0) =~= Seq::empty());
        }
        while i < num
            invariant
                self.wf(),
                i <= num,
                num == self.num_rows,
                blobs == self@.blobs(),
                blobs.len() == num,
                offsets == offsets_of(blobs),
                end == old(buf)@.len(),
                start == *old(pos),
                *pos == start + 4 * i,
                start + 4 * (num + 1) + concat(blobs).len() <= end,
                off == blob_start(blobs, i as int),
                buf@.len() == old(buf)@.len(),
                buf@ == overwrite(old(buf)@, start, ints_le(offsets.take(i as int))),
            decreases num - i,
        {
            let o: u32 = binary::to_low_u32(off);
            binary::write_u32(buf, pos, o);
            proof {
                lemma_offsets_take(blobs, i as int);
                binary::lemma_overwrite_append(
                    old(buf)@,
                    start,
                    ints_le(offsets.take(i as int)),
                    u32_le(o),
                );
                binary::lemma_ints_push(offsets.take(i as int), o);
                codec::lemma_concat_take(blobs, i as int);
                codec::lemma_blob_start_mono(blobs, i + 1, num as int);
            }
            off = off + self.blob_len(i);
            i = i + 1;
        }
        let o: u32 = binary::to_low_u32(off);
        binary::write_u32(buf, pos, o);
        proof {
            lemma_offsets_take(blobs, num as int);
            binary::lemma_overwrite_append(
                old(buf)@,
                start,
                ints_le(offsets.take(num as int)),
                u32_le(o),
            );
            binary::lemma_ints_push(offsets.take(num as int), o);
            assert(offsets.take(num + 1) =~= offsets);
        }
        let ghost index = ints_le(offsets);
        let ghost data_start = *pos as int;
        let ghost indexed = buf@;
        i = 0;
        proof {
            binary::lemma_overwrite_empty(buf@, data_start);
        }
        while i < num
            invariant
                self.wf(),
                i <= num,
                num == self.num_rows,
                blobs == self@.blobs(),
                blobs.len() == num,
                *pos == data_start + blob_start(blobs, i as int),
                data_start + concat(blobs).len() <= indexed.len(),
                0 <= data_start,
                buf@.len() == indexed.len(),
                buf@ == overwrite(indexed, data_start, concat(blobs.take(i as int))),
            decreases num - i,
        {
            proof {
                codec::lemma_concat_take(blobs, i as int);
                codec::lemma_blob_start_mono(blobs, i + 1, num as int);
                binary::lemma_overwrite_append(
                    indexed,
                    data_start,
                    concat(blobs.take(i as int)),
                    blobs[i as int],
                );
            }
            match self.blob(i) {
                Some(b) => binary::write_bytes(buf, pos, b),
                None => {
                    proof {
                        binary::lemma_overwrite_empty(buf@, *pos as int);
                    }
                },
            }
            i = i + 1;
        }
        proof {
            assert(blobs.take(num as int) =~= blobs);
            binary::lemma_overwrite_append(old(buf)@, start, index, concat(blobs));
        }
    }
}

// ---------------------------------------------------------------------------------------------
// Deserialization

impl ColumnChunk {
    /// Reads a column from the start of `buf`.
    pub fn deserialize(column_id: ColumnId, data_type: DataType, buf: &[u8]) -> (r: Result<
        Self,
        StorageError,
    >)
        requires
            ColumnView::parse(column_id, data_type, buf@) is Some,
        ensures
            match r {
                Ok(c) => c.wf() && ColumnView::parse(column_id, data_type, buf@) == Some(
                    Ok::<ColumnView, ErrorView>(c@),
                ),
                Err(e) => ColumnView::parse(column_id, data_type, buf@) == Some(
                    Err::<ColumnView, ErrorView>(e@),
                ),
            },
    {
        Self::try_deserialize(column_id, data_type, buf).unwrap()
    }

    /// Like [`ColumnChunk::deserialize`], for any bytes: `None` where a length or an offset in
    /// them points outside of `buf`.
    pub fn try_deserialize(column_id: ColumnId, data_type: DataType, buf: &[u8]) -> (r: Option<
        Result<Self, StorageError>,
    >)
        ensures
            match r {
                Some(Ok(c)) => c.wf() && ColumnView::parse(column_id, data_type, buf@) == Some(
                    Ok::<ColumnView, ErrorView>(c@),
                ),
                Some(Err(e)) => ColumnView::parse(column_id, data_type, buf@) == Some(
                    Err::<ColumnView, ErrorView>(e@),
                ),
                None => ColumnView::parse(column_id, data_type, buf@) is None,
            },
    {
        reveal(ColumnView::parse);
        if buf.len() < 4 {
            let mut msg = String::new();
            msg.append("buffer too short for num_rows");
            assert(msg@ =~= "buffer too short for num_rows"@);
            return Some(Err(StorageError::SerDe(msg)));
        }
        let mut pos: usize = 0;
        let num_rows: u32 = binary::read_u32(buf, &mut pos);
        let n: usize = num_rows as usize;
        let mask_bytes: usize = binary::bitmask_len(n);
        if mask_bytes > buf.len() - 4 {
            return None;
        }
        let mask = binary::read_bytes(buf, &mut pos, mask_bytes);
        let null_mask = binary::unpack_bitmask(mask, n);
        match Self::try_read_data(data_type, buf, pos, n) {
            Some(Ok(data)) => {
                let c = ColumnChunk { column_id, data_type, data, null_mask, num_rows: num_rows as u64 };
                Some(Ok(c))
            },
            Some(Err(e)) => Some(Err(e)),
            None => None,
        }
    }

    fn try_read_data(data_type: DataType, buf: &[u8], start: usize, n: usize) -> (r: Option<
        Result<ColumnData, StorageError>,
    >)
        requires
            start <= buf@.len(),
            n <= u32::MAX,
        ensures
            ({
                let d = parse_cells(data_type, buf@, start as int, n as nat);
                match r {
                    Some(Ok(data)) => {
                        &&& d == Some(Ok::<Seq<PropertyView>, ErrorView>(data.cells()))
                        &&& data.cells().len() == n
                        &&& data.stored_type() == stored_type(data_type)
                        &&& forall|i: int| 0 <= i < n ==> data.present(i)
                    },
                    Some(Err(e)) => d == Some(Err::<Seq<PropertyView>, ErrorView>(e@)),
                    None => d is None,
                }
            }),
    {
        let rest: usize = buf.len() - start;
        match data_type {
            DataType::Bool => {
                if n > rest {
                    return None;
                }
                let v = Self::read_bools(buf, start, n);
                let data = ColumnData::Bool(v);
                assert(data.cells() =~= Seq::new(
                    n as nat,
                    |i: int| PropertyView::Bool(buf@[start + i] != 0),
                ));
                Some(Ok(data))
            },
            DataType::Int64 => {
                if n > rest / 8 {
                    return None;
                }
                let words = Self::read_words(buf, start, n);
                let mut v: Vec<i64> = Vec::new();
                let mut i: usize = 0;
                while i < n
                    invariant
                        i <= n,
                        words@.len() == n,
                        v@.len() == i,
                        forall|j: int| 0 <= j < i ==> v@[j] == i64_of_bits(words@[j]),
                    decreases n - i,
                {
                    v.push(binary::from_i64_bits(words[i]));
                    i = i + 1;
                }
                let data = ColumnData::Int64(v);
                assert(data.cells() =~= Seq::new(
                    n as nat,
                    |i: int|
                        PropertyView::Int64(i64_of_bits(words_at(buf@, start as int, n as nat)[i])),
                ));
                Some(Ok(data))
            },
            DataType::Float64 => {
                if n > rest / 8 {
                    return None;
                }
                let data = ColumnData::Float64(Self::read_words(buf, start, n));
                assert(data.cells() =~= Seq::new(
                    n as nat,
                    |i: int| PropertyView::Float64(words_at(buf@, start as int, n as nat)[i]),
                ));
                Some(Ok(data))
            },
            DataType::String => {
                if n >= rest / 4 {
                    return None;
                }
                let offsets = Self::read_offset_array(buf, start, n);
                match Self::try_read_texts(buf, start + 4 * (n + 1), &offsets, n) {
                    Some(Ok(v)) => Some(Ok(ColumnData::String(v))),
                    Some(Err(e)) => Some(Err(e)),
                    None => None,
                }
            },
            DataType::Bytes | DataType::Vector { .. } => {
                if n >= rest / 4 {
                    return None;
                }
                let offsets = Self::read_offset_array(buf, start, n);
                match Self::try_read_blobs(buf, start + 4 * (n + 1), &offsets, n) {
                    Some(v) => Some(Ok(ColumnData::Bytes(v))),
                    None => None,
                }
            },
        }
    }

    fn read_bools(buf: &[u8], start: usize, n: usize) -> (v: Vec<bool>)
        requires
            start + n <= buf@.len(),
        ensures
            v@.len() == n,
            forall|i: int| 0 <= i < n ==> v@[i] == (buf@[start + i] != 0),
    {
        let mut v: Vec<bool> = Vec::new();
        let mut pos: usize = start;
        while v.len() < n
            invariant
                v@.len() <= n,
                pos == start + v@.len(),
                start + n <= buf@.len(),
                forall|i: int| 0 <= i < v@.len() ==> v@[i] == (buf@[start + i] != 0),
            decreases n - v@.len(),
        {
            let byte: u8 = binary::read_u8(buf, &mut pos);
            v.push(byte != 0);
        }
        v
    }

    fn read_words(buf: &[u8], start: usize, n: usize) -> (v: Vec<u64>)
        requires
            start + 8 * n <= buf@.len(),
        ensures
            v@ == words_at(buf@, start as int, n as nat),
    {
        let mut v: Vec<u64> = Vec::new();
        let mut pos: usize = start;
        while v.len() < n
            invariant
                v@.len() <= n,
                pos == start + 8 * v@.len(),
                start + 8 * n <= buf@.len(),
                v@ == words_at(buf@, start as int, v@.len()),
            decreases n - v@.len(),
        {
            let w: u64 = binary::read_u64(buf, &mut pos);
            v.push(w);
            assert(v@ =~= words_at(buf@, start as int, v@.len()));
        }
        v
    }

    fn read_offset_array(buf: &[u8], start: usize, n: usize) -> (v: Vec<u32>)
        requires
            start + 4 * (n + 1) <= buf@.len(),
        ensures
            v@ == ints_at(buf@, start as int, (n + 1) as nat),
    {
        let mut v: Vec<u32> = Vec::new();
        let mut pos: usize = start;
        while v.len() <= n
            invariant
                v@.len() <= n + 1,
                pos == start + 4 * v@.len(),
                start + 4 * (n + 1) <= buf@.len(),
                v@ == ints_at(buf@, start as int, v@.len()),
            decreases n + 1 - v@.len(),
        {
            let w: u32 = binary::read_u32(buf, &mut pos);
            v.push(w);
            assert(v@ =~= ints_at(buf@, start as int, v@.len()));
        }
        v
    }

    /// The bytes of a slot, if they are inside of the buffer.
    fn slot<'a>(buf: &'a [u8], data_start: usize, offsets: &Vec<u32>, i: usize) -> (b: Option<
        &'a [u8],
    >)
        requires
            data_start <= buf@.len(),
            i + 1 < offsets@.len(),
        ensures
            ({
                let from = data_start + offsets@[i as int];
                let to = data_start + offsets@[i + 1];
                match b {
                    Some(b) => from <= to <= buf@.len() && b@ == buf@.subrange(from, to),
                    None => !(from <= to <= buf@.len()),
                }
            }),
    {
        let count: usize = offsets.len();
        assert(i + 1 < count);
        let from: usize = offsets[i] as usize;
        let to: usize = offsets[i + 1] as usize;
        if from <= to && to <= buf.len() - data_start {
            Some(slice_subrange(buf, data_start + from, data_start + to))
        } else {
            None
        }
    }

    fn try_read_texts(buf: &[u8], data_start: usize, offsets: &Vec<u32>, n: usize) -> (r: Option<
        Result<Vec<Option<String>>, StorageError>,
    >)
        requires
            data_start <= buf@.len(),
            offsets@.len() == n + 1,
        ensures
            ({
                let d = collect(n as nat, slots(true, buf@, data_start as int, offsets@));
                match r {
                    Some(Ok(v)) => {
                        &&& d == Some(Ok::<Seq<PropertyView>, ErrorView>(text_cells(v@)))
                        &&& v@.len() == n
                        &&& forall|i: int| 0 <= i < n ==> v@[i] is Some
                    },
                    Some(Err(e)) => d == Some(Err::<Seq<PropertyView>, ErrorView>(e@)),
                    None => d is None,
                }
            }),
    {
        let ghost f = slots(true, buf@, data_start as int, offsets@);
        let mut v: Vec<Option<String>> = Vec::new();
        let mut i: usize = 0;
        assert(text_cells(v@) =~= Seq::empty());
        while i < n
            invariant
                i <= n,
                data_start <= buf@.len(),
                offsets@.len() == n + 1,
                f == slots(true, buf@, data_start as int, offsets@),
                v@.len() == i,
                collect(i as nat, f) == Some(Ok::<Seq<PropertyView>, ErrorView>(text_cells(v@))),
                forall|j: int| 0 <= j < i ==> v@[j] is Some,
            decreases n - i,
        {
            let ghost before = v@;
            assert(f(i as int) == parse_slot(true, buf@, data_start as int, offsets@, i as int));
            match Self::slot(buf, data_start, offsets, i) {
                None => {
                    proof {
                        codec::lemma_collect_stuck((i + 1) as nat, n as nat, f);
                    }
                    return None;
                },
                Some(b) => {
                    match string_from_utf8(slice_to_vec(b)) {
                        Ok(s) => {
                            v.push(Some(s));
                            assert(text_cells(v@) =~= text_cells(before).push(
                                PropertyView::String(s@),
                            ));
                        },
                        Err(text) => {
                            let mut msg = String::new();
                            msg.append("invalid UTF-8: ");
                            msg.append(text.as_str());
                            proof {
                                assert(msg@ =~= "invalid UTF-8: "@ + utf8_error_text(b@));
                                codec::lemma_collect_stuck((i + 1) as nat, n as nat, f);
                            }
                            return Some(Err(StorageError::SerDe(msg)));
                        },
                    }
                },
            }
            i = i + 1;
        }
        Some(Ok(v))
    }

    fn try_read_blobs(buf: &[u8], data_start: usize, offsets: &Vec<u32>, n: usize) -> (r: Option<
        Vec<Option<Vec<u8>>>,
    >)
        requires
            data_start <= buf@.len(),
            offsets@.len() == n + 1,
        ensures
            ({
                let d = collect(n as nat, slots(false, buf@, data_start as int, offsets@));
                match r {
                    Some(v) => {
                        &&& d == Some(Ok::<Seq<PropertyView>, ErrorView>(bytes_cells(v@)))
                        &&& v@.len() == n
                        &&& forall|i: int| 0 <= i < n ==> v@[i] is Some
                    },
                    None => d is None,
                }
            }),
    {
        let ghost f = slots(false, buf@, data_start as int, offsets@);
        let mut v: Vec<Option<Vec<u8>>> = Vec::new();
        let mut i: usize = 0;
        assert(bytes_cells(v@) =~= Seq::empty());
        while i < n
            invariant
                i <= n,
                data_start <= buf@.len(),
                offsets@.len() == n + 1,
                f == slots(false, buf@, data_start as int, offsets@),
                v@.len() == i,
                collect(i as nat, f) == Some(Ok::<Seq<PropertyView>, ErrorView>(bytes_cells(v@))),
                forall|j: int| 0 <= j < i ==> v@[j] is Some,
            decreases n - i,
        {
            let ghost before = v@;
            assert(f(i as int) == parse_slot(false, buf@, data_start as int, offsets@, i as int));
            match Self::slot(buf, data_start, offsets, i) {
                None => {
                    proof {
                        codec::lemma_collect_stuck((i + 1) as nat, n as nat, f);
                    }
                    return None;
                },
                Some(b) => {
                    let bytes = slice_to_vec(b);
                    v.push(Some(bytes));
                    assert(bytes_cells(v@) =~= bytes_cells(before).push(
                        PropertyView::Bytes(bytes@),
                    ));
                },
            }
            i = i + 1;
        }
        Some(v)
    }
}

// ---------------------------------------------------------------------------------------------
// Laws

/// What was appended is read back, and the rows before it are as they were.
pub proof fn law_append_then_read(c: ColumnView, value: Option<PropertyView>, row: u64)
    requires
        c.valid(),
        c.refusal(value) is None,
    ensures
        c.append(value).valid(),
        c.append(value).len() == c.len() + 1,
        c.append(value).read(c.len() as u64) == Ok::<Option<PropertyView>, ErrorView>(value),
        row < c.len() ==> c.append(value).read(row) == c.read(row),
{
}

/// A full column takes no value, not even one of another type or a null.
pub proof fn law_full_column_refuses(c: ColumnView, value: Option<PropertyView>)
    requires
        c.len() >= StorageConfig::NODE_GROUP_SIZE,
    ensures
        c.refusal(value) == Some(ErrorView::NodeGroupFull),
{
}

proof fn lemma_slots_roundtrip(c: ColumnView, buf: Seq<u8>, pos: int)
    requires
        c.valid(),
        stored_type(c.data_type) == DataType::String || stored_type(c.data_type)
            == DataType::Bytes,
        c.fits(),
        holds_at(buf, pos, c.payload()),
    ensures
        parse_cells(c.data_type, buf, pos, c.len()) == Some(
            Ok::<Seq<PropertyView>, ErrorView>(c.cells),
        ),
{
    let n = c.len();
    let blobs = c.blobs();
    let offsets = offsets_of(blobs);
    let data_start = pos + 4 * (n + 1);
    let text = stored_type(c.data_type) == DataType::String;
    binary::lemma_holds_append(buf, pos, ints_le(offsets), concat(blobs));
    binary::lemma_ints_at(buf, pos, offsets);
    let f = slots(text, buf, data_start, offsets);
    assert forall|i: int| 0 <= i < n implies #[trigger] f(i) == Some(
        Ok::<PropertyView, ErrorView>(c.cells[i]),
    ) by {
        codec::lemma_concat_take(blobs, i);
        codec::lemma_blob_start_mono(blobs, i, i + 1);
        codec::lemma_blob_start_mono(blobs, i + 1, n as int);
        codec::lemma_concat_holds(buf, data_start, blobs, i);
        binary::lemma_holds_subrange(buf, data_start + blob_start(blobs, i), blobs[i]);
        assert(offsets[i] == blob_start(blobs, i));
        assert(offsets[i + 1] == blob_start(blobs, i + 1));
        let cell = c.cells[i];
        assert(cell.data_type() == stored_type(c.data_type));
        if text {
            vstd::utf8::encode_utf8_valid_utf8(cell->String_0);
            vstd::utf8::encode_utf8_decode_utf8(cell->String_0);
        }
    }
    codec::lemma_collect_all(c.cells, f);
}

/// A column whose serialized form is counted in 32 bits can be written.
pub proof fn lemma_small_fits(c: ColumnView)
    requires
        c.valid(),
        c.encoding().len() <= u32::MAX,
    ensures
        c.fits(),
{
    reveal(ColumnView::encoding);
    match stored_type(c.data_type) {
        DataType::Bool | DataType::Int64 | DataType::Float64 => {
            assert forall|i: int| 0 <= i < c.blobs().len() implies (#[trigger] c.blobs()[i]).len()
                == 0 by {
                assert(c.cells[i].data_type() == stored_type(c.data_type));
            }
            codec::lemma_concat_uniform(c.blobs(), 0);
            assert(c.blobs().len() * 0 == 0);
        },
        _ => {},
    }
}

/// A column that was serialized is read back as it was, whatever follows it.
pub proof fn law_column_roundtrip(c: ColumnView, buf: Seq<u8>)
    requires
        c.valid(),
        c.fits(),
        holds_at(buf, 0, c.encoding()),
    ensures
        ColumnView::parse(c.column_id, c.data_type, buf) == Some(Ok::<ColumnView, ErrorView>(c)),
{
    reveal(ColumnView::encoding);
    reveal(ColumnView::parse);
    let n = c.len();
    let m = mask_len(n);
    let head = u32_le(n as u32) + bitmask(c.nulls);
    binary::lemma_holds_append(buf, 0, head, c.payload());
    binary::lemma_holds_append(buf, 0, u32_le(n as u32), bitmask(c.nulls));
    binary::lemma_u32_at(buf, 0, n as u32);
    binary::lemma_holds_subrange(buf, 4, bitmask(c.nulls));
    binary::law_bitmask_roundtrip(c.nulls);
    let pos = 4 + m as int;
    match stored_type(c.data_type) {
        DataType::Bool => {
            reveal(holds_at);
            assert forall|i: int| 0 <= i < n implies PropertyView::Bool(buf[pos + i] != 0)
                == c.cells[i] by {
                assert(c.payload()[i] == buf[pos + i]);
                assert(c.cells[i].data_type() == DataType::Bool);
            }
            assert(parse_cells(c.data_type, buf, pos, n)->Some_0->Ok_0 =~= c.cells);
        },
        DataType::Int64 | DataType::Float64 => {
            binary::lemma_words_at(buf, pos, c.words());
            assert forall|i: int| 0 <= i < n implies (#[trigger] c.cells[i]).data_type()
                == stored_type(c.data_type) && words_at(buf, pos, n)[i] == cell_word(c.cells[i]) by {
                assert(words_at(buf, pos, n)[i] == c.words()[i]);
            }
            assert(parse_cells(c.data_type, buf, pos, n)->Some_0->Ok_0 =~= c.cells);
        },
        _ => {
            lemma_slots_roundtrip(c, buf, pos);
        },
    }
}

} // verus!
