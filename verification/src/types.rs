//! Identifiers, property types and property values.

use vstd::prelude::*;
use vstd::string::StringExecFns;

use crate::float::{equal64, same64};
use crate::text;
use crate::text::{decimal_text, push_decimal, push_signed_decimal};

verus! {

#[derive(Debug, Clone, Copy, PartialEq, Eq, Hash, PartialOrd, Ord, Structural)]
pub struct NodeId(pub u64);

#[derive(Debug, Clone, Copy, PartialEq, Eq, Hash, PartialOrd, Ord, Structural)]
pub struct EdgeId(pub u64);

#[derive(Debug, Clone, Copy, PartialEq, Eq, Hash, PartialOrd, Ord, Structural)]
pub struct LabelId(pub u32);

#[derive(Debug, Clone, Copy, PartialEq, Eq, Hash, PartialOrd, Ord, Structural)]
pub struct ColumnId(pub u32);

#[derive(Debug, Clone, Copy, PartialEq, Eq, Hash, PartialOrd, Ord, Structural)]
pub struct TableId(pub u32);

#[derive(Debug, Clone, Copy, PartialEq, Eq, Hash, PartialOrd, Ord, Structural)]
pub struct PageIdx(pub u64);

#[derive(Debug, Clone, Copy, PartialEq, Eq, Hash, PartialOrd, Ord, Structural)]
pub struct NodeGroupIdx(pub u64);

impl NodeId {
    /// The number as decimal text.
    pub fn display(&self) -> (s: String)
        ensures
            s@ == text::decimal(self.0 as nat),
    {
        decimal_text(self.0 as u128)
    }
}

impl EdgeId {
    /// The number as decimal text.
    pub fn display(&self) -> (s: String)
        ensures
            s@ == text::decimal(self.0 as nat),
    {
        decimal_text(self.0 as u128)
    }
}

impl LabelId {
    /// The number as decimal text.
    pub fn display(&self) -> (s: String)
        ensures
            s@ == text::decimal(self.0 as nat),
    {
        decimal_text(self.0 as u128)
    }
}

impl ColumnId {
    /// The number as decimal text.
    pub fn display(&self) -> (s: String)
        ensures
            s@ == text::decimal(self.0 as nat),
    {
        decimal_text(self.0 as u128)
    }
}

impl TableId {
    /// The number as decimal text.
    pub fn display(&self) -> (s: String)
        ensures
            s@ == text::decimal(self.0 as nat),
    {
        decimal_text(self.0 as u128)
    }
}

impl PageIdx {
    /// The number as decimal text.
    pub fn display(&self) -> (s: String)
        ensures
            s@ == text::decimal(self.0 as nat),
    {
        decimal_text(self.0 as u128)
    }
}

impl NodeGroupIdx {
    /// The number as decimal text.
    pub fn display(&self) -> (s: String)
        ensures
            s@ == text::decimal(self.0 as nat),
    {
        decimal_text(self.0 as u128)
    }
}

/// Row index within a node group.
pub type RowIdx = u64;

/// Dense offset within a node table: `group_idx * NODE_GROUP_SIZE + row`.
/// Used as the CSR key for edge adjacency lookups.
pub type NodeOffset = u64;

/// Offset within a structure (node offset, slot offset, etc.).
pub type Offset = u64;

/// Contiguous range of pages owned by a structure.
#[derive(Debug, Clone, Copy, PartialEq, Eq, Structural)]
pub struct PageRange {
    pub start_page: PageIdx,
    pub num_pages: u32,
}

/// The type of a property column.
#[derive(Debug, Clone, Copy, PartialEq, Eq, Hash, Structural)]
pub enum DataType {
    Bool,
    Int64,
    Float64,
    String,
    Bytes,
    Vector { dim: u32 },
}

impl DataType {
    /// The byte that stands for the type in serialized schemas.
    pub open spec fn tag(self) -> u8 {
        match self {
            DataType::Bool => 0,
            DataType::Int64 => 1,
            DataType::Float64 => 2,
            DataType::String => 3,
            DataType::Bytes => 4,
            DataType::Vector { .. } => 5,
        }
    }

    /// The type that a tag stands for; a vector's dimension is not part of the tag.
    pub open spec fn of_tag(d: u8) -> Option<DataType> {
        if d == 0 {
            Some(DataType::Bool)
        } else if d == 1 {
            Some(DataType::Int64)
        } else if d == 2 {
            Some(DataType::Float64)
        } else if d == 3 {
            Some(DataType::String)
        } else if d == 4 {
            Some(DataType::Bytes)
        } else if d == 5 {
            Some(DataType::Vector { dim: 0 })
        } else {
            None
        }
    }

    /// The text that [`DataType::display`] gives.
    pub open spec fn text(self) -> Seq<char> {
        match self {
            DataType::Bool => "Bool"@,
            DataType::Int64 => "Int64"@,
            DataType::Float64 => "Float64"@,
            DataType::String => "String"@,
            DataType::Bytes => "Bytes"@,
            DataType::Vector { dim } => "Vector("@ + text::decimal(dim as nat) + ")"@,
        }
    }

    #[must_use]
    pub fn discriminant(&self) -> (d: u8)
        ensures
            d == self.tag(),
    {
        match self {
            DataType::Bool => 0,
            DataType::Int64 => 1,
            DataType::Float64 => 2,
            DataType::String => 3,
            DataType::Bytes => 4,
            DataType::Vector { .. } => 5,
        }
    }

    /// Returns `None` if the discriminant is unknown.
    #[must_use]
    pub fn from_discriminant(d: u8) -> (r: Option<Self>)
        ensures
            r == DataType::of_tag(d),
    {
        match d {
            0 => Some(DataType::Bool),
            1 => Some(DataType::Int64),
            2 => Some(DataType::Float64),
            3 => Some(DataType::String),
            4 => Some(DataType::Bytes),
            5 => Some(DataType::Vector { dim: 0 }),
            _ => None,
        }
    }

    /// The type's name, with the dimension of a vector.
    pub fn display(&self) -> (s: String)
        ensures
            s@ == self.text(),
    {
        let mut s = String::new();
        self.display_into(&mut s);
        assert(s@ =~= self.text());
        s
    }

    /// Appends the type's name to `out`.
    pub fn display_into(&self, out: &mut String)
        ensures
            final(out)@ == old(out)@ + self.text(),
    {
        match self {
            DataType::Bool => out.append("Bool"),
            DataType::Int64 => out.append("Int64"),
            DataType::Float64 => out.append("Float64"),
            DataType::String => out.append("String"),
            DataType::Bytes => out.append("Bytes"),
            DataType::Vector { dim } => {
                out.append("Vector(");
                push_decimal(out, *dim as u128);
                out.append(")");
                assert(out@ =~= old(out)@ + self.text());
            },
        }
    }
}

/// A property value. A floating-point number is held by its IEEE 754 bit pattern.
#[derive(Debug)]
pub enum PropertyValue {
    Bool(bool),
    Int64(i64),
    Float64(u64),
    String(String),
    Bytes(Vec<u8>),
}

/// What a [`PropertyValue`] stands for.
pub enum PropertyView {
    Bool(bool),
    Int64(i64),
    Float64(u64),
    String(Seq<char>),
    Bytes(Seq<u8>),
}

impl View for PropertyValue {
    type V = PropertyView;

    open spec fn view(&self) -> PropertyView {
        match self {
            PropertyValue::Bool(b) => PropertyView::Bool(*b),
            PropertyValue::Int64(n) => PropertyView::Int64(*n),
            PropertyValue::Float64(x) => PropertyView::Float64(*x),
            PropertyValue::String(s) => PropertyView::String(s@),
            PropertyValue::Bytes(b) => PropertyView::Bytes(b@),
        }
    }
}

impl PropertyView {
    /// The type of the value.
    pub open spec fn data_type(self) -> DataType {
        match self {
            PropertyView::Bool(_) => DataType::Bool,
            PropertyView::Int64(_) => DataType::Int64,
            PropertyView::Float64(_) => DataType::Float64,
            PropertyView::String(_) => DataType::String,
            PropertyView::Bytes(_) => DataType::Bytes,
        }
    }
}

impl PropertyView {
    /// The values are equal. A floating-point number is compared as a number: a NaN equals nothing,
    /// and the two zeros are equal.
    pub open spec fn same(self, other: PropertyView) -> bool {
        match (self, other) {
            (PropertyView::Bool(a), PropertyView::Bool(b)) => a == b,
            (PropertyView::Int64(a), PropertyView::Int64(b)) => a == b,
            (PropertyView::Float64(a), PropertyView::Float64(b)) => same64(a, b),
            (PropertyView::String(a), PropertyView::String(b)) => a == b,
            (PropertyView::Bytes(a), PropertyView::Bytes(b)) => a == b,
            _ => false,
        }
    }
}

fn equal_bytes(a: &Vec<u8>, b: &Vec<u8>) -> (r: bool)
    ensures
        r == (a@ == b@),
{
    if a.len() != b.len() {
        return false;
    }
    let mut i: usize = 0;
    while i < a.len()
        invariant
            i <= a@.len(),
            a@.len() == b@.len(),
            forall|j: int| 0 <= j < i ==> a@[j] == b@[j],
        decreases a@.len() - i,
    {
        if a[i] != b[i] {
            return false;
        }
        i = i + 1;
    }
    assert(a@ =~= b@);
    true
}

impl PartialEq for PropertyValue {
    fn eq(&self, other: &Self) -> (r: bool) {
        match (self, other) {
            (PropertyValue::Bool(a), PropertyValue::Bool(b)) => *a == *b,
            (PropertyValue::Int64(a), PropertyValue::Int64(b)) => *a == *b,
            (PropertyValue::Float64(a), PropertyValue::Float64(b)) => equal64(*a, *b),
            (PropertyValue::String(a), PropertyValue::String(b)) => *a == *b,
            (PropertyValue::Bytes(a), PropertyValue::Bytes(b)) => equal_bytes(a, b),
            _ => false,
        }
    }
}

impl vstd::std_specs::cmp::PartialEqSpecImpl for PropertyValue {
    open spec fn obeys_eq_spec() -> bool {
        true
    }

    open spec fn eq_spec(&self, other: &Self) -> bool {
        self@.same(other@)
    }
}

impl Clone for PropertyValue {
    fn clone(&self) -> (r: Self)
        ensures
            r@ == self@,
    {
        match self {
            PropertyValue::Bool(b) => PropertyValue::Bool(*b),
            PropertyValue::Int64(n) => PropertyValue::Int64(*n),
            PropertyValue::Float64(x) => PropertyValue::Float64(*x),
            PropertyValue::String(s) => PropertyValue::String(s.clone()),
            PropertyValue::Bytes(b) => {
                let c = b.clone();
                assert(c@ =~= b@);
                PropertyValue::Bytes(c)
            },
        }
    }
}

impl PropertyValue {
    #[must_use]
    pub fn data_type(&self) -> (t: DataType)
        ensures
            t == self@.data_type(),
    {
        match self {
            PropertyValue::Bool(_) => DataType::Bool,
            PropertyValue::Int64(_) => DataType::Int64,
            PropertyValue::Float64(_) => DataType::Float64,
            PropertyValue::String(_) => DataType::String,
            PropertyValue::Bytes(_) => DataType::Bytes,
        }
    }

    /// The value as text. A floating-point number is given by `float_text`,
    /// which its owner renders from the bit pattern.
    pub fn display(&self, float_text: &str) -> (s: String)
        ensures
            s@ == self@.text(float_text@),
    {
        let mut s = String::new();
        match self {
            PropertyValue::Bool(b) => {
                if *b {
                    s.append("true");
                } else {
                    s.append("false");
                }
            },
            PropertyValue::Int64(n) => push_signed_decimal(&mut s, *n),
            PropertyValue::Float64(_) => s.append(float_text),
            PropertyValue::String(t) => s.append(t.as_str()),
            PropertyValue::Bytes(b) => {
                s.append("<");
                push_decimal(&mut s, b.len() as u128);
                s.append(" bytes>");
            },
        }
        assert(s@ =~= self@.text(float_text@));
        s
    }
}

impl PropertyView {
    /// The text of a value; `float_text` is that of a floating-point number.
    pub open spec fn text(self, float_text: Seq<char>) -> Seq<char> {
        match self {
            PropertyView::Bool(b) => if b {
                "true"@
            } else {
                "false"@
            },
            PropertyView::Int64(n) => text::signed_decimal(n as int),
            PropertyView::Float64(_) => float_text,
            PropertyView::String(s) => s,
            PropertyView::Bytes(b) => "<"@ + text::decimal(b.len()) + " bytes>"@,
        }
    }
}

#[derive(Debug, Clone, Copy, PartialEq, Eq, Hash, Structural)]
pub enum Direction {
    Forward,
    Backward,
}

/// A vector's tag does not tell its dimension; every other type is given back by its tag.
pub proof fn law_tag_roundtrip(t: DataType)
    ensures
        DataType::of_tag(t.tag()) == Some(
            match t {
                DataType::Vector { .. } => DataType::Vector { dim: 0 },
                _ => t,
            },
        ),
{
}

/// There are six tags, from zero on, and each is that of its type.
pub proof fn law_tags(d: u8)
    ensures
        DataType::of_tag(d) is Some <==> d < 6,
        DataType::of_tag(d) matches Some(t) ==> t.tag() == d,
{
}

impl PropertyView {
    /// The value is no floating-point number, or one that is neither a NaN nor zero.
    pub open spec fn plain(self) -> bool {
        self matches PropertyView::Float64(x) ==> same64(x, x) && !same64(x, 0)
    }
}

/// Plain values are equal exactly if they are the same; equality goes both ways; and a value equals
/// itself unless it is a NaN.
pub proof fn law_values_equal(a: PropertyView, b: PropertyView)
    ensures
        a.plain() ==> (a.same(b) <==> a == b),
        a.same(b) <==> b.same(a),
        a.same(a) <==> (a matches PropertyView::Float64(x) ==> same64(x, x)),
        a.same(b) ==> a.data_type() == b.data_type(),
        (a matches PropertyView::Float64(x) && b matches PropertyView::Float64(y) && same64(x, y))
            ==> a.same(b),
{
}

} // verus!
