//! Schemas of node labels and edge types.

use vstd::prelude::*;
use vstd::utf8::encode_utf8;

use crate::error::StorageError;
use crate::io::binary;
use crate::io::binary::{
    holds_at, low_u16, low_u32, overwrite, u16_at, u16_le, u32_at, u32_le,
};
use crate::io::codec;
use crate::io::codec::{blob_start, concat, many, Reading};
use crate::search;
use crate::search::first_where;
use crate::types::{ColumnId, DataType, LabelId, TableId};
use crate::utf8::{string_from_utf8_lossy, text_of};

verus! {

broadcast use binary::group_lengths;

/// Schema for a single property column.
#[derive(Debug, PartialEq, Eq)]
pub struct PropertyDef {
    pub name: String,
    pub column_id: ColumnId,
    pub data_type: DataType,
    pub nullable: bool,
}

/// Schema for a node label.
/// Fixed schema, single primary key, bounded property set.
#[derive(Debug, PartialEq, Eq)]
pub struct NodeLabelEntry {
    pub table_id: TableId,
    pub label_id: LabelId,
    pub name: String,
    pub pk_column_id: ColumnId,
    pub properties: Vec<PropertyDef>,
}

/// Schema for an edge type.
/// Fixed schema in v0: source label, destination label, type name, properties.
#[derive(Debug, PartialEq, Eq)]
pub struct EdgeTypeEntry {
    pub table_id: TableId,
    pub label_id: LabelId,
    pub name: String,
    pub from_label_id: LabelId,
    pub to_label_id: LabelId,
    pub properties: Vec<PropertyDef>,
}

/// The catalog holds all schema metadata for the shard.
/// In v0 this is an in-memory structure rebuilt from the committed log on startup.
#[derive(Debug)]
pub struct Catalog {
    pub node_labels: Vec<NodeLabelEntry>,
    pub edge_types: Vec<EdgeTypeEntry>,
}

// ---------------------------------------------------------------------------------------------
// The model

#[verifier::ext_equal]
pub struct PropertyDefView {
    pub name: Seq<char>,
    pub column_id: ColumnId,
    pub data_type: DataType,
    pub nullable: bool,
}

#[verifier::ext_equal]
pub struct NodeLabelView {
    pub table_id: TableId,
    pub label_id: LabelId,
    pub name: Seq<char>,
    pub pk_column_id: ColumnId,
    pub properties: Seq<PropertyDefView>,
}

#[verifier::ext_equal]
pub struct EdgeTypeView {
    pub table_id: TableId,
    pub label_id: LabelId,
    pub name: Seq<char>,
    pub from_label_id: LabelId,
    pub to_label_id: LabelId,
    pub properties: Seq<PropertyDefView>,
}

#[verifier::ext_equal]
pub struct CatalogView {
    pub node_labels: Seq<NodeLabelView>,
    pub edge_types: Seq<EdgeTypeView>,
}

impl View for PropertyDef {
    type V = PropertyDefView;

    open spec fn view(&self) -> PropertyDefView {
        PropertyDefView {
            name: self.name@,
            column_id: self.column_id,
            data_type: self.data_type,
            nullable: self.nullable,
        }
    }
}

pub open spec fn properties_view(properties: Seq<PropertyDef>) -> Seq<PropertyDefView> {
    Seq::new(properties.len(), |i: int| properties[i]@)
}

impl View for NodeLabelEntry {
    type V = NodeLabelView;

    open spec fn view(&self) -> NodeLabelView {
        NodeLabelView {
            table_id: self.table_id,
            label_id: self.label_id,
            name: self.name@,
            pk_column_id: self.pk_column_id,
            properties: properties_view(self.properties@),
        }
    }
}

impl View for EdgeTypeEntry {
    type V = EdgeTypeView;

    open spec fn view(&self) -> EdgeTypeView {
        EdgeTypeView {
            table_id: self.table_id,
            label_id: self.label_id,
            name: self.name@,
            from_label_id: self.from_label_id,
            to_label_id: self.to_label_id,
            properties: properties_view(self.properties@),
        }
    }
}

pub open spec fn node_labels_view(entries: Seq<NodeLabelEntry>) -> Seq<NodeLabelView> {
    Seq::new(entries.len(), |i: int| entries[i]@)
}

pub open spec fn edge_types_view(entries: Seq<EdgeTypeEntry>) -> Seq<EdgeTypeView> {
    Seq::new(entries.len(), |i: int| entries[i]@)
}

impl View for Catalog {
    type V = CatalogView;

    open spec fn view(&self) -> CatalogView {
        CatalogView {
            node_labels: node_labels_view(self.node_labels@),
            edge_types: edge_types_view(self.edge_types@),
        }
    }
}

/// The columns of a schema.
pub open spec fn columns_of(properties: Seq<PropertyDefView>) -> Seq<(ColumnId, DataType)> {
    Seq::new(properties.len(), |i: int| (properties[i].column_id, properties[i].data_type))
}

// Encoding

/// A name on disk: the low 16 bits of its length in bytes, and its bytes.
pub open spec fn text_encoding(s: Seq<char>) -> Seq<u8> {
    u16_le(low_u16(encode_utf8(s).len() as int)) + encode_utf8(s)
}

/// A type on disk: its tag, and the dimension of a vector.
pub open spec fn type_encoding(t: DataType) -> Seq<u8> {
    match t {
        DataType::Vector { dim } => seq![t.tag()] + u32_le(dim),
        _ => seq![t.tag()],
    }
}

pub open spec fn flag_byte(b: bool) -> u8 {
    if b {
        1
    } else {
        0
    }
}

impl PropertyDefView {
    pub open spec fn encoding(self) -> Seq<u8> {
        text_encoding(self.name) + u32_le(self.column_id.0) + type_encoding(self.data_type)
            + seq![flag_byte(self.nullable)]
    }
}

pub open spec fn property_blobs(properties: Seq<PropertyDefView>) -> Seq<Seq<u8>> {
    Seq::new(properties.len(), |i: int| properties[i].encoding())
}

/// The number of properties, and each of them.
pub open spec fn properties_encoding(properties: Seq<PropertyDefView>) -> Seq<u8> {
    u32_le(low_u32(properties.len() as int)) + concat(property_blobs(properties))
}

impl NodeLabelView {
    pub open spec fn encoding(self) -> Seq<u8> {
        u32_le(self.table_id.0) + u32_le(self.label_id.0) + text_encoding(self.name) + u32_le(
            self.pk_column_id.0,
        ) + properties_encoding(self.properties)
    }
}

impl EdgeTypeView {
    pub open spec fn encoding(self) -> Seq<u8> {
        u32_le(self.table_id.0) + u32_le(self.label_id.0) + text_encoding(self.name) + u32_le(
            self.from_label_id.0,
        ) + u32_le(self.to_label_id.0) + properties_encoding(self.properties)
    }
}

pub open spec fn node_label_blobs(entries: Seq<NodeLabelView>) -> Seq<Seq<u8>> {
    Seq::new(entries.len(), |i: int| entries[i].encoding())
}

pub open spec fn edge_type_blobs(entries: Seq<EdgeTypeView>) -> Seq<Seq<u8>> {
    Seq::new(entries.len(), |i: int| entries[i].encoding())
}

impl CatalogView {
    /// The catalog on disk: the number of node labels and each of them, the number of edge types
    /// and each of them.
    #[verifier::opaque]
    pub open spec fn encoding(self) -> Seq<u8> {
        u32_le(low_u32(self.node_labels.len() as int)) + concat(node_label_blobs(self.node_labels))
            + u32_le(low_u32(self.edge_types.len() as int)) + concat(
            edge_type_blobs(self.edge_types),
        )
    }
}

// Decoding

pub open spec fn read_text(buf: Seq<u8>, pos: int) -> Reading<Seq<char>> {
    if pos + 2 <= buf.len() {
        let end = pos + 2 + u16_at(buf, pos);
        if end <= buf.len() {
            Some((text_of(buf.subrange(pos + 2, end)), end))
        } else {
            None
        }
    } else {
        None
    }
}

/// A type that is not known counts as `Int64`.
pub open spec fn read_type(buf: Seq<u8>, pos: int) -> Reading<DataType> {
    if pos + 1 <= buf.len() {
        if buf[pos] == 5 {
            if pos + 5 <= buf.len() {
                Some((DataType::Vector { dim: u32_at(buf, pos + 1) }, pos + 5))
            } else {
                None
            }
        } else {
            match DataType::of_tag(buf[pos]) {
                Some(t) => Some((t, pos + 1)),
                None => Some((DataType::Int64, pos + 1)),
            }
        }
    } else {
        None
    }
}

pub open spec fn read_property(buf: Seq<u8>, pos: int) -> Reading<PropertyDefView> {
    match read_text(buf, pos) {
        Some((name, p)) => if p + 4 <= buf.len() {
            match read_type(buf, p + 4) {
                Some((data_type, q)) => if q + 1 <= buf.len() {
                    Some(
                        (
                            PropertyDefView {
                                name,
                                column_id: ColumnId(u32_at(buf, p)),
                                data_type,
                                nullable: buf[q] != 0,
                            },
                            q + 1,
                        ),
                    )
                } else {
                    None
                },
                None => None,
            }
        } else {
            None
        },
        None => None,
    }
}

pub open spec fn property_reader(buf: Seq<u8>) -> spec_fn(int) -> Reading<PropertyDefView> {
    |pos: int| read_property(buf, pos)
}

pub open spec fn read_properties(buf: Seq<u8>, pos: int) -> Reading<Seq<PropertyDefView>> {
    if pos + 4 <= buf.len() {
        many(u32_at(buf, pos) as nat, property_reader(buf), pos + 4)
    } else {
        None
    }
}

#[verifier::opaque]
pub open spec fn read_node_label(buf: Seq<u8>, pos: int) -> Reading<NodeLabelView> {
    if pos + 8 <= buf.len() {
        match read_text(buf, pos + 8) {
            Some((name, p)) => if p + 4 <= buf.len() {
                match read_properties(buf, p + 4) {
                    Some((properties, q)) => Some(
                        (
                            NodeLabelView {
                                table_id: TableId(u32_at(buf, pos)),
                                label_id: LabelId(u32_at(buf, pos + 4)),
                                name,
                                pk_column_id: ColumnId(u32_at(buf, p)),
                                properties,
                            },
                            q,
                        ),
                    ),
                    None => None,
                }
            } else {
                None
            },
            None => None,
        }
    } else {
        None
    }
}

#[verifier::opaque]
pub open spec fn read_edge_type(buf: Seq<u8>, pos: int) -> Reading<EdgeTypeView> {
    if pos + 8 <= buf.len() {
        match read_text(buf, pos + 8) {
            Some((name, p)) => if p + 8 <= buf.len() {
                match read_properties(buf, p + 8) {
                    Some((properties, q)) => Some(
                        (
                            EdgeTypeView {
                                table_id: TableId(u32_at(buf, pos)),
                                label_id: LabelId(u32_at(buf, pos + 4)),
                                name,
                                from_label_id: LabelId(u32_at(buf, p)),
                                to_label_id: LabelId(u32_at(buf, p + 4)),
                                properties,
                            },
                            q,
                        ),
                    ),
                    None => None,
                }
            } else {
                None
            },
            None => None,
        }
    } else {
        None
    }
}

pub open spec fn node_label_reader(buf: Seq<u8>) -> spec_fn(int) -> Reading<NodeLabelView> {
    |pos: int| read_node_label(buf, pos)
}

pub open spec fn edge_type_reader(buf: Seq<u8>) -> spec_fn(int) -> Reading<EdgeTypeView> {
    |pos: int| read_edge_type(buf, pos)
}

impl CatalogView {
    /// The catalog that `buf` starts with; `None` where it ends too early.
    #[verifier::opaque]
    pub open spec fn parse(buf: Seq<u8>) -> Reading<CatalogView> {
        if 4 <= buf.len() {
            match many(u32_at(buf, 0) as nat, node_label_reader(buf), 4) {
                Some((node_labels, p)) => if p + 4 <= buf.len() {
                    match many(u32_at(buf, p) as nat, edge_type_reader(buf), p + 4) {
                        Some((edge_types, q)) => Some((CatalogView { node_labels, edge_types }, q)),
                        None => None,
                    }
                } else {
                    None
                },
                None => None,
            }
        } else {
            None
        }
    }

    pub open spec fn node_label_is(self, id: LabelId) -> spec_fn(int) -> bool {
        |i: int| self.node_labels[i].label_id == id
    }

    pub open spec fn edge_type_is(self, id: LabelId) -> spec_fn(int) -> bool {
        |i: int| self.edge_types[i].label_id == id
    }

    /// The first node label with an id.
    pub open spec fn node_label(self, id: LabelId) -> Option<NodeLabelView> {
        match first_where(self.node_labels.len(), self.node_label_is(id)) {
            Some(i) => Some(self.node_labels[i]),
            None => None,
        }
    }

    /// The first edge type with an id.
    pub open spec fn edge_type(self, id: LabelId) -> Option<EdgeTypeView> {
        match first_where(self.edge_types.len(), self.edge_type_is(id)) {
            Some(i) => Some(self.edge_types[i]),
            None => None,
        }
    }
}

// ---------------------------------------------------------------------------------------------
// Copies

impl Clone for PropertyDef {
    fn clone(&self) -> (r: Self)
        ensures
            r@ == self@,
    {
        PropertyDef {
            name: self.name.clone(),
            column_id: self.column_id,
            data_type: self.data_type,
            nullable: self.nullable,
        }
    }
}

fn clone_properties(properties: &Vec<PropertyDef>) -> (r: Vec<PropertyDef>)
    ensures
        properties_view(r@) == properties_view(properties@),
{
    let mut r: Vec<PropertyDef> = Vec::new();
    let mut i: usize = 0;
    while i < properties.len()
        invariant
            i <= properties@.len(),
            r@.len() == i,
            forall|j: int| 0 <= j < i ==> #[trigger] r@[j]@ == properties@[j]@,
        decreases properties@.len() - i,
    {
        r.push(properties[i].clone());
        i = i + 1;
    }
    assert(properties_view(r@) =~= properties_view(properties@));
    r
}

impl Clone for NodeLabelEntry {
    fn clone(&self) -> (r: Self)
        ensures
            r@ == self@,
    {
        NodeLabelEntry {
            table_id: self.table_id,
            label_id: self.label_id,
            name: self.name.clone(),
            pk_column_id: self.pk_column_id,
            properties: clone_properties(&self.properties),
        }
    }
}

impl Clone for EdgeTypeEntry {
    fn clone(&self) -> (r: Self)
        ensures
            r@ == self@,
    {
        EdgeTypeEntry {
            table_id: self.table_id,
            label_id: self.label_id,
            name: self.name.clone(),
            from_label_id: self.from_label_id,
            to_label_id: self.to_label_id,
            properties: clone_properties(&self.properties),
        }
    }
}

impl Clone for Catalog {
    fn clone(&self) -> (r: Self)
        ensures
            r@ == self@,
    {
        let mut node_labels: Vec<NodeLabelEntry> = Vec::new();
        let mut i: usize = 0;
        while i < self.node_labels.len()
            invariant
                i <= self.node_labels@.len(),
                node_labels@.len() == i,
                forall|j: int|
                    0 <= j < i ==> #[trigger] node_labels@[j]@ == self.node_labels@[j]@,
            decreases self.node_labels@.len() - i,
        {
            node_labels.push(self.node_labels[i].clone());
            i = i + 1;
        }
        let mut edge_types: Vec<EdgeTypeEntry> = Vec::new();
        i = 0;
        while i < self.edge_types.len()
            invariant
                i <= self.edge_types@.len(),
                edge_types@.len() == i,
                forall|j: int| 0 <= j < i ==> #[trigger] edge_types@[j]@ == self.edge_types@[j]@,
            decreases self.edge_types@.len() - i,
        {
            edge_types.push(self.edge_types[i].clone());
            i = i + 1;
        }
        let r = Catalog { node_labels, edge_types };
        assert(r@ =~= self@);
        r
    }
}

impl Default for Catalog {
    fn default() -> (c: Self)
        ensures
            c@ == (CatalogView { node_labels: Seq::empty(), edge_types: Seq::empty() }),
    {
        let c = Catalog { node_labels: Vec::new(), edge_types: Vec::new() };
        assert(c@ =~= (CatalogView { node_labels: Seq::empty(), edge_types: Seq::empty() }));
        c
    }
}

/// The columns of a schema.
pub fn column_schema(properties: &Vec<PropertyDef>) -> (r: Vec<(ColumnId, DataType)>)
    ensures
        r@ == columns_of(properties_view(properties@)),
{
    let mut r: Vec<(ColumnId, DataType)> = Vec::new();
    let mut i: usize = 0;
    while i < properties.len()
        invariant
            i <= properties@.len(),
            r@.len() == i,
            forall|j: int|
                0 <= j < i ==> #[trigger] r@[j] == (
                    properties@[j].column_id,
                    properties@[j].data_type,
                ),
        decreases properties@.len() - i,
    {
        r.push((properties[i].column_id, properties[i].data_type));
        i = i + 1;
    }
    assert(r@ =~= columns_of(properties_view(properties@)));
    r
}

// ---------------------------------------------------------------------------------------------
// The catalog

/// A length that was worked out is the given one; there is none where it is too large.
pub open spec fn is_len(len: Option<usize>, n: nat) -> bool {
    match len {
        Some(len) => len == n,
        None => n > usize::MAX,
    }
}

fn add_lens(a: Option<usize>, b: Option<usize>) -> (r: Option<usize>)
    ensures
        forall|x: nat, y: nat|
            #[trigger] is_len(a, x) && #[trigger] is_len(b, y) ==> is_len(r, x + y),
{
    match (a, b) {
        (Some(a), Some(b)) => a.checked_add(b),
        _ => None,
    }
}

impl Catalog {
    #[must_use]
    pub fn get_node_label(&self, id: LabelId) -> (r: Option<&NodeLabelEntry>)
        ensures
            match r {
                Some(e) => self@.node_label(id) == Some(e@),
                None => self@.node_label(id) is None,
            },
    {
        let ghost p = self@.node_label_is(id);
        let mut i: usize = 0;
        while i < self.node_labels.len()
            invariant
                i <= self.node_labels@.len(),
                p == self@.node_label_is(id),
                forall|j: int| 0 <= j < i ==> !#[trigger] p(j),
            decreases self.node_labels@.len() - i,
        {
            if self.node_labels[i].label_id.0 == id.0 {
                proof {
                    assert(p(i as int));
                    search::lemma_first_where_is(self@.node_labels.len(), p, i as int);
                }
                return Some(&self.node_labels[i]);
            }
            i = i + 1;
        }
        proof {
            search::lemma_first_where_none(self@.node_labels.len(), p);
        }
        None
    }

    #[must_use]
    pub fn get_edge_type(&self, id: LabelId) -> (r: Option<&EdgeTypeEntry>)
        ensures
            match r {
                Some(e) => self@.edge_type(id) == Some(e@),
                None => self@.edge_type(id) is None,
            },
    {
        let ghost p = self@.edge_type_is(id);
        let mut i: usize = 0;
        while i < self.edge_types.len()
            invariant
                i <= self.edge_types@.len(),
                p == self@.edge_type_is(id),
                forall|j: int| 0 <= j < i ==> !#[trigger] p(j),
            decreases self.edge_types@.len() - i,
        {
            if self.edge_types[i].label_id.0 == id.0 {
                proof {
                    assert(p(i as int));
                    search::lemma_first_where_is(self@.edge_types.len(), p, i as int);
                }
                return Some(&self.edge_types[i]);
            }
            i = i + 1;
        }
        proof {
            search::lemma_first_where_none(self@.edge_types.len(), p);
        }
        None
    }

    /// How many bytes needed to serialize this catalog.
    #[must_use]
    pub fn serialized_len(&self) -> (len: usize)
        requires
            self@.encoding().len() <= usize::MAX,
        ensures
            len == self@.encoding().len(),
    {
        self.checked_len().unwrap()
    }

    /// Like [`Catalog::serialized_len`]; `None` where the number is too large.
    pub fn checked_len(&self) -> (len: Option<usize>)
        ensures
            is_len(len, self@.encoding().len()),
    {
        reveal(CatalogView::encoding);
        let ghost nodes = node_label_blobs(self@.node_labels);
        let ghost edges = edge_type_blobs(self@.edge_types);
        let mut size: Option<usize> = Some(8);
        let mut i: usize = 0;
        assert(nodes.take(0) =~= Seq::empty());
        while i < self.node_labels.len()
            invariant
                i <= self.node_labels@.len(),
                nodes == node_label_blobs(self@.node_labels),
                is_len(size, 8 + blob_start(nodes, i as int)),
            decreases self.node_labels@.len() - i,
        {
            proof {
                codec::lemma_concat_take(nodes, i as int);
            }
            size = add_lens(size, Self::node_label_entry_len(&self.node_labels[i]));
            i = i + 1;
        }
        assert(nodes.take(nodes.len() as int) =~= nodes);
        i = 0;
        assert(edges.take(0) =~= Seq::empty());
        while i < self.edge_types.len()
            invariant
                i <= self.edge_types@.len(),
                edges == edge_type_blobs(self@.edge_types),
                is_len(size, 8 + concat(nodes).len() + blob_start(edges, i as int)),
            decreases self.edge_types@.len() - i,
        {
            proof {
                codec::lemma_concat_take(edges, i as int);
            }
            size = add_lens(size, Self::edge_type_entry_len(&self.edge_types[i]));
            i = i + 1;
        }
        assert(edges.take(edges.len() as int) =~= edges);
        size
    }

    /// Serialize catalog into a byte buffer. Returns bytes written.
    #[verifier::spinoff_prover]
    pub fn serialize(&self, buf: &mut [u8]) -> (r: Result<usize, StorageError>)
        requires
            self@.encoding().len() <= old(buf)@.len(),
        ensures
            r == Ok::<usize, StorageError>(self@.encoding().len() as usize),
            final(buf)@ == overwrite(old(buf)@, 0, self@.encoding()),
            final(buf)@.len() == old(buf)@.len(),
    {
        reveal(CatalogView::encoding);
        let ghost nodes = node_label_blobs(self@.node_labels);
        let ghost edges = edge_type_blobs(self@.edge_types);
        let ghost e1 = u32_le(low_u32(nodes.len() as int));
        let ghost e2 = e1 + concat(nodes);
        let ghost e3 = e2 + u32_le(low_u32(edges.len() as int));
        let mut pos: usize = 0;
        binary::write_u32(buf, &mut pos, binary::to_low_u32(self.node_labels.len()));
        let ghost b1 = buf@;
        let mut i: usize = 0;
        proof {
            assert(nodes.take(0) =~= Seq::empty());
            binary::lemma_overwrite_empty(b1, 4);
        }
        while i < self.node_labels.len()
            invariant
                i <= self.node_labels@.len(),
                nodes == node_label_blobs(self@.node_labels),
                4 + concat(nodes).len() <= b1.len(),
                pos == 4 + blob_start(nodes, i as int),
                buf@.len() == b1.len(),
                buf@ == overwrite(b1, 4, concat(nodes.take(i as int))),
            decreases self.node_labels@.len() - i,
        {
            proof {
                codec::lemma_concat_take(nodes, i as int);
                codec::lemma_blob_start_mono(nodes, i + 1, nodes.len() as int);
                binary::lemma_overwrite_append(
                    b1,
                    4,
                    concat(nodes.take(i as int)),
                    nodes[i as int],
                );
            }
            Self::write_node_label_entry(buf, &mut pos, &self.node_labels[i]);
            i = i + 1;
        }
        proof {
            assert(nodes.take(nodes.len() as int) =~= nodes);
            binary::lemma_overwrite_append(old(buf)@, 0, e1, concat(nodes));
        }
        binary::write_u32(buf, &mut pos, binary::to_low_u32(self.edge_types.len()));
        proof {
            binary::lemma_overwrite_append(
                old(buf)@,
                0,
                e2,
                u32_le(low_u32(edges.len() as int)),
            );
        }
        let ghost b2 = buf@;
        let ghost base = pos as int;
        i = 0;
        proof {
            assert(edges.take(0) =~= Seq::empty());
            binary::lemma_overwrite_empty(b2, base);
        }
        while i < self.edge_types.len()
            invariant
                i <= self.edge_types@.len(),
                edges == edge_type_blobs(self@.edge_types),
                0 <= base,
                base + concat(edges).len() <= b2.len(),
                pos == base + blob_start(edges, i as int),
                buf@.len() == b2.len(),
                buf@ == overwrite(b2, base, concat(edges.take(i as int))),
            decreases self.edge_types@.len() - i,
        {
            proof {
                codec::lemma_concat_take(edges, i as int);
                codec::lemma_blob_start_mono(edges, i + 1, edges.len() as int);
                binary::lemma_overwrite_append(
                    b2,
                    base,
                    concat(edges.take(i as int)),
                    edges[i as int],
                );
            }
            Self::write_edge_type_entry(buf, &mut pos, &self.edge_types[i]);
            i = i + 1;
        }
        proof {
            assert(edges.take(edges.len() as int) =~= edges);
            binary::lemma_overwrite_append(old(buf)@, 0, e3, concat(edges));
        }
        Ok(pos)
    }

    /// Deserialize catalog from a byte buffer.
    pub fn deserialize(buf: &[u8]) -> (r: Result<Self, StorageError>)
        requires
            CatalogView::parse(buf@) is Some,
        ensures
            r matches Ok(c) && codec::first_read(CatalogView::parse(buf@)) == Some(c@),
    {
        Ok(Self::try_deserialize(buf).unwrap())
    }

    /// Like [`Catalog::deserialize`], for any bytes: `None` where they end too early.
    pub fn try_deserialize(buf: &[u8]) -> (r: Option<Self>)
        ensures
            match r {
                Some(c) => codec::first_read(CatalogView::parse(buf@)) == Some(c@),
                None => CatalogView::parse(buf@) is None,
            },
    {
        reveal(CatalogView::parse);
        if buf.len() < 4 {
            return None;
        }
        let mut pos: usize = 0;
        let num_node: usize = binary::read_u32(buf, &mut pos) as usize;
        let ghost f = node_label_reader(buf@);
        let mut node_labels: Vec<NodeLabelEntry> = Vec::new();
        assert(node_labels_view(node_labels@) =~= Seq::empty());
        while node_labels.len() < num_node
            invariant
                node_labels@.len() <= num_node,
                num_node == u32_at(buf@, 0),
                4 <= buf@.len(),
                f == node_label_reader(buf@),
                pos <= buf@.len(),
                many(node_labels@.len(), f, 4) == Some(
                    (node_labels_view(node_labels@), pos as int),
                ),
            decreases num_node - node_labels@.len(),
        {
            let ghost before = node_labels@;
            assert(f(pos as int) == read_node_label(buf@, pos as int));
            match Self::try_read_node_label_entry(buf, &mut pos) {
                Some(e) => {
                    node_labels.push(e);
                    assert(node_labels_view(node_labels@) =~= node_labels_view(before).push(e@));
                },
                None => {
                    proof {
                        reveal(CatalogView::parse);
                        codec::lemma_many_stuck(before.len() + 1, num_node as nat, f, 4);
                    }
                    return None;
                },
            }
        }
        if buf.len() - pos < 4 {
            return None;
        }
        let ghost mid = pos as int;
        let num_edge: usize = binary::read_u32(buf, &mut pos) as usize;
        let ghost g = edge_type_reader(buf@);
        let mut edge_types: Vec<EdgeTypeEntry> = Vec::new();
        assert(edge_types_view(edge_types@) =~= Seq::empty());
        while edge_types.len() < num_edge
            invariant
                edge_types@.len() <= num_edge,
                4 <= buf@.len(),
                mid + 4 <= buf@.len(),
                num_edge == u32_at(buf@, mid),
                many(u32_at(buf@, 0) as nat, node_label_reader(buf@), 4) == Some(
                    (node_labels_view(node_labels@), mid),
                ),
                g == edge_type_reader(buf@),
                pos <= buf@.len(),
                many(edge_types@.len(), g, mid + 4) == Some(
                    (edge_types_view(edge_types@), pos as int),
                ),
            decreases num_edge - edge_types@.len(),
        {
            let ghost before = edge_types@;
            assert(g(pos as int) == read_edge_type(buf@, pos as int));
            match Self::try_read_edge_type_entry(buf, &mut pos) {
                Some(e) => {
                    edge_types.push(e);
                    assert(edge_types_view(edge_types@) =~= edge_types_view(before).push(e@));
                },
                None => {
                    proof {
                        reveal(CatalogView::parse);
                        codec::lemma_many_stuck(before.len() + 1, num_edge as nat, g, mid + 4);
                    }
                    return None;
                },
            }
        }
        Some(Catalog { node_labels, edge_types })
    }

    fn property_def_len(p: &PropertyDef) -> (len: Option<usize>)
        ensures
            is_len(len, p@.encoding().len()),
    {
        let rest: usize = match p.data_type {
            DataType::Vector { .. } => 12,
            _ => 8,
        };
        let name_len: usize = p.name.as_str().as_bytes().len();
        assert(p@.encoding().len() == rest + name_len);
        name_len.checked_add(rest)
    }

    fn properties_len(properties: &Vec<PropertyDef>) -> (len: Option<usize>)
        ensures
            is_len(len, properties_encoding(properties_view(properties@)).len()),
    {
        let ghost blobs = property_blobs(properties_view(properties@));
        let mut size: Option<usize> = Some(4);
        let mut i: usize = 0;
        assert(blobs.take(0) =~= Seq::empty());
        while i < properties.len()
            invariant
                i <= properties@.len(),
                blobs == property_blobs(properties_view(properties@)),
                is_len(size, 4 + blob_start(blobs, i as int)),
            decreases properties@.len() - i,
        {
            proof {
                codec::lemma_concat_take(blobs, i as int);
            }
            size = add_lens(size, Self::property_def_len(&properties[i]));
            i = i + 1;
        }
        assert(blobs.take(blobs.len() as int) =~= blobs);
        size
    }

    fn node_label_entry_len(e: &NodeLabelEntry) -> (len: Option<usize>)
        ensures
            is_len(len, e@.encoding().len()),
    {
        assert(e@.encoding().len() == 14 + encode_utf8(e.name@).len() + properties_encoding(
            e@.properties,
        ).len());
        let name_len: usize = e.name.as_str().as_bytes().len();
        let head: Option<usize> = name_len.checked_add(14);
        assert(is_len(head, 14 + encode_utf8(e.name@).len()));
        add_lens(head, Self::properties_len(&e.properties))
    }

    fn edge_type_entry_len(e: &EdgeTypeEntry) -> (len: Option<usize>)
        ensures
            is_len(len, e@.encoding().len()),
    {
        assert(e@.encoding().len() == 18 + encode_utf8(e.name@).len() + properties_encoding(
            e@.properties,
        ).len());
        let name_len: usize = e.name.as_str().as_bytes().len();
        let head: Option<usize> = name_len.checked_add(18);
        assert(is_len(head, 18 + encode_utf8(e.name@).len()));
        add_lens(head, Self::properties_len(&e.properties))
    }

    fn write_node_label_entry(buf: &mut [u8], pos: &mut usize, e: &NodeLabelEntry)
        requires
            *old(pos) + e@.encoding().len() <= old(buf)@.len(),
        ensures
            final(buf)@ == overwrite(old(buf)@, *old(pos) as int, e@.encoding()),
            final(buf)@.len() == old(buf)@.len(),
            *final(pos) == *old(pos) + e@.encoding().len(),
    {
        let ghost b0 = buf@;
        let ghost start = *pos as int;
        let ghost e1 = u32_le(e.table_id.0);
        let ghost e2 = e1 + u32_le(e.label_id.0);
        let ghost e3 = e2 + text_encoding(e.name@);
        let ghost e4 = e3 + u32_le(e.pk_column_id.0);
        binary::write_u32(buf, pos, e.table_id.0);
        binary::write_u32(buf, pos, e.label_id.0);
        proof {
            binary::lemma_overwrite_append(b0, start, e1, u32_le(e.label_id.0));
        }
        Self::write_string(buf, pos, e.name.as_str());
        proof {
            binary::lemma_overwrite_append(b0, start, e2, text_encoding(e.name@));
        }
        binary::write_u32(buf, pos, e.pk_column_id.0);
        proof {
            binary::lemma_overwrite_append(b0, start, e3, u32_le(e.pk_column_id.0));
        }
        Self::write_properties(buf, pos, &e.properties);
        proof {
            binary::lemma_overwrite_append(b0, start, e4, properties_encoding(e@.properties));
        }
    }

    fn write_edge_type_entry(buf: &mut [u8], pos: &mut usize, e: &EdgeTypeEntry)
        requires
            *old(pos) + e@.encoding().len() <= old(buf)@.len(),
        ensures
            final(buf)@ == overwrite(old(buf)@, *old(pos) as int, e@.encoding()),
            final(buf)@.len() == old(buf)@.len(),
            *final(pos) == *old(pos) + e@.encoding().len(),
    {
        let ghost b0 = buf@;
        let ghost start = *pos as int;
        let ghost e1 = u32_le(e.table_id.0);
        let ghost e2 = e1 + u32_le(e.label_id.0);
        let ghost e3 = e2 + text_encoding(e.name@);
        let ghost e4 = e3 + u32_le(e.from_label_id.0);
        let ghost e5 = e4 + u32_le(e.to_label_id.0);
        binary::write_u32(buf, pos, e.table_id.0);
        binary::write_u32(buf, pos, e.label_id.0);
        proof {
            binary::lemma_overwrite_append(b0, start, e1, u32_le(e.label_id.0));
        }
        Self::write_string(buf, pos, e.name.as_str());
        proof {
            binary::lemma_overwrite_append(b0, start, e2, text_encoding(e.name@));
        }
        binary::write_u32(buf, pos, e.from_label_id.0);
        proof {
            binary::lemma_overwrite_append(b0, start, e3, u32_le(e.from_label_id.0));
        }
        binary::write_u32(buf, pos, e.to_label_id.0);
        proof {
            binary::lemma_overwrite_append(b0, start, e4, u32_le(e.to_label_id.0));
        }
        Self::write_properties(buf, pos, &e.properties);
        proof {
            binary::lemma_overwrite_append(b0, start, e5, properties_encoding(e@.properties));
        }
    }

    fn write_properties(buf: &mut [u8], pos: &mut usize, properties: &Vec<PropertyDef>)
        requires
            *old(pos) + properties_encoding(properties_view(properties@)).len() <= old(buf)@.len(),
        ensures
            final(buf)@ == overwrite(
                old(buf)@,
                *old(pos) as int,
                properties_encoding(properties_view(properties@)),
            ),
            final(buf)@.len() == old(buf)@.len(),
            *final(pos) == *old(pos) + properties_encoding(properties_view(properties@)).len(),
    {
        let ghost start = *pos as int;
        let ghost blobs = property_blobs(properties_view(properties@));
        binary::write_u32(buf, pos, binary::to_low_u32(properties.len()));
        let ghost b1 = buf@;
        let mut i: usize = 0;
        proof {
            assert(blobs.take(0) =~= Seq::empty());
            binary::lemma_overwrite_empty(b1, start + 4);
        }
        while i < properties.len()
            invariant
                i <= properties@.len(),
                blobs == property_blobs(properties_view(properties@)),
                0 <= start,
                start + 4 + concat(blobs).len() <= b1.len(),
                *pos == start + 4 + blob_start(blobs, i as int),
                buf@.len() == b1.len(),
                buf@ == overwrite(b1, start + 4, concat(blobs.take(i as int))),
            decreases properties@.len() - i,
        {
            proof {
                codec::lemma_concat_take(blobs, i as int);
                codec::lemma_blob_start_mono(blobs, i + 1, blobs.len() as int);
                binary::lemma_overwrite_append(
                    b1,
                    start + 4,
                    concat(blobs.take(i as int)),
                    blobs[i as int],
                );
            }
            Self::write_property_def(buf, pos, &properties[i]);
            i = i + 1;
        }
        proof {
            assert(blobs.take(blobs.len() as int) =~= blobs);
            binary::lemma_overwrite_append(
                old(buf)@,
                start,
                u32_le(low_u32(properties@.len() as int)),
                concat(blobs),
            );
        }
    }

    fn write_property_def(buf: &mut [u8], pos: &mut usize, p: &PropertyDef)
        requires
            *old(pos) + p@.encoding().len() <= old(buf)@.len(),
        ensures
            final(buf)@ == overwrite(old(buf)@, *old(pos) as int, p@.encoding()),
            final(buf)@.len() == old(buf)@.len(),
            *final(pos) == *old(pos) + p@.encoding().len(),
    {
        let ghost b0 = buf@;
        let ghost start = *pos as int;
        let ghost e1 = text_encoding(p.name@);
        let ghost e2 = e1 + u32_le(p.column_id.0);
        let ghost e3 = e2 + type_encoding(p.data_type);
        Self::write_string(buf, pos, p.name.as_str());
        binary::write_u32(buf, pos, p.column_id.0);
        proof {
            binary::lemma_overwrite_append(b0, start, e1, u32_le(p.column_id.0));
        }
        Self::write_type(buf, pos, &p.data_type);
        proof {
            binary::lemma_overwrite_append(b0, start, e2, type_encoding(p.data_type));
        }
        let flag: u8 = if p.nullable {
            1
        } else {
            0
        };
        binary::write_u8(buf, pos, flag);
        proof {
            binary::lemma_overwrite_append(b0, start, e3, seq![flag]);
        }
    }

    fn write_type(buf: &mut [u8], pos: &mut usize, t: &DataType)
        requires
            *old(pos) + type_encoding(*t).len() <= old(buf)@.len(),
        ensures
            final(buf)@ == overwrite(old(buf)@, *old(pos) as int, type_encoding(*t)),
            final(buf)@.len() == old(buf)@.len(),
            *final(pos) == *old(pos) + type_encoding(*t).len(),
    {
        let tag: u8 = t.discriminant();
        binary::write_u8(buf, pos, tag);
        if let DataType::Vector { dim } = t {
            binary::write_u32(buf, pos, *dim);
            proof {
                binary::lemma_overwrite_append(
                    old(buf)@,
                    *old(pos) as int,
                    seq![tag],
                    u32_le(*dim),
                );
            }
        }
    }

    fn write_string(buf: &mut [u8], pos: &mut usize, s: &str)
        requires
            *old(pos) + text_encoding(s@).len() <= old(buf)@.len(),
        ensures
            final(buf)@ == overwrite(old(buf)@, *old(pos) as int, text_encoding(s@)),
            final(buf)@.len() == old(buf)@.len(),
            *final(pos) == *old(pos) + text_encoding(s@).len(),
    {
        let bytes = s.as_bytes();
        binary::write_u16(buf, pos, binary::to_low_u16(bytes.len()));
        binary::write_bytes(buf, pos, bytes);
        proof {
            binary::lemma_overwrite_append(
                old(buf)@,
                *old(pos) as int,
                u16_le(low_u16(bytes@.len() as int)),
                bytes@,
            );
        }
    }

    fn try_read_node_label_entry(buf: &[u8], pos: &mut usize) -> (r: Option<NodeLabelEntry>)
        requires
            *old(pos) <= buf@.len(),
        ensures
            match r {
                Some(e) => read_node_label(buf@, *old(pos) as int) == Some((e@, *final(pos) as int))
                    && *final(pos) <= buf@.len(),
                None => read_node_label(buf@, *old(pos) as int) is None,
            },
    {
        reveal(read_node_label);
        if buf.len() - *pos < 8 {
            return None;
        }
        let table_id = TableId(binary::read_u32(buf, pos));
        let label_id = LabelId(binary::read_u32(buf, pos));
        let name = match Self::try_read_string(buf, pos) {
            Some(s) => s,
            None => {
                return None;
            },
        };
        if buf.len() - *pos < 4 {
            return None;
        }
        let pk_column_id = ColumnId(binary::read_u32(buf, pos));
        match Self::try_read_properties(buf, pos) {
            Some(properties) => Some(
                NodeLabelEntry { table_id, label_id, name, pk_column_id, properties },
            ),
            None => None,
        }
    }

    fn try_read_edge_type_entry(buf: &[u8], pos: &mut usize) -> (r: Option<EdgeTypeEntry>)
        requires
            *old(pos) <= buf@.len(),
        ensures
            match r {
                Some(e) => read_edge_type(buf@, *old(pos) as int) == Some((e@, *final(pos) as int))
                    && *final(pos) <= buf@.len(),
                None => read_edge_type(buf@, *old(pos) as int) is None,
            },
    {
        reveal(read_edge_type);
        if buf.len() - *pos < 8 {
            return None;
        }
        let table_id = TableId(binary::read_u32(buf, pos));
        let label_id = LabelId(binary::read_u32(buf, pos));
        let name = match Self::try_read_string(buf, pos) {
            Some(s) => s,
            None => {
                return None;
            },
        };
        if buf.len() - *pos < 8 {
            return None;
        }
        let from_label_id = LabelId(binary::read_u32(buf, pos));
        let to_label_id = LabelId(binary::read_u32(buf, pos));
        match Self::try_read_properties(buf, pos) {
            Some(properties) => Some(
                EdgeTypeEntry { table_id, label_id, name, from_label_id, to_label_id, properties },
            ),
            None => None,
        }
    }

    fn try_read_properties(buf: &[u8], pos: &mut usize) -> (r: Option<Vec<PropertyDef>>)
        requires
            *old(pos) <= buf@.len(),
        ensures
            match r {
                Some(v) => read_properties(buf@, *old(pos) as int) == Some(
                    (properties_view(v@), *final(pos) as int),
                ) && *final(pos) <= buf@.len(),
                None => read_properties(buf@, *old(pos) as int) is None,
            },
    {
        if buf.len() - *pos < 4 {
            return None;
        }
        let ghost start = *pos as int;
        let n: usize = binary::read_u32(buf, pos) as usize;
        let ghost f = property_reader(buf@);
        let mut v: Vec<PropertyDef> = Vec::new();
        assert(properties_view(v@) =~= Seq::empty());
        while v.len() < n
            invariant
                v@.len() <= n,
                start == *old(pos),
                start + 4 <= buf@.len(),
                n == u32_at(buf@, start),
                f == property_reader(buf@),
                *pos <= buf@.len(),
                many(v@.len(), f, start + 4) == Some((properties_view(v@), *pos as int)),
            decreases n - v@.len(),
        {
            let ghost before = v@;
            assert(f(*pos as int) == read_property(buf@, *pos as int));
            match Self::try_read_property_def(buf, pos) {
                Some(p) => {
                    v.push(p);
                    assert(properties_view(v@) =~= properties_view(before).push(p@));
                },
                None => {
                    proof {
                        codec::lemma_many_stuck(before.len() + 1, n as nat, f, start + 4);
                    }
                    return None;
                },
            }
        }
        Some(v)
    }

    fn try_read_property_def(buf: &[u8], pos: &mut usize) -> (r: Option<PropertyDef>)
        requires
            *old(pos) <= buf@.len(),
        ensures
            match r {
                Some(p) => read_property(buf@, *old(pos) as int) == Some((p@, *final(pos) as int))
                    && *final(pos) <= buf@.len(),
                None => read_property(buf@, *old(pos) as int) is None,
            },
    {
        let name = match Self::try_read_string(buf, pos) {
            Some(s) => s,
            None => {
                return None;
            },
        };
        if buf.len() - *pos < 4 {
            return None;
        }
        let column_id = ColumnId(binary::read_u32(buf, pos));
        let data_type = match Self::try_read_type(buf, pos) {
            Some(t) => t,
            None => {
                return None;
            },
        };
        if buf.len() - *pos < 1 {
            return None;
        }
        let nullable = binary::read_u8(buf, pos) != 0;
        Some(PropertyDef { name, column_id, data_type, nullable })
    }

    fn try_read_type(buf: &[u8], pos: &mut usize) -> (r: Option<DataType>)
        requires
            *old(pos) <= buf@.len(),
        ensures
            match r {
                Some(t) => read_type(buf@, *old(pos) as int) == Some((t, *final(pos) as int))
                    && *final(pos) <= buf@.len(),
                None => read_type(buf@, *old(pos) as int) is None,
            },
    {
        if buf.len() - *pos < 1 {
            return None;
        }
        let tag: u8 = binary::read_u8(buf, pos);
        if tag == 5 {
            if buf.len() - *pos < 4 {
                return None;
            }
            let dim: u32 = binary::read_u32(buf, pos);
            Some(DataType::Vector { dim })
        } else {
            match DataType::from_discriminant(tag) {
                Some(t) => Some(t),
                None => Some(DataType::Int64),
            }
        }
    }

    fn try_read_string(buf: &[u8], pos: &mut usize) -> (r: Option<String>)
        requires
            *old(pos) <= buf@.len(),
        ensures
            match r {
                Some(s) => read_text(buf@, *old(pos) as int) == Some((s@, *final(pos) as int))
                    && *final(pos) <= buf@.len(),
                None => read_text(buf@, *old(pos) as int) is None,
            },
    {
        if buf.len() - *pos < 2 {
            return None;
        }
        let len: usize = binary::read_u16(buf, pos) as usize;
        if buf.len() - *pos < len {
            return None;
        }
        let bytes = binary::read_bytes(buf, pos, len);
        Some(string_from_utf8_lossy(bytes))
    }
}

// ---------------------------------------------------------------------------------------------
// Laws

/// The length of a name can be written in 16 bits.
pub open spec fn text_fits(s: Seq<char>) -> bool {
    encode_utf8(s).len() <= u16::MAX
}

pub open spec fn properties_fit(properties: Seq<PropertyDefView>) -> bool {
    &&& properties.len() <= u32::MAX
    &&& forall|i: int| 0 <= i < properties.len() ==> text_fits((#[trigger] properties[i]).name)
}

#[verifier::opaque]
pub open spec fn node_labels_fit(entries: Seq<NodeLabelView>) -> bool {
    forall|i: int|
        0 <= i < entries.len() ==> text_fits((#[trigger] entries[i]).name) && properties_fit(
            entries[i].properties,
        )
}

#[verifier::opaque]
pub open spec fn edge_types_fit(entries: Seq<EdgeTypeView>) -> bool {
    forall|i: int|
        0 <= i < entries.len() ==> text_fits((#[trigger] entries[i]).name) && properties_fit(
            entries[i].properties,
        )
}

impl CatalogView {
    /// The counts and the lengths of the names can be written.
    pub open spec fn fits(self) -> bool {
        &&& self.node_labels.len() <= u32::MAX
        &&& self.edge_types.len() <= u32::MAX
        &&& node_labels_fit(self.node_labels)
        &&& edge_types_fit(self.edge_types)
    }
}

proof fn lemma_text(buf: Seq<u8>, pos: int, s: Seq<char>)
    requires
        text_fits(s),
        holds_at(buf, pos, text_encoding(s)),
    ensures
        read_text(buf, pos) == Some((s, pos + text_encoding(s).len())),
{
    let bytes = encode_utf8(s);
    binary::lemma_holds_append(buf, pos, u16_le(low_u16(bytes.len() as int)), bytes);
    binary::lemma_u16_at(buf, pos, low_u16(bytes.len() as int));
    binary::lemma_holds_subrange(buf, pos + 2, bytes);
    vstd::utf8::encode_utf8_valid_utf8(s);
    vstd::utf8::encode_utf8_decode_utf8(s);
}

proof fn lemma_type(buf: Seq<u8>, pos: int, t: DataType)
    requires
        holds_at(buf, pos, type_encoding(t)),
    ensures
        read_type(buf, pos) == Some((t, pos + type_encoding(t).len())),
{
    match t {
        DataType::Vector { dim } => {
            binary::lemma_holds_append(buf, pos, seq![t.tag()], u32_le(dim));
            binary::lemma_holds_subrange(buf, pos, seq![t.tag()]);
            assert(buf.subrange(pos, pos + 1)[0] == buf[pos]);
            binary::lemma_u32_at(buf, pos + 1, dim);
        },
        _ => {
            binary::lemma_holds_subrange(buf, pos, seq![t.tag()]);
            assert(buf.subrange(pos, pos + 1)[0] == buf[pos]);
        },
    }
}

proof fn lemma_property(buf: Seq<u8>, pos: int, p: PropertyDefView)
    requires
        text_fits(p.name),
        holds_at(buf, pos, p.encoding()),
    ensures
        read_property(buf, pos) == Some((p, pos + p.encoding().len())),
{
    let e1 = text_encoding(p.name);
    let e2 = e1 + u32_le(p.column_id.0);
    let e3 = e2 + type_encoding(p.data_type);
    let flag = seq![flag_byte(p.nullable)];
    binary::lemma_holds_append(buf, pos, e3, flag);
    binary::lemma_holds_append(buf, pos, e2, type_encoding(p.data_type));
    binary::lemma_holds_append(buf, pos, e1, u32_le(p.column_id.0));
    lemma_text(buf, pos, p.name);
    binary::lemma_u32_at(buf, pos + e1.len(), p.column_id.0);
    lemma_type(buf, pos + e2.len(), p.data_type);
    binary::lemma_holds_subrange(buf, pos + e3.len(), flag);
    assert(buf.subrange(pos + e3.len(), pos + e3.len() + 1)[0] == buf[pos + e3.len()]);
}

proof fn lemma_properties(buf: Seq<u8>, pos: int, properties: Seq<PropertyDefView>)
    requires
        properties_fit(properties),
        holds_at(buf, pos, properties_encoding(properties)),
    ensures
        read_properties(buf, pos) == Some(
            (properties, pos + properties_encoding(properties).len()),
        ),
{
    let blobs = property_blobs(properties);
    let f = property_reader(buf);
    let count = low_u32(properties.len() as int);
    binary::lemma_holds_append(buf, pos, u32_le(count), concat(blobs));
    binary::lemma_u32_at(buf, pos, count);
    assert forall|i: int| 0 <= i < properties.len() implies #[trigger] f(
        pos + 4 + blob_start(blobs, i),
    ) == Some((properties[i], pos + 4 + blob_start(blobs, i) + blobs[i].len())) by {
        codec::lemma_concat_holds(buf, pos + 4, blobs, i);
        assert(blobs[i] == properties[i].encoding());
        lemma_property(buf, pos + 4 + blob_start(blobs, i), properties[i]);
    }
    codec::lemma_many_all(properties, blobs, f, pos + 4);
}

proof fn lemma_node_label(buf: Seq<u8>, pos: int, e: NodeLabelView)
    requires
        text_fits(e.name),
        properties_fit(e.properties),
        holds_at(buf, pos, e.encoding()),
    ensures
        read_node_label(buf, pos) == Some((e, pos + e.encoding().len())),
{
    reveal(read_node_label);
    let e1 = u32_le(e.table_id.0);
    let e2 = e1 + u32_le(e.label_id.0);
    let e3 = e2 + text_encoding(e.name);
    let e4 = e3 + u32_le(e.pk_column_id.0);
    binary::lemma_holds_append(buf, pos, e4, properties_encoding(e.properties));
    binary::lemma_holds_append(buf, pos, e3, u32_le(e.pk_column_id.0));
    binary::lemma_holds_append(buf, pos, e2, text_encoding(e.name));
    binary::lemma_holds_append(buf, pos, e1, u32_le(e.label_id.0));
    binary::lemma_u32_at(buf, pos, e.table_id.0);
    binary::lemma_u32_at(buf, pos + 4, e.label_id.0);
    lemma_text(buf, pos + 8, e.name);
    binary::lemma_u32_at(buf, pos + e3.len(), e.pk_column_id.0);
    lemma_properties(buf, pos + e4.len(), e.properties);
}

proof fn lemma_edge_type(buf: Seq<u8>, pos: int, e: EdgeTypeView)
    requires
        text_fits(e.name),
        properties_fit(e.properties),
        holds_at(buf, pos, e.encoding()),
    ensures
        read_edge_type(buf, pos) == Some((e, pos + e.encoding().len())),
{
    reveal(read_edge_type);
    let e1 = u32_le(e.table_id.0);
    let e2 = e1 + u32_le(e.label_id.0);
    let e3 = e2 + text_encoding(e.name);
    let e4 = e3 + u32_le(e.from_label_id.0);
    let e5 = e4 + u32_le(e.to_label_id.0);
    binary::lemma_holds_append(buf, pos, e5, properties_encoding(e.properties));
    binary::lemma_holds_append(buf, pos, e4, u32_le(e.to_label_id.0));
    binary::lemma_holds_append(buf, pos, e3, u32_le(e.from_label_id.0));
    binary::lemma_holds_append(buf, pos, e2, text_encoding(e.name));
    binary::lemma_holds_append(buf, pos, e1, u32_le(e.label_id.0));
    binary::lemma_u32_at(buf, pos, e.table_id.0);
    binary::lemma_u32_at(buf, pos + 4, e.label_id.0);
    lemma_text(buf, pos + 8, e.name);
    binary::lemma_u32_at(buf, pos + e3.len(), e.from_label_id.0);
    binary::lemma_u32_at(buf, pos + e4.len(), e.to_label_id.0);
    lemma_properties(buf, pos + e5.len(), e.properties);
}

proof fn lemma_node_labels(buf: Seq<u8>, pos: int, entries: Seq<NodeLabelView>)
    requires
        node_labels_fit(entries),
        holds_at(buf, pos, concat(node_label_blobs(entries))),
    ensures
        many(entries.len(), node_label_reader(buf), pos) == Some(
            (entries, pos + concat(node_label_blobs(entries)).len()),
        ),
{
    reveal(node_labels_fit);
    let blobs = node_label_blobs(entries);
    let f = node_label_reader(buf);
    assert forall|i: int| 0 <= i < entries.len() implies #[trigger] f(pos + blob_start(blobs, i))
        == Some((entries[i], pos + blob_start(blobs, i) + blobs[i].len())) by {
        codec::lemma_concat_holds(buf, pos, blobs, i);
        assert(blobs[i] == entries[i].encoding());
        assert(text_fits(entries[i].name) && properties_fit(entries[i].properties));
        lemma_node_label(buf, pos + blob_start(blobs, i), entries[i]);
    }
    codec::lemma_many_all(entries, blobs, f, pos);
}

proof fn lemma_edge_types(buf: Seq<u8>, pos: int, entries: Seq<EdgeTypeView>)
    requires
        edge_types_fit(entries),
        holds_at(buf, pos, concat(edge_type_blobs(entries))),
    ensures
        many(entries.len(), edge_type_reader(buf), pos) == Some(
            (entries, pos + concat(edge_type_blobs(entries)).len()),
        ),
{
    reveal(edge_types_fit);
    let blobs = edge_type_blobs(entries);
    let f = edge_type_reader(buf);
    assert forall|i: int| 0 <= i < entries.len() implies #[trigger] f(pos + blob_start(blobs, i))
        == Some((entries[i], pos + blob_start(blobs, i) + blobs[i].len())) by {
        codec::lemma_concat_holds(buf, pos, blobs, i);
        assert(blobs[i] == entries[i].encoding());
        assert(text_fits(entries[i].name) && properties_fit(entries[i].properties));
        lemma_edge_type(buf, pos + blob_start(blobs, i), entries[i]);
    }
    codec::lemma_many_all(entries, blobs, f, pos);
}

proof fn lemma_catalog_parts(buf: Seq<u8>, n: u32, nodes: Seq<u8>, m: u32, edges: Seq<u8>)
    requires
        holds_at(buf, 0, u32_le(n) + nodes + u32_le(m) + edges),
    ensures
        buf.len() >= 8 + nodes.len() + edges.len(),
        u32_at(buf, 0) == n,
        holds_at(buf, 4, nodes),
        u32_at(buf, 4 + nodes.len() as int) == m,
        holds_at(buf, 8 + nodes.len() as int, edges),
{
    let e1 = u32_le(n);
    let e2 = e1 + nodes;
    let e3 = e2 + u32_le(m);
    binary::lemma_holds_append(buf, 0, e3, edges);
    binary::lemma_holds_append(buf, 0, e2, u32_le(m));
    binary::lemma_holds_append(buf, 0, e1, nodes);
    binary::lemma_u32_at(buf, 0, n);
    binary::lemma_u32_at(buf, e2.len() as int, m);
}

/// What a buffer holds that starts with a catalog.
proof fn lemma_catalog_holds(c: CatalogView, buf: Seq<u8>)
    requires
        c.node_labels.len() <= u32::MAX,
        c.edge_types.len() <= u32::MAX,
        holds_at(buf, 0, c.encoding()),
    ensures
        ({
            let nodes = concat(node_label_blobs(c.node_labels));
            let edges = concat(edge_type_blobs(c.edge_types));
            &&& c.encoding().len() == 8 + nodes.len() + edges.len()
            &&& c.encoding().len() <= buf.len()
            &&& u32_at(buf, 0) == c.node_labels.len()
            &&& holds_at(buf, 4, nodes)
            &&& u32_at(buf, 4 + nodes.len() as int) == c.edge_types.len()
            &&& holds_at(buf, 8 + nodes.len() as int, edges)
        }),
{
    reveal(CatalogView::encoding);
    lemma_catalog_parts(
        buf,
        low_u32(c.node_labels.len() as int),
        concat(node_label_blobs(c.node_labels)),
        low_u32(c.edge_types.len() as int),
        concat(edge_type_blobs(c.edge_types)),
    );
}

proof fn lemma_parse_is(c: CatalogView, buf: Seq<u8>, p: int, q: int)
    requires
        4 <= p,
        p + 4 <= buf.len(),
        u32_at(buf, 0) == c.node_labels.len(),
        u32_at(buf, p) == c.edge_types.len(),
        many(c.node_labels.len(), node_label_reader(buf), 4) == Some((c.node_labels, p)),
        many(c.edge_types.len(), edge_type_reader(buf), p + 4) == Some((c.edge_types, q)),
    ensures
        CatalogView::parse(buf) == Some((c, q)),
{
    reveal(CatalogView::parse);
}

/// A catalog that was serialized is read back as it was, whatever follows it.
pub proof fn law_catalog_roundtrip(c: CatalogView, buf: Seq<u8>)
    requires
        c.fits(),
        holds_at(buf, 0, c.encoding()),
    ensures
        CatalogView::parse(buf) == Some((c, c.encoding().len() as int)),
{
    let p = 4 + concat(node_label_blobs(c.node_labels)).len() as int;
    lemma_catalog_holds(c, buf);
    lemma_node_labels(buf, 4, c.node_labels);
    lemma_edge_types(buf, p + 4, c.edge_types);
    lemma_parse_is(c, buf, p, c.encoding().len() as int);
}

/// The label that is found for an id is the first that has it; none is found exactly if none has it.
pub proof fn law_node_label(c: CatalogView, id: LabelId)
    ensures
        c.node_label(id) is None <==> forall|i: int|
            0 <= i < c.node_labels.len() ==> (#[trigger] c.node_labels[i]).label_id != id,
        forall|i: int|
            0 <= i < c.node_labels.len() && (#[trigger] c.node_labels[i]).label_id == id && (forall|
                j: int,
            |
                0 <= j < i ==> (#[trigger] c.node_labels[j]).label_id != id) ==> c.node_label(id)
                == Some(c.node_labels[i]),
{
    let n = c.node_labels.len();
    let p = c.node_label_is(id);
    search::lemma_first_where(n, p);
    match search::first_where(n, p) {
        Some(i) => {
            assert(p(i));
            assert(c.node_labels[i].label_id == id);
        },
        None => {
            assert forall|i: int| 0 <= i < n implies (#[trigger] c.node_labels[i]).label_id
                != id by {
                assert(!p(i));
            }
        },
    }
    assert forall|i: int|
        0 <= i < n && (#[trigger] c.node_labels[i]).label_id == id && (forall|j: int|
            0 <= j < i ==> (#[trigger] c.node_labels[j]).label_id != id) implies c.node_label(id)
        == Some(c.node_labels[i]) by {
        assert(p(i));
        search::lemma_first_where_is(n, p, i);
    }
}

/// The type that is found for an id is the first that has it; none is found exactly if none has it.
pub proof fn law_edge_type(c: CatalogView, id: LabelId)
    ensures
        c.edge_type(id) is None <==> forall|i: int|
            0 <= i < c.edge_types.len() ==> (#[trigger] c.edge_types[i]).label_id != id,
        forall|i: int|
            0 <= i < c.edge_types.len() && (#[trigger] c.edge_types[i]).label_id == id && (forall|
                j: int,
            |
                0 <= j < i ==> (#[trigger] c.edge_types[j]).label_id != id) ==> c.edge_type(id)
                == Some(c.edge_types[i]),
{
    let n = c.edge_types.len();
    let p = c.edge_type_is(id);
    search::lemma_first_where(n, p);
    match search::first_where(n, p) {
        Some(i) => {
            assert(p(i));
            assert(c.edge_types[i].label_id == id);
        },
        None => {
            assert forall|i: int| 0 <= i < n implies (#[trigger] c.edge_types[i]).label_id
                != id by {
                assert(!p(i));
            }
        },
    }
    assert forall|i: int|
        0 <= i < n && (#[trigger] c.edge_types[i]).label_id == id && (forall|j: int|
            0 <= j < i ==> (#[trigger] c.edge_types[j]).label_id != id) implies c.edge_type(id)
        == Some(c.edge_types[i]) by {
        assert(p(i));
        search::lemma_first_where_is(n, p, i);
    }
}

} // verus!
