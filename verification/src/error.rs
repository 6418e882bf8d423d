//! The errors of the storage layer.

use vstd::prelude::*;
use vstd::string::StringExecFns;

use crate::text::push_decimal;
use crate::text;
use crate::types::{DataType, EdgeId, LabelId, NodeId, PageIdx, RowIdx};

verus! {

#[derive(Debug, Clone, PartialEq, Eq)]
pub enum StorageError {
    ColumnTypeMismatch { expected: DataType, got: DataType },
    NodeGroupFull,
    EdgeGroupFull,
    RowOutOfBounds { row: RowIdx, len: u64 },
    LabelNotFound { label_id: LabelId },
    NodeNotFound { node_id: NodeId },
    EdgeNotFound { edge_id: EdgeId },
    SerDe(String),
    Io(String),
    CorruptHeader,
    CsrEdgeGroupFull,
}

/// What a [`StorageError`] stands for.
pub enum ErrorView {
    ColumnTypeMismatch { expected: DataType, got: DataType },
    NodeGroupFull,
    EdgeGroupFull,
    RowOutOfBounds { row: RowIdx, len: u64 },
    LabelNotFound { label_id: LabelId },
    NodeNotFound { node_id: NodeId },
    EdgeNotFound { edge_id: EdgeId },
    SerDe(Seq<char>),
    Io(Seq<char>),
    CorruptHeader,
    CsrEdgeGroupFull,
}

impl View for StorageError {
    type V = ErrorView;

    open spec fn view(&self) -> ErrorView {
        match self {
            StorageError::ColumnTypeMismatch { expected, got } => ErrorView::ColumnTypeMismatch {
                expected: *expected,
                got: *got,
            },
            StorageError::NodeGroupFull => ErrorView::NodeGroupFull,
            StorageError::EdgeGroupFull => ErrorView::EdgeGroupFull,
            StorageError::RowOutOfBounds { row, len } => ErrorView::RowOutOfBounds {
                row: *row,
                len: *len,
            },
            StorageError::LabelNotFound { label_id } => ErrorView::LabelNotFound {
                label_id: *label_id,
            },
            StorageError::NodeNotFound { node_id } => ErrorView::NodeNotFound { node_id: *node_id },
            StorageError::EdgeNotFound { edge_id } => ErrorView::EdgeNotFound { edge_id: *edge_id },
            StorageError::SerDe(msg) => ErrorView::SerDe(msg@),
            StorageError::Io(msg) => ErrorView::Io(msg@),
            StorageError::CorruptHeader => ErrorView::CorruptHeader,
            StorageError::CsrEdgeGroupFull => ErrorView::CsrEdgeGroupFull,
        }
    }
}

impl ErrorView {
    /// The text that [`StorageError::display`] gives.
    pub open spec fn text(self) -> Seq<char> {
        match self {
            ErrorView::ColumnTypeMismatch { expected, got } => "column type mismatch: expected "@
                + expected.text() + ", got "@ + got.text(),
            ErrorView::NodeGroupFull => "node group is full"@,
            ErrorView::EdgeGroupFull => "edge group is full"@,
            ErrorView::RowOutOfBounds { row, len } => "row "@ + text::decimal(row as nat)
                + " is out of bounds (len="@ + text::decimal(len as nat) + ")"@,
            ErrorView::LabelNotFound { label_id } => "label "@ + text::decimal(
                label_id.0 as nat,
            ) + " not found"@,
            ErrorView::NodeNotFound { node_id } => "node "@ + text::decimal(node_id.0 as nat)
                + " not found"@,
            ErrorView::EdgeNotFound { edge_id } => "edge "@ + text::decimal(edge_id.0 as nat)
                + " not found"@,
            ErrorView::SerDe(msg) => "serialization error: "@ + msg,
            ErrorView::Io(msg) => "I/O error: "@ + msg,
            ErrorView::CorruptHeader => "corrupt database header"@,
            ErrorView::CsrEdgeGroupFull => "CSR edge group is full"@,
        }
    }
}

impl StorageError {
    /// The message of the error.
    pub fn display(&self) -> (s: String)
        ensures
            s@ == self@.text(),
    {
        let mut s = String::new();
        match self {
            StorageError::ColumnTypeMismatch { expected, got } => {
                s.append("column type mismatch: expected ");
                expected.display_into(&mut s);
                s.append(", got ");
                got.display_into(&mut s);
            },
            StorageError::NodeGroupFull => s.append("node group is full"),
            StorageError::EdgeGroupFull => s.append("edge group is full"),
            StorageError::RowOutOfBounds { row, len } => {
                s.append("row ");
                push_decimal(&mut s, *row as u128);
                s.append(" is out of bounds (len=");
                push_decimal(&mut s, *len as u128);
                s.append(")");
            },
            StorageError::LabelNotFound { label_id } => {
                s.append("label ");
                push_decimal(&mut s, label_id.0 as u128);
                s.append(" not found");
            },
            StorageError::NodeNotFound { node_id } => {
                s.append("node ");
                push_decimal(&mut s, node_id.0 as u128);
                s.append(" not found");
            },
            StorageError::EdgeNotFound { edge_id } => {
                s.append("edge ");
                push_decimal(&mut s, edge_id.0 as u128);
                s.append(" not found");
            },
            StorageError::SerDe(msg) => {
                s.append("serialization error: ");
                s.append(msg.as_str());
            },
            StorageError::Io(msg) => {
                s.append("I/O error: ");
                s.append(msg.as_str());
            },
            StorageError::CorruptHeader => s.append("corrupt database header"),
            StorageError::CsrEdgeGroupFull => s.append("CSR edge group is full"),
        }
        assert(s@ =~= self@.text());
        s
    }
}

/// Why a data file cannot be opened.
#[derive(Debug, PartialEq, Eq)]
pub enum OpenError {
    /// What stands in the file is refused.
    Storage(StorageError),
    /// The page is needed and not in the file. What reading it gives, the file's owner finds out.
    Unreadable(PageIdx),
}

/// What an [`OpenError`] stands for.
pub enum OpenErrorView {
    Storage(ErrorView),
    Unreadable(PageIdx),
}

impl View for OpenError {
    type V = OpenErrorView;

    open spec fn view(&self) -> OpenErrorView {
        match self {
            OpenError::Storage(e) => OpenErrorView::Storage(e@),
            OpenError::Unreadable(idx) => OpenErrorView::Unreadable(*idx),
        }
    }
}

} // verus!
