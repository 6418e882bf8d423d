//! The rows of one node's edges.

use vstd::prelude::*;

use crate::io::binary;
use crate::io::binary::{
    holds_at, low_u32, overwrite, u32_at, u32_le, u64_at, u64_le, words_at, words_le,
};
use crate::io::codec::Reading;
use crate::search;
use crate::search::{ascending, lower_bound};
use crate::types::RowIdx;

verus! {

broadcast use binary::group_lengths;

/// Sequential mode stores `(start, len)` (16 B regardless of degree); the
/// list explodes to `Sparse` on out-of-order insert or mid-list delete.
/// Mirrors Kuzu's `NodeCSRIndex` `isSequential` flag.
pub enum NodeEdgeList {
    Sequential { start: RowIdx, len: u32 },
    Sparse(Vec<RowIdx>),
}

/// What a [`NodeEdgeList`] stands for.
pub enum ListView {
    Sequential { start: u64, len: u32 },
    Sparse(Seq<u64>),
}

impl View for NodeEdgeList {
    type V = ListView;

    open spec fn view(&self) -> ListView {
        match self {
            NodeEdgeList::Sequential { start, len } => ListView::Sequential {
                start: *start,
                len: *len,
            },
            NodeEdgeList::Sparse(rows) => ListView::Sparse(rows@),
        }
    }
}

/// `n` numbers from `start` on.
pub open spec fn run(start: u64, n: nat) -> Seq<u64> {
    Seq::new(n, |i: int| (start + i) as u64)
}

/// Ascending numbers with one more at its place.
pub open spec fn insert_sorted(s: Seq<u64>, row: u64) -> Seq<u64> {
    s.insert(lower_bound(s, row) as int, row)
}

/// Ascending numbers without one of them.
pub open spec fn remove_sorted(s: Seq<u64>, row: u64) -> Seq<u64> {
    s.remove(lower_bound(s, row) as int)
}

impl ListView {
    pub open spec fn empty() -> ListView {
        ListView::Sequential { start: 0, len: 0 }
    }

    /// The rows of the list.
    pub open spec fn rows(self) -> Seq<u64> {
        match self {
            ListView::Sequential { start, len } => run(start, len as nat),
            ListView::Sparse(rows) => rows,
        }
    }

    /// The rows ascend.
    pub open spec fn ordered(self) -> bool {
        match self {
            ListView::Sequential { start, len } => start + len <= u64::MAX,
            ListView::Sparse(rows) => ascending(rows),
        }
    }

    /// The rows ascend, and all are below `bound`.
    pub open spec fn sound(self, bound: nat) -> bool {
        match self {
            ListView::Sequential { start, len } => len == 0 || start + len <= bound,
            ListView::Sparse(rows) => ascending(rows) && forall|i: int|
                0 <= i < rows.len() ==> rows[i] < bound,
        }
    }

    /// The list with one more row: a run goes on if the row continues it.
    pub open spec fn push(self, row: u64) -> ListView {
        match self {
            ListView::Sequential { start, len } => if len == 0 {
                ListView::Sequential { start: row, len: 1 }
            } else if row == start + len {
                ListView::Sequential { start, len: (len + 1) as u32 }
            } else {
                ListView::Sparse(insert_sorted(run(start, len as nat), row))
            },
            ListView::Sparse(rows) => ListView::Sparse(insert_sorted(rows, row)),
        }
    }

    /// The list without a row that it has. It is no run any more.
    pub open spec fn without(self, row: u64) -> ListView {
        ListView::Sparse(remove_sorted(self.rows(), row))
    }

    /// The list on disk: a run as its start and length, other rows one by one.
    pub open spec fn encoding(self) -> Seq<u8> {
        match self {
            ListView::Sequential { start, len } => seq![0u8] + u64_le(start) + u32_le(len),
            ListView::Sparse(rows) => seq![1u8] + u32_le(low_u32(rows.len() as int)) + words_le(
                rows,
            ),
        }
    }
}

pub open spec fn read_list(buf: Seq<u8>, pos: int) -> Reading<ListView> {
    if pos + 1 > buf.len() {
        None
    } else if buf[pos] == 0 {
        if pos + 13 > buf.len() {
            None
        } else {
            Some(
                (
                    ListView::Sequential { start: u64_at(buf, pos + 1), len: u32_at(buf, pos + 9) },
                    pos + 13,
                ),
            )
        }
    } else if pos + 5 > buf.len() {
        None
    } else {
        let n = u32_at(buf, pos + 1) as nat;
        if pos + 5 + 8 * n > buf.len() {
            None
        } else {
            Some((ListView::Sparse(words_at(buf, pos + 5, n)), pos + 5 + 8 * n))
        }
    }
}

// ---------------------------------------------------------------------------------------------
// Facts

pub proof fn lemma_ordered_rows(list: ListView)
    requires
        list.ordered(),
    ensures
        ascending(list.rows()),
{
}

pub proof fn lemma_sound_rows(list: ListView, bound: nat)
    requires
        list.sound(bound),
        bound <= u64::MAX,
    ensures
        list.ordered(),
        ascending(list.rows()),
        forall|i: int| 0 <= i < list.rows().len() ==> list.rows()[i] < bound,
{
}

/// A row behind all others goes to the end.
pub proof fn lemma_insert_last(s: Seq<u64>, row: u64)
    requires
        forall|i: int| 0 <= i < s.len() ==> s[i] < row,
    ensures
        insert_sorted(s, row) == s.push(row),
{
    if s.len() > 0 {
        assert(s.last() < row);
    }
    assert(insert_sorted(s, row) =~= s.push(row));
}

/// A list with a row behind all others: the row comes last, and the list is sound for the higher
/// bound.
pub proof fn lemma_push_last(list: ListView, bound: nat)
    requires
        list.sound(bound),
        bound < u32::MAX,
    ensures
        list.push(bound as u64).rows() == list.rows().push(bound as u64),
        list.push(bound as u64).sound(bound + 1),
{
    lemma_sound_rows(list, bound);
    let row = bound as u64;
    lemma_insert_last(list.rows(), row);
    match list {
        ListView::Sequential { start, len } => {
            if len == 0 {
                assert(list.push(row).rows() =~= list.rows().push(row));
            } else if row == start + len {
                assert(list.push(row).rows() =~= list.rows().push(row));
            }
        },
        ListView::Sparse(rows) => {},
    }
}

/// Removing a row leaves the others in order.
pub proof fn lemma_without(list: ListView, row: u64, bound: nat)
    requires
        list.sound(bound),
        bound <= u64::MAX,
        list.rows().contains(row),
    ensures
        list.without(row).sound(bound),
        list.without(row).rows().len() == list.rows().len() - 1,
        !list.without(row).rows().contains(row),
        forall|r: u64|
            r != row ==> (#[trigger] list.without(row).rows().contains(r) <==> list.rows().contains(
                r,
            )),
{
    lemma_sound_rows(list, bound);
    let s = list.rows();
    let t = list.without(row).rows();
    search::lemma_lower_bound(s, row);
    search::lemma_contains_at(s, row);
    let p = lower_bound(s, row) as int;
    assert forall|i: int| 0 <= i < t.len() implies t[i] == s[if i < p {
        i
    } else {
        i + 1
    }] by {}
    assert forall|r: u64| r != row implies (#[trigger] t.contains(r) <==> s.contains(r)) by {
        if s.contains(r) {
            let i = choose|i: int| 0 <= i < s.len() && s[i] == r;
            let k = if i < p {
                i
            } else {
                i - 1
            };
            assert(t[k] == r);
        }
        if t.contains(r) {
            let k = choose|k: int| 0 <= k < t.len() && t[k] == r;
            let i = if k < p {
                k
            } else {
                k + 1
            };
            assert(s[i] == r);
        }
    }
}

/// A list that was written is read back as it was.
pub proof fn lemma_list_roundtrip(list: ListView, buf: Seq<u8>, pos: int)
    requires
        list.rows().len() <= u32::MAX,
        holds_at(buf, pos, list.encoding()),
    ensures
        read_list(buf, pos) == Some((list, pos + list.encoding().len())),
{
    match list {
        ListView::Sequential { start, len } => {
            let e1 = seq![0u8];
            let e2 = e1 + u64_le(start);
            binary::lemma_holds_append(buf, pos, e2, u32_le(len));
            binary::lemma_holds_append(buf, pos, e1, u64_le(start));
            binary::lemma_holds_subrange(buf, pos, e1);
            assert(buf.subrange(pos, pos + 1)[0] == buf[pos]);
            binary::lemma_u64_at(buf, pos + 1, start);
            binary::lemma_u32_at(buf, pos + 9, len);
        },
        ListView::Sparse(rows) => {
            let n = rows.len() as u32;
            assert(low_u32(rows.len() as int) == n);
            let e1 = seq![1u8];
            let e2 = e1 + u32_le(n);
            binary::lemma_holds_append(buf, pos, e2, words_le(rows));
            binary::lemma_holds_append(buf, pos, e1, u32_le(n));
            binary::lemma_holds_subrange(buf, pos, e1);
            assert(buf.subrange(pos, pos + 1)[0] == buf[pos]);
            binary::lemma_u32_at(buf, pos + 1, n);
            binary::lemma_words_at(buf, pos + 5, rows);
        },
    }
}

// ---------------------------------------------------------------------------------------------
// The list

impl NodeEdgeList {
    pub fn empty() -> (list: Self)
        ensures
            list@ == ListView::empty(),
    {
        NodeEdgeList::Sequential { start: 0, len: 0 }
    }

    pub fn is_empty(&self) -> (b: bool)
        ensures
            b == (self@.rows().len() == 0),
    {
        match self {
            NodeEdgeList::Sequential { len, .. } => *len == 0,
            NodeEdgeList::Sparse(rows) => rows.len() == 0,
        }
    }

    /// The rows from `start` on.
    fn explode(start: RowIdx, len: u32) -> (rows: Vec<RowIdx>)
        requires
            start + len <= u64::MAX,
        ensures
            rows@ == run(start, len as nat),
    {
        let mut rows: Vec<RowIdx> = Vec::new();
        let mut i: u32 = 0;
        while i < len
            invariant
                i <= len,
                start + len <= u64::MAX,
                rows@ == run(start, i as nat),
            decreases len - i,
        {
            rows.push(start + i as u64);
            i = i + 1;
            assert(rows@ =~= run(start, i as nat));
        }
        rows
    }

    /// Maintains sequential mode if the new row continues the contiguous range;
    /// otherwise explodes to Sparse.
    pub fn push(&mut self, row: RowIdx)
        requires
            old(self)@.ordered(),
            old(self)@.rows().len() < u32::MAX,
        ensures
            final(self)@ == old(self)@.push(row),
    {
        proof {
            lemma_ordered_rows(self@);
        }
        match self {
            NodeEdgeList::Sequential { start, len } => {
                let s: u64 = *start;
                let n: u32 = *len;
                if n == 0 {
                    *self = NodeEdgeList::Sequential { start: row, len: 1 };
                } else if row == s + n as u64 {
                    *self = NodeEdgeList::Sequential { start: s, len: n + 1 };
                } else {
                    let mut rows = Self::explode(s, n);
                    let pos: usize = search::lower_bound_of(&rows, row);
                    rows.insert(pos, row);
                    *self = NodeEdgeList::Sparse(rows);
                }
            },
            NodeEdgeList::Sparse(rows) => {
                let pos: usize = search::lower_bound_of(rows, row);
                rows.insert(pos, row);
            },
        }
    }

    /// Whether a row is in the list.
    pub fn contains(&self, row: RowIdx) -> (b: bool)
        requires
            self@.ordered(),
        ensures
            b == self@.rows().contains(row),
    {
        proof {
            lemma_ordered_rows(self@);
            search::lemma_contains_at(self@.rows(), row);
        }
        match self {
            NodeEdgeList::Sequential { start, len } => {
                let b = row >= *start && row - *start < *len as u64;
                proof {
                    if b {
                        assert(self@.rows()[row - *start] == row);
                    }
                }
                b
            },
            NodeEdgeList::Sparse(rows) => {
                let pos: usize = search::lower_bound_of(rows, row);
                pos < rows.len() && rows[pos] == row
            },
        }
    }

    /// Explodes Sequential to Sparse. Returns `true` if the row was present.
    pub fn remove(&mut self, row: RowIdx) -> (present: bool)
        requires
            old(self)@.ordered(),
        ensures
            present == old(self)@.rows().contains(row),
            final(self)@ == (if present {
                old(self)@.without(row)
            } else {
                old(self)@
            }),
    {
        proof {
            lemma_ordered_rows(self@);
            search::lemma_contains_at(self@.rows(), row);
        }
        match self {
            NodeEdgeList::Sequential { start, len } => {
                let s: u64 = *start;
                let n: u32 = *len;
                if n == 0 || row < s || row - s >= n as u64 {
                    return false;
                }
                let ghost whole = run(s, n as nat);
                assert(whole[row - s] == row);
                let mut rows = Self::explode(s, n);
                let pos: usize = search::lower_bound_of(&rows, row);
                rows.remove(pos);
                *self = NodeEdgeList::Sparse(rows);
                true
            },
            NodeEdgeList::Sparse(rows) => {
                let pos: usize = search::lower_bound_of(rows, row);
                if pos < rows.len() && rows[pos] == row {
                    rows.remove(pos);
                    true
                } else {
                    false
                }
            },
        }
    }

    /// Whether the rows ascend and all are below `bound`.
    pub fn is_sound(&self, bound: u64) -> (b: bool)
        ensures
            b == self@.sound(bound as nat),
    {
        match self {
            NodeEdgeList::Sequential { start, len } => *len == 0 || (*start <= bound && *len as u64
                <= bound - *start),
            NodeEdgeList::Sparse(rows) => {
                let mut i: usize = 0;
                while i < rows.len()
                    invariant
                        i <= rows@.len(),
                        self@ == ListView::Sparse(rows@),
                        forall|j: int| 0 <= j < i ==> rows@[j] < bound,
                        forall|j: int, k: int| 0 <= j < k < i ==> rows@[j] < rows@[k],
                    decreases rows@.len() - i,
                {
                    if rows[i] >= bound {
                        return false;
                    }
                    if i > 0 && rows[i - 1] >= rows[i] {
                        return false;
                    }
                    i = i + 1;
                }
                true
            },
        }
    }

    /// The number of bytes of the list on disk; `None` where it is too large.
    pub fn checked_len(&self) -> (len: Option<usize>)
        ensures
            match len {
                Some(n) => n == self@.encoding().len(),
                None => self@.encoding().len() > usize::MAX,
            },
    {
        match self {
            NodeEdgeList::Sequential { .. } => {
                assert(self@.encoding().len() == 13);
                Some(13)
            },
            NodeEdgeList::Sparse(rows) => {
                assert(self@.encoding().len() == 5 + 8 * rows@.len());
                if rows.len() > (usize::MAX - 5) / 8 {
                    None
                } else {
                    Some(5 + rows.len() * 8)
                }
            },
        }
    }

    pub fn serialize_entry(&self, buf: &mut [u8], pos: &mut usize)
        requires
            *old(pos) + self@.encoding().len() <= old(buf)@.len(),
        ensures
            final(buf)@ == overwrite(old(buf)@, *old(pos) as int, self@.encoding()),
            final(buf)@.len() == old(buf)@.len(),
            *final(pos) == *old(pos) + self@.encoding().len(),
    {
        let ghost b0 = buf@;
        let ghost p0 = *pos as int;
        match self {
            NodeEdgeList::Sequential { start, len } => {
                binary::write_u8(buf, pos, 0);
                binary::write_u64(buf, pos, *start);
                binary::write_u32(buf, pos, *len);
                proof {
                    binary::lemma_overwrite_append(b0, p0, seq![0u8], u64_le(*start));
                    binary::lemma_overwrite_append(
                        b0,
                        p0,
                        seq![0u8] + u64_le(*start),
                        u32_le(*len),
                    );
                }
            },
            NodeEdgeList::Sparse(rows) => {
                let ghost n = low_u32(rows@.len() as int);
                binary::write_u8(buf, pos, 1);
                binary::write_u32(buf, pos, binary::to_low_u32(rows.len()));
                write_words(rows, buf, pos);
                proof {
                    binary::lemma_overwrite_append(b0, p0, seq![1u8], u32_le(n));
                    binary::lemma_overwrite_append(
                        b0,
                        p0,
                        seq![1u8] + u32_le(n),
                        words_le(rows@),
                    );
                }
            },
        }
    }

    /// Reads a list; `None` where the buffer ends too early.
    pub fn try_deserialize_entry(buf: &[u8], pos: &mut usize) -> (r: Option<Self>)
        requires
            *old(pos) <= buf@.len(),
        ensures
            match r {
                Some(list) => read_list(buf@, *old(pos) as int) == Some(
                    (list@, *final(pos) as int),
                ) && *final(pos) <= buf@.len(),
                None => read_list(buf@, *old(pos) as int) is None,
            },
    {
        if buf.len() - *pos < 1 {
            return None;
        }
        let tag: u8 = binary::read_u8(buf, pos);
        if tag == 0 {
            if buf.len() - *pos < 12 {
                return None;
            }
            let start: u64 = binary::read_u64(buf, pos);
            let len: u32 = binary::read_u32(buf, pos);
            Some(NodeEdgeList::Sequential { start, len })
        } else {
            if buf.len() - *pos < 4 {
                return None;
            }
            let n: usize = binary::read_u32(buf, pos) as usize;
            if n > (buf.len() - *pos) / 8 {
                return None;
            }
            Some(NodeEdgeList::Sparse(read_words(buf, pos, n)))
        }
    }
}

/// Writes words.
pub fn write_words(words: &Vec<u64>, buf: &mut [u8], pos: &mut usize)
    requires
        *old(pos) + 8 * words@.len() <= old(buf)@.len(),
    ensures
        final(buf)@ == overwrite(old(buf)@, *old(pos) as int, words_le(words@)),
        final(buf)@.len() == old(buf)@.len(),
        *final(pos) == *old(pos) + 8 * words@.len(),
{
    let ghost start = *pos as int;
    let mut i: usize = 0;
    proof {
        binary::lemma_overwrite_empty(buf@, start);
        assert(words_le(words@.take(0)) =~= Seq::empty());
    }
    while i < words.len()
        invariant
            i <= words@.len(),
            start == *old(pos),
            *pos == start + 8 * i,
            start + 8 * words@.len() <= old(buf)@.len(),
            buf@.len() == old(buf)@.len(),
            buf@ == overwrite(old(buf)@, start, words_le(words@.take(i as int))),
        decreases words@.len() - i,
    {
        let w: u64 = words[i];
        binary::write_u64(buf, pos, w);
        proof {
            assert(words@.take(i + 1) =~= words@.take(i as int).push(w));
            binary::lemma_overwrite_append(
                old(buf)@,
                start,
                words_le(words@.take(i as int)),
                u64_le(w),
            );
            binary::lemma_words_push(words@.take(i as int), w);
        }
        i = i + 1;
    }
    assert(words@.take(words@.len() as int) =~= words@);
}

/// Reads `n` words.
pub fn read_words(buf: &[u8], pos: &mut usize, n: usize) -> (v: Vec<u64>)
    requires
        *old(pos) + 8 * n <= buf@.len(),
    ensures
        v@ == words_at(buf@, *old(pos) as int, n as nat),
        *final(pos) == *old(pos) + 8 * n,
{
    let mut v: Vec<u64> = Vec::new();
    while v.len() < n
        invariant
            v@.len() <= n,
            *pos == *old(pos) + 8 * v@.len(),
            *old(pos) + 8 * n <= buf@.len(),
            forall|i: int| 0 <= i < v@.len() ==> v@[i] == u64_at(buf@, *old(pos) + 8 * i),
        decreases n - v@.len(),
    {
        let w: u64 = binary::read_u64(buf, pos);
        v.push(w);
    }
    assert(v@ =~= words_at(buf@, *old(pos) as int, n as nat));
    v
}

// ---------------------------------------------------------------------------------------------
// The iterator

/// Iterator over row indices stored by a `NodeEdgeList`.
pub enum NodeEdgeIter<'a> {
    Sequential { current: u64, end: u64 },
    Sparse { rows: &'a Vec<RowIdx>, position: usize },
    Empty,
}

impl<'a> NodeEdgeIter<'a> {
    /// The rows that are still to come.
    pub open spec fn remaining(&self) -> Seq<u64> {
        match self {
            NodeEdgeIter::Sequential { current, end } => if *current <= *end {
                run(*current, (*end - *current) as nat)
            } else {
                Seq::empty()
            },
            NodeEdgeIter::Sparse { rows, position } => if *position <= rows@.len() {
                rows@.skip(*position as int)
            } else {
                Seq::empty()
            },
            NodeEdgeIter::Empty => Seq::empty(),
        }
    }

    pub fn from_list(list: &'a NodeEdgeList) -> (it: Self)
        requires
            list@.ordered(),
        ensures
            it.remaining() == list@.rows(),
    {
        match list {
            NodeEdgeList::Sequential { start, len } => {
                let it = NodeEdgeIter::Sequential { current: *start, end: *start + *len as u64 };
                assert(it.remaining() =~= list@.rows());
                it
            },
            NodeEdgeList::Sparse(rows) => {
                let it = NodeEdgeIter::Sparse { rows, position: 0 };
                assert(it.remaining() =~= list@.rows());
                it
            },
        }
    }

    /// The next row.
    pub fn next(&mut self) -> (r: Option<RowIdx>)
        ensures
            match r {
                Some(row) => old(self).remaining().len() > 0 && row == old(self).remaining()[0]
                    && final(self).remaining() == old(self).remaining().skip(1),
                None => old(self).remaining().len() == 0 && final(self).remaining().len() == 0,
            },
    {
        match self {
            NodeEdgeIter::Sequential { current, end } => {
                if *current < *end {
                    let row: u64 = *current;
                    *current = row + 1;
                    assert(self.remaining() =~= old(self).remaining().skip(1));
                    Some(row)
                } else {
                    None
                }
            },
            NodeEdgeIter::Sparse { rows, position } => {
                let i: usize = *position;
                if i < rows.len() {
                    let row: u64 = rows[i];
                    *position = i + 1;
                    assert(self.remaining() =~= old(self).remaining().skip(1));
                    Some(row)
                } else {
                    None
                }
            },
            NodeEdgeIter::Empty => None,
        }
    }

    /// The rows that are still to come.
    pub fn collect(self) -> (rows: Vec<RowIdx>)
        ensures
            rows@ == self.remaining(),
    {
        let mut it = self;
        let mut rows: Vec<RowIdx> = Vec::new();
        let ghost all = self.remaining();
        loop
            invariant
                all == rows@ + it.remaining(),
            ensures
                rows@ == all,
            decreases it.remaining().len(),
        {
            let ghost rest = it.remaining();
            match it.next() {
                Some(row) => {
                    let ghost before = rows@;
                    rows.push(row);
                    assert(rows@ + it.remaining() =~= before + rest);
                },
                None => {
                    assert(rows@ + rest =~= rows@);
                    break;
                },
            }
        }
        rows
    }

    /// How many rows are still to come.
    pub fn count(self) -> (n: usize)
        ensures
            n == self.remaining().len(),
    {
        self.collect().len()
    }
}

// ---------------------------------------------------------------------------------------------
// Laws

/// After a row was added that the list did not have, its rows are those it had and the new one, in
/// ascending order.
pub proof fn law_push(list: ListView, row: u64)
    requires
        list.ordered(),
        list.rows().len() < u32::MAX,
        row < u64::MAX,
        !list.rows().contains(row),
    ensures
        list.push(row).ordered(),
        ascending(list.push(row).rows()),
        list.push(row).rows().len() == list.rows().len() + 1,
        forall|r: u64| #[trigger]
            list.push(row).rows().contains(r) <==> r == row || list.rows().contains(r),
{
    lemma_ordered_rows(list);
    let s = list.rows();
    let t = list.push(row).rows();
    search::lemma_lower_bound(s, row);
    search::lemma_contains_at(s, row);
    let p = lower_bound(s, row) as int;
    assert(t == s.insert(p, row)) by {
        match list {
            ListView::Sequential { start, len } => {
                if len > 0 && row == start + len {
                    assert(s[len - 1] < row);
                    lemma_insert_last(s, row);
                    assert(t =~= s.push(row));
                } else if len == 0 {
                    assert(t =~= s.insert(p, row));
                }
            },
            ListView::Sparse(_) => {},
        }
    }
    assert forall|i: int, j: int| 0 <= i < j < t.len() implies t[i] < t[j] by {
        if i < p && j > p {
            assert(s[i] < s[j - 1]);
        } else if i < p && j == p {
            assert(s[i] < row);
        } else if i == p {
            assert(s[j - 1] >= row && s[j - 1] != row);
        } else if i > p {
            assert(s[i - 1] < s[j - 1]);
        } else {
            assert(s[i] < s[j]);
        }
    }
    assert forall|r: u64| #[trigger] t.contains(r) <==> r == row || s.contains(r) by {
        if t.contains(r) {
            let i = choose|i: int| 0 <= i < t.len() && t[i] == r;
            if i < p {
                assert(s[i] == r);
            } else if i > p {
                assert(s[i - 1] == r);
            }
        }
        if r == row {
            assert(t[p] == r);
        }
        if s.contains(r) {
            let i = choose|i: int| 0 <= i < s.len() && s[i] == r;
            if i < p {
                assert(t[i] == r);
            } else {
                assert(t[i + 1] == r);
            }
        }
    }
}

/// A new list has no rows.
pub proof fn law_empty_list()
    ensures
        ListView::empty().ordered(),
        ListView::empty().rows().len() == 0,
{
}

} // verus!
