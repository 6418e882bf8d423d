//! Fixed-size pages.

use vstd::prelude::*;
use vstd::string::StringExecFns;

use crate::io::binary;
use crate::io::binary::holds_at;
use crate::io::codec;
use crate::io::codec::{blob_start, concat};
use crate::types::{PageIdx, PageRange};

verus! {

broadcast use binary::group_lengths;

/// A fixed-size page: the fundamental I/O unit.
///
/// All disk reads and writes are in page-sized units.
/// Physical references on disk are stable (page_idx, slot) pairs, not raw pointers.
pub struct Page {
    data: Box<[u8; 4096]>,
}

impl View for Page {
    type V = Seq<u8>;

    closed spec fn view(&self) -> Seq<u8> {
        self.data@
    }
}

/// The bytes of an empty page.
pub open spec fn zero_page() -> Seq<u8> {
    Seq::new(4096, |i: int| 0u8)
}

/// The page of the first bytes of a block; what is missing at its end is zero.
pub open spec fn page_of(bytes: Seq<u8>) -> Seq<u8> {
    Seq::new(
        4096,
        |i: int|
            if i < bytes.len() {
                bytes[i]
            } else {
                0
            },
    )
}

impl Page {
    #[must_use]
    pub fn new() -> (page: Self)
        ensures
            page@ == zero_page(),
    {
        let page = Page { data: Box::new([0u8;4096]) };
        assert(page@ =~= zero_page());
        page
    }

    /// A page that starts with `bytes`. Bytes past the page's end are left out.
    #[must_use]
    pub fn from_bytes(bytes: &[u8]) -> (page: Self)
        ensures
            page@ == page_of(bytes@),
    {
        let mut data: [u8; 4096] = [0u8;4096];
        let len: usize = if bytes.len() < 4096 {
            bytes.len()
        } else {
            4096
        };
        let mut i: usize = 0;
        while i < len
            invariant
                i <= len <= 4096,
                len <= bytes@.len(),
                forall|j: int| 0 <= j < i ==> data@[j] == bytes@[j],
                forall|j: int| i <= j < 4096 ==> data@[j] == 0,
            decreases len - i,
        {
            data[i] = bytes[i];
            i = i + 1;
        }
        assert(data@ =~= page_of(bytes@));
        Page { data: Box::new(data) }
    }

    #[must_use]
    pub fn to_vec(&self) -> (bytes: Vec<u8>)
        ensures
            bytes@ == self@,
            bytes@.len() == 4096,
    {
        vstd::slice::slice_to_vec(self.as_bytes())
    }

    pub fn as_bytes(&self) -> (bytes: &[u8])
        ensures
            bytes@ == self@,
            bytes@.len() == 4096,
    {
        self.data.as_slice()
    }

    pub fn as_bytes_mut(&mut self) -> (bytes: &mut [u8])
        ensures
            bytes@ == old(self)@,
            bytes@.len() == 4096,
            final(self)@ == final(bytes)@,
    {
        let data: &mut [u8; 4096] = &mut self.data;
        data
    }

    /// `Page(4096 bytes)`.
    pub fn display(&self) -> (s: String)
        ensures
            s@ == "Page(4096 bytes)"@,
    {
        let mut s = String::new();
        s.append("Page(4096 bytes)");
        assert(s@ =~= "Page(4096 bytes)"@);
        s
    }
}

impl Default for Page {
    fn default() -> (page: Self)
        ensures
            page@ == zero_page(),
    {
        Page::new()
    }
}

/// A page made of a whole page of bytes holds those bytes.
pub proof fn law_page_keeps_bytes(bytes: Seq<u8>)
    requires
        bytes.len() == 4096,
    ensures
        page_of(bytes) == bytes,
{
    assert(page_of(bytes) =~= bytes);
}

// ---------------------------------------------------------------------------------------------
// Blocks of bytes on pages

/// The number of pages that a block takes.
pub open spec fn page_count(len: nat) -> nat {
    (len + 4095) / 4096
}

/// A block on pages; the last one is filled up with zeros.
pub open spec fn pages_of(bytes: Seq<u8>) -> Seq<Seq<u8>> {
    Seq::new(page_count(bytes.len()), |i: int| page_of(bytes.skip(4096 * i)))
}

pub open spec fn pages_view(pages: Seq<Page>) -> Seq<Seq<u8>> {
    Seq::new(pages.len(), |i: int| pages[i]@)
}

/// The bytes of all pages.
pub proof fn lemma_joined_len(pages: Seq<Seq<u8>>)
    requires
        forall|i: int| 0 <= i < pages.len() ==> (#[trigger] pages[i]).len() == 4096,
    ensures
        concat(pages).len() == 4096 * pages.len(),
        forall|i: int| 0 <= i <= pages.len() ==> #[trigger] blob_start(pages, i) == 4096 * i,
{
    codec::lemma_concat_uniform(pages, 4096);
    assert forall|i: int| 0 <= i <= pages.len() implies #[trigger] blob_start(pages, i) == 4096
        * i by {
        codec::lemma_concat_uniform(pages.take(i), 4096);
    }
}

/// What was put on pages stands at the start of what the pages hold.
pub proof fn lemma_pages_hold(bytes: Seq<u8>)
    ensures
        holds_at(concat(pages_of(bytes)), 0, bytes),
        concat(pages_of(bytes)).len() == 4096 * page_count(bytes.len()),
{
    let pages = pages_of(bytes);
    let all = concat(pages);
    lemma_joined_len(pages);
    codec::lemma_concat_self(pages);
    assert forall|k: int| 0 <= k < bytes.len() implies #[trigger] bytes[k] == all[0 + k] by {
        let i = k / 4096;
        assert(0 <= i < pages.len());
        codec::lemma_concat_holds(all, 0, pages, i);
        assert(blob_start(pages, i) == 4096 * i);
        binary::lemma_holds_subrange(all, 4096 * i, pages[i]);
        assert(all.subrange(4096 * i, 4096 * i + 4096)[k - 4096 * i] == all[k]);
        assert(pages[i][k - 4096 * i] == bytes.skip(4096 * i)[k - 4096 * i]);
    }
    reveal(holds_at);
}

/// Puts a block on pages.
pub fn split_into_pages(buf: &[u8]) -> (pages: Vec<Page>)
    ensures
        pages_view(pages@) == pages_of(buf@),
{
    let mut pages: Vec<Page> = Vec::new();
    let mut pos: usize = 0;
    while pos < buf.len()
        invariant
            pos <= buf@.len(),
            pos == 4096 * pages@.len() || pos == buf@.len() && pages@.len() == page_count(
                buf@.len(),
            ),
            pages@.len() <= page_count(buf@.len()),
            forall|i: int|
                0 <= i < pages@.len() ==> #[trigger] pages@[i]@ == page_of(buf@.skip(4096 * i)),
        decreases buf@.len() - pos,
    {
        let rest: usize = buf.len() - pos;
        let len: usize = if rest < 4096 {
            rest
        } else {
            4096
        };
        let page = Page::from_bytes(vstd::slice::slice_subrange(buf, pos, pos + len));
        assert(page@ =~= page_of(buf@.skip(pos as int)));
        pages.push(page);
        pos = pos + len;
    }
    assert(pages_view(pages@) =~= pages_of(buf@));
    pages
}

/// The bytes of the pages one after the other.
pub fn join_pages(pages: &[Page]) -> (buf: Vec<u8>)
    ensures
        buf@ == concat(pages_view(pages@)),
{
    let ghost views = pages_view(pages@);
    let mut buf: Vec<u8> = Vec::new();
    let mut i: usize = 0;
    assert(views.take(0) =~= Seq::empty());
    while i < pages.len()
        invariant
            i <= pages@.len(),
            views == pages_view(pages@),
            buf@ == concat(views.take(i as int)),
        decreases pages@.len() - i,
    {
        let mut bytes = pages[i].to_vec();
        let ghost before = buf@;
        buf.append(&mut bytes);
        proof {
            codec::lemma_concat_take(views, i as int);
            assert(buf@ =~= before + views[i as int]);
        }
        i = i + 1;
    }
    assert(views.take(views.len() as int) =~= views);
    buf
}

/// The pages of a data file.
pub type Disk = Seq<Seq<u8>>;

/// The range lies within the file, behind the header page.
pub open spec fn on_disk(disk: Disk, range: PageRange) -> bool {
    0 < range.start_page.0 && range.start_page.0 + range.num_pages <= disk.len()
}

/// The bytes of a range of pages.
pub open spec fn block_at(disk: Disk, range: PageRange) -> Seq<u8> {
    concat(
        disk.subrange(
            range.start_page.0 as int,
            range.start_page.0 + range.num_pages,
        ),
    )
}

/// The range that pages take which are appended to the file.
pub open spec fn appended_range(disk: Disk, pages: Seq<Seq<u8>>) -> PageRange {
    PageRange { start_page: PageIdx(disk.len() as u64), num_pages: pages.len() as u32 }
}

/// What is on the data pages of one file is on those of the other, too.
pub open spec fn extends(disk: Disk, before: Disk) -> bool {
    &&& disk.len() >= before.len()
    &&& forall|range: PageRange| #[trigger]
        on_disk(before, range) ==> on_disk(disk, range) && block_at(disk, range) == block_at(
            before,
            range,
        )
}

/// What was appended is read back, and what was there before is read as before.
pub proof fn law_append_pages(disk: Disk, pages: Seq<Seq<u8>>)
    requires
        0 < disk.len() <= u64::MAX,
        pages.len() <= u32::MAX,
    ensures
        on_disk(disk + pages, appended_range(disk, pages)),
        block_at(disk + pages, appended_range(disk, pages)) == concat(pages),
        extends(disk + pages, disk),
{
    let r = appended_range(disk, pages);
    assert((disk + pages).subrange(r.start_page.0 as int, r.start_page.0 + r.num_pages) =~= pages);
    assert forall|range: PageRange| #[trigger] on_disk(disk, range) implies on_disk(
        disk + pages,
        range,
    ) && block_at(disk + pages, range) == block_at(disk, range) by {
        assert((disk + pages).subrange(
            range.start_page.0 as int,
            range.start_page.0 + range.num_pages,
        ) =~= disk.subrange(range.start_page.0 as int, range.start_page.0 + range.num_pages));
    }
}

/// Writing the header page leaves what is on the other pages.
pub proof fn law_write_header_page(disk: Disk, page: Seq<u8>)
    ensures
        extends(disk.update(0, page), disk),
{
    let after = disk.update(0, page);
    assert forall|range: PageRange| #[trigger] on_disk(disk, range) implies on_disk(after, range)
        && block_at(after, range) == block_at(disk, range) by {
        assert(after.subrange(range.start_page.0 as int, range.start_page.0 + range.num_pages)
            =~= disk.subrange(range.start_page.0 as int, range.start_page.0 + range.num_pages));
    }
}

/// What reading a range of pages gives: their bytes, or the first of them that is not in the file.
pub open spec fn read_range(disk: Disk, range: PageRange) -> Result<Seq<u8>, PageIdx> {
    let start = range.start_page.0;
    if range.num_pages == 0 {
        Ok(Seq::empty())
    } else if start + range.num_pages <= disk.len() {
        Ok(block_at(disk, range))
    } else if start < disk.len() {
        Err(PageIdx(disk.len() as u64))
    } else {
        Err(range.start_page)
    }
}

/// What reading ranges one after the other gives: the bytes of those before the first that cannot be
/// read, and the page that is missing for it.
#[verifier::ext_equal]
pub struct RangesRead {
    pub blocks: Seq<Seq<u8>>,
    pub missing: Option<PageIdx>,
}

/// What reading the first `n` of some ranges one after the other gives.
pub open spec fn read_ranges(disk: Disk, ranges: Seq<PageRange>, n: nat) -> RangesRead
    decreases n,
{
    if n == 0 {
        RangesRead { blocks: Seq::empty(), missing: None }
    } else {
        let before = read_ranges(disk, ranges, (n - 1) as nat);
        if before.missing is Some {
            before
        } else {
            match read_range(disk, ranges[n - 1]) {
                Ok(block) => RangesRead { blocks: before.blocks.push(block), missing: None },
                Err(idx) => RangesRead { missing: Some(idx), ..before },
            }
        }
    }
}

/// A range that is in the file can be read.
pub proof fn law_read_range(disk: Disk, range: PageRange)
    requires
        on_disk(disk, range),
    ensures
        read_range(disk, range) == Ok::<Seq<u8>, PageIdx>(block_at(disk, range)),
{
    if range.num_pages == 0 {
        assert(disk.subrange(range.start_page.0 as int, range.start_page.0 as int)
            =~= Seq::empty());
        assert(block_at(disk, range) =~= Seq::empty());
    }
}

/// Ranges that are in the file can be read.
pub proof fn law_read_ranges(disk: Disk, ranges: Seq<PageRange>, n: nat)
    requires
        n <= ranges.len(),
        forall|i: int| 0 <= i < n ==> on_disk(disk, #[trigger] ranges[i]),
    ensures
        read_ranges(disk, ranges, n) == (RangesRead {
            blocks: Seq::new(n, |i: int| block_at(disk, ranges[i])),
            missing: None,
        }),
    decreases n,
{
    let blocks = Seq::new(n, |i: int| block_at(disk, ranges[i]));
    if n > 0 {
        let m = (n - 1) as nat;
        law_read_ranges(disk, ranges, m);
        let range = ranges[m as int];
        assert(on_disk(disk, range));
        law_read_range(disk, range);
        assert(Seq::new(m, |i: int| block_at(disk, ranges[i])).push(block_at(disk, range))
            =~= blocks);
    } else {
        assert(blocks =~= Seq::empty());
    }
}

proof fn lemma_ranges_stuck(disk: Disk, ranges: Seq<PageRange>, i: nat, n: nat)
    requires
        i <= n,
        read_ranges(disk, ranges, i).missing is Some,
    ensures
        read_ranges(disk, ranges, n) == read_ranges(disk, ranges, i),
    decreases n - i,
{
    if i < n {
        lemma_ranges_stuck(disk, ranges, i, (n - 1) as nat);
    }
}

/// Reads a range of the pages of a file, or tells the first that is not in it.
pub fn read_page_range(file: &[Page], range: PageRange) -> (r: Result<Vec<Page>, PageIdx>)
    ensures
        match r {
            Ok(pages) => read_range(pages_view(file@), range) == Ok::<Seq<u8>, PageIdx>(
                concat(pages_view(pages@)),
            ),
            Err(idx) => read_range(pages_view(file@), range) == Err::<Seq<u8>, PageIdx>(idx),
        },
{
    let ghost disk = pages_view(file@);
    let mut pages: Vec<Page> = Vec::new();
    if range.num_pages == 0 {
        assert(concat(pages_view(pages@)) =~= Seq::empty());
        return Ok(pages);
    }
    let total: usize = file.len();
    let len: u64 = total as u64;
    let start: u64 = range.start_page.0;
    if start > len || range.num_pages as u64 > len - start {
        if start < len {
            return Err(PageIdx(len));
        }
        return Err(range.start_page);
    }
    let first: usize = start as usize;
    let count: usize = range.num_pages as usize;
    let mut i: usize = 0;
    while i < count
        invariant
            i <= count,
            first + count <= total,
            total == file@.len(),
            pages@.len() == i,
            forall|j: int| 0 <= j < i ==> #[trigger] pages@[j]@ == file@[first + j]@,
        decreases count - i,
    {
        let page = Page::from_bytes(file[first + i].as_bytes());
        proof {
            law_page_keeps_bytes(file@[first + i]@);
        }
        pages.push(page);
        i = i + 1;
    }
    assert(pages_view(pages@) =~= disk.subrange(first as int, first + count));
    Ok(pages)
}

/// The bytes of blocks of pages.
pub open spec fn joined_blocks(blocks: Seq<Vec<Page>>) -> Seq<Seq<u8>> {
    Seq::new(blocks.len(), |i: int| concat(pages_view(blocks[i]@)))
}

/// Reads ranges of the pages of a file one after the other, up to the first that is not in it, of
/// which it tells the page that is missing.
pub fn read_page_ranges(file: &[Page], ranges: &[PageRange]) -> (r: (
    Vec<Vec<Page>>,
    Option<PageIdx>,
))
    ensures
        read_ranges(pages_view(file@), ranges@, ranges@.len()) == (RangesRead {
            blocks: joined_blocks(r.0@),
            missing: r.1,
        }),
        r.0@.len() <= ranges@.len(),
        r.1 is None ==> r.0@.len() == ranges@.len(),
{
    let ghost disk = pages_view(file@);
    let mut blocks: Vec<Vec<Page>> = Vec::new();
    let mut i: usize = 0;
    assert(joined_blocks(blocks@) =~= Seq::empty());
    while i < ranges.len()
        invariant
            i <= ranges@.len(),
            disk == pages_view(file@),
            blocks@.len() == i,
            read_ranges(disk, ranges@, i as nat) == (RangesRead {
                blocks: joined_blocks(blocks@),
                missing: None,
            }),
        decreases ranges@.len() - i,
    {
        let ghost before = blocks@;
        match read_page_range(file, ranges[i]) {
            Ok(pages) => {
                let ghost block = concat(pages_view(pages@));
                blocks.push(pages);
                assert(joined_blocks(blocks@) =~= joined_blocks(before).push(block));
            },
            Err(idx) => {
                proof {
                    lemma_ranges_stuck(disk, ranges@, (i + 1) as nat, ranges@.len());
                }
                return (blocks, Some(idx));
            },
        }
        i = i + 1;
    }
    (blocks, None)
}

/// Each byte of a block stands on its page, in its place; there are just enough pages for all, and what
/// is left of the last is zero.
pub proof fn law_block_on_pages(bytes: Seq<u8>)
    ensures
        4096 * (pages_of(bytes).len() - 1) < bytes.len() <= 4096 * pages_of(bytes).len() || bytes.len()
            == 0 && pages_of(bytes).len() == 0,
        forall|i: int| 0 <= i < pages_of(bytes).len() ==> (#[trigger] pages_of(bytes)[i]).len() == 4096,
        forall|i: int, k: int|
            0 <= i < pages_of(bytes).len() && 0 <= k < 4096 ==> #[trigger] pages_of(bytes)[i][k] == if 4096
                * i + k < bytes.len() {
                bytes[4096 * i + k]
            } else {
                0
            },
{
}

/// Reading a range of pages that is not all in the file fails with its first page that is not.
pub proof fn law_missing_page(disk: Disk, range: PageRange, idx: u64)
    requires
        range.start_page.0 <= idx < range.start_page.0 + range.num_pages,
        idx >= disk.len(),
        range.start_page.0 < idx ==> idx - 1 < disk.len(),
    ensures
        read_range(disk, range) == Err::<Seq<u8>, PageIdx>(PageIdx(idx)),
{
}

} // verus!
