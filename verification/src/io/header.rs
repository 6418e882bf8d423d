//! The database header.

use vstd::prelude::*;

use crate::config::{MAGIC_BYTES, StorageConfig};
use crate::error::StorageError;
use crate::io::binary;
use crate::io::binary::{little_endian, overwrite, u32_at, u32_le, u64_at, u64_le};
use crate::io::page::{Page, zero_page};
use crate::types::{PageIdx, PageRange};

verus! {

broadcast use binary::group_lengths;

/// The database header lives at page 0 of every `.cheguers` file.
pub struct DatabaseHeader {
    pub version: u32,
    pub db_id: [u8; 16],
    pub catalog_page_range: PageRange,
}

/// What a [`DatabaseHeader`] stands for.
pub struct HeaderView {
    pub version: u32,
    pub db_id: Seq<u8>,
    pub catalog_page_range: PageRange,
}

impl View for DatabaseHeader {
    type V = HeaderView;

    open spec fn view(&self) -> HeaderView {
        HeaderView {
            version: self.version,
            db_id: self.db_id@,
            catalog_page_range: self.catalog_page_range,
        }
    }
}

impl HeaderView {
    /// The bytes at the start of the header page:
    /// magic, version, database id, first page and number of pages of the catalog.
    pub open spec fn encoding(self) -> Seq<u8> {
        MAGIC_BYTES@ + u32_le(self.version) + self.db_id + u64_le(
            self.catalog_page_range.start_page.0,
        ) + u32_le(self.catalog_page_range.num_pages)
    }

    /// The header that a page holds, if it starts with the magic bytes.
    pub open spec fn parse(page: Seq<u8>) -> Option<HeaderView> {
        if page.subrange(0, 16) == MAGIC_BYTES@ {
            Some(
                HeaderView {
                    version: u32_at(page, 16),
                    db_id: page.subrange(20, 36),
                    catalog_page_range: PageRange {
                        start_page: PageIdx(u64_at(page, 36)),
                        num_pages: u32_at(page, 44),
                    },
                },
            )
        } else {
            None
        }
    }
}

impl DatabaseHeader {
    #[must_use]
    pub fn new(db_id: [u8; 16]) -> (header: Self)
        ensures
            header@ == (HeaderView {
                version: 1,
                db_id: db_id@,
                catalog_page_range: PageRange { start_page: PageIdx(0), num_pages: 0 },
            }),
    {
        DatabaseHeader {
            version: StorageConfig::STORAGE_VERSION,
            db_id,
            catalog_page_range: PageRange { start_page: PageIdx(0), num_pages: 0 },
        }
    }

    #[must_use]
    pub fn serialize(&self) -> (page: Page)
        ensures
            page@ == overwrite(zero_page(), 0, self@.encoding()),
    {
        let mut page = Page::new();
        let buf = page.as_bytes_mut();
        let mut pos: usize = 0;
        let magic: [u8; 16] = MAGIC_BYTES;
        binary::write_bytes(buf, &mut pos, magic.as_slice());
        binary::write_u32(buf, &mut pos, self.version);
        binary::write_bytes(buf, &mut pos, self.db_id.as_slice());
        binary::write_u64(buf, &mut pos, self.catalog_page_range.start_page.0);
        binary::write_u32(buf, &mut pos, self.catalog_page_range.num_pages);
        proof {
            let e1 = MAGIC_BYTES@;
            let e2 = e1 + u32_le(self.version);
            let e3 = e2 + self.db_id@;
            let e4 = e3 + u64_le(self.catalog_page_range.start_page.0);
            binary::lemma_overwrite_append(zero_page(), 0, e1, u32_le(self.version));
            binary::lemma_overwrite_append(zero_page(), 0, e2, self.db_id@);
            binary::lemma_overwrite_append(
                zero_page(),
                0,
                e3,
                u64_le(self.catalog_page_range.start_page.0),
            );
            binary::lemma_overwrite_append(
                zero_page(),
                0,
                e4,
                u32_le(self.catalog_page_range.num_pages),
            );
        }
        page
    }

    /// A page that does not start with the magic bytes is no header.
    pub fn deserialize(page: &Page) -> (r: Result<Self, StorageError>)
        ensures
            match r {
                Ok(header) => HeaderView::parse(page@) == Some(header@),
                Err(e) => HeaderView::parse(page@) is None && e == StorageError::CorruptHeader,
            },
    {
        let buf = page.as_bytes();
        let magic: [u8; 16] = MAGIC_BYTES;
        let mut i: usize = 0;
        while i < 16
            invariant
                i <= 16,
                magic@ == MAGIC_BYTES@,
                buf@ == page@,
                buf@.len() == 4096,
                forall|j: int| 0 <= j < i ==> buf@[j] == magic@[j],
            decreases 16 - i,
        {
            if buf[i] != magic[i] {
                assert(page@.subrange(0, 16)[i as int] != MAGIC_BYTES@[i as int]);
                return Err(StorageError::CorruptHeader);
            }
            i = i + 1;
        }
        assert(page@.subrange(0, 16) =~= MAGIC_BYTES@);
        let mut pos: usize = 16;
        let version: u32 = binary::read_u32(buf, &mut pos);
        let id: &[u8] = binary::read_bytes(buf, &mut pos, 16);
        let mut db_id: [u8; 16] = [0u8;16];
        let mut k: usize = 0;
        while k < 16
            invariant
                k <= 16,
                id@.len() == 16,
                forall|j: int| 0 <= j < k ==> db_id@[j] == id@[j],
            decreases 16 - k,
        {
            db_id[k] = id[k];
            k = k + 1;
        }
        assert(db_id@ =~= page@.subrange(20, 36));
        let start_page = PageIdx(binary::read_u64(buf, &mut pos));
        let num_pages: u32 = binary::read_u32(buf, &mut pos);
        Ok(DatabaseHeader { version, db_id, catalog_page_range: PageRange { start_page, num_pages } })
    }

    #[inline]
    pub fn set_catalog_page_range(&mut self, range: PageRange)
        ensures
            final(self)@ == (HeaderView { catalog_page_range: range, ..old(self)@ }),
    {
        self.catalog_page_range = range;
    }
}

/// A serialized header is read back as it was.
pub proof fn law_header_roundtrip(header: HeaderView)
    requires
        header.db_id.len() == 16,
    ensures
        HeaderView::parse(overwrite(zero_page(), 0, header.encoding())) == Some(header),
{
    let page = overwrite(zero_page(), 0, header.encoding());
    let e1 = MAGIC_BYTES@;
    let e2 = e1 + u32_le(header.version);
    let e3 = e2 + header.db_id;
    let e4 = e3 + u64_le(header.catalog_page_range.start_page.0);
    binary::lemma_overwrite_holds(zero_page(), 0, header.encoding());
    binary::lemma_holds_append(page, 0, e4, u32_le(header.catalog_page_range.num_pages));
    binary::lemma_holds_append(page, 0, e3, u64_le(header.catalog_page_range.start_page.0));
    binary::lemma_holds_append(page, 0, e2, header.db_id);
    binary::lemma_holds_append(page, 0, e1, u32_le(header.version));
    binary::lemma_holds_subrange(page, 0, e1);
    binary::lemma_u32_at(page, 16, header.version);
    binary::lemma_holds_subrange(page, 20, header.db_id);
    binary::lemma_u64_at(page, 36, header.catalog_page_range.start_page.0);
    binary::lemma_u32_at(page, 44, header.catalog_page_range.num_pages);
}

/// Where the parts of the header stand on its page.
pub proof fn law_header_bytes(header: HeaderView)
    requires
        header.db_id.len() == 16,
    ensures
        ({
            let page = overwrite(zero_page(), 0, header.encoding());
            let range = header.catalog_page_range;
            &&& page.len() == 4096
            &&& page.subrange(0, 10) == seq![67u8, 72, 69, 71, 85, 69, 82, 83, 68, 66]
            &&& forall|i: int| 10 <= i < 16 ==> #[trigger] page[i] == 0
            &&& little_endian(page.subrange(16, 20)) == header.version
            &&& page.subrange(20, 36) == header.db_id
            &&& little_endian(page.subrange(36, 44)) == range.start_page.0
            &&& little_endian(page.subrange(44, 48)) == range.num_pages
            &&& forall|i: int| 48 <= i < 4096 ==> #[trigger] page[i] == 0
        }),
{
    let page = overwrite(zero_page(), 0, header.encoding());
    let range = header.catalog_page_range;
    let e = header.encoding();
    binary::law_little_endian(0, header.version, range.start_page.0);
    binary::law_little_endian(0, range.num_pages, 0);
    assert(e.len() == 48);
    assert(page.len() == 4096 && forall|i: int|
        0 <= i < 4096 ==> #[trigger] page[i] == if i < 48 {
            e[i]
        } else {
            0
        }) by {
        reveal(overwrite);
    }
    assert(page.subrange(0, 10) =~= seq![67u8, 72, 69, 71, 85, 69, 82, 83, 68, 66]);
    assert(page.subrange(16, 20) =~= u32_le(header.version));
    assert(page.subrange(20, 36) =~= header.db_id);
    assert(page.subrange(36, 44) =~= u64_le(range.start_page.0));
    assert(page.subrange(44, 48) =~= u32_le(range.num_pages));
}

/// A page is a header exactly if it starts with the magic bytes.
pub proof fn law_header_magic(page: Seq<u8>)
    requires
        page.len() == 4096,
    ensures
        HeaderView::parse(page) is Some <==> forall|i: int|
            0 <= i < 16 ==> #[trigger] page[i] == MAGIC_BYTES@[i],
{
    let head = page.subrange(0, 16);
    if head == MAGIC_BYTES@ {
        assert forall|i: int| 0 <= i < 16 implies #[trigger] page[i] == MAGIC_BYTES@[i] by {
            assert(head[i] == page[i]);
        }
    }
    if forall|i: int| 0 <= i < 16 ==> #[trigger] page[i] == MAGIC_BYTES@[i] {
        assert(head =~= MAGIC_BYTES@);
    }
}

} // verus!
