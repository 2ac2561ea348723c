//! The pager: the database header, and a cache of the pages read so far.
//!
//! The pager never touches the file itself. It says where a page lies in the file
//! ([`Pager::page_to_load`]); its caller reads those bytes and hands them over
//! ([`Pager::load_page`]); from then on the page is served from the cache
//! ([`Pager::read_page`]).
use vstd::prelude::*;

use crate::bytes::{be_uint, read_be_u16, read_be_u32};
use crate::error::DbError;
use crate::page::{spec_parse_page, Page};
use std::collections::HashMap;

verus! {

broadcast use vstd::std_specs::hash::group_hash_axioms;

/// The size of the database header.
pub const DATABASE_HEADER_SIZE: usize = 100;

/// The format of text data in the database.
#[derive(Debug, Copy, Clone, PartialEq, Eq, Structural)]
pub enum TextEncoding {
    Utf8,
    Utf16Le,
    Utf16Be,
}

/// The parts of the database header that the reader uses.
#[derive(Debug, Copy, Clone)]
pub struct DatabaseHeader {
    /// The size of a page in bytes.
    pub page_size: u32,
    /// The number of pages in the database.
    pub page_count: u32,
    /// The format of text data in this database.
    pub text_encoding: TextEncoding,
}

/// The file starts with the magic string `SQLite format 3\0`.
pub open spec fn has_magic(s: Seq<u8>) -> bool {
    &&& s.len() >= 16
    &&& s[0] == 0x53 && s[1] == 0x51 && s[2] == 0x4c && s[3] == 0x69
    &&& s[4] == 0x74 && s[5] == 0x65 && s[6] == 0x20 && s[7] == 0x66
    &&& s[8] == 0x6f && s[9] == 0x72 && s[10] == 0x6d && s[11] == 0x61
    &&& s[12] == 0x74 && s[13] == 0x20 && s[14] == 0x33 && s[15] == 0x00
}

/// The page size that the header's page-size word denotes: a power of two from 512
/// to 32768 denotes itself, and 0 denotes 65536.
pub open spec fn spec_page_size(raw: int) -> Option<u32> {
    if raw == 0 {
        Some(65536)
    } else if raw == 512 || raw == 1024 || raw == 2048 || raw == 4096 || raw == 8192 || raw
        == 16384 || raw == 32768 {
        Some(raw as u32)
    } else {
        None
    }
}

/// The text encoding that the header's encoding word names.
pub open spec fn spec_text_encoding(raw: int) -> Option<TextEncoding> {
    if raw == 1 {
        Some(TextEncoding::Utf8)
    } else if raw == 2 {
        Some(TextEncoding::Utf16Le)
    } else if raw == 3 {
        Some(TextEncoding::Utf16Be)
    } else {
        None
    }
}

/// Parses the 100-byte database header at the start of `s`.
pub open spec fn spec_parse_header(s: Seq<u8>) -> Result<DatabaseHeader, DbError> {
    if s.len() < DATABASE_HEADER_SIZE {
        Err(DbError::FormatTruncated)
    } else if !has_magic(s) {
        Err(DbError::FormatMagic)
    } else {
        match (spec_page_size(be_uint(s, 16, 2)), spec_text_encoding(be_uint(s, 56, 4))) {
            (Some(page_size), Some(text_encoding)) => Ok(
                DatabaseHeader { page_size, page_count: be_uint(s, 28, 4) as u32, text_encoding },
            ),
            _ => Err(DbError::FormatHeader),
        }
    }
}

impl DatabaseHeader {
    /// Parses the database header at the start of the file.
    pub fn parse(buffer: &[u8]) -> (r: Result<Self, DbError>)
        ensures
            r == spec_parse_header(buffer@),
    {
        if buffer.len() < DATABASE_HEADER_SIZE {
            return Err(DbError::FormatTruncated);
        }
        if !(buffer[0] == 0x53 && buffer[1] == 0x51 && buffer[2] == 0x4c && buffer[3] == 0x69
            && buffer[4] == 0x74 && buffer[5] == 0x65 && buffer[6] == 0x20 && buffer[7] == 0x66
            && buffer[8] == 0x6f && buffer[9] == 0x72 && buffer[10] == 0x6d && buffer[11] == 0x61
            && buffer[12] == 0x74 && buffer[13] == 0x20 && buffer[14] == 0x33 && buffer[15]
            == 0x00) {
            return Err(DbError::FormatMagic);
        }
        let page_size: u32 = match read_be_u16(buffer, 16) {
            0 => 65536,
            n => {
                if n == 512 || n == 1024 || n == 2048 || n == 4096 || n == 8192 || n == 16384 || n
                    == 32768 {
                    n as u32
                } else {
                    return Err(DbError::FormatHeader);
                }
            },
        };
        let page_count = read_be_u32(buffer, 28);
        let text_encoding = match read_be_u32(buffer, 56) {
            1 => TextEncoding::Utf8,
            2 => TextEncoding::Utf16Le,
            3 => TextEncoding::Utf16Be,
            _ => return Err(DbError::FormatHeader),
        };
        Ok(Self { page_size, page_count, text_encoding })
    }

    /// The size of a page in bytes.
    pub fn page_size(&self) -> (r: usize)
        ensures
            r == self.page_size,
    {
        self.page_size as usize
    }
}

/// The pages read so far, by page number. There is no eviction: a page stays for the
/// lifetime of the cache, and its bytes never change.
struct PageCache {
    page_size: usize,
    entries: HashMap<usize, Vec<u8>>,
}

impl PageCache {
    spec fn pages(&self) -> Map<usize, Seq<u8>> {
        Map::new(|k: usize| self.entries@.contains_key(k), |k: usize| self.entries@[k]@)
    }

    fn new(page_size: usize) -> (r: Self)
        ensures
            r.page_size == page_size,
            r.entries@ == Map::<usize, Vec<u8>>::empty(),
    {
        Self { page_size, entries: HashMap::new() }
    }
}

/// The pager itself.
pub struct Pager {
    /// The header for this database.
    header: DatabaseHeader,
    /// The page cache.
    page_cache: PageCache,
}

/// Where page `page_idx` lies in the file, when it has to be read.
pub open spec fn spec_page_to_load(
    header: DatabaseHeader,
    pages: Map<usize, Seq<u8>>,
    page_idx: usize,
) -> Result<Option<u64>, DbError> {
    if page_idx < 1 || page_idx > header.page_count {
        Err(DbError::Bounds)
    } else if pages.contains_key(page_idx) {
        Ok(None)
    } else {
        Ok(Some(((page_idx - 1) * header.page_size) as u64))
    }
}

/// Loading the bytes `b` of page `page_idx` into the cache `pages`: the outcome
/// and the cache afterwards. A cached page keeps its bytes; a page outside
/// `[1, page-count]` or a buffer of the wrong size is refused.
pub open spec fn spec_load_page(
    header: DatabaseHeader,
    pages: Map<usize, Seq<u8>>,
    page_idx: usize,
    b: Seq<u8>,
) -> (Result<(), DbError>, Map<usize, Seq<u8>>) {
    if page_idx < 1 || page_idx > header.page_count {
        (Err(DbError::Bounds), pages)
    } else if pages.contains_key(page_idx) {
        (Ok(()), pages)
    } else if b.len() != header.page_size {
        (Err(DbError::Io), pages)
    } else {
        (Ok(()), pages.insert(page_idx, b))
    }
}

/// Once a page has been loaded, the pager asks for it no more, a second load leaves
/// the cache as it was, and the page's bytes are those first loaded: repeated reads
/// of the page see the same bytes and need no further I/O.
pub proof fn lemma_page_load_idempotent(
    header: DatabaseHeader,
    pages: Map<usize, Seq<u8>>,
    page_idx: usize,
    first: Seq<u8>,
    second: Seq<u8>,
)
    requires
        spec_load_page(header, pages, page_idx, first).0 is Ok,
    ensures
        ({
            let loaded = spec_load_page(header, pages, page_idx, first).1;
            &&& spec_page_to_load(header, loaded, page_idx) == Ok::<Option<u64>, DbError>(None)
            &&& spec_load_page(header, loaded, page_idx, second) == (Ok::<(), DbError>(()), loaded)
            &&& loaded[page_idx] == if pages.contains_key(page_idx) {
                pages[page_idx]
            } else {
                first
            }
        }),
{
}

impl Pager {
    /// The database header.
    pub closed spec fn header(&self) -> DatabaseHeader {
        self.header
    }

    /// The pages cached so far, by page number.
    pub closed spec fn pages(&self) -> Map<usize, Seq<u8>> {
        self.page_cache.pages()
    }

    /// The cache holds only pages within `[1, page-count]`, each of exactly
    /// page-size bytes. Every pager that [`Pager::new`] returns is well formed, and
    /// [`Pager::load_page`] keeps it so.
    pub closed spec fn wf(&self) -> bool {
        &&& self.page_cache.page_size == self.header.page_size
        &&& 512 <= self.header.page_size <= 65536
        &&& forall|k: usize| #[trigger]
            self.page_cache.entries@.contains_key(k) ==> 1 <= k <= self.header.page_count
                && self.page_cache.entries@[k]@.len() == self.header.page_size
    }

    /// Opens the database whose file starts with `header` (at least the 100 bytes of
    /// the database header) and is `file_len` bytes long. The file length must be
    /// page-size times page-count.
    pub fn new(header: &[u8], file_len: u64) -> (r: Result<Self, DbError>)
        ensures
            match r {
                Ok(p) => {
                    &&& spec_parse_header(header@) == Ok::<_, DbError>(p.header())
                    &&& file_len == p.header().page_size * p.header().page_count
                    &&& p.pages() == Map::<usize, Seq<u8>>::empty()
                    &&& p.wf()
                },
                Err(e) => {
                    ||| spec_parse_header(header@) == Err::<DatabaseHeader, _>(e)
                    ||| {
                        &&& spec_parse_header(header@) is Ok
                        &&& file_len != spec_parse_header(header@).unwrap().page_size
                            * spec_parse_header(header@).unwrap().page_count
                        &&& e == DbError::FormatHeader
                    }
                },
            },
    {
        let header = match DatabaseHeader::parse(header) {
            Ok(h) => h,
            Err(e) => return Err(e),
        };
        assert(header.page_size * header.page_count <= 65536 * 0xffff_ffff) by (nonlinear_arith)
            requires
                header.page_size <= 65536,
        ;
        if file_len != header.page_size as u64 * header.page_count as u64 {
            return Err(DbError::FormatHeader);
        }
        let page_cache = PageCache::new(header.page_size());
        let pager = Self { header, page_cache };
        assert(pager.pages() =~= Map::<usize, Seq<u8>>::empty());
        Ok(pager)
    }

    /// The number of pages in the database, as the header gives it.
    pub fn page_count(&self) -> (r: usize)
        ensures
            r == self.header().page_count,
    {
        self.header.page_count as usize
    }

    /// The size of a page in bytes.
    pub fn page_size(&self) -> (r: usize)
        ensures
            r == self.header().page_size,
    {
        self.header.page_size()
    }

    /// Where page `page_idx` starts in the file, when it still has to be read;
    /// `None` when it is cached.
    pub fn page_to_load(&self, page_idx: usize) -> (r: Result<Option<u64>, DbError>)
        requires
            self.wf(),
        ensures
            r == spec_page_to_load(self.header(), self.pages(), page_idx),
    {
        if page_idx < 1 || page_idx > self.page_count() {
            return Err(DbError::Bounds);
        }
        if self.page_cache.entries.contains_key(&page_idx) {
            return Ok(None);
        }
        assert((page_idx - 1) * self.header.page_size <= 0xffff_ffff * 65536) by (nonlinear_arith)
            requires
                page_idx - 1 <= 0xffff_ffff,
                self.header.page_size <= 65536,
        ;
        Ok(Some((page_idx as u64 - 1) * self.header.page_size as u64))
    }

    /// Hands over the bytes of page `page_idx` as read from the file. A page that
    /// is cached already keeps its bytes.
    pub fn load_page(&mut self, page_idx: usize, bytes: Vec<u8>) -> (r: Result<(), DbError>)
        requires
            old(self).wf(),
        ensures
            final(self).wf(),
            final(self).header() == old(self).header(),
            (r, final(self).pages()) == spec_load_page(
                old(self).header(),
                old(self).pages(),
                page_idx,
                bytes@,
            ),
    {
        if page_idx < 1 || page_idx > self.page_count() {
            return Err(DbError::Bounds);
        }
        if self.page_cache.entries.contains_key(&page_idx) {
            return Ok(());
        }
        if bytes.len() != self.page_size() {
            return Err(DbError::Io);
        }
        let ghost old_pages = self.pages();
        let ghost b = bytes@;
        self.page_cache.entries.insert(page_idx, bytes);
        assert(self.pages() =~= old_pages.insert(page_idx, b));
        Ok(())
    }

    /// The cached page `page_idx`, checked as one of the known page types.
    pub fn read_page(&self, page_idx: usize) -> (r: Result<Page<'_>, DbError>)
        requires
            self.wf(),
        ensures
            page_idx < 1 || page_idx > self.header().page_count ==> r == Err::<Page, _>(
                DbError::Bounds,
            ),
            1 <= page_idx <= self.header().page_count && !self.pages().contains_key(page_idx)
                ==> r == Err::<Page, _>(DbError::NotLoaded),
            1 <= page_idx <= self.header().page_count && self.pages().contains_key(page_idx)
                ==> match r {
                Ok(p) => p@ == self.pages()[page_idx] && p@.len() == self.header().page_size
                    && spec_parse_page(p@) is Ok,
                Err(e) => spec_parse_page(self.pages()[page_idx]) == Err::<crate::page::PageType, _>(e),
            },
    {
        if page_idx < 1 || page_idx > self.page_count() {
            return Err(DbError::Bounds);
        }
        match self.page_cache.entries.get(&page_idx) {
            Some(buffer) => Page::new(buffer.as_slice()),
            None => Err(DbError::NotLoaded),
        }
    }
}

} // verus!
