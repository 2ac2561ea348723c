//! B-tree table pages: the page header, the cell pointer array, and the check that
//! a page buffer is one of the known page variants.
use vstd::prelude::*;

pub mod btree_table_internal;
pub mod btree_table_leaf;

use crate::bytes::{be_uint, read_be_u16};
use crate::varint::varint_len;
use vstd::set_lib::{lemma_int_range, lemma_len_subset, lemma_set_disjoint_lens, set_int_range};
use crate::error::DbError;
use crate::pager::DATABASE_HEADER_SIZE;
use self::btree_table_internal::spec_internal_cell;
use self::btree_table_internal::BTreeTableInternalPage;
use self::btree_table_leaf::{parse_cell, spec_leaf_cell, BTreeTableLeafPage};
use vstd::pervasive::unreached;

verus! {

/// The size of a B-tree page header, without the right-most child pointer that
/// internal pages append.
pub const BTREE_PAGE_HEADER_SIZE: usize = 8;

/// The page types.
#[derive(Debug, Copy, Clone, PartialEq, Eq, Structural)]
pub enum PageType {
    /// A leaf in the table B-tree.
    BTreeTableLeaf,
    /// An internal node in the table B-tree.
    BTreeTableInternal,
}

/// The page type that a header's type byte announces.
pub open spec fn spec_page_type(byte: u8) -> Result<PageType, DbError> {
    if byte == 0x0d {
        Ok(PageType::BTreeTableLeaf)
    } else if byte == 0x05 {
        Ok(PageType::BTreeTableInternal)
    } else {
        Err(DbError::UnsupportedPageType(byte))
    }
}

impl PageType {
    /// The page type that a header's type byte announces.
    pub fn from_header_byte(byte: u8) -> (r: Result<Self, DbError>)
        ensures
            r == spec_page_type(byte),
    {
        if byte == 0x0d {
            Ok(Self::BTreeTableLeaf)
        } else if byte == 0x05 {
            Ok(Self::BTreeTableInternal)
        } else {
            Err(DbError::UnsupportedPageType(byte))
        }
    }
}

/// The header at the start of every B-tree page.
#[derive(Debug, Copy, Clone)]
pub struct BTreePageHeader {
    /// The start of the first free block in the page, 0 when there is none.
    pub first_free_block: u16,
    /// The number of cells in this page.
    pub cell_count: u16,
    /// The offset at which the cell content area starts.
    pub cell_content_offset: u32,
    /// The number of fragmented free bytes in the content area.
    pub fragmented_bytes_count: u8,
}

/// Where the B-tree page header starts: page 1 begins with the 100-byte database
/// header, recognised by its first byte `'S'`, which no page type byte equals.
pub open spec fn header_start(s: Seq<u8>) -> int {
    if s.len() > 0 && s[0] == 0x53 {
        DATABASE_HEADER_SIZE as int
    } else {
        0
    }
}

/// The cell content offset that a raw header word denotes: 0 stands for 65536.
pub open spec fn spec_content_start(raw: int) -> int {
    if raw == 0 {
        65536
    } else {
        raw
    }
}

/// Parses the B-tree page header of page buffer `s`: the page type, the header, and
/// where the header ends.
pub open spec fn spec_parse_btree_header(s: Seq<u8>) -> Result<
    (PageType, BTreePageHeader, usize),
    DbError,
> {
    let h = header_start(s);
    if s.len() < h + BTREE_PAGE_HEADER_SIZE {
        Err(DbError::FormatTruncated)
    } else {
        match spec_page_type(s[h]) {
            Err(e) => Err(e),
            Ok(t) => Ok(
                (
                    t,
                    BTreePageHeader {
                        first_free_block: be_uint(s, h + 1, 2) as u16,
                        cell_count: be_uint(s, h + 3, 2) as u16,
                        cell_content_offset: spec_content_start(be_uint(s, h + 5, 2)) as u32,
                        fragmented_bytes_count: s[h + 7],
                    },
                    (h + BTREE_PAGE_HEADER_SIZE) as usize,
                ),
            ),
        }
    }
}

impl BTreePageHeader {
    /// Parses the B-tree page header of a page buffer. Returns the page type, the
    /// header, and where the header ends.
    pub fn parse(buffer: &[u8]) -> (r: Result<(PageType, Self, usize), DbError>)
        ensures
            r == spec_parse_btree_header(buffer@),
    {
        let h: usize = if buffer.len() > 0 && buffer[0] == 0x53 {
            DATABASE_HEADER_SIZE
        } else {
            0
        };
        if buffer.len() < h + BTREE_PAGE_HEADER_SIZE {
            return Err(DbError::FormatTruncated);
        }
        let page_type = match PageType::from_header_byte(buffer[h]) {
            Ok(t) => t,
            Err(e) => return Err(e),
        };
        let first_free_block = read_be_u16(buffer, h + 1);
        let cell_count = read_be_u16(buffer, h + 3);
        let raw_offset = read_be_u16(buffer, h + 5);
        let cell_content_offset: u32 = if raw_offset == 0 {
            65536
        } else {
            raw_offset as u32
        };
        Ok(
            (
                page_type,
                Self {
                    first_free_block,
                    cell_count,
                    cell_content_offset,
                    fragmented_bytes_count: buffer[h + 7],
                },
                h + BTREE_PAGE_HEADER_SIZE,
            ),
        )
    }
}

/// Where the cell pointer array starts: right after the header, and after the
/// right-most child pointer on internal pages.
pub open spec fn pointer_array_start(t: PageType, header_end: int) -> int {
    if t == PageType::BTreeTableInternal {
        header_end + 4
    } else {
        header_end
    }
}

/// The `i`-th cell pointer of a page whose pointer array starts at `array_start`.
pub open spec fn cell_pointer(s: Seq<u8>, array_start: int, i: int) -> int {
    be_uint(s, array_start + 2 * i, 2)
}

/// Checks the `i`-th cell of a page of type `t`: its pointer lies in the page, at or
/// after the cell content start, and the cell there decodes.
pub open spec fn spec_cell_check(
    t: PageType,
    s: Seq<u8>,
    content_start: int,
    array_start: int,
    i: int,
) -> Result<(), DbError> {
    let o = cell_pointer(s, array_start, i);
    if o < content_start || o >= s.len() {
        Err(DbError::Bounds)
    } else {
        match t {
            PageType::BTreeTableLeaf => match spec_leaf_cell(s, o) {
                Ok(_) => Ok(()),
                Err(e) => Err(e),
            },
            PageType::BTreeTableInternal => match spec_internal_cell(s, o) {
                Ok(_) => Ok(()),
                Err(e) => Err(e),
            },
        }
    }
}

/// The error of the first of cells `i..n` that fails its check, if any does.
pub open spec fn first_cell_error(
    t: PageType,
    s: Seq<u8>,
    content_start: int,
    array_start: int,
    i: int,
    n: int,
) -> Option<DbError>
    decreases n - i,
{
    if i >= n {
        None
    } else {
        match spec_cell_check(t, s, content_start, array_start, i) {
            Err(e) => Some(e),
            Ok(_) => first_cell_error(t, s, content_start, array_start, i + 1, n),
        }
    }
}

/// Checks page buffer `s` as a page of type `t`: its header, that the cell pointer
/// array and the cell content start lie within the page, and every cell. Returns the
/// header and where the cell pointer array starts.
pub open spec fn spec_page_layout(s: Seq<u8>, t: PageType) -> Result<(BTreePageHeader, int), DbError> {
    match spec_parse_btree_header(s) {
        Err(e) => Err(e),
        Ok((t2, hdr, end)) => if t2 != t {
            Err(DbError::UnsupportedPageType(s[header_start(s)]))
        } else {
            let a = pointer_array_start(t, end as int);
            let n = hdr.cell_count as int;
            if a + 2 * n > s.len() || hdr.cell_content_offset > s.len() {
                Err(DbError::FormatTruncated)
            } else {
                match first_cell_error(t, s, hdr.cell_content_offset as int, a, 0, n) {
                    Some(e) => Err(e),
                    None => Ok((hdr, a)),
                }
            }
        },
    }
}

/// Checks page buffer `s` as whichever page type its header names.
pub open spec fn spec_parse_page(s: Seq<u8>) -> Result<PageType, DbError> {
    match spec_parse_btree_header(s) {
        Err(e) => Err(e),
        Ok((t, _, _)) => match spec_page_layout(s, t) {
            Err(e) => Err(e),
            Ok(_) => Ok(t),
        },
    }
}

/// The header of a page that passed its check.
pub open spec fn page_header(s: Seq<u8>) -> BTreePageHeader {
    spec_parse_btree_header(s).unwrap().1
}

/// The number of cells of a page that passed its check.
pub open spec fn page_cell_count(s: Seq<u8>) -> int {
    page_header(s).cell_count as int
}

/// The offset of the `i`-th cell of a page of type `t` that passed its check.
pub open spec fn page_cell_offset(s: Seq<u8>, t: PageType, i: int) -> int {
    cell_pointer(s, spec_page_layout(s, t).unwrap().1, i)
}

/// Each of the cells before `n` of a page without a failing cell passes its check.
pub proof fn lemma_cells_pass(
    t: PageType,
    s: Seq<u8>,
    content_start: int,
    array_start: int,
    i: int,
    n: int,
    k: int,
)
    requires
        first_cell_error(t, s, content_start, array_start, i, n) is None,
        i <= k < n,
    ensures
        spec_cell_check(t, s, content_start, array_start, k) is Ok,
    decreases k - i,
{
    if i < k {
        lemma_cells_pass(t, s, content_start, array_start, i + 1, n, k);
    }
}

/// Every cell pointer of a checked page lies within the page, at or after the cell
/// content start.
pub proof fn lemma_cell_pointer_in_content_area(s: Seq<u8>, t: PageType, i: int)
    requires
        spec_page_layout(s, t) is Ok,
        0 <= i < page_cell_count(s),
    ensures
        page_header(s).cell_content_offset <= page_cell_offset(s, t, i) < s.len(),
{
    let hdr = page_header(s);
    let a = spec_page_layout(s, t).unwrap().1;
    lemma_cells_pass(t, s, hdr.cell_content_offset as int, a, 0, hdr.cell_count as int, i);
}

/// The length of the cell at offset `o` of a page of type `t`, from its first byte
/// to its last.
pub open spec fn cell_length(t: PageType, s: Seq<u8>, o: int) -> int {
    match t {
        PageType::BTreeTableLeaf => {
            let (_, start, len) = spec_leaf_cell(s, o).unwrap();
            start + len - o
        },
        PageType::BTreeTableInternal => 4 + varint_len(s, o + 4) as int,
    }
}

/// The offsets of the cells of a checked page of type `t`, in pointer order.
pub open spec fn page_cell_offsets(s: Seq<u8>, t: PageType) -> Seq<int> {
    Seq::new(page_cell_count(s) as nat, |i: int| page_cell_offset(s, t, i))
}

/// The lengths of the cells of a checked page of type `t`, in pointer order.
pub open spec fn page_cell_lengths(s: Seq<u8>, t: PageType) -> Seq<int> {
    Seq::new(page_cell_count(s) as nat, |i: int| cell_length(t, s, page_cell_offset(s, t, i)))
}

/// The first `k` numbers of `lens`, added up.
pub open spec fn total(lens: Seq<int>, k: int) -> int
    decreases k,
{
    if k <= 0 {
        0
    } else {
        total(lens, k - 1) + lens[k - 1]
    }
}

/// The bytes covered by the first `k` of the ranges `[starts[i], starts[i] + lens[i])`.
pub open spec fn covered(starts: Seq<int>, lens: Seq<int>, k: int) -> Set<int>
    decreases k,
{
    if k <= 0 {
        Set::empty()
    } else {
        covered(starts, lens, k - 1).union(set_int_range(starts[k - 1], starts[k - 1] + lens[k - 1]))
    }
}

/// A well-formed B-tree page of type `t`: it passes its check, its cells lie after
/// the cell pointer array, and no two cells overlap.
pub open spec fn well_formed_btree_page(s: Seq<u8>, t: PageType) -> bool {
    let a = spec_page_layout(s, t).unwrap().1;
    let n = page_cell_count(s);
    let starts = page_cell_offsets(s, t);
    let lens = page_cell_lengths(s, t);
    &&& spec_page_layout(s, t) is Ok
    &&& forall|i: int| 0 <= i < n ==> #[trigger] starts[i] >= a + 2 * n
    &&& forall|i: int, j: int|
        0 <= i < j < n ==> #[trigger] starts[i] + lens[i] <= #[trigger] starts[j] || starts[j]
            + lens[j] <= starts[i]
}

proof fn lemma_covered_disjoint(starts: Seq<int>, lens: Seq<int>, k: int, lo: int, hi: int)
    requires
        0 <= k <= starts.len(),
        k <= lens.len(),
        forall|i: int| 0 <= i < k ==> #[trigger] starts[i] + lens[i] <= lo || hi <= starts[i],
    ensures
        covered(starts, lens, k).disjoint(set_int_range(lo, hi)),
    decreases k,
{
    if k > 0 {
        lemma_covered_disjoint(starts, lens, k - 1, lo, hi);
    }
}

proof fn lemma_covered_len(starts: Seq<int>, lens: Seq<int>, k: int, lo: int, hi: int)
    requires
        0 <= k <= starts.len(),
        k <= lens.len(),
        forall|i: int| 0 <= i < k ==> 0 <= #[trigger] lens[i],
        forall|i: int| 0 <= i < k ==> lo <= #[trigger] starts[i] && starts[i] + lens[i] <= hi,
        forall|i: int, j: int|
            0 <= i < j < k ==> #[trigger] starts[i] + lens[i] <= #[trigger] starts[j] || starts[j]
                + lens[j] <= starts[i],
    ensures
        covered(starts, lens, k).finite(),
        covered(starts, lens, k).len() == total(lens, k),
        covered(starts, lens, k).subset_of(set_int_range(lo, hi)),
    decreases k,
{
    if k > 0 {
        let r = set_int_range(starts[k - 1], starts[k - 1] + lens[k - 1]);
        lemma_covered_len(starts, lens, k - 1, lo, hi);
        lemma_int_range(starts[k - 1], starts[k - 1] + lens[k - 1]);
        assert forall|i: int| 0 <= i < k - 1 implies #[trigger] starts[i] + lens[i] <= starts[k - 1]
            || starts[k - 1] + lens[k - 1] <= starts[i] by {
            assert(starts[i] + lens[i] <= starts[k - 1] || starts[k - 1] + lens[k - 1] <= starts[i]);
        }
        lemma_covered_disjoint(starts, lens, k - 1, starts[k - 1], starts[k - 1] + lens[k - 1]);
        lemma_set_disjoint_lens(covered(starts, lens, k - 1), r);
    }
}

/// On a well-formed B-tree page the cells fit in the space that the headers and
/// the cell pointer array leave: the cell lengths add up to at most the page size
/// minus the header size (the database header on page 1 and the right-most child
/// pointer on internal pages included) minus two bytes per cell.
pub proof fn lemma_cells_fit(s: Seq<u8>, t: PageType)
    requires
        well_formed_btree_page(s, t),
    ensures
        total(page_cell_lengths(s, t), page_cell_count(s)) <= s.len() - spec_page_layout(
            s,
            t,
        ).unwrap().1 - 2 * page_cell_count(s),
{
    let hdr = page_header(s);
    let a = spec_page_layout(s, t).unwrap().1;
    let n = page_cell_count(s);
    let starts = page_cell_offsets(s, t);
    let lens = page_cell_lengths(s, t);
    assert forall|i: int| 0 <= i < n implies 0 <= #[trigger] lens[i] && a + 2 * n <= starts[i]
        && starts[i] + lens[i] <= s.len() by {
        lemma_cells_pass(t, s, hdr.cell_content_offset as int, a, 0, n, i);
        if t == PageType::BTreeTableInternal {
            crate::varint::lemma_varint_len_bounds(s, starts[i] + 4);
        }
    }
    lemma_covered_len(starts, lens, n, a + 2 * n, s.len() as int);
    lemma_int_range(a + 2 * n, s.len() as int);
    lemma_len_subset(covered(starts, lens, n), set_int_range(a + 2 * n, s.len() as int));
}

/// Checks a page buffer as a page of type `t`; returns the header and where the
/// cell pointer array starts.
pub(crate) fn validate_layout(contents: &[u8], t: PageType) -> (r: Result<(BTreePageHeader, usize), DbError>)
    ensures
        match r {
            Ok((hdr, a)) => spec_page_layout(contents@, t) == Ok::<_, DbError>((hdr, a as int)),
            Err(e) => spec_page_layout(contents@, t) == Err::<(BTreePageHeader, int), _>(e),
        },
{
    let (t2, header, end) = match BTreePageHeader::parse(contents) {
        Ok(x) => x,
        Err(e) => return Err(e),
    };
    if t2 != t {
        return Err(DbError::UnsupportedPageType(contents[end - BTREE_PAGE_HEADER_SIZE]));
    }
    let extra: usize = if t == PageType::BTreeTableInternal {
        4
    } else {
        0
    };
    let n = header.cell_count as usize;
    if contents.len() - end < extra + 2 * n {
        return Err(DbError::FormatTruncated);
    }
    let a = end + extra;
    let content_start = header.cell_content_offset as usize;
    if content_start > contents.len() {
        return Err(DbError::FormatTruncated);
    }
    let mut i: usize = 0;
    while i < n
        invariant
            contents@.len() <= usize::MAX,
            spec_parse_btree_header(contents@) == Ok::<_, DbError>((t, header, end)),
            a == pointer_array_start(t, end as int),
            n == header.cell_count,
            content_start == header.cell_content_offset,
            content_start <= contents@.len(),
            a + 2 * n <= contents@.len(),
            i <= n,
            first_cell_error(t, contents@, content_start as int, a as int, 0, n as int)
                == first_cell_error(t, contents@, content_start as int, a as int, i as int, n as int),
        decreases n - i,
    {
        let o = read_be_u16(contents, a + 2 * i) as usize;
        if o < content_start || o >= contents.len() {
            return Err(DbError::Bounds);
        }
        match t {
            PageType::BTreeTableLeaf => {
                if let Err(e) = parse_cell(contents, o) {
                    return Err(e);
                }
            },
            PageType::BTreeTableInternal => {
                if let Err(e) = btree_table_internal::Cell::parse(contents, o) {
                    return Err(e);
                }
            },
        }
        i = i + 1;
    }
    Ok((header, a))
}

/// A page buffer that passed its check as one of the known page types.
pub struct Page<'a> {
    /// The byte buffer it points at.
    contents: &'a [u8],
}

impl<'a> View for Page<'a> {
    type V = Seq<u8>;

    closed spec fn view(&self) -> Seq<u8> {
        self.contents@
    }
}

/// A page, decoded as its type.
pub enum ParsedPage<'a> {
    /// A leaf in the table B-tree.
    BTreeTableLeaf(BTreeTableLeafPage<'a>),
    /// An internal node in the table B-tree.
    BTreeTableInternal(BTreeTableInternalPage<'a>),
}

impl<'a> Page<'a> {
    #[verifier::type_invariant]
    closed spec fn inv(&self) -> bool {
        spec_parse_page(self.contents@) is Ok
    }

    /// Checks that a page buffer parses as one of the known page types.
    pub fn new(contents: &'a [u8]) -> (r: Result<Self, DbError>)
        ensures
            match r {
                Ok(p) => p@ == contents@ && spec_parse_page(contents@) is Ok,
                Err(e) => spec_parse_page(contents@) == Err::<PageType, _>(e),
            },
    {
        match Self::parse_checked(contents) {
            Ok(_) => Ok(Self { contents }),
            Err(e) => Err(e),
        }
    }

    /// The page's bytes.
    pub fn bytes(&self) -> (r: &'a [u8])
        ensures
            r@ == self@,
    {
        self.contents
    }

    /// Decodes the page as its type.
    pub fn parse(&self) -> (r: ParsedPage<'a>)
        ensures
            match r {
                ParsedPage::BTreeTableLeaf(p) => p@ == self@ && spec_parse_page(self@) == Ok::<
                    _,
                    DbError,
                >(PageType::BTreeTableLeaf),
                ParsedPage::BTreeTableInternal(p) => p@ == self@ && spec_parse_page(self@) == Ok::<
                    _,
                    DbError,
                >(PageType::BTreeTableInternal),
            },
    {
        proof {
            use_type_invariant(self);
        }
        match Self::parse_checked(self.contents) {
            Ok(parsed) => parsed,
            Err(_) => unreached(),
        }
    }

    /// Decodes a page buffer as the page type its header names.
    fn parse_checked(contents: &'a [u8]) -> (r: Result<ParsedPage<'a>, DbError>)
        ensures
            match r {
                Ok(ParsedPage::BTreeTableLeaf(p)) => p@ == contents@ && spec_parse_page(contents@)
                    == Ok::<_, DbError>(PageType::BTreeTableLeaf),
                Ok(ParsedPage::BTreeTableInternal(p)) => p@ == contents@ && spec_parse_page(
                    contents@,
                ) == Ok::<_, DbError>(PageType::BTreeTableInternal),
                Err(e) => spec_parse_page(contents@) == Err::<PageType, _>(e),
            },
    {
        let (page_type, ..) = match BTreePageHeader::parse(contents) {
            Ok(x) => x,
            Err(e) => return Err(e),
        };
        match page_type {
            PageType::BTreeTableLeaf => match BTreeTableLeafPage::new(contents) {
                Ok(p) => Ok(ParsedPage::BTreeTableLeaf(p)),
                Err(e) => Err(e),
            },
            PageType::BTreeTableInternal => match BTreeTableInternalPage::new(contents) {
                Ok(p) => Ok(ParsedPage::BTreeTableInternal(p)),
                Err(e) => Err(e),
            },
        }
    }
}

} // verus!
