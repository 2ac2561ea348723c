//! B-tree table internal pages.
use vstd::prelude::*;

use crate::bytes::{be_uint, read_be_u16, read_be_u32};
use crate::error::DbError;
use crate::page::{
    lemma_cells_pass, page_cell_count, page_cell_offset, spec_page_layout, spec_parse_btree_header,
    validate_layout, BTreePageHeader, PageType,
};
use vstd::pervasive::unreached;
use crate::varint::{parse_varint, varint_fits, varint_value};

verus! {

/// Decodes the internal cell at offset `o` of page buffer `s`: a 4-byte left child
/// page number, then a varint key.
pub open spec fn spec_internal_cell(s: Seq<u8>, o: int) -> Result<(u32, i64), DbError> {
    if o < 0 || o + 4 > s.len() || !varint_fits(s, o + 4) {
        Err(DbError::FormatTruncated)
    } else {
        Ok((be_uint(s, o, 4) as u32, varint_value(s, o + 4) as i64))
    }
}

/// A cell of an internal page: the child holding the keys up to `key`.
#[derive(Debug, Copy, Clone, PartialEq, Eq)]
pub struct Cell {
    pub left_child_page: u32,
    pub key: i64,
}

impl Cell {
    /// Decodes the internal cell that starts at `pos` in the page buffer.
    pub fn parse(contents: &[u8], pos: usize) -> (r: Result<Self, DbError>)
        ensures
            match r {
                Ok(c) => spec_internal_cell(contents@, pos as int) == Ok::<_, DbError>(
                    (c.left_child_page, c.key),
                ),
                Err(e) => spec_internal_cell(contents@, pos as int) == Err::<(u32, i64), _>(e),
            },
    {
        if pos > contents.len() || contents.len() - pos < 4 {
            return Err(DbError::FormatTruncated);
        }
        let left_child_page = read_be_u32(contents, pos);
        let key = match parse_varint(contents, pos + 4) {
            Ok((key, _)) => key,
            Err(e) => return Err(e),
        };
        Ok(Self { left_child_page, key })
    }
}

/// The left child page and key of the `i`-th cell of internal page `s`.
pub open spec fn internal_cell_at(s: Seq<u8>, i: int) -> (u32, i64) {
    spec_internal_cell(s, page_cell_offset(s, PageType::BTreeTableInternal, i)).unwrap()
}

/// The right-most child page of internal page `s`: the 4-byte word after the header.
pub open spec fn rightmost_child(s: Seq<u8>) -> u32 {
    be_uint(s, spec_parse_btree_header(s).unwrap().2 as int, 4) as u32
}

/// A checked internal node in a table's B-tree.
pub struct BTreeTableInternalPage<'a> {
    /// The header for the page.
    header: BTreePageHeader,
    /// The page number of the subtree root containing records with greater keys.
    rightmost_pointer: u32,
    /// The whole page buffer; cell pointers are offsets into it.
    contents: &'a [u8],
    /// Where the cell pointer array starts.
    cell_pointers: usize,
}

impl<'a> View for BTreeTableInternalPage<'a> {
    type V = Seq<u8>;

    closed spec fn view(&self) -> Seq<u8> {
        self.contents@
    }
}

impl<'a> BTreeTableInternalPage<'a> {
    #[verifier::type_invariant]
    closed spec fn inv(&self) -> bool {
        &&& spec_page_layout(self.contents@, PageType::BTreeTableInternal) == Ok::<_, DbError>(
            (self.header, self.cell_pointers as int),
        )
        &&& self.rightmost_pointer == rightmost_child(self.contents@)
    }

    /// Checks a page buffer as a table internal page.
    pub fn new(contents: &'a [u8]) -> (r: Result<Self, DbError>)
        ensures
            match r {
                Ok(p) => p@ == contents@ && spec_page_layout(
                    contents@,
                    PageType::BTreeTableInternal,
                ) is Ok,
                Err(e) => spec_page_layout(contents@, PageType::BTreeTableInternal) == Err::<
                    (BTreePageHeader, int),
                    _,
                >(e),
            },
    {
        match validate_layout(contents, PageType::BTreeTableInternal) {
            Ok((header, cell_pointers)) => {
                let rightmost_pointer = read_be_u32(contents, cell_pointers - 4);
                Ok(Self { header, rightmost_pointer, contents, cell_pointers })
            },
            Err(e) => Err(e),
        }
    }

    /// The page number of the right-most (greatest) child.
    pub fn rightmost_child_idx(&self) -> (r: u32)
        ensures
            r == rightmost_child(self@),
    {
        proof {
            use_type_invariant(self);
        }
        self.rightmost_pointer
    }

    /// The number of cells in this page.
    pub fn num_cells(&self) -> (r: usize)
        ensures
            r == page_cell_count(self@),
    {
        proof {
            use_type_invariant(self);
        }
        self.header.cell_count as usize
    }

    /// The `idx`-th cell of this page.
    pub fn cell(&self, idx: usize) -> (r: Cell)
        requires
            idx < page_cell_count(self@),
        ensures
            (r.left_child_page, r.key) == internal_cell_at(self@, idx as int),
    {
        proof {
            use_type_invariant(self);
            lemma_cells_pass(
                PageType::BTreeTableInternal,
                self.contents@,
                self.header.cell_content_offset as int,
                self.cell_pointers as int,
                0,
                self.header.cell_count as int,
                idx as int,
            );
        }
        let o = read_be_u16(self.contents, self.cell_pointers + 2 * idx) as usize;
        match Cell::parse(self.contents, o) {
            Ok(c) => c,
            Err(_) => unreached(),
        }
    }

    /// The cells of this page, in the order of the cell pointer array.
    pub fn cells(&self) -> (r: Vec<Cell>)
        ensures
            r@.len() == page_cell_count(self@),
            forall|i: int|
                0 <= i < r@.len() ==> ((#[trigger] r@[i]).left_child_page, r@[i].key)
                    == internal_cell_at(self@, i),
    {
        let n = self.num_cells();
        let mut cells: Vec<Cell> = Vec::new();
        let mut i: usize = 0;
        while i < n
            invariant
                n == page_cell_count(self@),
                i <= n,
                cells@.len() == i,
                forall|j: int|
                    0 <= j < i ==> ((#[trigger] cells@[j]).left_child_page, cells@[j].key)
                        == internal_cell_at(self@, j),
            decreases n - i,
        {
            cells.push(self.cell(i));
            i = i + 1;
        }
        cells
    }
}

} // verus!
