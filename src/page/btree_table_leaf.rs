//! B-tree table leaf pages.
use vstd::prelude::*;

use crate::bytes::read_be_u16;
use crate::error::DbError;
use crate::page::{
    lemma_cells_pass, page_cell_count, page_cell_offset, spec_page_layout, validate_layout,
    BTreePageHeader, PageType,
};
use crate::record::{spec_parse_record, Record};
use crate::varint::{parse_varint, varint_fits, varint_len, varint_value};
use vstd::pervasive::unreached;
use vstd::slice::slice_subrange;

verus! {

/// Decodes the leaf cell at offset `o` of page buffer `s`: a varint payload length,
/// a varint row id, then the payload, which must parse as a record. Returns the row
/// id and where the payload starts and how long it is.
pub open spec fn spec_leaf_cell(s: Seq<u8>, o: int) -> Result<(i64, int, int), DbError> {
    if !varint_fits(s, o) {
        Err(DbError::FormatTruncated)
    } else {
        let len = varint_value(s, o) as i64;
        let r = o + varint_len(s, o);
        if !varint_fits(s, r) {
            Err(DbError::FormatTruncated)
        } else {
            let start = r + varint_len(s, r);
            if len < 0 || start + len > s.len() {
                Err(DbError::FormatTruncated)
            } else {
                match spec_parse_record(s.subrange(start, start + len)) {
                    Err(e) => Err(e),
                    Ok(_) => Ok((varint_value(s, r) as i64, start, len as int)),
                }
            }
        }
    }
}

/// The row id and the record (header region, body) of the leaf cell at offset `o`
/// of page buffer `s`, where that cell decodes.
pub open spec fn leaf_cell_model(s: Seq<u8>, o: int) -> (i64, (Seq<u8>, Seq<u8>)) {
    let (row_id, start, len) = spec_leaf_cell(s, o).unwrap();
    (row_id, spec_parse_record(s.subrange(start, start + len)).unwrap())
}

/// A cell of a leaf page: a row id and the row's record.
pub struct Cell<'a> {
    row_id: i64,
    record: Record<'a>,
}

impl<'a> View for Cell<'a> {
    type V = (i64, (Seq<u8>, Seq<u8>));

    closed spec fn view(&self) -> (i64, (Seq<u8>, Seq<u8>)) {
        (self.row_id, self.record@)
    }
}

impl<'a> Cell<'a> {
    /// Decodes the rest of a leaf cell whose payload is `length` bytes long: the
    /// row id varint at `pos`, then the payload.
    fn new(length: i64, contents: &'a [u8], pos: usize) -> (r: Result<Self, DbError>)
        requires
            pos <= contents@.len(),
        ensures
            match r {
                Ok(c) => {
                    &&& varint_fits(contents@, pos as int)
                    &&& length >= 0
                    &&& pos + varint_len(contents@, pos as int) + length <= contents@.len()
                    &&& c@ == (
                        varint_value(contents@, pos as int) as i64,
                        spec_parse_record(
                            contents@.subrange(
                                pos + varint_len(contents@, pos as int),
                                pos + varint_len(contents@, pos as int) + length,
                            ),
                        ).unwrap(),
                    )
                    &&& spec_parse_record(
                        contents@.subrange(
                            pos + varint_len(contents@, pos as int),
                            pos + varint_len(contents@, pos as int) + length,
                        ),
                    ) is Ok
                },
                Err(e) => {
                    ||| !varint_fits(contents@, pos as int) && e == DbError::FormatTruncated
                    ||| varint_fits(contents@, pos as int) && (length < 0 || pos + varint_len(
                        contents@,
                        pos as int,
                    ) + length > contents@.len()) && e == DbError::FormatTruncated
                    ||| varint_fits(contents@, pos as int) && length >= 0 && pos + varint_len(
                        contents@,
                        pos as int,
                    ) + length <= contents@.len() && spec_parse_record(
                        contents@.subrange(
                            pos + varint_len(contents@, pos as int),
                            pos + varint_len(contents@, pos as int) + length,
                        ),
                    ) == Err::<(Seq<u8>, Seq<u8>), _>(e)
                },
            },
    {
        let (row_id, start) = match parse_varint(contents, pos) {
            Ok(x) => x,
            Err(e) => return Err(e),
        };
        if length < 0 || length as u64 > (contents.len() - start) as u64 {
            return Err(DbError::FormatTruncated);
        }
        let payload = slice_subrange(contents, start, start + length as usize);
        let record = match Record::parse(payload) {
            Ok(rec) => rec,
            Err(e) => return Err(e),
        };
        Ok(Self { row_id, record })
    }

    /// The row id of this cell.
    pub fn row_id(&self) -> (r: i64)
        ensures
            r == self@.0,
    {
        self.row_id
    }

    /// The record this cell holds.
    pub fn payload(&self) -> (r: Record<'a>)
        ensures
            r@ == self@.1,
    {
        self.record
    }
}

/// Decodes the leaf cell that starts at `pos` in the page buffer.
pub fn parse_cell<'a>(buffer: &'a [u8], pos: usize) -> (r: Result<Cell<'a>, DbError>)
    requires
        pos <= buffer@.len(),
    ensures
        match r {
            Ok(c) => spec_leaf_cell(buffer@, pos as int) is Ok && c@ == leaf_cell_model(
                buffer@,
                pos as int,
            ),
            Err(e) => spec_leaf_cell(buffer@, pos as int) == Err::<(i64, int, int), _>(e),
        },
{
    let (length, after) = match parse_varint(buffer, pos) {
        Ok(x) => x,
        Err(e) => return Err(e),
    };
    Cell::new(length, buffer, after)
}

/// The row id and record of the `i`-th cell of leaf page `s`.
pub open spec fn leaf_row(s: Seq<u8>, i: int) -> (i64, (Seq<u8>, Seq<u8>)) {
    leaf_cell_model(s, page_cell_offset(s, PageType::BTreeTableLeaf, i))
}

/// A checked leaf in a table's B-tree.
pub struct BTreeTableLeafPage<'a> {
    /// The header for the page.
    header: BTreePageHeader,
    /// The whole page buffer; cell pointers are offsets into it.
    contents: &'a [u8],
    /// Where the cell pointer array starts.
    cell_pointers: usize,
}

impl<'a> View for BTreeTableLeafPage<'a> {
    type V = Seq<u8>;

    closed spec fn view(&self) -> Seq<u8> {
        self.contents@
    }
}

impl<'a> BTreeTableLeafPage<'a> {
    #[verifier::type_invariant]
    closed spec fn inv(&self) -> bool {
        spec_page_layout(self.contents@, PageType::BTreeTableLeaf) == Ok::<_, DbError>(
            (self.header, self.cell_pointers as int),
        )
    }

    /// Checks a page buffer as a table leaf page.
    pub fn new(contents: &'a [u8]) -> (r: Result<Self, DbError>)
        ensures
            match r {
                Ok(p) => p@ == contents@ && spec_page_layout(contents@, PageType::BTreeTableLeaf) is Ok,
                Err(e) => spec_page_layout(contents@, PageType::BTreeTableLeaf) == Err::<
                    (BTreePageHeader, int),
                    _,
                >(e),
            },
    {
        match validate_layout(contents, PageType::BTreeTableLeaf) {
            Ok((header, cell_pointers)) => Ok(Self { header, contents, cell_pointers }),
            Err(e) => Err(e),
        }
    }

    /// The number of cells in this page.
    pub fn num_cells(&self) -> (r: usize)
        ensures
            r == page_cell_count(self@),
    {
        proof {
            use_type_invariant(self);
        }
        self.header.cell_count as usize
    }

    /// The `idx`-th cell of this page.
    pub fn cell(&self, idx: usize) -> (r: Cell<'a>)
        requires
            idx < page_cell_count(self@),
        ensures
            r@ == leaf_row(self@, idx as int),
    {
        proof {
            use_type_invariant(self);
            lemma_cells_pass(
                PageType::BTreeTableLeaf,
                self.contents@,
                self.header.cell_content_offset as int,
                self.cell_pointers as int,
                0,
                self.header.cell_count as int,
                idx as int,
            );
        }
        let o = read_be_u16(self.contents, self.cell_pointers + 2 * idx) as usize;
        match parse_cell(self.contents, o) {
            Ok(c) => c,
            Err(_) => unreached(),
        }
    }

    /// The cells of this page, in the order of the cell pointer array.
    pub fn cells(&self) -> (r: Vec<Cell<'a>>)
        ensures
            r@.len() == page_cell_count(self@),
            forall|i: int| 0 <= i < r@.len() ==> (#[trigger] r@[i])@ == leaf_row(self@, i),
    {
        let n = self.num_cells();
        let mut cells: Vec<Cell<'a>> = Vec::new();
        let mut i: usize = 0;
        while i < n
            invariant
                n == page_cell_count(self@),
                i <= n,
                cells@.len() == i,
                forall|j: int| 0 <= j < i ==> (#[trigger] cells@[j])@ == leaf_row(self@, j),
            decreases n - i,
        {
            cells.push(self.cell(i));
            i = i + 1;
        }
        cells
    }
}

} // verus!
