//! Iterating over the rows of a table: a walk of its B-tree with an explicit stack.
//!
//! Each call of [`TableIter::next`] makes one move of the walk. When the page it
//! needs is not cached yet, it answers [`Step::NeedPage`] and changes nothing; the
//! caller reads that page into the pager and calls again.
use vstd::prelude::*;

use crate::error::DbError;
use crate::page::btree_table_internal::{internal_cell_at, rightmost_child};
use crate::page::btree_table_leaf::leaf_row;
use crate::page::{page_cell_count, spec_parse_page, PageType, ParsedPage};
use crate::pager::{spec_page_to_load, DatabaseHeader, Pager};
use crate::record::{record_values, OwnedValue, Value};
use crate::schema::{spec_root_page, Schema};

verus! {

/// What one move of the walk produced.
pub enum Step<Row> {
    /// The next row of the table.
    Row(Row),
    /// The walk moved between pages without reaching a row.
    Moved,
    /// The page of this number must be loaded into the pager first.
    NeedPage(usize),
    /// All rows have been produced.
    Done,
    /// The walk failed and is over.
    Failed(DbError),
}

/// The values of a row.
pub open spec fn row_view(row: Seq<OwnedValue>) -> Seq<Value<Seq<u8>>> {
    row.map_values(|v: OwnedValue| v@)
}

impl View for Step<Vec<OwnedValue>> {
    type V = Step<Seq<Value<Seq<u8>>>>;

    open spec fn view(&self) -> Step<Seq<Value<Seq<u8>>>> {
        match self {
            Step::Row(row) => Step::Row(row_view(row@)),
            Step::Moved => Step::Moved,
            Step::NeedPage(n) => Step::NeedPage(*n),
            Step::Done => Step::Done,
            Step::Failed(e) => Step::Failed(*e),
        }
    }
}

/// One move of the walk, from the stack of frames `(page number, next cell index)`
/// `st`, over the pages cached so far. Returns the new stack and what was produced.
///
/// On a leaf, the next cell is produced as a row, and past the last cell the frame
/// is popped. On an internal page, the next cell's left child is pushed; after the
/// last cell the frame is replaced by the right-most child (so the stack never grows
/// beyond the height of the tree); past that, the frame is popped.
#[verifier::opaque]
pub open spec fn spec_next(
    header: DatabaseHeader,
    pages: Map<usize, Seq<u8>>,
    st: Seq<(usize, usize)>,
) -> (Seq<(usize, usize)>, Step<Seq<Value<Seq<u8>>>>) {
    if st.len() == 0 {
        (st, Step::Done)
    } else {
        let last = st.len() - 1;
        let (n, idx) = st[last];
        match spec_page_to_load(header, pages, n) {
            Err(e) => (Seq::empty(), Step::Failed(e)),
            Ok(Some(_)) => (st, Step::NeedPage(n)),
            Ok(None) => {
                let s = pages[n];
                match spec_parse_page(s) {
                    Err(e) => (Seq::empty(), Step::Failed(e)),
                    Ok(PageType::BTreeTableLeaf) => if idx < page_cell_count(s) {
                        let rec = leaf_row(s, idx as int).1;
                        (st.update(last, (n, (idx + 1) as usize)), Step::Row(record_values(rec.0, rec.1)))
                    } else {
                        (st.drop_last(), Step::Moved)
                    },
                    Ok(PageType::BTreeTableInternal) => if idx < page_cell_count(s) {
                        let child = internal_cell_at(s, idx as int).0 as usize;
                        (st.update(last, (n, (idx + 1) as usize)).push((child, 0usize)), Step::Moved)
                    } else if idx == page_cell_count(s) {
                        (st.update(last, (rightmost_child(s) as usize, 0usize)), Step::Moved)
                    } else {
                        (st.drop_last(), Step::Moved)
                    },
                }
            },
        }
    }
}

/// A frame of the walk: a page, and the index of the next cell to visit in it.
#[derive(Copy, Clone)]
struct StackFrame {
    page_num: usize,
    idx_in_page: usize,
}

/// An iterator over the rows of one table.
pub struct TableIter {
    stack: Vec<StackFrame>,
}

impl TableIter {
    /// The frames of the walk, bottom first, as `(page number, next cell index)`.
    pub closed spec fn frames(&self) -> Seq<(usize, usize)> {
        self.stack@.map_values(|f: StackFrame| (f.page_num, f.idx_in_page))
    }

    /// Starts a walk over the table named `table_name`.
    pub fn new(schema: &Schema, table_name: &[u8]) -> (r: Result<Self, DbError>)
        ensures
            match r {
                Ok(it) => spec_root_page(schema@, table_name@) == Ok::<_, DbError>(
                    it.frames()[0].0,
                ) && it.frames() == seq![(it.frames()[0].0, 0usize)],
                Err(e) => spec_root_page(schema@, table_name@) == Err::<usize, _>(e),
            },
    {
        let root_page_num = match schema.root_page(table_name) {
            Ok(root) => root,
            Err(e) => return Err(e),
        };
        Ok(Self::from_root(root_page_num))
    }

    /// Starts a walk over the B-tree rooted at page `root_page_num`.
    pub fn from_root(root_page_num: usize) -> (r: Self)
        ensures
            r.frames() == seq![(root_page_num, 0usize)],
    {
        let mut stack: Vec<StackFrame> = Vec::new();
        stack.push(StackFrame { page_num: root_page_num, idx_in_page: 0 });
        let it = Self { stack };
        assert(it.frames() =~= seq![(root_page_num, 0usize)]);
        it
    }

    /// The number of frames on the stack.
    pub fn depth(&self) -> (r: usize)
        ensures
            r == self.frames().len(),
    {
        self.stack.len()
    }

    /// Makes one move of the walk over the pages cached in `pager`.
    pub fn next(&mut self, pager: &Pager) -> (r: Step<Vec<OwnedValue>>)
        requires
            pager.wf(),
        ensures
            (final(self).frames(), r@) == spec_next(pager.header(), pager.pages(), old(self).frames()),
    {
        reveal(spec_next);
        let ghost st = self.frames();
        let len = self.stack.len();
        if len == 0 {
            return Step::Done;
        }
        let top = self.stack[len - 1];
        match pager.page_to_load(top.page_num) {
            Err(e) => {
                self.stack = Vec::new();
                assert(self.frames() =~= Seq::<(usize, usize)>::empty());
                return Step::Failed(e);
            },
            Ok(Some(_)) => return Step::NeedPage(top.page_num),
            Ok(None) => {},
        }
        let page = match pager.read_page(top.page_num) {
            Ok(p) => p,
            Err(e) => {
                self.stack = Vec::new();
                assert(self.frames() =~= Seq::<(usize, usize)>::empty());
                return Step::Failed(e);
            },
        };
        match page.parse() {
            ParsedPage::BTreeTableLeaf(leaf) => {
                if top.idx_in_page < leaf.num_cells() {
                    let cell = leaf.cell(top.idx_in_page);
                    self.stack.set(
                        len - 1,
                        StackFrame { page_num: top.page_num, idx_in_page: top.idx_in_page + 1 },
                    );
                    assert(self.frames() =~= st.update(
                        len - 1,
                        (top.page_num, (top.idx_in_page + 1) as usize),
                    ));
                    let values = cell.payload().value_iter();
                    let mut row: Vec<OwnedValue> = Vec::new();
                    let mut i: usize = 0;
                    while i < values.len()
                        invariant
                            i <= values@.len(),
                            row@.len() == i,
                            forall|j: int| 0 <= j < i ==> (#[trigger] row@[j])@ == values@[j]@,
                        decreases values@.len() - i,
                    {
                        row.push(values[i].to_owned());
                        i = i + 1;
                    }
                    assert(row_view(row@) =~= record_values(cell@.1.0, cell@.1.1));
                    Step::Row(row)
                } else {
                    self.stack.pop();
                    assert(self.frames() =~= st.drop_last());
                    Step::Moved
                }
            },
            ParsedPage::BTreeTableInternal(internal) => {
                let count = internal.num_cells();
                if top.idx_in_page < count {
                    let cell = internal.cell(top.idx_in_page);
                    self.stack.set(
                        len - 1,
                        StackFrame { page_num: top.page_num, idx_in_page: top.idx_in_page + 1 },
                    );
                    self.stack.push(
                        StackFrame { page_num: cell.left_child_page as usize, idx_in_page: 0 },
                    );
                    assert(self.frames() =~= st.update(
                        len - 1,
                        (top.page_num, (top.idx_in_page + 1) as usize),
                    ).push((cell.left_child_page as usize, 0usize)));
                } else if top.idx_in_page == count {
                    self.stack.set(
                        len - 1,
                        StackFrame { page_num: internal.rightmost_child_idx() as usize, idx_in_page: 0 },
                    );
                    assert(self.frames() =~= st.update(
                        len - 1,
                        (rightmost_child(page@) as usize, 0usize),
                    ));
                } else {
                    self.stack.pop();
                    assert(self.frames() =~= st.drop_last());
                }
                Step::Moved
            },
        }
    }
}

} // verus!
