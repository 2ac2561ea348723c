//! What a walk over a table's B-tree produces: the tree's rows in key order, each
//! exactly once, and, when the tree is ordered by key, with rising row ids.
//!
//! The model takes the file's pages as a map from page number to bytes. A tree is
//! followed for at most `fuel` levels, so that a malformed file whose pages point
//! in a cycle still has a model; on a B-tree no higher than its fuel the model
//! is the whole tree.
use vstd::prelude::*;

use crate::error::DbError;
use crate::page::btree_table_internal::{internal_cell_at, rightmost_child};
use crate::page::btree_table_leaf::leaf_row;
use crate::page::{page_cell_count, spec_parse_page, PageType};
use crate::pager::DatabaseHeader;
use crate::record::{record_values, Value};
use crate::table_iter::{spec_next, Step};

verus! {

/// A row of the walk's model: the row id and the record (header region, body) of a
/// leaf cell.
pub type RowModel = (i64, (Seq<u8>, Seq<u8>));

/// The rows of leaf page `s` from its `i`-th cell on.
pub open spec fn leaf_rows_from(s: Seq<u8>, i: int) -> Seq<RowModel> {
    if i >= page_cell_count(s) {
        Seq::empty()
    } else {
        Seq::new((page_cell_count(s) - i) as nat, |j: int| leaf_row(s, i + j))
    }
}

/// The rows of the subtree rooted at page `n`, in key order: the rows of each
/// leaf, and for an internal page the subtrees of its cells' left children and
/// then of its right-most child. Only `fuel` levels are followed.
pub open spec fn subtree_rows(pages: Map<usize, Seq<u8>>, n: usize, fuel: nat) -> Seq<RowModel>
    decreases fuel, 0int,
{
    if fuel == 0 {
        Seq::empty()
    } else {
        let s = pages[n];
        match spec_parse_page(s) {
            Ok(PageType::BTreeTableLeaf) => leaf_rows_from(s, 0),
            Ok(PageType::BTreeTableInternal) => children_rows(pages, s, 0, (fuel - 1) as nat)
                + subtree_rows(pages, rightmost_child(s) as usize, (fuel - 1) as nat),
            Err(_) => Seq::empty(),
        }
    }
}

/// The rows of the subtrees of the left children of cells `i..` of internal page `s`.
pub open spec fn children_rows(pages: Map<usize, Seq<u8>>, s: Seq<u8>, i: int, fuel: nat) -> Seq<
    RowModel,
>
    decreases fuel, page_cell_count(s) - i,
{
    if i < 0 || i >= page_cell_count(s) {
        Seq::empty()
    } else {
        subtree_rows(pages, internal_cell_at(s, i).0 as usize, fuel) + children_rows(
            pages,
            s,
            i + 1,
            fuel,
        )
    }
}

/// The subtree rooted at page `n` is a B-tree of at most `fuel` levels: every page
/// in it is within `[1, page-count]`, present in `pages`, and passes its check.
pub open spec fn tree_ok(header: DatabaseHeader, pages: Map<usize, Seq<u8>>, n: usize, fuel: nat) -> bool
    decreases fuel, 0int,
{
    if fuel == 0 {
        false
    } else if !(1 <= n <= header.page_count && pages.contains_key(n) && spec_parse_page(
        pages[n],
    ) is Ok) {
        false
    } else if spec_parse_page(pages[n]) == Ok::<_, DbError>(PageType::BTreeTableInternal) {
        children_ok(header, pages, pages[n], 0, (fuel - 1) as nat) && tree_ok(
            header,
            pages,
            rightmost_child(pages[n]) as usize,
            (fuel - 1) as nat,
        )
    } else {
        true
    }
}

/// The subtrees of the left children of cells `i..` of internal page `s` are
/// B-trees of at most `fuel` levels.
pub open spec fn children_ok(
    header: DatabaseHeader,
    pages: Map<usize, Seq<u8>>,
    s: Seq<u8>,
    i: int,
    fuel: nat,
) -> bool
    decreases fuel, page_cell_count(s) - i,
{
    if i < 0 || i >= page_cell_count(s) {
        true
    } else {
        tree_ok(header, pages, internal_cell_at(s, i).0 as usize, fuel) && children_ok(
            header,
            pages,
            s,
            i + 1,
            fuel,
        )
    }
}

/// The rows that the frame `(n, idx)` has still to produce, its subtree being at
/// most `fuel` levels high.
pub open spec fn frame_rows(pages: Map<usize, Seq<u8>>, n: usize, idx: usize, fuel: nat) -> Seq<
    RowModel,
> {
    let s = pages[n];
    match spec_parse_page(s) {
        Ok(PageType::BTreeTableLeaf) => leaf_rows_from(s, idx as int),
        Ok(PageType::BTreeTableInternal) => if idx <= page_cell_count(s) && fuel > 0 {
            children_rows(pages, s, idx as int, (fuel - 1) as nat) + subtree_rows(
                pages,
                rightmost_child(s) as usize,
                (fuel - 1) as nat,
            )
        } else {
            Seq::empty()
        },
        Err(_) => Seq::empty(),
    }
}

/// The rows that the walk with stack `st` has still to produce: those of the top
/// frame, then those of the frames below. `fuels` bounds each frame's height.
pub open spec fn walk_rows(pages: Map<usize, Seq<u8>>, st: Seq<(usize, usize)>, fuels: Seq<nat>) -> Seq<
    RowModel,
>
    decreases st.len(),
{
    if st.len() == 0 || fuels.len() == 0 {
        Seq::empty()
    } else {
        frame_rows(pages, st.last().0, st.last().1, fuels.last()) + walk_rows(
            pages,
            st.drop_last(),
            fuels.drop_last(),
        )
    }
}

/// Each frame of the walk sits on a B-tree of at most its fuel's height, and each
/// frame's fuel is below that of the frames under it.
pub open spec fn walk_ok(
    header: DatabaseHeader,
    pages: Map<usize, Seq<u8>>,
    st: Seq<(usize, usize)>,
    fuels: Seq<nat>,
) -> bool {
    &&& st.len() == fuels.len()
    &&& forall|j: int| 0 <= j < st.len() ==> tree_ok(header, pages, #[trigger] st[j].0, fuels[j])
    &&& forall|i: int, j: int| 0 <= i < j < fuels.len() ==> #[trigger] fuels[i] > #[trigger] fuels[j]
}

/// How many moves the walk makes over the subtree rooted at page `n`: one per row
/// and one to leave each leaf; on an internal page one to descend into each left
/// child, and one to pass on to the right-most child.
pub open spec fn subtree_moves(pages: Map<usize, Seq<u8>>, n: usize, fuel: nat) -> nat
    decreases fuel, 0int,
{
    if fuel == 0 {
        0
    } else {
        let s = pages[n];
        match spec_parse_page(s) {
            Ok(PageType::BTreeTableLeaf) => (page_cell_count(s) + 1) as nat,
            Ok(PageType::BTreeTableInternal) => children_moves(pages, s, 0, (fuel - 1) as nat) + 1
                + subtree_moves(pages, rightmost_child(s) as usize, (fuel - 1) as nat),
            Err(_) => 0,
        }
    }
}

/// How many moves the walk makes over the left subtrees of cells `i..` of internal
/// page `s`, the descents included.
pub open spec fn children_moves(pages: Map<usize, Seq<u8>>, s: Seq<u8>, i: int, fuel: nat) -> nat
    decreases fuel, page_cell_count(s) - i,
{
    if i < 0 || i >= page_cell_count(s) {
        0
    } else {
        1 + subtree_moves(pages, internal_cell_at(s, i).0 as usize, fuel) + children_moves(
            pages,
            s,
            i + 1,
            fuel,
        )
    }
}

/// How many moves the frame `(n, idx)` has still to make.
pub open spec fn frame_moves(pages: Map<usize, Seq<u8>>, n: usize, idx: usize, fuel: nat) -> nat {
    let s = pages[n];
    match spec_parse_page(s) {
        Ok(PageType::BTreeTableLeaf) => if idx <= page_cell_count(s) {
            (page_cell_count(s) - idx + 1) as nat
        } else {
            1
        },
        Ok(PageType::BTreeTableInternal) => if idx <= page_cell_count(s) && fuel > 0 {
            children_moves(pages, s, idx as int, (fuel - 1) as nat) + 1 + subtree_moves(
                pages,
                rightmost_child(s) as usize,
                (fuel - 1) as nat,
            )
        } else {
            1
        },
        Err(_) => 0,
    }
}

/// How many moves the walk with stack `st` has still to make.
pub open spec fn walk_moves(pages: Map<usize, Seq<u8>>, st: Seq<(usize, usize)>, fuels: Seq<nat>) -> nat
    decreases st.len(),
{
    if st.len() == 0 || fuels.len() == 0 {
        0
    } else {
        frame_moves(pages, st.last().0, st.last().1, fuels.last()) + walk_moves(
            pages,
            st.drop_last(),
            fuels.drop_last(),
        )
    }
}

proof fn lemma_children_ok_at(
    header: DatabaseHeader,
    pages: Map<usize, Seq<u8>>,
    s: Seq<u8>,
    i: int,
    fuel: nat,
    k: int,
)
    requires
        children_ok(header, pages, s, i, fuel),
        0 <= i <= k < page_cell_count(s),
    ensures
        tree_ok(header, pages, internal_cell_at(s, k).0 as usize, fuel),
    decreases k - i,
{
    if i < k {
        lemma_children_ok_at(header, pages, s, i + 1, fuel, k);
    }
}

proof fn lemma_frame_start(header: DatabaseHeader, pages: Map<usize, Seq<u8>>, n: usize, fuel: nat)
    requires
        tree_ok(header, pages, n, fuel),
    ensures
        frame_rows(pages, n, 0, fuel) == subtree_rows(pages, n, fuel),
        frame_moves(pages, n, 0, fuel) == subtree_moves(pages, n, fuel),
{
}

/// A walk starts with the whole tree still to produce.
pub proof fn lemma_walk_start(header: DatabaseHeader, pages: Map<usize, Seq<u8>>, root: usize, fuel: nat)
    requires
        tree_ok(header, pages, root, fuel),
    ensures
        walk_ok(header, pages, seq![(root, 0usize)], seq![fuel]),
        walk_rows(pages, seq![(root, 0usize)], seq![fuel]) == subtree_rows(pages, root, fuel),
        walk_moves(pages, seq![(root, 0usize)], seq![fuel]) == subtree_moves(pages, root, fuel),
{
    lemma_frame_start(header, pages, root, fuel);
    let st = seq![(root, 0usize)];
    let fuels = seq![fuel];
    assert(st.drop_last().len() == 0);
    assert(walk_rows(pages, st.drop_last(), fuels.drop_last()) == Seq::<RowModel>::empty());
    assert(walk_rows(pages, st, fuels) =~= subtree_rows(pages, root, fuel));
    assert(walk_moves(pages, st.drop_last(), fuels.drop_last()) == 0);
}

/// Popping the top frame, whose rows are all produced, keeps what is due.
proof fn lemma_step_pop(
    header: DatabaseHeader,
    pages: Map<usize, Seq<u8>>,
    st: Seq<(usize, usize)>,
    fuels: Seq<nat>,
)
    requires
        walk_ok(header, pages, st, fuels),
        st.len() > 0,
        frame_rows(pages, st.last().0, st.last().1, fuels.last()) == Seq::<RowModel>::empty(),
        frame_moves(pages, st.last().0, st.last().1, fuels.last()) == 1,
    ensures
        walk_ok(header, pages, st.drop_last(), fuels.drop_last()),
        walk_rows(pages, st, fuels) == walk_rows(pages, st.drop_last(), fuels.drop_last()),
        walk_moves(pages, st, fuels) == walk_moves(pages, st.drop_last(), fuels.drop_last()) + 1,
{
    let below = walk_rows(pages, st.drop_last(), fuels.drop_last());
    assert(walk_rows(pages, st, fuels) =~= Seq::<RowModel>::empty() + below);
    assert forall|j: int| 0 <= j < st.drop_last().len() implies tree_ok(
        header,
        pages,
        #[trigger] st.drop_last()[j].0,
        fuels.drop_last()[j],
    ) by {
        assert(tree_ok(header, pages, st[j].0, fuels[j]));
    }
    assert forall|i: int, j: int| 0 <= i < j < fuels.drop_last().len() implies #[trigger] fuels.drop_last()[i]
        > #[trigger] fuels.drop_last()[j] by {
        assert(fuels[i] > fuels[j]);
    }
}

/// Producing the next cell of a leaf: it is the first row due.
proof fn lemma_step_leaf_row(
    header: DatabaseHeader,
    pages: Map<usize, Seq<u8>>,
    st: Seq<(usize, usize)>,
    fuels: Seq<nat>,
)
    requires
        walk_ok(header, pages, st, fuels),
        st.len() > 0,
        spec_parse_page(pages[st.last().0]) == Ok::<_, DbError>(PageType::BTreeTableLeaf),
        st.last().1 < page_cell_count(pages[st.last().0]),
    ensures
        ({
            let (n, idx) = st.last();
            let st2 = st.update(st.len() - 1, (n, (idx + 1) as usize));
            &&& walk_ok(header, pages, st2, fuels)
            &&& walk_rows(pages, st, fuels) == seq![leaf_row(pages[n], idx as int)] + walk_rows(
                pages,
                st2,
                fuels,
            )
            &&& walk_moves(pages, st, fuels) == walk_moves(pages, st2, fuels) + 1
        }),
{
    let last = st.len() - 1;
    let (n, idx) = st[last];
    let s = pages[n];
    let f = fuels[last];
    let below = walk_rows(pages, st.drop_last(), fuels.drop_last());
    let st2 = st.update(last, (n, (idx + 1) as usize));
    assert(st2.drop_last() =~= st.drop_last());
    assert(walk_rows(pages, st2, fuels) == frame_rows(pages, n, (idx + 1) as usize, f) + below);
    assert(walk_moves(pages, st2, fuels) == frame_moves(pages, n, (idx + 1) as usize, f)
        + walk_moves(pages, st.drop_last(), fuels.drop_last()));
    assert(leaf_rows_from(s, idx as int) =~= seq![leaf_row(s, idx as int)] + leaf_rows_from(
        s,
        idx + 1,
    ));
    assert(walk_rows(pages, st, fuels) =~= seq![leaf_row(s, idx as int)] + walk_rows(
        pages,
        st2,
        fuels,
    ));
    assert forall|j: int| 0 <= j < st2.len() implies tree_ok(
        header,
        pages,
        #[trigger] st2[j].0,
        fuels[j],
    ) by {
        assert(tree_ok(header, pages, st[j].0, fuels[j]));
    }
}

/// Descending into the next cell's left child keeps what is due.
proof fn lemma_step_push(
    header: DatabaseHeader,
    pages: Map<usize, Seq<u8>>,
    st: Seq<(usize, usize)>,
    fuels: Seq<nat>,
)
    requires
        walk_ok(header, pages, st, fuels),
        st.len() > 0,
        spec_parse_page(pages[st.last().0]) == Ok::<_, DbError>(PageType::BTreeTableInternal),
        st.last().1 < page_cell_count(pages[st.last().0]),
    ensures
        ({
            let (n, idx) = st.last();
            let child = internal_cell_at(pages[n], idx as int).0 as usize;
            let st2 = st.update(st.len() - 1, (n, (idx + 1) as usize)).push((child, 0usize));
            let fuels2 = fuels.push((fuels.last() - 1) as nat);
            &&& walk_ok(header, pages, st2, fuels2)
            &&& walk_rows(pages, st, fuels) == walk_rows(pages, st2, fuels2)
            &&& walk_moves(pages, st, fuels) == walk_moves(pages, st2, fuels2) + 1
        }),
{
    let last = st.len() - 1;
    let (n, idx) = st[last];
    let s = pages[n];
    let f = fuels[last];
    assert(tree_ok(header, pages, st[last].0, fuels[last]));
    let g = (f - 1) as nat;
    let below = walk_rows(pages, st.drop_last(), fuels.drop_last());
    let child = internal_cell_at(s, idx as int).0 as usize;
    lemma_children_ok_at(header, pages, s, 0, g, idx as int);
    lemma_frame_start(header, pages, child, g);
    let mid = st.update(last, (n, (idx + 1) as usize));
    let st2 = mid.push((child, 0usize));
    let fuels2 = fuels.push(g);
    assert(st2.drop_last() =~= mid);
    assert(fuels2.drop_last() =~= fuels);
    assert(mid.drop_last() =~= st.drop_last());
    assert(walk_rows(pages, mid, fuels) == frame_rows(pages, n, (idx + 1) as usize, f) + below);
    assert(walk_rows(pages, st2, fuels2) == frame_rows(pages, child, 0, g) + walk_rows(
        pages,
        mid,
        fuels,
    ));
    assert(children_rows(pages, s, idx as int, g) == subtree_rows(pages, child, g) + children_rows(
        pages,
        s,
        idx + 1,
        g,
    ));
    assert(walk_rows(pages, st, fuels) =~= walk_rows(pages, st2, fuels2));
    assert(walk_moves(pages, mid, fuels) == frame_moves(pages, n, (idx + 1) as usize, f)
        + walk_moves(pages, st.drop_last(), fuels.drop_last()));
    assert(walk_moves(pages, st2, fuels2) == frame_moves(pages, child, 0, g) + walk_moves(
        pages,
        mid,
        fuels,
    ));
    assert(children_moves(pages, s, idx as int, g) == 1 + subtree_moves(pages, child, g)
        + children_moves(pages, s, idx + 1, g));
    assert forall|j: int| 0 <= j < st2.len() implies tree_ok(
        header,
        pages,
        #[trigger] st2[j].0,
        fuels2[j],
    ) by {
        if j < st.len() {
            assert(tree_ok(header, pages, st[j].0, fuels[j]));
        }
    }
    assert forall|i: int, j: int| 0 <= i < j < fuels2.len() implies #[trigger] fuels2[i]
        > #[trigger] fuels2[j] by {
        if j < fuels.len() {
            assert(fuels[i] > fuels[j]);
        } else if i < last {
            assert(fuels[i] > fuels[last]);
        }
    }
}

/// Replacing a finished internal frame by its right-most child keeps what is due.
proof fn lemma_step_replace(
    header: DatabaseHeader,
    pages: Map<usize, Seq<u8>>,
    st: Seq<(usize, usize)>,
    fuels: Seq<nat>,
)
    requires
        walk_ok(header, pages, st, fuels),
        st.len() > 0,
        spec_parse_page(pages[st.last().0]) == Ok::<_, DbError>(PageType::BTreeTableInternal),
        st.last().1 == page_cell_count(pages[st.last().0]),
    ensures
        ({
            let n = st.last().0;
            let st2 = st.update(st.len() - 1, (rightmost_child(pages[n]) as usize, 0usize));
            let fuels2 = fuels.update(fuels.len() - 1, (fuels.last() - 1) as nat);
            &&& walk_ok(header, pages, st2, fuels2)
            &&& walk_rows(pages, st, fuels) == walk_rows(pages, st2, fuels2)
            &&& walk_moves(pages, st, fuels) == walk_moves(pages, st2, fuels2) + 1
        }),
{
    let last = st.len() - 1;
    let (n, idx) = st[last];
    let s = pages[n];
    let f = fuels[last];
    assert(tree_ok(header, pages, st[last].0, fuels[last]));
    let g = (f - 1) as nat;
    let rm = rightmost_child(s) as usize;
    let below = walk_rows(pages, st.drop_last(), fuels.drop_last());
    let st2 = st.update(last, (rm, 0usize));
    let fuels2 = fuels.update(last, g);
    lemma_frame_start(header, pages, rm, g);
    assert(st2.drop_last() =~= st.drop_last());
    assert(fuels2.drop_last() =~= fuels.drop_last());
    assert(children_rows(pages, s, idx as int, g) =~= Seq::<RowModel>::empty());
    assert(walk_rows(pages, st2, fuels2) == frame_rows(pages, rm, 0, g) + below);
    assert(children_moves(pages, s, idx as int, g) == 0);
    assert(walk_moves(pages, st2, fuels2) == frame_moves(pages, rm, 0, g) + walk_moves(
        pages,
        st.drop_last(),
        fuels.drop_last(),
    ));
    assert(walk_rows(pages, st, fuels) =~= walk_rows(pages, st2, fuels2));
    assert forall|j: int| 0 <= j < st2.len() implies tree_ok(
        header,
        pages,
        #[trigger] st2[j].0,
        fuels2[j],
    ) by {
        if j < last {
            assert(tree_ok(header, pages, st[j].0, fuels[j]));
        }
    }
    assert forall|i: int, j: int| 0 <= i < j < fuels2.len() implies #[trigger] fuels2[i]
        > #[trigger] fuels2[j] by {
        assert(fuels[i] > fuels[j]);
    }
}

/// Each move of the walk over a B-tree keeps the rows produced so far followed by
/// the rows still due equal to the tree's rows in key order: a row produced is the
/// first row due, a move or a request for a page changes nothing due, and the walk
/// is done only when nothing is due. It never fails, and each move that produces a
/// row or moves between pages leaves one move fewer to make, so that the walk ends.
/// `pages` holds the file's pages; the pager's cache `cache` holds some of them.
pub proof fn lemma_walk_step(
    header: DatabaseHeader,
    pages: Map<usize, Seq<u8>>,
    cache: Map<usize, Seq<u8>>,
    st: Seq<(usize, usize)>,
    fuels: Seq<nat>,
) -> (fuels2: Seq<nat>)
    requires
        walk_ok(header, pages, st, fuels),
        forall|k: usize| #[trigger]
            cache.contains_key(k) ==> pages.contains_key(k) && cache[k] == pages[k],
    ensures
        ({
            let (st2, out) = spec_next(header, cache, st);
            &&& walk_ok(header, pages, st2, fuels2)
            &&& st2.len() > 0 ==> fuels2[0] <= fuels[0]
            &&& match out {
                Step::Row(values) => {
                    let due = walk_rows(pages, st, fuels);
                    &&& due.len() > 0
                    &&& values == record_values(due[0].1.0, due[0].1.1)
                    &&& due == seq![due[0]] + walk_rows(pages, st2, fuels2)
                    &&& walk_moves(pages, st, fuels) == walk_moves(pages, st2, fuels2) + 1
                },
                Step::Moved => {
                    &&& walk_rows(pages, st, fuels) == walk_rows(pages, st2, fuels2)
                    &&& walk_moves(pages, st, fuels) == walk_moves(pages, st2, fuels2) + 1
                },
                Step::NeedPage(n) => {
                    &&& st2 == st
                    &&& walk_rows(pages, st, fuels) == walk_rows(pages, st2, fuels2)
                    &&& walk_moves(pages, st, fuels) == walk_moves(pages, st2, fuels2)
                    &&& !cache.contains_key(n)
                    &&& pages.contains_key(n)
                    &&& st.len() > 0
                    &&& n == st.last().0
                },
                Step::Done => walk_rows(pages, st, fuels).len() == 0,
                Step::Failed(_) => false,
            }
        }),
{
    reveal(spec_next);
    if st.len() == 0 {
        return fuels;
    }
    let last = st.len() - 1;
    let (n, idx) = st[last];
    assert(tree_ok(header, pages, st[last].0, fuels[last]));
    if !cache.contains_key(n) {
        return fuels;
    }
    let s = pages[n];
    assert(cache[n] == s);
    let c = page_cell_count(s);
    if spec_parse_page(s) == Ok::<_, DbError>(PageType::BTreeTableLeaf) {
        if idx < c {
            lemma_step_leaf_row(header, pages, st, fuels);
            fuels
        } else {
            assert(frame_rows(pages, n, idx, fuels.last()) =~= Seq::<RowModel>::empty());
            assert(frame_moves(pages, n, idx, fuels.last()) == 1);
            lemma_step_pop(header, pages, st, fuels);
            fuels.drop_last()
        }
    } else if idx < c {
        lemma_step_push(header, pages, st, fuels);
        fuels.push((fuels.last() - 1) as nat)
    } else if idx == c {
        lemma_step_replace(header, pages, st, fuels);
        fuels.update(last, (fuels.last() - 1) as nat)
    } else {
        assert(frame_rows(pages, n, idx, fuels.last()) =~= Seq::<RowModel>::empty());
        assert(frame_moves(pages, n, idx, fuels.last()) == 1);
        lemma_step_pop(header, pages, st, fuels);
        fuels.drop_last()
    }
}

proof fn lemma_fuel_gap(fuels: Seq<nat>, j: int)
    requires
        0 <= j < fuels.len(),
        forall|a: int, b: int| 0 <= a < b < fuels.len() ==> #[trigger] fuels[a] > #[trigger] fuels[b],
    ensures
        fuels[0] >= fuels[j] + j,
    decreases j,
{
    if j > 0 {
        lemma_fuel_gap(fuels, j - 1);
        assert(fuels[j - 1] > fuels[j]);
    }
}

/// The walk's stack is never deeper than the height bound of its bottom frame;
/// a walk started at the root of a tree of `h` levels has a bottom frame whose
/// bound never exceeds `h` (see `lemma_walk_step`), so its stack never holds more
/// than `h` frames: replacing a finished internal frame by its right-most child,
/// rather than pushing it, keeps the stack within the tree's height.
pub proof fn lemma_walk_depth(
    header: DatabaseHeader,
    pages: Map<usize, Seq<u8>>,
    st: Seq<(usize, usize)>,
    fuels: Seq<nat>,
)
    requires
        walk_ok(header, pages, st, fuels),
        st.len() > 0,
    ensures
        st.len() <= fuels[0],
{
    let last = st.len() - 1;
    assert(tree_ok(header, pages, st[last].0, fuels[last]));
    lemma_fuel_gap(fuels, last);
}

/// The values of each row's record.
pub open spec fn rows_values(rows: Seq<RowModel>) -> Seq<Seq<Value<Seq<u8>>>> {
    rows.map_values(|r: RowModel| record_values(r.1.0, r.1.1))
}

/// Runs the walk from stack `st` for at most `k` moves, loading each page it asks
/// for from `pages` into the cache: the values of the rows produced, or `None`
/// when the walk fails or is not over after `k` moves.
pub open spec fn drive(
    header: DatabaseHeader,
    pages: Map<usize, Seq<u8>>,
    cache: Map<usize, Seq<u8>>,
    st: Seq<(usize, usize)>,
    k: nat,
) -> Option<Seq<Seq<Value<Seq<u8>>>>>
    decreases k,
{
    if k == 0 {
        None
    } else {
        let (st2, out) = spec_next(header, cache, st);
        match out {
            Step::Row(values) => match drive(header, pages, cache, st2, (k - 1) as nat) {
                Some(rest) => Some(seq![values] + rest),
                None => None,
            },
            Step::Moved => drive(header, pages, cache, st2, (k - 1) as nat),
            Step::NeedPage(n) => drive(header, pages, cache.insert(n, pages[n]), st, (k - 1) as nat),
            Step::Done => Some(Seq::empty()),
            Step::Failed(_) => None,
        }
    }
}

proof fn lemma_rows_values_cons(due: Seq<RowModel>, rest: Seq<RowModel>)
    requires
        due.len() > 0,
        due == seq![due[0]] + rest,
    ensures
        rows_values(due) == seq![record_values(due[0].1.0, due[0].1.1)] + rows_values(rest),
{
    assert(rows_values(due) =~= seq![record_values(due[0].1.0, due[0].1.1)] + rows_values(rest))
        by {
        assert forall|i: int| 0 <= i < rest.len() implies rows_values(due)[i + 1] == rows_values(
            rest,
        )[i] by {
            assert(due[i + 1] == rest[i]);
        }
    }
}

proof fn lemma_drive_row(
    header: DatabaseHeader,
    pages: Map<usize, Seq<u8>>,
    cache: Map<usize, Seq<u8>>,
    st: Seq<(usize, usize)>,
    k: nat,
    st2: Seq<(usize, usize)>,
    values: Seq<Value<Seq<u8>>>,
    rest: Seq<Seq<Value<Seq<u8>>>>,
)
    requires
        k > 0,
        spec_next(header, cache, st) == (st2, Step::Row(values)),
        drive(header, pages, cache, st2, (k - 1) as nat) == Some(rest),
    ensures
        drive(header, pages, cache, st, k) == Some(seq![values] + rest),
{
}

proof fn lemma_drive_moved(
    header: DatabaseHeader,
    pages: Map<usize, Seq<u8>>,
    cache: Map<usize, Seq<u8>>,
    st: Seq<(usize, usize)>,
    k: nat,
    st2: Seq<(usize, usize)>,
)
    requires
        k > 0,
        spec_next(header, cache, st) == (st2, Step::<Seq<Value<Seq<u8>>>>::Moved),
    ensures
        drive(header, pages, cache, st, k) == drive(header, pages, cache, st2, (k - 1) as nat),
{
}

proof fn lemma_drive_need(
    header: DatabaseHeader,
    pages: Map<usize, Seq<u8>>,
    cache: Map<usize, Seq<u8>>,
    st: Seq<(usize, usize)>,
    k: nat,
    n: usize,
)
    requires
        k > 0,
        spec_next(header, cache, st).1 == Step::<Seq<Value<Seq<u8>>>>::NeedPage(n),
    ensures
        drive(header, pages, cache, st, k) == drive(
            header,
            pages,
            cache.insert(n, pages[n]),
            st,
            (k - 1) as nat,
        ),
{
}

/// One move of a drive that does not ask for a page: the rows it yields are those
/// still due.
proof fn lemma_drive_cached(
    header: DatabaseHeader,
    pages: Map<usize, Seq<u8>>,
    cache: Map<usize, Seq<u8>>,
    st: Seq<(usize, usize)>,
    fuels: Seq<nat>,
    k: nat,
)
    requires
        walk_ok(header, pages, st, fuels),
        forall|q: usize| #[trigger]
            cache.contains_key(q) ==> pages.contains_key(q) && cache[q] == pages[q],
        k >= 2 * walk_moves(pages, st, fuels),
        k > 0,
        spec_next(header, cache, st).1 !is NeedPage,
    ensures
        drive(header, pages, cache, st, k) == Some(rows_values(walk_rows(pages, st, fuels))),
    decreases walk_moves(pages, st, fuels), 0nat,
{
    let due = walk_rows(pages, st, fuels);
    let fuels2 = lemma_walk_step(header, pages, cache, st, fuels);
    let st2 = spec_next(header, cache, st).0;
    let out = spec_next(header, cache, st).1;
    if let Step::Row(values) = out {
        lemma_drive_moves(header, pages, cache, st2, fuels2, (k - 1) as nat);
        let rest = walk_rows(pages, st2, fuels2);
        lemma_rows_values_cons(due, rest);
        lemma_drive_row(header, pages, cache, st, k, st2, values, rows_values(rest));
    } else if out is Moved {
        lemma_drive_moves(header, pages, cache, st2, fuels2, (k - 1) as nat);
        lemma_drive_moved(header, pages, cache, st, k, st2);
    } else if out is Done {
        assert(rows_values(due) =~= Seq::<Seq<Value<Seq<u8>>>>::empty());
    }
}

proof fn lemma_drive_moves(
    header: DatabaseHeader,
    pages: Map<usize, Seq<u8>>,
    cache: Map<usize, Seq<u8>>,
    st: Seq<(usize, usize)>,
    fuels: Seq<nat>,
    k: nat,
)
    requires
        walk_ok(header, pages, st, fuels),
        forall|q: usize| #[trigger]
            cache.contains_key(q) ==> pages.contains_key(q) && cache[q] == pages[q],
        k >= 2 * walk_moves(pages, st, fuels) + 1,
    ensures
        drive(header, pages, cache, st, k) == Some(rows_values(walk_rows(pages, st, fuels))),
    decreases walk_moves(pages, st, fuels), 1nat,
{
    let fuels2 = lemma_walk_step(header, pages, cache, st, fuels);
    if let Step::NeedPage(n) = spec_next(header, cache, st).1 {
        let cache2 = cache.insert(n, pages[n]);
        let fuels3 = lemma_walk_step(header, pages, cache2, st, fuels);
        assert(cache2.contains_key(n));
        let last = st.len() - 1;
        assert(tree_ok(header, pages, st[last].0, fuels[last]));
        assert(walk_moves(pages, st, fuels) >= 1);
        lemma_drive_need(header, pages, cache, st, k, n);
        lemma_drive_cached(header, pages, cache2, st, fuels, (k - 1) as nat);
    } else {
        lemma_drive_cached(header, pages, cache, st, fuels, k);
    }
}

/// Scanning a table: the walk from its root, driven to its end with each page it
/// asks for loaded from the file, produces the records of the leaf cells of the
/// tree, each exactly once, in key order, and then ends (within twice as many moves
/// as the tree has rows, pages and cells, plus one).
pub proof fn lemma_table_scan(
    header: DatabaseHeader,
    pages: Map<usize, Seq<u8>>,
    root: usize,
    fuel: nat,
)
    requires
        tree_ok(header, pages, root, fuel),
    ensures
        drive(
            header,
            pages,
            Map::empty(),
            seq![(root, 0usize)],
            2 * subtree_moves(pages, root, fuel) + 1,
        ) == Some(rows_values(subtree_rows(pages, root, fuel))),
{
    lemma_walk_start(header, pages, root, fuel);
    lemma_drive_moves(
        header,
        pages,
        Map::empty(),
        seq![(root, 0usize)],
        seq![fuel],
        2 * subtree_moves(pages, root, fuel) + 1,
    );
}

/// The row ids of `rows` are non-decreasing and lie within `[lo, hi]`.
pub open spec fn ids_sorted_within(rows: Seq<RowModel>, lo: int, hi: int) -> bool {
    &&& forall|i: int| 0 <= i < rows.len() ==> lo <= #[trigger] rows[i].0 <= hi
    &&& forall|i: int, j: int|
        0 <= i < j < rows.len() ==> #[trigger] rows[i].0 <= #[trigger] rows[j].0
}

/// The key of the `i`-th cell of internal page `s`, or `lo` before the first cell.
pub open spec fn key_before(s: Seq<u8>, i: int, lo: int) -> int {
    if i <= 0 {
        lo
    } else {
        internal_cell_at(s, i - 1).1 as int
    }
}

/// The subtree rooted at page `n` is ordered by key within `[lo, hi]`: a leaf's row
/// ids are non-decreasing and within the bounds; on an internal page each cell's
/// left subtree lies between the previous key (or `lo`) and the cell's key, the keys
/// rise, and the right-most subtree lies between the last key (or `lo`) and `hi`.
pub open spec fn keys_ordered(pages: Map<usize, Seq<u8>>, n: usize, fuel: nat, lo: int, hi: int) -> bool
    decreases fuel, 0int,
{
    if fuel == 0 {
        true
    } else {
        let s = pages[n];
        match spec_parse_page(s) {
            Ok(PageType::BTreeTableLeaf) => ids_sorted_within(leaf_rows_from(s, 0), lo, hi),
            Ok(PageType::BTreeTableInternal) => {
                &&& children_ordered(pages, s, 0, (fuel - 1) as nat, lo, hi)
                &&& key_before(s, page_cell_count(s), lo) <= hi
                &&& keys_ordered(
                    pages,
                    rightmost_child(s) as usize,
                    (fuel - 1) as nat,
                    key_before(s, page_cell_count(s), lo),
                    hi,
                )
            },
            Err(_) => true,
        }
    }
}

/// The left subtrees of cells `i..` of internal page `s` are ordered by key.
pub open spec fn children_ordered(
    pages: Map<usize, Seq<u8>>,
    s: Seq<u8>,
    i: int,
    fuel: nat,
    lo: int,
    hi: int,
) -> bool
    decreases fuel, page_cell_count(s) - i,
{
    if i < 0 || i >= page_cell_count(s) {
        true
    } else {
        let key = internal_cell_at(s, i).1 as int;
        &&& key_before(s, i, lo) <= key
        &&& keys_ordered(pages, internal_cell_at(s, i).0 as usize, fuel, key_before(s, i, lo), key)
        &&& children_ordered(pages, s, i + 1, fuel, lo, hi)
    }
}

proof fn lemma_sorted_concat(a: Seq<RowModel>, b: Seq<RowModel>, lo: int, mid: int, hi: int)
    requires
        ids_sorted_within(a, lo, mid),
        ids_sorted_within(b, mid, hi),
        lo <= mid <= hi,
    ensures
        ids_sorted_within(a + b, lo, hi),
{
    let c = a + b;
    assert forall|i: int, j: int| 0 <= i < j < c.len() implies #[trigger] c[i].0 <= #[trigger] c[j].0 by {
        if j < a.len() {
            assert(a[i].0 <= a[j].0);
        } else if i >= a.len() {
            assert(b[i - a.len()].0 <= b[j - a.len()].0);
        } else {
            assert(a[i].0 <= mid <= b[j - a.len()].0);
        }
    }
    assert forall|i: int| 0 <= i < c.len() implies lo <= #[trigger] c[i].0 <= hi by {
        if i < a.len() {
            assert(lo <= a[i].0 <= mid);
        } else {
            assert(mid <= b[i - a.len()].0 <= hi);
        }
    }
}

proof fn lemma_subtree_sorted(pages: Map<usize, Seq<u8>>, n: usize, fuel: nat, lo: int, hi: int)
    requires
        keys_ordered(pages, n, fuel, lo, hi),
        lo <= hi,
    ensures
        ids_sorted_within(subtree_rows(pages, n, fuel), lo, hi),
    decreases fuel, 0int,
{
    if fuel > 0 {
        let s = pages[n];
        if spec_parse_page(s) == Ok::<_, DbError>(PageType::BTreeTableInternal) {
            let g = (fuel - 1) as nat;
            let mid = key_before(s, page_cell_count(s), lo);
            lemma_children_sorted(pages, s, 0, g, lo, hi);
            lemma_subtree_sorted(pages, rightmost_child(s) as usize, g, mid, hi);
            lemma_sorted_concat(
                children_rows(pages, s, 0, g),
                subtree_rows(pages, rightmost_child(s) as usize, g),
                lo,
                mid,
                hi,
            );
        }
    }
}

proof fn lemma_children_sorted(
    pages: Map<usize, Seq<u8>>,
    s: Seq<u8>,
    i: int,
    fuel: nat,
    lo: int,
    hi: int,
)
    requires
        children_ordered(pages, s, i, fuel, lo, hi),
        0 <= i <= page_cell_count(s),
    ensures
        key_before(s, i, lo) <= key_before(s, page_cell_count(s), lo),
        ids_sorted_within(
            children_rows(pages, s, i, fuel),
            key_before(s, i, lo),
            key_before(s, page_cell_count(s), lo),
        ),
    decreases fuel, page_cell_count(s) - i,
{
    if i < page_cell_count(s) {
        let key = internal_cell_at(s, i).1 as int;
        lemma_subtree_sorted(pages, internal_cell_at(s, i).0 as usize, fuel, key_before(s, i, lo), key);
        lemma_children_sorted(pages, s, i + 1, fuel, lo, hi);
        assert(key_before(s, i + 1, lo) == key);
        lemma_sorted_concat(
            subtree_rows(pages, internal_cell_at(s, i).0 as usize, fuel),
            children_rows(pages, s, i + 1, fuel),
            key_before(s, i, lo),
            key,
            key_before(s, page_cell_count(s), lo),
        );
    } else {
        assert(children_rows(pages, s, i, fuel) =~= Seq::<RowModel>::empty());
    }
}

/// In a B-tree ordered by key, the tree's rows in key order (the rows that a scan
/// produces, by `lemma_table_scan`) have non-decreasing row ids.
pub proof fn lemma_rows_in_key_order(pages: Map<usize, Seq<u8>>, root: usize, fuel: nat)
    requires
        keys_ordered(pages, root, fuel, i64::MIN as int, i64::MAX as int),
    ensures
        forall|i: int, j: int|
            0 <= i < j < subtree_rows(pages, root, fuel).len() ==> #[trigger] subtree_rows(
                pages,
                root,
                fuel,
            )[i].0 <= #[trigger] subtree_rows(pages, root, fuel)[j].0,
{
    lemma_subtree_sorted(pages, root, fuel, i64::MIN as int, i64::MAX as int);
}

} // verus!
