//! The order in which the collision pass examines pairs of objects, for any
//! grid given as the list `cell(x, y)` of the square in column `x`, row `y`,
//! and what that order guarantees.
use vstd::prelude::*;
use crate::pairs::{cell_pairs, no_self_pairs, lemma_cell_pairs_shape, lemma_no_self_pairs_add,
    lemma_contains_add, lemma_contains_split, lemma_cell_pairs_contains};
use crate::{CELLS_HEIGHT, CELLS_WIDTH};

verus! {

/// `v - 1`, or `0` for `0`.
pub open spec fn step_back(v: int) -> int {
    if v > 0 { v - 1 } else { 0 }
}

/// The nine squares examined for an object at `(x, y)`, in order: row
/// `y + 1`, then `y`, then the row before `y`; in each, column `x + 1`, then
/// `x`, then the column before `x`; a row or column before `0` is `0`.
pub open spec fn neighbour_squares(x: int, y: int) -> Seq<(int, int)> {
    let xb = step_back(x);
    let yb = step_back(y);
    seq![(x + 1, y + 1), (x, y + 1), (xb, y + 1), (x + 1, y), (x, y), (xb, y), (x + 1, yb), (x, yb), (xb, yb)]
}

/// `w` is the column (or row) of `v`, the one after it, or the one before
/// it bounded below by `0`.
pub open spec fn near(v: int, w: int) -> bool {
    w == v + 1 || w == v || w == step_back(v)
}

/// The pairs that the squares of `squares` offer to `object_id`, square by
/// square.
pub open spec fn squares_pairs(
    cell: spec_fn(int, int) -> Seq<usize>,
    squares: Seq<(int, int)>,
    object_id: usize,
) -> Seq<(usize, usize)>
    decreases squares.len(),
{
    if squares.len() == 0 {
        Seq::empty()
    } else {
        squares_pairs(cell, squares.drop_last(), object_id) + cell_pairs(
            cell(squares.last().0, squares.last().1),
            object_id,
        )
    }
}

/// The pairs examined for the object `object_id` that lies at `(x, y)`.
pub open spec fn neighbour_pairs(cell: spec_fn(int, int) -> Seq<usize>, x: int, y: int, object_id: usize) -> Seq<(usize, usize)> {
    squares_pairs(cell, neighbour_squares(x, y), object_id)
}

/// The pairs examined for the first `k` objects of the square `(x, y)`.
pub open spec fn square_pairs(cell: spec_fn(int, int) -> Seq<usize>, x: int, y: int, k: int) -> Seq<(usize, usize)>
    decreases k,
{
    if k <= 0 {
        Seq::empty()
    } else {
        square_pairs(cell, x, y, k - 1) + neighbour_pairs(cell, x, y, cell(x, y)[k - 1])
    }
}

/// The pairs examined for the first `rows` squares of column `x`.
pub open spec fn column_pairs(cell: spec_fn(int, int) -> Seq<usize>, x: int, rows: int) -> Seq<(usize, usize)>
    decreases rows,
{
    if rows <= 0 {
        Seq::empty()
    } else {
        column_pairs(cell, x, rows - 1) + square_pairs(cell, x, rows - 1, cell(x, rows - 1).len() as int)
    }
}

/// The pairs examined for the columns `start..end`, in order: column by
/// column, each from its first row up, each square in list order, and for
/// each object the squares of [`neighbour_squares`].
pub open spec fn band_pairs(cell: spec_fn(int, int) -> Seq<usize>, start: int, end: int) -> Seq<(usize, usize)>
    decreases end - start,
{
    if end <= start {
        Seq::empty()
    } else {
        band_pairs(cell, start, end - 1) + column_pairs(cell, end - 1, CELLS_HEIGHT as int)
    }
}

/// The pair `e` is one the pass would examine for the square `(x, y)`: its
/// first object lies in that square, its second, another object, in one of
/// the squares around it.
pub open spec fn examined_at(cell: spec_fn(int, int) -> Seq<usize>, x: int, y: int, e: (usize, usize)) -> bool {
    &&& cell(x, y).contains(e.0)
    &&& e.0 != e.1
    &&& exists|x2: int, y2: int| near(x, x2) && near(y, y2) && #[trigger] cell(x2, y2).contains(e.1)
}

/// Appending one more square adds the pairs that it offers.
pub proof fn lemma_squares_pairs_take(cell: spec_fn(int, int) -> Seq<usize>, squares: Seq<(int, int)>, i: int, object_id: usize)
    requires
        0 <= i < squares.len(),
    ensures
        squares_pairs(cell, squares.take(i + 1), object_id) == squares_pairs(cell, squares.take(i), object_id)
            + cell_pairs(cell(squares[i].0, squares[i].1), object_id),
{
    assert(squares.take(i + 1).drop_last() =~= squares.take(i));
}

proof fn lemma_squares_pairs_no_self_pairs(cell: spec_fn(int, int) -> Seq<usize>, squares: Seq<(int, int)>, object_id: usize)
    ensures
        no_self_pairs(squares_pairs(cell, squares, object_id)),
    decreases squares.len(),
{
    if squares.len() > 0 {
        let l = squares.last();
        lemma_squares_pairs_no_self_pairs(cell, squares.drop_last(), object_id);
        lemma_cell_pairs_shape(cell(l.0, l.1), object_id);
        lemma_no_self_pairs_add(squares_pairs(cell, squares.drop_last(), object_id), cell_pairs(cell(l.0, l.1), object_id));
    }
}

proof fn lemma_square_pairs_no_self_pairs(cell: spec_fn(int, int) -> Seq<usize>, x: int, y: int, k: int)
    ensures
        no_self_pairs(square_pairs(cell, x, y, k)),
    decreases k,
{
    if k > 0 {
        let id = cell(x, y)[k - 1];
        lemma_square_pairs_no_self_pairs(cell, x, y, k - 1);
        lemma_squares_pairs_no_self_pairs(cell, neighbour_squares(x, y), id);
        lemma_no_self_pairs_add(square_pairs(cell, x, y, k - 1), neighbour_pairs(cell, x, y, id));
    }
}

proof fn lemma_column_pairs_no_self_pairs(cell: spec_fn(int, int) -> Seq<usize>, x: int, rows: int)
    ensures
        no_self_pairs(column_pairs(cell, x, rows)),
    decreases rows,
{
    if rows > 0 {
        let n = cell(x, rows - 1).len() as int;
        lemma_column_pairs_no_self_pairs(cell, x, rows - 1);
        lemma_square_pairs_no_self_pairs(cell, x, rows - 1, n);
        lemma_no_self_pairs_add(column_pairs(cell, x, rows - 1), square_pairs(cell, x, rows - 1, n));
    }
}

/// The collision pass never pairs an object with itself.
pub proof fn lemma_band_pairs_no_self_pairs(cell: spec_fn(int, int) -> Seq<usize>, start: int, end: int)
    ensures
        no_self_pairs(band_pairs(cell, start, end)),
    decreases end - start,
{
    if end > start {
        lemma_band_pairs_no_self_pairs(cell, start, end - 1);
        lemma_column_pairs_no_self_pairs(cell, end - 1, CELLS_HEIGHT as int);
        lemma_no_self_pairs_add(band_pairs(cell, start, end - 1), column_pairs(cell, end - 1, CELLS_HEIGHT as int));
    }
}

proof fn lemma_squares_pairs_contain(
    cell: spec_fn(int, int) -> Seq<usize>,
    squares: Seq<(int, int)>,
    object_id: usize,
    j: int,
    other: usize,
)
    requires
        0 <= j < squares.len(),
        cell(squares[j].0, squares[j].1).contains(other),
        other != object_id,
    ensures
        squares_pairs(cell, squares, object_id).contains((object_id, other)),
    decreases squares.len(),
{
    let rest = squares.drop_last();
    let l = squares.last();
    if j == squares.len() - 1 {
        lemma_cell_pairs_contains(cell(l.0, l.1), object_id, other);
    } else {
        assert(rest[j] == squares[j]);
        lemma_squares_pairs_contain(cell, rest, object_id, j, other);
    }
    lemma_contains_add(squares_pairs(cell, rest, object_id), cell_pairs(cell(l.0, l.1), object_id), (object_id, other));
}

proof fn lemma_square_contains_neighbours(cell: spec_fn(int, int) -> Seq<usize>, x: int, y: int, n: int, k: int, e: (usize, usize))
    requires
        0 <= k < n,
        neighbour_pairs(cell, x, y, cell(x, y)[k]).contains(e),
    ensures
        square_pairs(cell, x, y, n).contains(e),
    decreases n,
{
    if k < n - 1 {
        lemma_square_contains_neighbours(cell, x, y, n - 1, k, e);
    }
    lemma_contains_add(square_pairs(cell, x, y, n - 1), neighbour_pairs(cell, x, y, cell(x, y)[n - 1]), e);
}

proof fn lemma_column_contains_square(cell: spec_fn(int, int) -> Seq<usize>, x: int, rows: int, y: int, e: (usize, usize))
    requires
        0 <= y < rows,
        square_pairs(cell, x, y, cell(x, y).len() as int).contains(e),
    ensures
        column_pairs(cell, x, rows).contains(e),
    decreases rows,
{
    if y < rows - 1 {
        lemma_column_contains_square(cell, x, rows - 1, y, e);
    }
    lemma_contains_add(column_pairs(cell, x, rows - 1), square_pairs(cell, x, rows - 1, cell(x, rows - 1).len() as int), e);
}

proof fn lemma_band_contains_column(cell: spec_fn(int, int) -> Seq<usize>, start: int, end: int, x: int, e: (usize, usize))
    requires
        start <= x < end,
        column_pairs(cell, x, CELLS_HEIGHT as int).contains(e),
    ensures
        band_pairs(cell, start, end).contains(e),
    decreases end - start,
{
    if x < end - 1 {
        lemma_band_contains_column(cell, start, end - 1, x, e);
    }
    lemma_contains_add(band_pairs(cell, start, end - 1), column_pairs(cell, end - 1, CELLS_HEIGHT as int), e);
}

/// The squares around `(x, y)` are exactly those [`near`] it in both
/// directions.
pub proof fn lemma_neighbour_squares_near(x: int, y: int, x2: int, y2: int)
    ensures
        near(x, x2) && near(y, y2) <==> exists|j: int| 0 <= j < 9 && #[trigger] neighbour_squares(x, y)[j] == (x2, y2),
{
    let s = neighbour_squares(x, y);
    if near(x, x2) && near(y, y2) {
        let j = if y2 == y + 1 { 0int } else if y2 == y { 3int } else { 6int };
        let j = j + if x2 == x + 1 { 0int } else if x2 == x { 1int } else { 2int };
        assert(s[j] == (x2, y2));
    }
    if exists|j: int| 0 <= j < 9 && #[trigger] s[j] == (x2, y2) {
        let j = choose|j: int| 0 <= j < 9 && #[trigger] s[j] == (x2, y2);
        assert(0 <= j < 9 ==> near(x, s[j].0) && near(y, s[j].1)) by {
            assert(near(x, s[0].0) && near(y, s[0].1));
            assert(near(x, s[1].0) && near(y, s[1].1));
            assert(near(x, s[2].0) && near(y, s[2].1));
            assert(near(x, s[3].0) && near(y, s[3].1));
            assert(near(x, s[4].0) && near(y, s[4].1));
            assert(near(x, s[5].0) && near(y, s[5].1));
            assert(near(x, s[6].0) && near(y, s[6].1));
            assert(near(x, s[7].0) && near(y, s[7].1));
            assert(near(x, s[8].0) && near(y, s[8].1));
        }
    }
}

/// The collision pass misses no neighbours: for an object `a` that a square
/// in the columns `start..end` lists, it examines the pair `(a, b)` for every
/// other object `b` listed in that square or in one of those around it.
pub proof fn lemma_neighbours_examined(cell: spec_fn(int, int) -> Seq<usize>, start: int, end: int, x: int, y: int, a: usize, x2: int, y2: int, b: usize)
    requires
        start <= x < end,
        0 <= y < CELLS_HEIGHT,
        cell(x, y).contains(a),
        near(x, x2),
        near(y, y2),
        cell(x2, y2).contains(b),
        a != b,
    ensures
        band_pairs(cell, start, end).contains((a, b)),
{
    let e = (a, b);
    let list = cell(x, y);
    let k = choose|k: int| 0 <= k < list.len() && list[k] == a;
    lemma_neighbour_squares_near(x, y, x2, y2);
    let j = choose|j: int| 0 <= j < 9 && #[trigger] neighbour_squares(x, y)[j] == (x2, y2);
    lemma_squares_pairs_contain(cell, neighbour_squares(x, y), a, j, b);
    lemma_square_contains_neighbours(cell, x, y, cell(x, y).len() as int, k, e);
    lemma_column_contains_square(cell, x, CELLS_HEIGHT as int, y, e);
    lemma_band_contains_column(cell, start, end, x, e);
}

proof fn lemma_squares_pairs_origin(cell: spec_fn(int, int) -> Seq<usize>, squares: Seq<(int, int)>, object_id: usize, e: (usize, usize))
    requires
        squares_pairs(cell, squares, object_id).contains(e),
    ensures
        e.0 == object_id,
        e.1 != object_id,
        exists|j: int| 0 <= j < squares.len() && #[trigger] cell(squares[j].0, squares[j].1).contains(e.1),
    decreases squares.len(),
{
    let rest = squares.drop_last();
    let l = squares.last();
    lemma_contains_split(squares_pairs(cell, rest, object_id), cell_pairs(cell(l.0, l.1), object_id), e);
    if squares_pairs(cell, rest, object_id).contains(e) {
        lemma_squares_pairs_origin(cell, rest, object_id, e);
        let j = choose|j: int| 0 <= j < rest.len() && #[trigger] cell(rest[j].0, rest[j].1).contains(e.1);
        assert(rest[j] == squares[j]);
    } else {
        lemma_cell_pairs_shape(cell(l.0, l.1), object_id);
        let list = cell_pairs(cell(l.0, l.1), object_id);
        let i = choose|i: int| 0 <= i < list.len() && list[i] == e;
        assert(list[i] == e);
        assert(squares[squares.len() - 1] == l);
    }
}

proof fn lemma_square_pairs_origin(cell: spec_fn(int, int) -> Seq<usize>, x: int, y: int, k: int, e: (usize, usize))
    requires
        k <= cell(x, y).len(),
        square_pairs(cell, x, y, k).contains(e),
    ensures
        examined_at(cell, x, y, e),
    decreases k,
{
    if k > 0 {
        let a = cell(x, y)[k - 1];
        lemma_contains_split(square_pairs(cell, x, y, k - 1), neighbour_pairs(cell, x, y, a), e);
        if square_pairs(cell, x, y, k - 1).contains(e) {
            lemma_square_pairs_origin(cell, x, y, k - 1, e);
        } else {
            let s = neighbour_squares(x, y);
            lemma_squares_pairs_origin(cell, s, a, e);
            let j = choose|j: int| 0 <= j < s.len() && #[trigger] cell(s[j].0, s[j].1).contains(e.1);
            lemma_neighbour_squares_near(x, y, s[j].0, s[j].1);
            assert(near(x, s[j].0) && near(y, s[j].1) && cell(s[j].0, s[j].1).contains(e.1));
            assert(cell(x, y)[k - 1] == e.0);
        }
    }
}

proof fn lemma_column_pairs_origin(cell: spec_fn(int, int) -> Seq<usize>, x: int, rows: int, e: (usize, usize))
    requires
        column_pairs(cell, x, rows).contains(e),
    ensures
        exists|y: int| 0 <= y < rows && #[trigger] examined_at(cell, x, y, e),
    decreases rows,
{
    if rows > 0 {
        let n = cell(x, rows - 1).len() as int;
        lemma_contains_split(column_pairs(cell, x, rows - 1), square_pairs(cell, x, rows - 1, n), e);
        if column_pairs(cell, x, rows - 1).contains(e) {
            lemma_column_pairs_origin(cell, x, rows - 1, e);
        } else {
            lemma_square_pairs_origin(cell, x, rows - 1, n, e);
        }
    }
}

/// The collision pass examines nothing but neighbours: every pair it
/// examines for the columns `start..end` starts with an object listed in a
/// square of those columns and ends with another object listed in that
/// square or in one of those around it.
pub proof fn lemma_band_pairs_origin(cell: spec_fn(int, int) -> Seq<usize>, start: int, end: int, e: (usize, usize))
    requires
        band_pairs(cell, start, end).contains(e),
    ensures
        exists|x: int, y: int| start <= x < end && 0 <= y < CELLS_HEIGHT && #[trigger] examined_at(cell, x, y, e),
    decreases end - start,
{
    if end > start {
        lemma_contains_split(band_pairs(cell, start, end - 1), column_pairs(cell, end - 1, CELLS_HEIGHT as int), e);
        if band_pairs(cell, start, end - 1).contains(e) {
            lemma_band_pairs_origin(cell, start, end - 1, e);
        } else {
            lemma_column_pairs_origin(cell, end - 1, CELLS_HEIGHT as int, e);
            let y = choose|y: int| 0 <= y < CELLS_HEIGHT && #[trigger] examined_at(cell, end - 1, y, e);
            assert(examined_at(cell, end - 1, y, e));
        }
    }
}

/// Two grids that list the same ids in every square of the screen agree on
/// the pairs the pass examines for the columns `start..end` when every
/// occupied square among them has a column to its right and a row above it
/// on the screen: the pass then looks at no square off the screen.
pub proof fn lemma_band_pairs_agree(
    c1: spec_fn(int, int) -> Seq<usize>,
    c2: spec_fn(int, int) -> Seq<usize>,
    start: int,
    end: int,
)
    requires
        0 <= start,
        end <= start || end <= CELLS_WIDTH,
        forall|x: int, y: int| 0 <= x < CELLS_WIDTH && 0 <= y < CELLS_HEIGHT ==> #[trigger] c1(x, y) == c2(x, y),
        forall|x: int, y: int|
            start <= x < end && 0 <= y < CELLS_HEIGHT && #[trigger] c1(x, y).len() > 0 ==> x + 1 < CELLS_WIDTH
                && y + 1 < CELLS_HEIGHT,
    ensures
        band_pairs(c1, start, end) == band_pairs(c2, start, end),
    decreases end - start,
{
    if end > start {
        lemma_band_pairs_agree(c1, c2, start, end - 1);
        lemma_column_pairs_agree(c1, c2, start, end, end - 1, CELLS_HEIGHT as int);
    }
}

proof fn lemma_column_pairs_agree(
    c1: spec_fn(int, int) -> Seq<usize>,
    c2: spec_fn(int, int) -> Seq<usize>,
    start: int,
    end: int,
    x: int,
    rows: int,
)
    requires
        0 <= start <= x < end <= CELLS_WIDTH,
        rows <= CELLS_HEIGHT,
        forall|x: int, y: int| 0 <= x < CELLS_WIDTH && 0 <= y < CELLS_HEIGHT ==> #[trigger] c1(x, y) == c2(x, y),
        forall|x: int, y: int|
            start <= x < end && 0 <= y < CELLS_HEIGHT && #[trigger] c1(x, y).len() > 0 ==> x + 1 < CELLS_WIDTH
                && y + 1 < CELLS_HEIGHT,
    ensures
        column_pairs(c1, x, rows) == column_pairs(c2, x, rows),
    decreases rows,
{
    if rows > 0 {
        let y = rows - 1;
        lemma_column_pairs_agree(c1, c2, start, end, x, rows - 1);
        assert(c1(x, y) == c2(x, y));
        lemma_square_pairs_agree(c1, c2, start, end, x, y, c1(x, y).len() as int);
    }
}

proof fn lemma_square_pairs_agree(
    c1: spec_fn(int, int) -> Seq<usize>,
    c2: spec_fn(int, int) -> Seq<usize>,
    start: int,
    end: int,
    x: int,
    y: int,
    k: int,
)
    requires
        0 <= start <= x < end <= CELLS_WIDTH,
        0 <= y < CELLS_HEIGHT,
        k <= c1(x, y).len(),
        forall|x: int, y: int| 0 <= x < CELLS_WIDTH && 0 <= y < CELLS_HEIGHT ==> #[trigger] c1(x, y) == c2(x, y),
        forall|x: int, y: int|
            start <= x < end && 0 <= y < CELLS_HEIGHT && #[trigger] c1(x, y).len() > 0 ==> x + 1 < CELLS_WIDTH
                && y + 1 < CELLS_HEIGHT,
    ensures
        square_pairs(c1, x, y, k) == square_pairs(c2, x, y, k),
    decreases k,
{
    if k > 0 {
        lemma_square_pairs_agree(c1, c2, start, end, x, y, k - 1);
        assert(c1(x, y).len() > 0);
        assert(c1(x, y) == c2(x, y));
        let s = neighbour_squares(x, y);
        assert forall|j: int| 0 <= j < s.len() implies #[trigger] c1(s[j].0, s[j].1) == c2(s[j].0, s[j].1) by {
            lemma_neighbour_squares_near(x, y, s[j].0, s[j].1);
        }
        lemma_squares_pairs_agree(c1, c2, s, c1(x, y)[k - 1]);
    }
}

proof fn lemma_squares_pairs_agree(
    c1: spec_fn(int, int) -> Seq<usize>,
    c2: spec_fn(int, int) -> Seq<usize>,
    squares: Seq<(int, int)>,
    object_id: usize,
)
    requires
        forall|j: int| 0 <= j < squares.len() ==> #[trigger] c1(squares[j].0, squares[j].1) == c2(squares[j].0, squares[j].1),
    ensures
        squares_pairs(c1, squares, object_id) == squares_pairs(c2, squares, object_id),
    decreases squares.len(),
{
    if squares.len() > 0 {
        let rest = squares.drop_last();
        assert forall|j: int| 0 <= j < rest.len() implies #[trigger] c1(rest[j].0, rest[j].1) == c2(rest[j].0, rest[j].1) by {
            assert(rest[j] == squares[j]);
        }
        lemma_squares_pairs_agree(c1, c2, rest, object_id);
        assert(squares.last() == squares[squares.len() - 1]);
    }
}

/// The pass scans each square around an object once: there are nine squares
/// to scan, every square next to `(x, y)` (on or after column and row `0`)
/// is one of them, and off the first column and row they are nine distinct
/// squares. The `j`-th square scanned is `(x + 1 - j % 3, y + 1 - j / 3)`,
/// a coordinate below `0` taken as `0`.
pub proof fn lemma_neighbour_squares_each_once(x: int, y: int)
    ensures
        neighbour_squares(x, y).len() == 9,
        0 <= x && 0 <= y ==> forall|j: int|
            0 <= j < 9 ==> #[trigger] neighbour_squares(x, y)[j] == (
                if x + 1 - j % 3 < 0 { 0 } else { x + 1 - j % 3 },
                if y + 1 - j / 3 < 0 { 0 } else { y + 1 - j / 3 },
            ),
        forall|x2: int, y2: int|
            x - 1 <= x2 <= x + 1 && y - 1 <= y2 <= y + 1 && 0 <= x2 && 0 <= y2
                ==> #[trigger] neighbour_squares(x, y).contains((x2, y2)),
        x >= 1 && y >= 1 ==> forall|i: int, j: int|
            0 <= i < j < 9 ==> #[trigger] neighbour_squares(x, y)[i] != #[trigger] neighbour_squares(x, y)[j],
{
    let s = neighbour_squares(x, y);
    if 0 <= x && 0 <= y {
        assert forall|j: int| 0 <= j < 9 implies #[trigger] s[j] == (
            if x + 1 - j % 3 < 0 { 0 } else { x + 1 - j % 3 },
            if y + 1 - j / 3 < 0 { 0 } else { y + 1 - j / 3 },
        ) by {
            if j == 0 {} else if j == 1 {} else if j == 2 {} else if j == 3 {} else if j == 4 {}
            else if j == 5 {} else if j == 6 {} else if j == 7 {} else {}
        }
    }
    assert forall|x2: int, y2: int|
        x - 1 <= x2 <= x + 1 && y - 1 <= y2 <= y + 1 && 0 <= x2 && 0 <= y2 implies #[trigger] s.contains((x2, y2)) by {
        lemma_neighbour_squares_near(x, y, x2, y2);
        assert(near(x, x2) && near(y, y2));
        let j = choose|j: int| 0 <= j < 9 && #[trigger] s[j] == (x2, y2);
        assert(s[j] == (x2, y2));
    }
    if x >= 1 && y >= 1 {
        assert forall|i: int, j: int| 0 <= i < j < 9 implies #[trigger] s[i] != #[trigger] s[j] by {
            assert(s[0] == (x + 1, y + 1));
            assert(s[1] == (x, y + 1));
            assert(s[2] == (x - 1, y + 1));
            assert(s[3] == (x + 1, y));
            assert(s[4] == (x, y));
            assert(s[5] == (x - 1, y));
            assert(s[6] == (x + 1, y - 1));
            assert(s[7] == (x, y - 1));
            assert(s[8] == (x - 1, y - 1));
        }
    }
}

} // verus!
