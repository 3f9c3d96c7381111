//! The nested collision grid: a vector of columns, each a vector of
//! unbounded cells.
use vstd::prelude::*;
use std::ops::Range;
use crate::pairs::{cell_pairs, total_listed, lemma_cell_pairs_push, lemma_total_listed_push, lemma_total_listed_empty};
use crate::scan::{
    near, neighbour_squares, squares_pairs, neighbour_pairs, square_pairs, column_pairs, band_pairs,
    lemma_squares_pairs_take, lemma_neighbours_examined, lemma_band_pairs_agree,
};
use crate::{Placement, CELLS_HEIGHT, CELLS_WIDTH};
use crate::grid::{cell_index, grid_cell, listed_in, placed_cells};
use rayon::iter::{IntoParallelRefMutIterator, ParallelIterator};

verus! {

/// The ids, in placement order, of the placements that refer to the square
/// `(x, y)`.
pub open spec fn listed_at(placements: Seq<Placement>, x: int, y: int) -> Seq<usize>
    decreases placements.len(),
{
    if placements.len() == 0 {
        Seq::empty()
    } else {
        let rest = listed_at(placements.drop_last(), x, y);
        let p = placements.last();
        if p.cell_x == x && p.cell_y == y {
            rest.push(p.id)
        } else {
            rest
        }
    }
}

/// The columns that a solver holds once `placements` have been entered.
pub open spec fn placed_columns(placements: Seq<Placement>) -> Seq<Seq<Seq<usize>>> {
    Seq::new(CELLS_WIDTH as nat, |x: int| Seq::new(CELLS_HEIGHT as nat, |y: int| listed_at(placements, x, y)))
}

/// Every placement refers to a square of the grid.
pub open spec fn placements_in_grid_spec(placements: Seq<Placement>) -> bool {
    forall|i: int| 0 <= i < placements.len() ==> (#[trigger] placements[i]).cell_x < CELLS_WIDTH
        && placements[i].cell_y < CELLS_HEIGHT
}

/// The solver's cells as a list per square: column `x`, row `y`.
pub open spec fn solver_cell(columns: Seq<Seq<Seq<usize>>>) -> spec_fn(int, int) -> Seq<usize> {
    |x: int, y: int| columns[x][y]
}

/// The columns `start..end` lie in the grid, and every occupied square among
/// them has a column to its right and a row above it, so that every square
/// the collision pass looks at exists.
pub open spec fn neighbours_in_grid_spec(columns: Seq<Seq<Seq<usize>>>, start: int, end: int) -> bool {
    &&& end <= start || end <= CELLS_WIDTH
    &&& forall|x: int, y: int|
        start <= x < end && 0 <= y < CELLS_HEIGHT && #[trigger] columns[x][y].len() > 0
            ==> x + 1 < CELLS_WIDTH && y + 1 < CELLS_HEIGHT
}

/// How many ids the columns hold together.
pub open spec fn total_in_columns(columns: Seq<Seq<Seq<usize>>>) -> nat
    decreases columns.len(),
{
    if columns.len() == 0 {
        0
    } else {
        total_in_columns(columns.drop_last()) + total_listed(columns.last())
    }
}

/// Entering one more placement extends the list of its square by its id
/// and leaves every other square as it was.
pub proof fn lemma_listed_at_step(placements: Seq<Placement>, i: int, x: int, y: int)
    requires
        0 <= i < placements.len(),
    ensures
        listed_at(placements.take(i + 1), x, y) == if placements[i].cell_x == x && placements[i].cell_y == y {
            listed_at(placements.take(i), x, y).push(placements[i].id)
        } else {
            listed_at(placements.take(i), x, y)
        },
{
    assert(placements.take(i + 1).drop_last() =~= placements.take(i));
}

/// Appending an id to one square adds one to the total.
proof fn lemma_total_in_columns_push(columns: Seq<Seq<Seq<usize>>>, x: int, y: int, id: usize)
    requires
        0 <= x < columns.len(),
        0 <= y < columns[x].len(),
    ensures
        total_in_columns(columns.update(x, columns[x].update(y, columns[x][y].push(id)))) == total_in_columns(columns) + 1,
    decreases columns.len(),
{
    let updated = columns.update(x, columns[x].update(y, columns[x][y].push(id)));
    if x == columns.len() - 1 {
        lemma_total_listed_push(columns[x], y, id);
        assert(updated.drop_last() =~= columns.drop_last());
    } else {
        lemma_total_in_columns_push(columns.drop_last(), x, y, id);
        assert(updated.drop_last() =~= columns.drop_last().update(x, columns[x].update(y, columns[x][y].push(id))));
    }
}

/// Empty columns hold no id.
proof fn lemma_total_in_columns_empty(w: nat)
    ensures
        total_in_columns(Seq::new(w, |x: int| Seq::new(CELLS_HEIGHT as nat, |y: int| Seq::<usize>::empty()))) == 0,
    decreases w,
{
    if w > 0 {
        lemma_total_in_columns_empty((w - 1) as nat);
        lemma_total_listed_empty(CELLS_HEIGHT as nat);
        let s = Seq::new(w, |x: int| Seq::new(CELLS_HEIGHT as nat, |y: int| Seq::<usize>::empty()));
        assert(s.drop_last() =~= Seq::new((w - 1) as nat, |x: int| Seq::new(CELLS_HEIGHT as nat, |y: int| Seq::<usize>::empty())));
        assert(s.last() =~= Seq::new(CELLS_HEIGHT as nat, |y: int| Seq::<usize>::empty()));
    }
}

/// Entering placements loses and duplicates none of them: when every
/// placement refers to a square of the grid, the squares list as many ids
/// together as there are placements.
pub proof fn lemma_placed_columns_conserve_objects(placements: Seq<Placement>)
    requires
        placements_in_grid_spec(placements),
    ensures
        total_in_columns(placed_columns(placements)) == placements.len(),
    decreases placements.len(),
{
    if placements.len() == 0 {
        lemma_total_in_columns_empty(CELLS_WIDTH as nat);
        assert(placed_columns(placements) =~~= Seq::new(CELLS_WIDTH as nat, |x: int| Seq::new(CELLS_HEIGHT as nat, |y: int| Seq::<usize>::empty())));
    } else {
        let rest = placements.drop_last();
        let p = placements.last();
        assert(p == placements[placements.len() - 1]);
        assert forall|i: int| 0 <= i < rest.len() implies (#[trigger] rest[i]).cell_x < CELLS_WIDTH && rest[i].cell_y < CELLS_HEIGHT by {
            assert(rest[i] == placements[i]);
        }
        lemma_placed_columns_conserve_objects(rest);
        let before = placed_columns(rest);
        let (x, y) = (p.cell_x as int, p.cell_y as int);
        lemma_total_in_columns_push(before, x, y, p.id);
        assert(placed_columns(placements) =~~= before.update(x, before[x].update(y, before[x][y].push(p.id))));
    }
}

/// Entering placements loses no object: the square that a placement refers
/// to lists its id.
pub proof fn lemma_placement_listed(placements: Seq<Placement>, i: int)
    requires
        0 <= i < placements.len(),
    ensures
        listed_at(placements, placements[i].cell_x as int, placements[i].cell_y as int).contains(placements[i].id),
    decreases placements.len(),
{
    let p = placements[i];
    let rest = placements.drop_last();
    let l = listed_at(rest, p.cell_x as int, p.cell_y as int);
    if i == placements.len() - 1 {
        assert(listed_at(placements, p.cell_x as int, p.cell_y as int)[l.len() as int] == p.id);
    } else {
        assert(rest[i] == p);
        lemma_placement_listed(rest, i);
        let j = choose|j: int| 0 <= j < l.len() && l[j] == p.id;
        assert(listed_at(placements, p.cell_x as int, p.cell_y as int)[j] == p.id);
    }
}

/// Entering placements invents no object: every id a square lists comes
/// from a placement that refers to that square.
pub proof fn lemma_listed_from_placement(placements: Seq<Placement>, x: int, y: int, j: int)
    requires
        0 <= j < listed_at(placements, x, y).len(),
    ensures
        exists|i: int|
            0 <= i < placements.len() && #[trigger] placements[i].cell_x == x && #[trigger] placements[i].cell_y == y && placements[i].id == listed_at(placements, x, y)[j],
    decreases placements.len(),
{
    let rest = placements.drop_last();
    let l = listed_at(rest, x, y);
    let last = placements.len() - 1;
    if j < l.len() {
        lemma_listed_from_placement(rest, x, y, j);
        let i = choose|i: int| 0 <= i < rest.len() && #[trigger] rest[i].cell_x == x && #[trigger] rest[i].cell_y == y && rest[i].id == l[j];
        assert(rest[i] == placements[i]);
        assert(listed_at(placements, x, y)[j] == l[j]);
    } else {
        assert(placements[last] == placements.last());
        assert(placements[last].cell_x == x && placements[last].cell_y == y && placements[last].id == listed_at(placements, x, y)[j]);
    }
}

/// What the solver records is what the collision pass examines: once the
/// placements have been entered, the pass over the columns `start..end`
/// examines the pair of any two distinct objects placed in the same or in
/// adjacent squares, when the first lies in one of those columns.
pub proof fn lemma_placed_neighbours_examined(placements: Seq<Placement>, start: int, end: int, i: int, j: int)
    requires
        0 <= i < placements.len(),
        0 <= j < placements.len(),
        placements[i].id != placements[j].id,
        start <= placements[i].cell_x < end,
        placements[i].cell_x < CELLS_WIDTH,
        placements[i].cell_y < CELLS_HEIGHT,
        placements[j].cell_x < CELLS_WIDTH,
        placements[j].cell_y < CELLS_HEIGHT,
        placements[i].cell_x - 1 <= placements[j].cell_x <= placements[i].cell_x + 1,
        placements[i].cell_y - 1 <= placements[j].cell_y <= placements[i].cell_y + 1,
    ensures
        band_pairs(solver_cell(placed_columns(placements)), start, end).contains((placements[i].id, placements[j].id)),
{
    let (p, q) = (placements[i], placements[j]);
    let columns = placed_columns(placements);
    assert(near(p.cell_x as int, q.cell_x as int) && near(p.cell_y as int, q.cell_y as int));
    lemma_placement_listed(placements, i);
    lemma_placement_listed(placements, j);
    assert(columns[p.cell_x as int][p.cell_y as int] == listed_at(placements, p.cell_x as int, p.cell_y as int));
    assert(columns[q.cell_x as int][q.cell_y as int] == listed_at(placements, q.cell_x as int, q.cell_y as int));
    lemma_neighbours_examined(solver_cell(columns), start, end, p.cell_x as int, p.cell_y as int, p.id, q.cell_x as int, q.cell_y as int, q.id);
}

/// On the screen, a flat slot and a column and row name the same square.
proof fn lemma_cell_index_unique(x: int, y: int, px: int, py: int)
    requires
        0 <= y < CELLS_HEIGHT,
        0 <= py < CELLS_HEIGHT,
    ensures
        cell_index(x, y) == cell_index(px, py) <==> x == px && y == py,
{
    if cell_index(x, y) == cell_index(px, py) {
        assert((x - px) * CELLS_HEIGHT == py - y);
        if x > px {
            assert((x - px) * CELLS_HEIGHT >= CELLS_HEIGHT) by (nonlinear_arith)
                requires x - px >= 1;
        } else if x < px {
            assert((px - x) * CELLS_HEIGHT >= CELLS_HEIGHT) by (nonlinear_arith)
                requires px - x >= 1;
        }
    }
}

/// For placements on the screen, the flat grid's slot of a square lists what
/// the solver's cell of that square lists.
proof fn lemma_listed_in_is_listed_at(placements: Seq<Placement>, x: int, y: int)
    requires
        placements_in_grid_spec(placements),
        0 <= y < CELLS_HEIGHT,
    ensures
        listed_in(placements, cell_index(x, y)) == listed_at(placements, x, y),
    decreases placements.len(),
{
    if placements.len() > 0 {
        let rest = placements.drop_last();
        let p = placements.last();
        assert(p == placements[placements.len() - 1]);
        assert forall|i: int| 0 <= i < rest.len() implies (#[trigger] rest[i]).cell_x < CELLS_WIDTH && rest[i].cell_y < CELLS_HEIGHT by {
            assert(rest[i] == placements[i]);
        }
        lemma_listed_in_is_listed_at(rest, x, y);
        lemma_cell_index_unique(x, y, p.cell_x as int, p.cell_y as int);
    }
}

/// The flat grid and the solver agree: once both have entered the same
/// placements on the screen, the collision pass over the columns
/// `start..end` examines the same pairs in the same order in both, whenever
/// the solver's pass can run there (see [`neighbours_in_grid_spec`]).
pub proof fn lemma_grid_and_solver_agree(placements: Seq<Placement>, start: int, end: int)
    requires
        placements_in_grid_spec(placements),
        0 <= start,
        neighbours_in_grid_spec(placed_columns(placements), start, end),
    ensures
        band_pairs(grid_cell(placed_cells(placements)), start, end) == band_pairs(
            solver_cell(placed_columns(placements)),
            start,
            end,
        ),
{
    let c1 = grid_cell(placed_cells(placements));
    let c2 = solver_cell(placed_columns(placements));
    assert forall|x: int, y: int| 0 <= x < CELLS_WIDTH && 0 <= y < CELLS_HEIGHT implies #[trigger] c1(x, y) == c2(x, y) by {
        lemma_listed_in_is_listed_at(placements, x, y);
        assert(0 <= cell_index(x, y) < CELLS_WIDTH * CELLS_HEIGHT);
    }
    assert forall|x: int, y: int|
        start <= x < end && 0 <= y < CELLS_HEIGHT && #[trigger] c1(x, y).len() > 0 implies x + 1 < CELLS_WIDTH
            && y + 1 < CELLS_HEIGHT by {
        assert(c1(x, y) == c2(x, y));
        assert(placed_columns(placements)[x][y].len() > 0);
    }
    lemma_band_pairs_agree(c1, c2, start, end);
}

/// Whether placements lie in the grid is decided placement by placement,
/// whatever their number: one placement lies in it when its column and row
/// do, and a run of placements does when both of its parts do.
pub proof fn lemma_placements_in_grid_each(p: Placement, a: Seq<Placement>, b: Seq<Placement>)
    ensures
        placements_in_grid_spec(seq![p]) <==> p.cell_x < CELLS_WIDTH && p.cell_y < CELLS_HEIGHT,
        placements_in_grid_spec(a + b) <==> placements_in_grid_spec(a) && placements_in_grid_spec(b),
        placements_in_grid_spec(Seq::<Placement>::empty()),
{
    assert(seq![p][0] == p);
    if placements_in_grid_spec(a) && placements_in_grid_spec(b) {
        assert forall|i: int| 0 <= i < (a + b).len() implies (#[trigger] (a + b)[i]).cell_x < CELLS_WIDTH
            && (a + b)[i].cell_y < CELLS_HEIGHT by {
            if i < a.len() {
                assert((a + b)[i] == a[i]);
            } else {
                assert((a + b)[i] == b[i - a.len()]);
            }
        }
    }
    if placements_in_grid_spec(a + b) {
        assert forall|i: int| 0 <= i < a.len() implies (#[trigger] a[i]).cell_x < CELLS_WIDTH && a[i].cell_y < CELLS_HEIGHT by {
            assert((a + b)[i] == a[i]);
        }
        assert forall|i: int| 0 <= i < b.len() implies (#[trigger] b[i]).cell_x < CELLS_WIDTH && b[i].cell_y < CELLS_HEIGHT by {
            assert((a + b)[a.len() + i] == b[i]);
        }
    }
}

/// Empties one cell.
fn empty_cell(cell: &mut Vec<usize>)
    ensures
        final(cell)@ == Seq::<usize>::empty(),
{
    cell.clear();
}

/// Empties every cell of a column, handing the cells to the thread pool of
/// rayon.
///
/// Trusted: `par_iter_mut().for_each` of rayon runs the closure once on each
/// element of the vector and keeps its length; the closure is the verified
/// [`empty_cell`].
#[verifier::external_body]
fn clear_column(column: &mut Vec<Vec<usize>>)
    ensures
        final(column)@.len() == old(column)@.len(),
        forall|y: int| 0 <= y < final(column)@.len() ==> (#[trigger] final(column)@[y])@ == Seq::<usize>::empty(),
{
    column.par_iter_mut().for_each(|cell| empty_cell(cell));
}

/// Empties every cell of a column.
fn empty_column(column: &mut Vec<Vec<usize>>)
    ensures
        final(column)@.len() == old(column)@.len(),
        forall|y: int| 0 <= y < final(column)@.len() ==> (#[trigger] final(column)@[y])@ == Seq::<usize>::empty(),
{
    clear_column(column);
}

/// Empties every cell of every column, handing the columns to the thread
/// pool of rayon.
///
/// Trusted: `par_iter_mut().for_each` of rayon runs the closure once on each
/// element of the vector and keeps its length; the closure is the verified
/// [`empty_column`].
#[verifier::external_body]
fn clear_columns(columns: &mut Vec<Vec<Vec<usize>>>)
    ensures
        final(columns)@.len() == old(columns)@.len(),
        forall|x: int| 0 <= x < final(columns)@.len() ==> (#[trigger] final(columns)@[x])@.len() == old(columns)@[x]@.len(),
        forall|x: int, y: int| 0 <= x < final(columns)@.len() && 0 <= y < final(columns)@[x]@.len()
            ==> (#[trigger] final(columns)@[x]@[y])@ == Seq::<usize>::empty(),
{
    columns.par_iter_mut().for_each(|column| empty_column(column));
}

/// A uniform grid over the screen stored as columns of cells. Each cell
/// lists the ids of the objects whose centre lies in its square, with no
/// bound on their number; the solver also counts the objects it has handed
/// ids to.
pub struct Solver {
    cells: Vec<Vec<Vec<usize>>>,
    object_count: usize,
}

impl View for Solver {
    type V = Seq<Seq<Seq<usize>>>;

    /// The ids each square lists, indexed by column, then row.
    closed spec fn view(&self) -> Seq<Seq<Seq<usize>>> {
        self.cells@.map_values(|column: Vec<Vec<usize>>| column@.map_values(|cell: Vec<usize>| cell@))
    }
}

impl Solver {
    /// The solver has `CELLS_WIDTH` columns of `CELLS_HEIGHT` cells.
    pub closed spec fn wf(&self) -> bool {
        &&& self.cells@.len() == CELLS_WIDTH
        &&& forall|x: int| 0 <= x < CELLS_WIDTH ==> (#[trigger] self.cells@[x])@.len() == CELLS_HEIGHT
    }

    /// How many ids the solver has handed out.
    pub closed spec fn objects_registered(&self) -> nat {
        self.object_count as nat
    }

    /// How many ids the solver has handed out.
    pub fn object_count(&self) -> (n: usize)
        ensures
            n == self.objects_registered(),
    {
        self.object_count
    }

    /// A solver with empty cells that has handed out no id.
    pub fn new() -> (s: Self)
        ensures
            s.wf(),
            s@ == Seq::new(CELLS_WIDTH as nat, |x: int| Seq::new(CELLS_HEIGHT as nat, |y: int| Seq::<usize>::empty())),
            s.objects_registered() == 0,
    {
        let mut cells: Vec<Vec<Vec<usize>>> = Vec::new();
        let mut x: usize = 0;
        while x < CELLS_WIDTH
            invariant
                x <= CELLS_WIDTH,
                cells@.len() == x,
                forall|i: int| 0 <= i < x ==> (#[trigger] cells@[i])@.len() == CELLS_HEIGHT,
                forall|i: int, j: int| 0 <= i < x && 0 <= j < CELLS_HEIGHT ==> (#[trigger] cells@[i]@[j])@ == Seq::<usize>::empty(),
            decreases CELLS_WIDTH - x,
        {
            let mut column: Vec<Vec<usize>> = Vec::new();
            let mut y: usize = 0;
            while y < CELLS_HEIGHT
                invariant
                    y <= CELLS_HEIGHT,
                    column@.len() == y,
                    forall|j: int| 0 <= j < y ==> (#[trigger] column@[j])@ == Seq::<usize>::empty(),
                decreases CELLS_HEIGHT - y,
            {
                column.push(Vec::new());
                y += 1;
            }
            cells.push(column);
            x += 1;
        }
        let s = Solver { cells, object_count: 0 };
        assert(s@ =~~= Seq::new(CELLS_WIDTH as nat, |x: int| Seq::new(CELLS_HEIGHT as nat, |y: int| Seq::<usize>::empty())));
        s
    }

    /// Hands out the id of a new object: the number of ids handed out
    /// before. The cells are left as they are.
    pub fn new_object(&mut self) -> (id: usize)
        requires
            old(self).objects_registered() < usize::MAX,
        ensures
            id == old(self).objects_registered(),
            final(self).objects_registered() == old(self).objects_registered() + 1,
            final(self)@ == old(self)@,
            final(self).wf() == old(self).wf(),
    {
        let id = self.object_count;
        self.object_count += 1;
        id
    }
    /// Empties every cell, then enters the objects in the order given:
    /// afterwards each square lists, in that order, the ids of the
    /// placements that refer to it. The count of ids handed out is kept.
    pub fn set_cells(&mut self, placements: &Vec<Placement>)
        requires
            old(self).wf(),
            placements_in_grid_spec(placements@),
        ensures
            final(self).wf(),
            final(self)@ == placed_columns(placements@),
            final(self).objects_registered() == old(self).objects_registered(),
    {
        clear_columns(&mut self.cells);
        let ghost ps = placements@;
        let ghost count = self.object_count;
        assert(ps.take(0) =~= Seq::<Placement>::empty());
        let mut i: usize = 0;
        while i < placements.len()
            invariant
                ps == placements@,
                placements_in_grid_spec(ps),
                i <= ps.len(),
                self.object_count == count,
                self.wf(),
                forall|x: int, y: int| 0 <= x < CELLS_WIDTH && 0 <= y < CELLS_HEIGHT
                    ==> (#[trigger] self.cells@[x]@[y])@ == listed_at(ps.take(i as int), x, y),
            decreases ps.len() - i,
        {
            let p = placements[i];
            assert(p == ps[i as int]);
            proof {
                assert forall|x: int, y: int| #![trigger listed_at(ps.take(i + 1), x, y)]
                    0 <= x < CELLS_WIDTH && 0 <= y < CELLS_HEIGHT implies listed_at(ps.take(i + 1), x, y) == if p.cell_x == x && p.cell_y == y {
                    listed_at(ps.take(i as int), x, y).push(p.id)
                } else {
                    listed_at(ps.take(i as int), x, y)
                } by {
                    lemma_listed_at_step(ps, i as int, x, y);
                }
            }
            self.cells[p.cell_x][p.cell_y].push(p.id);
            i += 1;
        }
        assert(ps.take(ps.len() as int) =~= ps);
        assert(self@ =~~= placed_columns(ps));
    }

    /// Whether [`Solver::set_cells`] can enter `placements`: each refers to
    /// a square of the grid.
    pub fn placements_in_grid(placements: &Vec<Placement>) -> (ok: bool)
        ensures
            ok == placements_in_grid_spec(placements@),
    {
        let mut i: usize = 0;
        while i < placements.len()
            invariant
                i <= placements@.len(),
                forall|j: int| 0 <= j < i ==> (#[trigger] placements@[j]).cell_x < CELLS_WIDTH
                    && placements@[j].cell_y < CELLS_HEIGHT,
            decreases placements@.len() - i,
        {
            if placements[i].cell_x >= CELLS_WIDTH || placements[i].cell_y >= CELLS_HEIGHT {
                return false;
            }
            i += 1;
        }
        true
    }

    /// Appends the pair `(object_id, other)` for each object `other` that the
    /// square `(cell_x, cell_y)` lists, in cell order, skipping `object_id`
    /// itself.
    fn check_cell(&self, cell_y: usize, cell_x: usize, object_id: usize, pairs: &mut Vec<(usize, usize)>)
        requires
            self.wf(),
            cell_x < CELLS_WIDTH,
            cell_y < CELLS_HEIGHT,
        ensures
            final(pairs)@ == old(pairs)@ + cell_pairs(solver_cell(self@)(cell_x as int, cell_y as int), object_id),
    {
        let cell = &self.cells[cell_x][cell_y];
        assert(cell@ == solver_cell(self@)(cell_x as int, cell_y as int));
        let n = cell.len();
        let ghost start = pairs@;
        let mut j: usize = 0;
        assert(cell@.take(0) =~= Seq::<usize>::empty());
        while j < n
            invariant
                n == cell@.len(),
                j <= n,
                pairs@ == start + cell_pairs(cell@.take(j as int), object_id),
            decreases n - j,
        {
            let other = cell[j];
            proof {
                assert(cell@.take(j + 1) =~= cell@.take(j as int).push(other));
                lemma_cell_pairs_push(cell@.take(j as int), other, object_id);
            }
            if object_id != other {
                pairs.push((object_id, other));
                assert(pairs@ =~= start + cell_pairs(cell@.take(j + 1), object_id));
            }
            j += 1;
        }
        assert(cell@.take(n as int) =~= cell@);
    }

    /// Appends the pairs for the object `object_id` at `(x, y)`: those that
    /// each of the nine squares of [`neighbour_squares`] offers, in order.
    fn check_neighbours(&self, x: usize, y: usize, object_id: usize, pairs: &mut Vec<(usize, usize)>)
        requires
            self.wf(),
            x + 1 < CELLS_WIDTH,
            y + 1 < CELLS_HEIGHT,
        ensures
            final(pairs)@ == old(pairs)@ + neighbour_pairs(solver_cell(self@), x as int, y as int, object_id),
    {
        let ghost start = pairs@;
        let ghost squares = neighbour_squares(x as int, y as int);
        let xb = x.saturating_sub(1);
        let yb = y.saturating_sub(1);
        let around: [(usize, usize); 9] = [
            (x + 1, y + 1), (x, y + 1), (xb, y + 1),
            (x + 1, y), (x, y), (xb, y),
            (x + 1, yb), (x, yb), (xb, yb),
        ];
        assert(forall|j: int| 0 <= j < 9 ==> around@[j].0 == squares[j].0 && around@[j].1 == squares[j].1);
        assert(squares.take(0) =~= Seq::<(int, int)>::empty());
        let mut j: usize = 0;
        while j < 9
            invariant
                self.wf(),
                x + 1 < CELLS_WIDTH,
                y + 1 < CELLS_HEIGHT,
                squares == neighbour_squares(x as int, y as int),
                forall|j: int| 0 <= j < 9 ==> around@[j].0 == squares[j].0 && around@[j].1 == squares[j].1,
                j <= 9,
                pairs@ == start + squares_pairs(solver_cell(self@), squares.take(j as int), object_id),
            decreases 9 - j,
        {
            let (cx, cy) = around[j];
            proof {
                lemma_squares_pairs_take(solver_cell(self@), squares, j as int, object_id);
            }
            self.check_cell(cy, cx, object_id, pairs);
            assert(pairs@ =~= start + squares_pairs(solver_cell(self@), squares.take(j + 1), object_id));
            j += 1;
        }
        assert(squares.take(9) =~= squares);
    }

    /// The pairs that the collision pass resolves for the columns of
    /// `range`, in the order it resolves them: column by column, each column
    /// from its first row up, each cell in list order, and for each object
    /// the nine squares around it (see [`neighbour_pairs`]).
    pub fn solve_collisions(&self, range: Range<usize>) -> (pairs: Vec<(usize, usize)>)
        requires
            self.wf(),
            neighbours_in_grid_spec(self@, range.start as int, range.end as int),
        ensures
            pairs@ == band_pairs(solver_cell(self@), range.start as int, range.end as int),
    {
        let ghost columns = self@;
        let mut pairs: Vec<(usize, usize)> = Vec::new();
        let start = range.start;
        let end = range.end;
        if end <= start {
            return pairs;
        }
        let mut x: usize = start;
        while x < end
            invariant
                self.wf(),
                columns == self@,
                start <= x <= end <= CELLS_WIDTH,
                neighbours_in_grid_spec(columns, start as int, end as int),
                pairs@ == band_pairs(solver_cell(columns), start as int, x as int),
            decreases end - x,
        {
            let mut y: usize = 0;
            while y < CELLS_HEIGHT
                invariant
                    self.wf(),
                    columns == self@,
                    start <= x < end <= CELLS_WIDTH,
                    y <= CELLS_HEIGHT,
                    neighbours_in_grid_spec(columns, start as int, end as int),
                    pairs@ == band_pairs(solver_cell(columns), start as int, x as int) + column_pairs(solver_cell(columns), x as int, y as int),
                decreases CELLS_HEIGHT - y,
            {
                let n = self.cells[x][y].len();
                assert(n == columns[x as int][y as int].len());
                let mut k: usize = 0;
                while k < n
                    invariant
                        self.wf(),
                        columns == self@,
                        start <= x < end <= CELLS_WIDTH,
                        y < CELLS_HEIGHT,
                        n == columns[x as int][y as int].len(),
                        k <= n,
                        neighbours_in_grid_spec(columns, start as int, end as int),
                        pairs@ == band_pairs(solver_cell(columns), start as int, x as int) + column_pairs(solver_cell(columns), x as int, y as int)
                            + square_pairs(solver_cell(columns), x as int, y as int, k as int),
                    decreases n - k,
                {
                    let object_id = self.cells[x][y][k];
                    assert(object_id == columns[x as int][y as int][k as int]);
                    assert(columns[x as int][y as int].len() > 0);
                    self.check_neighbours(x, y, object_id, &mut pairs);
                    assert(square_pairs(solver_cell(columns), x as int, y as int, k + 1) == square_pairs(solver_cell(columns), x as int, y as int, k as int)
                        + neighbour_pairs(solver_cell(columns), x as int, y as int, object_id));
                    k += 1;
                }
                assert(column_pairs(solver_cell(columns), x as int, y + 1) == column_pairs(solver_cell(columns), x as int, y as int)
                    + square_pairs(solver_cell(columns), x as int, y as int, n as int));
                y += 1;
            }
            assert(band_pairs(solver_cell(columns), start as int, x + 1) == band_pairs(solver_cell(columns), start as int, x as int)
                + column_pairs(solver_cell(columns), x as int, CELLS_HEIGHT as int));
            x += 1;
        }
        pairs
    }

    /// Whether [`Solver::solve_collisions`] can run on `range`: the columns
    /// lie in the grid and every occupied square among them has a column to
    /// its right and a row above it.
    pub fn neighbours_in_grid(&self, range: &Range<usize>) -> (ok: bool)
        requires
            self.wf(),
        ensures
            ok == neighbours_in_grid_spec(self@, range.start as int, range.end as int),
    {
        let ghost columns = self@;
        let start = range.start;
        let end = range.end;
        if end <= start {
            return true;
        }
        if end > CELLS_WIDTH {
            return false;
        }
        let mut x: usize = start;
        while x < end
            invariant
                self.wf(),
                columns == self@,
                start == range.start,
                end == range.end,
                start <= x <= end <= CELLS_WIDTH,
                forall|x0: int, y0: int|
                    start <= x0 < x && 0 <= y0 < CELLS_HEIGHT && #[trigger] columns[x0][y0].len() > 0
                        ==> x0 + 1 < CELLS_WIDTH && y0 + 1 < CELLS_HEIGHT,
            decreases end - x,
        {
            let mut y: usize = 0;
            while y < CELLS_HEIGHT
                invariant
                    self.wf(),
                    columns == self@,
                    start == range.start,
                    end == range.end,
                    start <= x < end <= CELLS_WIDTH,
                    y <= CELLS_HEIGHT,
                    forall|x0: int, y0: int|
                        start <= x0 < x && 0 <= y0 < CELLS_HEIGHT && #[trigger] columns[x0][y0].len() > 0
                            ==> x0 + 1 < CELLS_WIDTH && y0 + 1 < CELLS_HEIGHT,
                    forall|y0: int|
                        0 <= y0 < y && #[trigger] columns[x as int][y0].len() > 0
                            ==> x + 1 < CELLS_WIDTH && y0 + 1 < CELLS_HEIGHT,
                decreases CELLS_HEIGHT - y,
            {
                let n = self.cells[x][y].len();
                assert(n == columns[x as int][y as int].len());
                if n > 0 && (x + 1 >= CELLS_WIDTH || y + 1 >= CELLS_HEIGHT) {
                    assert(columns[x as int][y as int].len() > 0);
                    return false;
                }
                y += 1;
            }
            x += 1;
        }
        true
    }
}

} // verus!
