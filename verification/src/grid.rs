//! The flat collision grid: one bounded cell per grid square, stored
//! column by column.
use vstd::prelude::*;
use std::ops::Range;
use crate::cell::{Cell, OBJECTS_PER_CELL};
use crate::pairs::{cell_pairs, total_listed, lemma_cell_pairs_push, lemma_total_listed_push, lemma_total_listed_empty};
use crate::scan::{
    near, neighbour_squares, squares_pairs, neighbour_pairs, square_pairs, column_pairs, band_pairs,
    lemma_squares_pairs_take, lemma_neighbours_examined,
};
use crate::{Placement, CELLS_HEIGHT, CELLS_WIDTH, NUM_CELLS};
use rayon::iter::{IntoParallelRefMutIterator, ParallelIterator};

verus! {

/// The slot of the square `(cell_x, cell_y)` in the column-major cell vector.
pub open spec fn cell_index(cell_x: int, cell_y: int) -> int {
    cell_x * CELLS_HEIGHT + cell_y
}

/// The slot that a placement refers to.
pub open spec fn placement_index(p: Placement) -> int {
    cell_index(p.cell_x as int, p.cell_y as int)
}

/// The ids, in placement order, of the placements that refer to slot `k`.
pub open spec fn listed_in(placements: Seq<Placement>, k: int) -> Seq<usize>
    decreases placements.len(),
{
    if placements.len() == 0 {
        Seq::empty()
    } else {
        let rest = listed_in(placements.drop_last(), k);
        if placement_index(placements.last()) == k {
            rest.push(placements.last().id)
        } else {
            rest
        }
    }
}

/// The cells that a grid holds once `placements` have been entered.
pub open spec fn placed_cells(placements: Seq<Placement>) -> Seq<Seq<usize>> {
    Seq::new(NUM_CELLS as nat, |k: int| listed_in(placements, k))
}

/// Every placement refers to a slot of the grid, and no slot is asked to
/// list more objects than a cell holds.
pub open spec fn placements_fit_spec(placements: Seq<Placement>) -> bool {
    &&& forall|i: int| 0 <= i < placements.len() ==> placement_index(#[trigger] placements[i]) < NUM_CELLS
    &&& forall|k: int| 0 <= k < NUM_CELLS ==> (#[trigger] listed_in(placements, k)).len() <= OBJECTS_PER_CELL
}

/// The grid as a list per square: column `x`, row `y` is the slot
/// [`cell_index`]`(x, y)`, so a row past the top runs on into the next
/// column.
pub open spec fn grid_cell(cells: Seq<Seq<usize>>) -> spec_fn(int, int) -> Seq<usize> {
    |x: int, y: int| cells[cell_index(x, y)]
}

/// The columns `start..end` lie in the grid, and every occupied square among
/// them has its upper right neighbour in the grid too, so that every square
/// the collision pass looks at exists.
pub open spec fn neighbours_in_grid_spec(cells: Seq<Seq<usize>>, start: int, end: int) -> bool {
    &&& end <= start || end <= CELLS_WIDTH
    &&& forall|x: int, y: int|
        start <= x < end && 0 <= y < CELLS_HEIGHT && #[trigger] cells[cell_index(x, y)].len() > 0
            ==> cell_index(x + 1, y + 1) < NUM_CELLS
}

/// Entering one more placement extends the list of its slot by its id and
/// leaves every other slot as it was.
pub proof fn lemma_listed_in_step(placements: Seq<Placement>, i: int, k: int)
    requires
        0 <= i < placements.len(),
    ensures
        listed_in(placements.take(i + 1), k) == if placement_index(placements[i]) == k {
            listed_in(placements.take(i), k).push(placements[i].id)
        } else {
            listed_in(placements.take(i), k)
        },
{
    assert(placements.take(i + 1).drop_last() =~= placements.take(i));
}

/// A prefix of the placements lists no more objects in a slot than all of
/// them do.
pub proof fn lemma_listed_in_prefix(placements: Seq<Placement>, i: int, k: int)
    requires
        0 <= i <= placements.len(),
    ensures
        listed_in(placements.take(i), k).len() <= listed_in(placements, k).len(),
    decreases placements.len(),
{
    if i == placements.len() {
        assert(placements.take(i) =~= placements);
    } else {
        let rest = placements.drop_last();
        lemma_listed_in_prefix(rest, i, k);
        assert(rest.take(i) =~= placements.take(i));
    }
}

/// The placements that refer to slot `k`, in order.
pub open spec fn placements_at(placements: Seq<Placement>, k: int) -> Seq<Placement> {
    placements.filter(|p: Placement| placement_index(p) == k)
}

/// A slot lists, in order, the ids of the placements that refer to it.
pub proof fn lemma_listed_in_filters(placements: Seq<Placement>, k: int)
    ensures
        listed_in(placements, k) == placements_at(placements, k).map_values(|p: Placement| p.id),
    decreases placements.len(),
{
    reveal(Seq::filter);
    if placements.len() > 0 {
        let rest = placements.drop_last();
        lemma_listed_in_filters(rest, k);
        let f = placements_at(rest, k);
        if placement_index(placements.last()) == k {
            assert(f.push(placements.last()).map_values(|p: Placement| p.id) =~= f.map_values(|p: Placement| p.id).push(
                placements.last().id,
            ));
        }
    }
}

/// The placements fit exactly when every one refers to a slot of the grid
/// and no slot is referred to by more placements than a cell holds, however
/// the placements spread over rows and columns.
pub proof fn lemma_placements_fit_iff(placements: Seq<Placement>)
    ensures
        placements_fit_spec(placements) <==> (forall|i: int|
            0 <= i < placements.len() ==> placement_index(#[trigger] placements[i]) < NUM_CELLS) && (forall|k: int|
            0 <= k < NUM_CELLS ==> (#[trigger] placements_at(placements, k)).len() <= OBJECTS_PER_CELL),
{
    assert forall|k: int| 0 <= k < NUM_CELLS implies (#[trigger] listed_in(placements, k)).len() == placements_at(
        placements,
        k,
    ).len() by {
        lemma_listed_in_filters(placements, k);
    }
    if forall|k: int| 0 <= k < NUM_CELLS ==> (#[trigger] placements_at(placements, k)).len() <= OBJECTS_PER_CELL {
        assert forall|k: int| 0 <= k < NUM_CELLS implies (#[trigger] listed_in(placements, k)).len() <= OBJECTS_PER_CELL by {
            assert(listed_in(placements, k).len() == placements_at(placements, k).len());
        }
    }
    if placements_fit_spec(placements) {
        assert forall|k: int| 0 <= k < NUM_CELLS implies (#[trigger] placements_at(placements, k)).len() <= OBJECTS_PER_CELL by {
            assert(listed_in(placements, k).len() == placements_at(placements, k).len());
        }
    }
}

/// Entering placements loses and duplicates none of them: when every
/// placement refers to a square of the grid, the squares list as many ids
/// together as there are placements.
pub proof fn lemma_placed_cells_conserve_objects(placements: Seq<Placement>)
    requires
        forall|i: int| 0 <= i < placements.len() ==> placement_index(#[trigger] placements[i]) < NUM_CELLS,
    ensures
        total_listed(placed_cells(placements)) == placements.len(),
    decreases placements.len(),
{
    if placements.len() == 0 {
        lemma_total_listed_empty(NUM_CELLS as nat);
        assert(placed_cells(placements) =~= Seq::new(NUM_CELLS as nat, |k: int| Seq::<usize>::empty()));
    } else {
        let rest = placements.drop_last();
        let p = placements.last();
        assert(p == placements[placements.len() - 1]);
        assert forall|i: int| 0 <= i < rest.len() implies placement_index(#[trigger] rest[i]) < NUM_CELLS by {
            assert(rest[i] == placements[i]);
        }
        lemma_placed_cells_conserve_objects(rest);
        let k = placement_index(p);
        let before = placed_cells(rest);
        lemma_total_listed_push(before, k, p.id);
        assert(placed_cells(placements) =~= before.update(k, before[k].push(p.id)));
    }
}

/// Entering placements loses no object: the square that a placement refers
/// to lists its id.
pub proof fn lemma_placement_listed(placements: Seq<Placement>, i: int)
    requires
        0 <= i < placements.len(),
    ensures
        listed_in(placements, placement_index(placements[i])).contains(placements[i].id),
    decreases placements.len(),
{
    let p = placements[i];
    let rest = placements.drop_last();
    let l = listed_in(rest, placement_index(p));
    if i == placements.len() - 1 {
        assert(listed_in(placements, placement_index(p))[l.len() as int] == p.id);
    } else {
        assert(rest[i] == p);
        lemma_placement_listed(rest, i);
        let j = choose|j: int| 0 <= j < l.len() && l[j] == p.id;
        assert(listed_in(placements, placement_index(p))[j] == p.id);
    }
}

/// Entering placements invents no object: every id a square lists comes
/// from a placement that refers to that square.
pub proof fn lemma_listed_from_placement(placements: Seq<Placement>, k: int, j: int)
    requires
        0 <= j < listed_in(placements, k).len(),
    ensures
        exists|i: int|
            0 <= i < placements.len() && placement_index(#[trigger] placements[i]) == k && placements[i].id == listed_in(placements, k)[j],
    decreases placements.len(),
{
    let rest = placements.drop_last();
    let l = listed_in(rest, k);
    let last = placements.len() - 1;
    if j < l.len() {
        lemma_listed_from_placement(rest, k, j);
        let i = choose|i: int| 0 <= i < rest.len() && placement_index(#[trigger] rest[i]) == k && rest[i].id == l[j];
        assert(rest[i] == placements[i]);
        assert(listed_in(placements, k)[j] == l[j]);
    } else {
        assert(placements[last] == placements.last());
        assert(placement_index(placements[last]) == k && placements[last].id == listed_in(placements, k)[j]);
    }
}

/// What the grid records is what the collision pass examines: once the
/// placements have been entered, the pass over the columns `start..end`
/// examines the pair of any two distinct objects placed in the same or in
/// adjacent squares, when the first lies in one of those columns.
pub proof fn lemma_placed_neighbours_examined(placements: Seq<Placement>, start: int, end: int, i: int, j: int)
    requires
        0 <= i < placements.len(),
        0 <= j < placements.len(),
        placements[i].id != placements[j].id,
        start <= placements[i].cell_x < end,
        placements[i].cell_y < CELLS_HEIGHT,
        placement_index(placements[i]) < NUM_CELLS,
        placement_index(placements[j]) < NUM_CELLS,
        placements[i].cell_x - 1 <= placements[j].cell_x <= placements[i].cell_x + 1,
        placements[i].cell_y - 1 <= placements[j].cell_y <= placements[i].cell_y + 1,
    ensures
        band_pairs(grid_cell(placed_cells(placements)), start, end).contains((placements[i].id, placements[j].id)),
{
    let (p, q) = (placements[i], placements[j]);
    let cells = placed_cells(placements);
    assert(near(p.cell_x as int, q.cell_x as int) && near(p.cell_y as int, q.cell_y as int));
    lemma_placement_listed(placements, i);
    lemma_placement_listed(placements, j);
    assert(cells[placement_index(p)] == listed_in(placements, placement_index(p)));
    assert(cells[placement_index(q)] == listed_in(placements, placement_index(q)));
    lemma_neighbours_examined(grid_cell(cells), start, end, p.cell_x as int, p.cell_y as int, p.id, q.cell_x as int, q.cell_y as int, q.id);
}

/// A uniform grid over the screen. Each square lists the ids of the objects
/// whose centre lies in it, up to [`OBJECTS_PER_CELL`] of them; the grid
/// also counts the objects it has handed ids to.
pub struct Grid {
    cells: Vec<Cell>,
    object_count: usize,
}

impl View for Grid {
    type V = Seq<Seq<usize>>;

    /// The ids each square lists, square by square in column-major order.
    closed spec fn view(&self) -> Seq<Seq<usize>> {
        self.cells@.map_values(|c: Cell| c@)
    }
}

/// Empties every cell, handing the cells to the thread pool of rayon.
///
/// Trusted: `par_iter_mut().for_each` of rayon runs the closure once on each
/// element of the vector and keeps its length; the closure is the verified
/// [`Cell::clear`].
#[verifier::external_body]
fn clear_cells(cells: &mut Vec<Cell>)
    ensures
        final(cells)@.len() == old(cells)@.len(),
        forall|i: int| 0 <= i < final(cells)@.len() ==> (#[trigger] final(cells)@[i]).wf() && final(cells)@[i]@ == Seq::<usize>::empty(),
{
    cells.par_iter_mut().for_each(|cell| cell.clear());
}

impl Grid {
    /// The grid has one well-formed cell per square.
    pub closed spec fn wf(&self) -> bool {
        &&& self.cells@.len() == NUM_CELLS
        &&& forall|i: int| 0 <= i < self.cells@.len() ==> (#[trigger] self.cells@[i]).wf()
    }

    /// How many ids the grid has handed out.
    pub closed spec fn objects_registered(&self) -> nat {
        self.object_count as nat
    }

    /// An empty grid that has handed out no id.
    pub fn new() -> (g: Self)
        ensures
            g.wf(),
            g@ == Seq::new(NUM_CELLS as nat, |k: int| Seq::<usize>::empty()),
            g.objects_registered() == 0,
    {
        let mut cells: Vec<Cell> = Vec::new();
        let mut i: usize = 0;
        while i < NUM_CELLS
            invariant
                i <= NUM_CELLS,
                cells@.len() == i,
                forall|j: int| 0 <= j < i ==> (#[trigger] cells@[j]).wf() && cells@[j]@ == Seq::<usize>::empty(),
            decreases NUM_CELLS - i,
        {
            cells.push(Cell::new());
            i += 1;
        }
        let g = Grid { cells, object_count: 0 };
        assert(g@ =~= Seq::new(NUM_CELLS as nat, |k: int| Seq::<usize>::empty()));
        g
    }

    /// How many ids the grid has handed out.
    pub fn object_count(&self) -> (n: usize)
        ensures
            n == self.objects_registered(),
    {
        self.object_count
    }

    /// Hands out the id of a new object: the number of ids handed out
    /// before. The cells are left as they are.
    pub fn new_object(&mut self) -> (id: usize)
        requires
            old(self).objects_registered() < usize::MAX,
        ensures
            id == old(self).objects_registered(),
            final(self).objects_registered() == old(self).objects_registered() + 1,
            final(self)@ == old(self)@,
            final(self).wf() == old(self).wf(),
    {
        let id = self.object_count;
        self.object_count += 1;
        id
    }
    /// Whether [`Grid::update_grid`] can enter `placements`: each refers to a
    /// square of the grid and no square gets more than [`OBJECTS_PER_CELL`]
    /// objects.
    pub fn placements_fit(placements: &Vec<Placement>) -> (ok: bool)
        ensures
            ok == placements_fit_spec(placements@),
    {
        let mut counts: Vec<usize> = Vec::new();
        let mut k: usize = 0;
        while k < NUM_CELLS
            invariant
                k <= NUM_CELLS,
                counts@.len() == k,
                forall|j: int| 0 <= j < k ==> counts@[j] == 0,
            decreases NUM_CELLS - k,
        {
            counts.push(0);
            k += 1;
        }
        let ghost ps = placements@;
        assert(ps.take(0) =~= Seq::<Placement>::empty());
        let mut i: usize = 0;
        while i < placements.len()
            invariant
                ps == placements@,
                i <= ps.len(),
                counts@.len() == NUM_CELLS,
                forall|k: int| 0 <= k < NUM_CELLS ==> counts@[k] == (#[trigger] listed_in(ps.take(i as int), k)).len(),
                forall|k: int| 0 <= k < NUM_CELLS ==> (#[trigger] listed_in(ps.take(i as int), k)).len() <= OBJECTS_PER_CELL,
                forall|j: int| 0 <= j < i ==> placement_index(#[trigger] ps[j]) < NUM_CELLS,
            decreases ps.len() - i,
        {
            let p = placements[i];
            if p.cell_x >= CELLS_WIDTH {
                assert(placement_index(ps[i as int]) >= NUM_CELLS);
                return false;
            }
            let base = p.cell_x * CELLS_HEIGHT;
            if p.cell_y >= NUM_CELLS - base {
                assert(placement_index(ps[i as int]) >= NUM_CELLS);
                return false;
            }
            let idx = base + p.cell_y;
            proof {
                assert forall|k: int| 0 <= k < NUM_CELLS implies #[trigger] listed_in(ps.take(i + 1), k) == if placement_index(ps[i as int]) == k {
                    listed_in(ps.take(i as int), k).push(ps[i as int].id)
                } else {
                    listed_in(ps.take(i as int), k)
                } by {
                    lemma_listed_in_step(ps, i as int, k);
                }
            }
            if counts[idx] == OBJECTS_PER_CELL {
                proof {
                    lemma_listed_in_prefix(ps, i + 1, idx as int);
                    assert(listed_in(ps, idx as int).len() > OBJECTS_PER_CELL);
                }
                return false;
            }
            let c = counts[idx];
            assert(c == listed_in(ps.take(i as int), idx as int).len());
            counts.set(idx, c + 1);
            i += 1;
        }
        assert(ps.take(ps.len() as int) =~= ps);
        true
    }

    /// Empties every square, then enters the objects in the order given:
    /// afterwards each square lists, in that order, the ids of the
    /// placements that refer to it. The count of ids handed out is kept.
    pub fn update_grid(&mut self, placements: &Vec<Placement>)
        requires
            old(self).wf(),
            placements_fit_spec(placements@),
        ensures
            final(self).wf(),
            final(self)@ == placed_cells(placements@),
            final(self).objects_registered() == old(self).objects_registered(),
    {
        clear_cells(&mut self.cells);
        let ghost ps = placements@;
        let ghost count = self.object_count;
        assert(ps.take(0) =~= Seq::<Placement>::empty());
        let mut i: usize = 0;
        while i < placements.len()
            invariant
                ps == placements@,
                placements_fit_spec(ps),
                i <= ps.len(),
                self.object_count == count,
                self.cells@.len() == NUM_CELLS,
                forall|j: int| 0 <= j < NUM_CELLS ==> (#[trigger] self.cells@[j]).wf(),
                forall|k: int| 0 <= k < NUM_CELLS ==> (#[trigger] self.cells@[k])@ == listed_in(ps.take(i as int), k),
            decreases ps.len() - i,
        {
            let p = placements[i];
            assert(placement_index(ps[i as int]) < NUM_CELLS);
            let idx = p.cell_x * CELLS_HEIGHT + p.cell_y;
            proof {
                assert forall|k: int| 0 <= k < NUM_CELLS implies #[trigger] listed_in(ps.take(i + 1), k) == if placement_index(ps[i as int]) == k {
                    listed_in(ps.take(i as int), k).push(ps[i as int].id)
                } else {
                    listed_in(ps.take(i as int), k)
                } by {
                    lemma_listed_in_step(ps, i as int, k);
                }
                lemma_listed_in_prefix(ps, i + 1, idx as int);
                assert(listed_in(ps, idx as int).len() <= OBJECTS_PER_CELL);
            }
            self.cells[idx].add_object(p.id);
            i += 1;
        }
        assert(ps.take(ps.len() as int) =~= ps);
        assert(self@ =~= placed_cells(ps));
    }
    /// Appends the pair `(object_id, other)` for each object `other` that the
    /// square `(cell_x, cell_y)` lists, in cell order, skipping `object_id`
    /// itself.
    fn check_cell(&self, cell_y: usize, cell_x: usize, object_id: usize, pairs: &mut Vec<(usize, usize)>)
        requires
            self.wf(),
            cell_index(cell_x as int, cell_y as int) < NUM_CELLS,
        ensures
            final(pairs)@ == old(pairs)@ + cell_pairs(grid_cell(self@)(cell_x as int, cell_y as int), object_id),
    {
        let idx = cell_x * CELLS_HEIGHT + cell_y;
        let cell = self.cells[idx];
        assert(cell@ == grid_cell(self@)(cell_x as int, cell_y as int));
        let n = cell.count();
        let ghost start = pairs@;
        let mut j: usize = 0;
        assert(cell@.take(0) =~= Seq::<usize>::empty());
        while j < n
            invariant
                cell.wf(),
                n == cell@.len(),
                j <= n,
                pairs@ == start + cell_pairs(cell@.take(j as int), object_id),
            decreases n - j,
        {
            let other = cell.object(j);
            proof {
                assert(cell@.take(j + 1) =~= cell@.take(j as int).push(other));
                lemma_cell_pairs_push(cell@.take(j as int), other, object_id);
            }
            if object_id != other {
                pairs.push((object_id, other));
                assert(pairs@ =~= start + cell_pairs(cell@.take(j + 1), object_id));
            }
            j += 1;
        }
        assert(cell@.take(n as int) =~= cell@);
    }

    /// Appends the pairs for the object `object_id` at `(x, y)`: those that
    /// each of the nine squares of [`neighbour_squares`] offers, in order.
    fn check_neighbours(&self, x: usize, y: usize, object_id: usize, pairs: &mut Vec<(usize, usize)>)
        requires
            self.wf(),
            cell_index(x + 1, y + 1) < NUM_CELLS,
        ensures
            final(pairs)@ == old(pairs)@ + neighbour_pairs(grid_cell(self@), x as int, y as int, object_id),
    {
        let ghost start = pairs@;
        let ghost squares = neighbour_squares(x as int, y as int);
        let xb = x.saturating_sub(1);
        let yb = y.saturating_sub(1);
        let around: [(usize, usize); 9] = [
            (x + 1, y + 1), (x, y + 1), (xb, y + 1),
            (x + 1, y), (x, y), (xb, y),
            (x + 1, yb), (x, yb), (xb, yb),
        ];
        assert(forall|j: int| 0 <= j < 9 ==> around@[j].0 == squares[j].0 && around@[j].1 == squares[j].1);
        assert(squares.take(0) =~= Seq::<(int, int)>::empty());
        let mut j: usize = 0;
        while j < 9
            invariant
                self.wf(),
                cell_index(x + 1, y + 1) < NUM_CELLS,
                squares == neighbour_squares(x as int, y as int),
                forall|j: int| 0 <= j < 9 ==> around@[j].0 == squares[j].0 && around@[j].1 == squares[j].1,
                j <= 9,
                pairs@ == start + squares_pairs(grid_cell(self@), squares.take(j as int), object_id),
            decreases 9 - j,
        {
            let (cx, cy) = around[j];
            proof {
                lemma_squares_pairs_take(grid_cell(self@), squares, j as int, object_id);
            }
            self.check_cell(cy, cx, object_id, pairs);
            assert(pairs@ =~= start + squares_pairs(grid_cell(self@), squares.take(j + 1), object_id));
            j += 1;
        }
        assert(squares.take(9) =~= squares);
    }

    /// The pairs that the collision pass resolves for the columns of
    /// `range`, in the order it resolves them: column by column, each column
    /// from its first row up, each square in cell order, and for each object
    /// the nine squares around it (see [`neighbour_pairs`]).
    pub fn solve_collisions(&self, range: Range<usize>) -> (pairs: Vec<(usize, usize)>)
        requires
            self.wf(),
            neighbours_in_grid_spec(self@, range.start as int, range.end as int),
        ensures
            pairs@ == band_pairs(grid_cell(self@), range.start as int, range.end as int),
    {
        let ghost cells = self@;
        let mut pairs: Vec<(usize, usize)> = Vec::new();
        let start = range.start;
        let end = range.end;
        if end <= start {
            return pairs;
        }
        let mut x: usize = start;
        while x < end
            invariant
                self.wf(),
                cells == self@,
                start <= x <= end <= CELLS_WIDTH,
                neighbours_in_grid_spec(cells, start as int, end as int),
                pairs@ == band_pairs(grid_cell(cells), start as int, x as int),
            decreases end - x,
        {
            let mut y: usize = 0;
            while y < CELLS_HEIGHT
                invariant
                    self.wf(),
                    cells == self@,
                    start <= x < end <= CELLS_WIDTH,
                    y <= CELLS_HEIGHT,
                    neighbours_in_grid_spec(cells, start as int, end as int),
                    pairs@ == band_pairs(grid_cell(cells), start as int, x as int) + column_pairs(grid_cell(cells), x as int, y as int),
                decreases CELLS_HEIGHT - y,
            {
                let idx = x * CELLS_HEIGHT + y;
                let cell = self.cells[idx];
                assert(cell@ == cells[cell_index(x as int, y as int)]);
                let n = cell.count();
                let mut k: usize = 0;
                while k < n
                    invariant
                        self.wf(),
                        cells == self@,
                        start <= x < end <= CELLS_WIDTH,
                        y < CELLS_HEIGHT,
                        cell.wf(),
                        cell@ == cells[cell_index(x as int, y as int)],
                        n == cell@.len(),
                        k <= n,
                        neighbours_in_grid_spec(cells, start as int, end as int),
                        pairs@ == band_pairs(grid_cell(cells), start as int, x as int) + column_pairs(grid_cell(cells), x as int, y as int)
                            + square_pairs(grid_cell(cells), x as int, y as int, k as int),
                    decreases n - k,
                {
                    let object_id = cell.object(k);
                    assert(cell_index(x + 1, y + 1) < NUM_CELLS);
                    let ghost before = pairs@;
                    self.check_neighbours(x, y, object_id, &mut pairs);
                    assert(square_pairs(grid_cell(cells), x as int, y as int, k + 1) == square_pairs(grid_cell(cells), x as int, y as int, k as int)
                        + neighbour_pairs(grid_cell(cells), x as int, y as int, object_id));
                    k += 1;
                }
                proof {
                    assert(column_pairs(grid_cell(cells), x as int, y + 1) == column_pairs(grid_cell(cells), x as int, y as int)
                        + square_pairs(grid_cell(cells), x as int, y as int, n as int));
                }
                y += 1;
            }
            assert(band_pairs(grid_cell(cells), start as int, x + 1) == band_pairs(grid_cell(cells), start as int, x as int)
                + column_pairs(grid_cell(cells), x as int, CELLS_HEIGHT as int));
            x += 1;
        }
        pairs
    }
    /// Whether [`Grid::solve_collisions`] can run on `range`: the columns
    /// lie in the grid and every occupied square among them has its upper
    /// right neighbour in the grid.
    pub fn neighbours_in_grid(&self, range: &Range<usize>) -> (ok: bool)
        requires
            self.wf(),
        ensures
            ok == neighbours_in_grid_spec(self@, range.start as int, range.end as int),
    {
        let ghost cells = self@;
        let start = range.start;
        let end = range.end;
        if end <= start {
            return true;
        }
        if end > CELLS_WIDTH {
            return false;
        }
        let mut x: usize = start;
        while x < end
            invariant
                self.wf(),
                cells == self@,
                start == range.start,
                end == range.end,
                start <= x <= end <= CELLS_WIDTH,
                forall|x0: int, y0: int|
                    start <= x0 < x && 0 <= y0 < CELLS_HEIGHT && #[trigger] cells[cell_index(x0, y0)].len() > 0
                        ==> cell_index(x0 + 1, y0 + 1) < NUM_CELLS,
            decreases end - x,
        {
            let mut y: usize = 0;
            while y < CELLS_HEIGHT
                invariant
                    self.wf(),
                    cells == self@,
                    start == range.start,
                    end == range.end,
                    start <= x < end <= CELLS_WIDTH,
                    y <= CELLS_HEIGHT,
                    forall|x0: int, y0: int|
                        start <= x0 < x && 0 <= y0 < CELLS_HEIGHT && #[trigger] cells[cell_index(x0, y0)].len() > 0
                            ==> cell_index(x0 + 1, y0 + 1) < NUM_CELLS,
                    forall|y0: int|
                        0 <= y0 < y && #[trigger] cells[cell_index(x as int, y0)].len() > 0
                            ==> cell_index(x + 1, y0 + 1) < NUM_CELLS,
                decreases CELLS_HEIGHT - y,
            {
                let idx = x * CELLS_HEIGHT + y;
                assert(self.cells@[idx as int]@ == cells[cell_index(x as int, y as int)]);
                if self.cells[idx].count() > 0 && (x + 1) * CELLS_HEIGHT + y + 1 >= NUM_CELLS {
                    assert(cells[cell_index(x as int, y as int)].len() > 0);
                    assert(!(cell_index(x + 1, y + 1) < NUM_CELLS));
                    return false;
                }
                y += 1;
            }
            x += 1;
        }
        true
    }
}

} // verus!
