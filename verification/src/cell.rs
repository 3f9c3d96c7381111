//! A grid cell that lists a bounded number of objects.
use vstd::prelude::*;

verus! {

/// How many objects one cell of a [`crate::grid::Grid`] can list.
pub const OBJECTS_PER_CELL: usize = 4;

/// A cell of the grid: the first `count` slots of `objects` are the ids of
/// the objects that lie in it, in the order in which they were added.
#[derive(Copy, Clone)]
pub struct Cell {
    objects: [usize; OBJECTS_PER_CELL],
    count: usize,
}

impl View for Cell {
    type V = Seq<usize>;

    /// The ids the cell lists, in order.
    closed spec fn view(&self) -> Seq<usize> {
        self.objects@.take(self.count as int)
    }
}

impl Cell {
    /// The cell never lists more objects than it has slots for.
    pub closed spec fn wf(&self) -> bool {
        self.count <= OBJECTS_PER_CELL
    }

    /// All slots of the cell, listed ones first; the slots past the listed
    /// ones keep whatever ids were last written there.
    pub closed spec fn slots(&self) -> Seq<usize> {
        self.objects@
    }

    /// An empty cell whose slots are all `0`.
    pub fn new() -> (c: Self)
        ensures
            c.wf(),
            c@ == Seq::<usize>::empty(),
            c.slots().len() == OBJECTS_PER_CELL,
            c.slots() == seq![0usize, 0usize, 0usize, 0usize],
    {
        let c = Cell { objects: [0, 0, 0, 0], count: 0 };
        assert(c@ =~= Seq::<usize>::empty());
        assert(c.slots() =~= seq![0usize, 0usize, 0usize, 0usize]);
        c
    }

    /// Forgets every object the cell lists; the slots keep the old ids.
    pub fn clear(&mut self)
        ensures
            final(self).wf(),
            final(self)@ == Seq::<usize>::empty(),
            final(self).slots().len() == OBJECTS_PER_CELL,
            final(self).slots() == old(self).slots(),
    {
        self.count = 0;
    }

    /// Appends `object_id` to the cell; the cell must have a free slot.
    pub fn add_object(&mut self, object_id: usize)
        requires
            old(self).wf(),
            old(self)@.len() < OBJECTS_PER_CELL,
        ensures
            final(self).wf(),
            final(self)@ == old(self)@.push(object_id),
            final(self).slots().len() == OBJECTS_PER_CELL,
            final(self).slots() == old(self).slots().update(old(self)@.len() as int, object_id),
    {
        self.objects[self.count] = object_id;
        self.count += 1;
        assert(self@ =~= old(self)@.push(object_id));
        assert(self.slots() =~= old(self).slots().update(old(self)@.len() as int, object_id));
    }

    /// How many objects the cell lists.
    pub fn count(&self) -> (n: usize)
        requires
            self.wf(),
        ensures
            n == self@.len(),
    {
        self.count
    }

    /// The id in slot `k`.
    pub fn object(&self, k: usize) -> (id: usize)
        requires
            self.wf(),
            k < self@.len(),
        ensures
            id == self@[k as int],
    {
        self.objects[k]
    }
}

} // verus!
