# particles

A particle simulation whose spatial bookkeeping is verified with Verus.

- `src/` is the verified library: the bounded `Cell`, the flat `Grid` and
  the nested `Solver` that record which particle lies in which square of a
  uniform grid, the ordered list of particle pairs that the collision pass
  examines (its order and laws, shared by both grids, are in `scan.rs`),
  the split of the columns into bands for the threads, and the
  integer rules of a frame.
- `app/` is the game around it: the window and drawing (coffee), the
  floating-point motion and collision response of the particles, and the
  thread pool that runs the collision pass band by band.
