//! The integer rules of one frame of the simulation: how many sub-steps it
//! takes, on which of them the grid is rebuilt, and how many particles are
//! spawned after them.
use vstd::prelude::*;

verus! {

/// Sub-steps of integration and collision solving per frame.
pub const STEPS: u32 = 8;

/// No particle is spawned once this many exist.
pub const OBJECT_LIMIT: usize = 97000;

/// At most this many particles are spawned per frame.
pub const MAX_SPAWN: usize = 80;

/// Whether the grid is rebuilt before the collision pass of sub-step
/// `step`: on every third sub-step, starting with the first.
pub fn grid_refresh_due(step: u32) -> (due: bool)
    ensures
        due == (step % 3 == 0),
{
    step % 3 == 0
}

/// How many particles a frame spawns when `object_count` exist: none from
/// [`OBJECT_LIMIT`] on, else one per 800 particles plus ten, at most
/// [`MAX_SPAWN`].
pub open spec fn spawn_count(object_count: int) -> int {
    if object_count < OBJECT_LIMIT {
        if (object_count + 8000) / 800 < MAX_SPAWN { (object_count + 8000) / 800 } else { MAX_SPAWN as int }
    } else {
        0
    }
}

/// How many particles a frame spawns when `object_count` exist (see
/// [`spawn_count`]).
pub fn objects_to_spawn(object_count: usize) -> (n: usize)
    ensures
        n == spawn_count(object_count as int),
{
    if object_count < OBJECT_LIMIT {
        let n = (object_count + 8000) / 800;
        if n < MAX_SPAWN { n } else { MAX_SPAWN }
    } else {
        0
    }
}

/// Spawning keeps the population bounded: a frame that starts below
/// [`OBJECT_LIMIT`] ends below `OBJECT_LIMIT + MAX_SPAWN`, and one that
/// starts at or above it spawns nothing.
pub proof fn lemma_spawning_bounded(object_count: int)
    requires
        0 <= object_count,
    ensures
        10 <= spawn_count(object_count) <= MAX_SPAWN || spawn_count(object_count) == 0,
        object_count < OBJECT_LIMIT ==> object_count + spawn_count(object_count) < OBJECT_LIMIT + MAX_SPAWN,
        object_count >= OBJECT_LIMIT ==> spawn_count(object_count) == 0,
{
}

/// The spawn count is the population plus 8000, divided by 800 and rounded
/// down, until that reaches [`MAX_SPAWN`]; it is [`MAX_SPAWN`] from there to
/// [`OBJECT_LIMIT`], and `0` from [`OBJECT_LIMIT`] on.
pub proof fn lemma_spawn_count_rounds_down(object_count: int)
    requires
        0 <= object_count,
    ensures
        object_count + 8000 < 800 * MAX_SPAWN ==> 800 * spawn_count(object_count) <= object_count + 8000 < 800 * (
        spawn_count(object_count) + 1),
        800 * MAX_SPAWN <= object_count + 8000 && object_count < OBJECT_LIMIT ==> spawn_count(object_count)
            == MAX_SPAWN,
        object_count >= OBJECT_LIMIT ==> spawn_count(object_count) == 0,
{
}

/// Below the cap, 800 more particles spawn one more particle per frame.
pub proof fn lemma_spawn_count_step(object_count: int)
    requires
        0 <= object_count,
        object_count + 800 + 8000 < 800 * MAX_SPAWN,
    ensures
        spawn_count(object_count + 800) == spawn_count(object_count) + 1,
{
}

} // verus!
