//! How the collision pass splits the columns of the grid between threads:
//! two passes, each handing every thread one band of columns.
use vstd::prelude::*;
use std::ops::Range;
use crate::CELLS_WIDTH;

verus! {

/// The width of one band when `threads` threads share the grid: the columns
/// divided by twice the threads, rounded down.
pub open spec fn band_width(threads: int) -> int {
    CELLS_WIDTH as int / (2 * threads)
}

/// The first column of the band that thread `i` takes in pass `pass`
/// (`0` or `1`).
pub open spec fn band_start(threads: int, pass: int, i: int) -> int {
    (2 * i + pass) * band_width(threads)
}

/// The column after the band that thread `i` takes in pass `pass`.
pub open spec fn band_end(threads: int, pass: int, i: int) -> int {
    (2 * i + pass + 1) * band_width(threads)
}

proof fn lemma_band_arith(threads: int, k: int)
    by (nonlinear_arith)
    requires
        1 <= threads,
        0 <= k <= 2 * threads,
    ensures
        0 <= k * band_width(threads) <= 2 * threads * band_width(threads) <= CELLS_WIDTH,
        0 <= band_width(threads),
        (k + 1) * band_width(threads) == k * band_width(threads) + band_width(threads),
{
}

/// The bands of both passes for `threads` threads: in pass `0` thread `i`
/// takes the columns `2 i w .. (2 i + 1) w`, in pass `1` the columns
/// `(2 i + 1) w .. (2 i + 2) w`, where `w` is [`band_width`].
pub fn collision_bands(threads: usize) -> (bands: (Vec<Range<usize>>, Vec<Range<usize>>))
    requires
        1 <= threads <= usize::MAX / 2,
    ensures
        bands.0@.len() == threads,
        bands.1@.len() == threads,
        forall|i: int| 0 <= i < threads ==> (#[trigger] bands.0@[i]).start == band_start(threads as int, 0, i)
            && bands.0@[i].end == band_end(threads as int, 0, i),
        forall|i: int| 0 <= i < threads ==> (#[trigger] bands.1@[i]).start == band_start(threads as int, 1, i)
            && bands.1@[i].end == band_end(threads as int, 1, i),
{
    let width = CELLS_WIDTH / (threads * 2);
    assert(width == band_width(threads as int));
    let mut first: Vec<Range<usize>> = Vec::new();
    let mut second: Vec<Range<usize>> = Vec::new();
    let mut i: usize = 0;
    while i < threads
        invariant
            1 <= threads <= usize::MAX / 2,
            width == band_width(threads as int),
            i <= threads,
            first@.len() == i,
            second@.len() == i,
            forall|j: int| 0 <= j < i ==> (#[trigger] first@[j]).start == band_start(threads as int, 0, j)
                && first@[j].end == band_end(threads as int, 0, j),
            forall|j: int| 0 <= j < i ==> (#[trigger] second@[j]).start == band_start(threads as int, 1, j)
                && second@[j].end == band_end(threads as int, 1, j),
        decreases threads - i,
    {
        proof {
            lemma_band_arith(threads as int, 2 * i);
            lemma_band_arith(threads as int, 2 * i + 1);
            lemma_band_arith(threads as int, 2 * i + 2);
        }
        first.push(i * 2 * width..(i * 2 + 1) * width);
        second.push((i * 2 + 1) * width..(i * 2 + 2) * width);
        i += 1;
    }
    (first, second)
}

/// Every band lies in the grid and does not run backwards.
pub proof fn lemma_bands_within_grid(threads: int, pass: int, i: int)
    requires
        1 <= threads,
        0 <= pass <= 1,
        0 <= i < threads,
    ensures
        0 <= band_start(threads, pass, i) <= band_end(threads, pass, i) <= CELLS_WIDTH,
{
    lemma_band_arith(threads, 2 * i + pass);
    lemma_band_arith(threads, 2 * i + pass + 1);
}

/// Within one pass, a whole band width separates the bands of any two
/// threads; so when bands are at least two columns wide, the columns two
/// threads of one pass look at (a band and one column on each side of it)
/// never overlap.
pub proof fn lemma_pass_bands_separated(threads: int, pass: int, i: int, j: int)
    requires
        1 <= threads,
        0 <= pass <= 1,
        0 <= i < j < threads,
    ensures
        band_end(threads, pass, i) + band_width(threads) <= band_start(threads, pass, j),
        band_width(threads) >= 2 ==> band_end(threads, pass, i) < band_start(threads, pass, j) - 1,
{
    let w = band_width(threads);
    lemma_band_arith(threads, 0);
    assert((2 * i + pass + 1) * w + w <= (2 * j + pass) * w) by (nonlinear_arith)
        requires
            i < j,
            w >= 0;
}

/// Between them the two passes cover the columns `0 .. 2 t w` (for `t`
/// threads and band width `w`) once each: column `x` lies in the band of
/// thread `(x / w) / 2` in pass `(x / w) % 2` and in no other band.
pub proof fn lemma_bands_cover(threads: int, x: int, pass: int, i: int)
    requires
        1 <= threads,
        band_width(threads) > 0,
        0 <= x < 2 * threads * band_width(threads),
        0 <= pass <= 1,
        0 <= i < threads,
    ensures
        0 <= (x / band_width(threads)) / 2 < threads,
        band_start(threads, (x / band_width(threads)) % 2, (x / band_width(threads)) / 2) <= x
            < band_end(threads, (x / band_width(threads)) % 2, (x / band_width(threads)) / 2),
        band_start(threads, pass, i) <= x < band_end(threads, pass, i) ==> pass == (x / band_width(threads)) % 2
            && i == (x / band_width(threads)) / 2,
{
    let w = band_width(threads);
    let q = x / w;
    assert(q * w <= x < (q + 1) * w) by (nonlinear_arith)
        requires
            w > 0,
            q == x / w,
            x >= 0;
    assert(0 <= q < 2 * threads) by (nonlinear_arith)
        requires
            w > 0,
            q * w <= x < 2 * threads * w,
            x >= 0,
            (q + 1) * w > x;
    assert(2 * (q / 2) + q % 2 == q);
    if band_start(threads, pass, i) <= x < band_end(threads, pass, i) {
        let k = 2 * i + pass;
        assert(k == q) by (nonlinear_arith)
            requires
                w > 0,
                k * w <= x < (k + 1) * w,
                q * w <= x < (q + 1) * w;
    }
}

/// The bands tile the columns from the first one on without gap or
/// overlap, in the order band `0` of pass `0`, band `0` of pass `1`, band `1`
/// of pass `0`, and so on, all of one width; they are as wide as they can be,
/// so fewer than `2 * threads` columns are left over at the right.
pub proof fn lemma_bands_tile(threads: int)
    requires
        1 <= threads,
    ensures
        band_start(threads, 0, 0) == 0,
        forall|pass: int, i: int| 0 <= pass <= 1 && 0 <= i < threads
            ==> #[trigger] band_end(threads, pass, i) - band_start(threads, pass, i) == band_end(threads, 0, 0),
        forall|i: int| 0 <= i < threads ==> #[trigger] band_start(threads, 1, i) == band_end(threads, 0, i),
        forall|i: int| 0 <= i < threads - 1 ==> #[trigger] band_start(threads, 0, i + 1) == band_end(threads, 1, i),
        band_end(threads, 1, threads - 1) <= CELLS_WIDTH < band_end(threads, 1, threads - 1) + 2 * threads,
{
    let w = band_width(threads);
    assert forall|pass: int, i: int| 0 <= pass <= 1 && 0 <= i < threads
        implies #[trigger] band_end(threads, pass, i) - band_start(threads, pass, i) == band_end(threads, 0, 0) by {
        lemma_band_arith(threads, 2 * i + pass);
        lemma_band_arith(threads, 0);
    }
    assert forall|i: int| 0 <= i < threads - 1 implies #[trigger] band_start(threads, 0, i + 1) == band_end(threads, 1, i) by {
        assert((2 * (i + 1) + 0) * w == (2 * i + 1 + 1) * w);
    }
    let t2 = 2 * threads;
    assert(band_end(threads, 1, threads - 1) == t2 * w) by {
        assert((2 * (threads - 1) + 1 + 1) * w == t2 * w);
    }
    assert(t2 * w <= CELLS_WIDTH < t2 * w + t2) by (nonlinear_arith)
        requires
            t2 >= 2,
            w == CELLS_WIDTH as int / t2;
}

} // verus!
