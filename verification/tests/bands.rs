use particles::schedule::collision_bands;
use particles::CELLS_WIDTH;

#[test]
fn one_thread_takes_two_halves() {
    let (first, second) = collision_bands(1);
    assert_eq!(first, vec![0..363]);
    assert_eq!(second, vec![363..726]);
}

#[test]
fn four_threads_alternate_bands() {
    let (first, second) = collision_bands(4);
    assert_eq!(first, vec![0..90, 180..270, 360..450, 540..630]);
    assert_eq!(second, vec![90..180, 270..360, 450..540, 630..720]);
}

#[test]
fn bands_of_one_pass_keep_apart() {
    for threads in 1..=181 {
        let (first, second) = collision_bands(threads);
        for pass in [&first, &second] {
            for w in pass.windows(2) {
                assert!(w[0].end < w[1].start - 1);
            }
        }
    }
}

#[test]
fn bands_cover_each_column_once() {
    for threads in 1..=40 {
        let (first, second) = collision_bands(threads);
        let width = CELLS_WIDTH / (2 * threads);
        let mut seen = vec![0usize; CELLS_WIDTH];
        for r in first.iter().chain(second.iter()) {
            assert!(r.end <= CELLS_WIDTH);
            for x in r.clone() {
                seen[x] += 1;
            }
        }
        for (x, n) in seen.iter().enumerate() {
            assert_eq!(*n, if x < 2 * threads * width { 1 } else { 0 });
        }
    }
}

#[test]
fn many_threads_get_empty_bands() {
    let (first, second) = collision_bands(400);
    assert!(first.iter().chain(second.iter()).all(|r| r.start == 0 && r.end == 0));
}
