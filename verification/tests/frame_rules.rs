use particles::frame::{grid_refresh_due, objects_to_spawn, MAX_SPAWN, OBJECT_LIMIT, STEPS};

#[test]
fn grid_refreshes_every_third_step() {
    let due: Vec<u32> = (0..STEPS).filter(|s| grid_refresh_due(*s)).collect();
    assert_eq!(due, vec![0, 3, 6]);
}

#[test]
fn spawn_grows_with_population() {
    assert_eq!(objects_to_spawn(0), 10);
    assert_eq!(objects_to_spawn(799), 10);
    assert_eq!(objects_to_spawn(800), 11);
    assert_eq!(objects_to_spawn(55999), 79);
    assert_eq!(objects_to_spawn(56000), MAX_SPAWN);
    assert_eq!(objects_to_spawn(OBJECT_LIMIT - 1), MAX_SPAWN);
}

#[test]
fn spawn_stops_at_limit() {
    assert_eq!(objects_to_spawn(OBJECT_LIMIT), 0);
    assert_eq!(objects_to_spawn(usize::MAX), 0);
}
