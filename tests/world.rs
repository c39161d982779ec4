use tween_toy::world::{SpawnError, World, MAX_SIZE, MIN_SIZE};

#[test]
fn grow_then_shrink_entity_is_reclaimed_after_two_seconds() {
    let mut w = World::new();
    let id = w.place(0, 10, 20, 100, 0);
    for _ in 0..18 {
        w.tick(100);
    }
    assert!(w.contains(id));
    let s18 = w.entities[0].transform.scale.x;
    w.tick(100);
    assert!(w.contains(id));
    let s19 = w.entities[0].transform.scale.x;
    assert_eq!(s18, 240);
    assert_eq!(s19, 60);
    assert!(s19 < 3000 && s19 > 0 && s19 < s18);
    w.tick(100);
    assert!(!w.contains(id));
    assert_eq!(w.len(), 0);
}

#[test]
fn rotate_and_hide_entity_is_reclaimed_after_one_second() {
    let mut w = World::new();
    let id = w.place(0, 0, 0, 100, 1);
    w.tick(999);
    assert!(w.contains(id));
    w.tick(1);
    assert!(!w.contains(id));
}

#[test]
fn empty_catalog_spawns_nothing() {
    let mut w = World::new();
    assert_eq!(w.on_trigger_events(0, 1, 800, 600), Err(SpawnError::EmptyCatalog));
    assert_eq!(w.len(), 0);
    assert_eq!(w.on_trigger_events(0, 0, 800, 600), Ok(()));
    assert_eq!(w.len(), 0);
}

#[test]
fn each_trigger_spawns_one_entity_in_bounds() {
    let mut w = World::new();
    assert_eq!(w.on_trigger_events(3, 5, 800, 600), Ok(()));
    assert_eq!(w.len(), 5);
    for (i, e) in w.entities.iter().enumerate() {
        assert_eq!(e.id, i as u64);
        assert!(e.transient);
        assert!(e.asset < 3);
        assert!(-400 <= e.transform.translation.x && e.transform.translation.x <= 400);
        assert!(-300 <= e.transform.translation.y && e.transform.translation.y <= 300);
        assert!(MIN_SIZE as u32 <= e.size && e.size <= MAX_SIZE as u32);
    }
    assert_eq!(w.persistent_count(), 0);
}

#[test]
fn single_asset_catalog_uses_it() {
    let mut w = World::new();
    assert_eq!(w.on_trigger_events(1, 4, 2, 2), Ok(()));
    for e in w.entities.iter() {
        assert_eq!(e.asset, 0);
        assert!(-1 <= e.transform.translation.x && e.transform.translation.x <= 1);
    }
}

#[test]
fn persistent_field_survives_long_run() {
    let mut w = World::new();
    w.seed_persistent_field(0, 100, 1024, 768);
    assert_eq!(w.len(), 100);
    assert_eq!(w.persistent_count(), 100);
    for _ in 0..1000 {
        w.tick(1000);
    }
    assert_eq!(w.len(), 100);
    assert_eq!(w.persistent_count(), 100);
}

#[test]
fn persistent_entities_stay_while_transient_ones_go() {
    let mut w = World::new();
    w.seed_persistent_field(0, 3, 100, 100);
    assert_eq!(w.on_trigger_events(2, 2, 100, 100), Ok(()));
    assert_eq!(w.len(), 5);
    w.tick(2000);
    assert_eq!(w.len(), 3);
    assert_eq!(w.persistent_count(), 3);
    for (i, e) in w.entities.iter().enumerate() {
        assert_eq!(e.id, i as u64);
    }
}

#[test]
fn decorative_entity_drifts_and_returns() {
    let mut w = World::new();
    w.seed_persistent_field(0, 1, 0, 0);
    let e = &w.entities[0];
    assert_eq!(e.transform.translation.x, 0);
    assert_eq!(e.transform.scale.x, 100);
    w.tick(1500);
    assert_eq!(w.entities[0].transform.translation.y, 10);
    w.tick(750);
    assert_eq!(w.entities[0].transform.translation.y, 5);
    w.tick(750);
    assert_eq!(w.entities[0].transform.translation.y, 0);
}
