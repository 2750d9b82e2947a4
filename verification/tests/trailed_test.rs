use venn_search::trail::trailed::{TrailRestore, Trailed, TrailedRegistry};
use venn_search::trail::Trail;

#[test]
fn test_trailed_u64_basic() {
    let mut trail = Trail::new();
    let mut registry = TrailedRegistry::new();
    let mut value = registry.register(42u64);

    assert_eq!(value.get(), 42);
    assert_eq!(value.id(), 0);

    value.set(&mut trail, 100);
    assert_eq!(value.get(), 100);
    assert_eq!(trail.len(), 1);
}

#[test]
fn test_trailed_maybe_set() {
    let mut trail = Trail::new();
    let mut registry = TrailedRegistry::new();
    let mut value = registry.register(42u64);

    assert!(!value.maybe_set(&mut trail, 42));
    assert_eq!(trail.len(), 0);

    assert!(value.maybe_set(&mut trail, 100));
    assert_eq!(trail.len(), 1);
    assert_eq!(value.get(), 100);
}

#[test]
fn test_trailed_different_types() {
    let mut registry = TrailedRegistry::new();

    let v1 = registry.register(42u8);
    let v2 = registry.register(100u16);
    let v3 = registry.register(1000u32);
    let v4 = registry.register(10000u64);
    let v5 = registry.register(true);

    assert_eq!(v1.id(), 0);
    assert_eq!(v2.id(), 1);
    assert_eq!(v3.id(), 2);
    assert_eq!(v4.id(), 3);
    assert_eq!(v5.id(), 4);
}

#[test]
fn test_trail_restore_u64() {
    let mut value = Trailed::new(0, 100u64);
    assert_eq!(value.get(), 100);

    value.restore(42);
    assert_eq!(value.get(), 42);
}

#[test]
fn test_trail_restore_bool() {
    let mut value = Trailed::new(0, true);
    assert_eq!(value.get(), true);

    value.restore(0);
    assert_eq!(value.get(), false);

    value.restore(1);
    assert_eq!(value.get(), true);
}

#[test]
fn test_registry_unique_ids() {
    let mut registry = TrailedRegistry::new();

    let v1 = registry.register(1u64);
    let v2 = registry.register(2u64);
    let v3 = registry.register(3u64);

    assert_eq!(v1.id(), 0);
    assert_eq!(v2.id(), 1);
    assert_eq!(v3.id(), 2);
    assert_eq!(registry.next_id(), 3);
}

#[test]
fn trailed_set_then_restore_round_trips_each_width() {
    let mut trail = Trail::new();
    let mut a = Trailed::new(7, 200u8);
    a.set(&mut trail, 5);
    assert_eq!(a.get(), 5);
    a.restore(200);
    assert_eq!(a.get(), 200);

    let mut b = Trailed::new(8, 60000u16);
    b.set(&mut trail, 1);
    b.restore(60000);
    assert_eq!(b.get(), 60000);

    let mut c = Trailed::new(9, false);
    c.set(&mut trail, true);
    assert!(c.get());
    c.restore(0);
    assert!(!c.get());
    assert_eq!(trail.len(), 3);
}
