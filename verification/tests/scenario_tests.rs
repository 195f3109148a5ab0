use rollback_ecs::component::{Component, Destroyed, Resource};
use rollback_ecs::entity::Entity;
use rollback_ecs::safety::{verify_snapshot_invariants, verify_storage_invariants};
use rollback_ecs::storage::Storage;
use rollback_ecs::system::DestroySystem;
use rollback_ecs::tick::Tick;
use rollback_ecs::world::destroy_entity;
use std::sync::atomic::{AtomicUsize, Ordering};
use std::sync::Arc;

// A component that counts how often it is cloned.
#[derive(Default, Debug)]
struct Counted {
    value: i32,
    clones: Arc<AtomicUsize>,
}

impl Clone for Counted {
    fn clone(&self) -> Self {
        self.clones.fetch_add(1, Ordering::Relaxed);
        Counted {
            value: self.value,
            clones: self.clones.clone(),
        }
    }
}

impl Resource for Counted {
    fn type_index() -> usize {
        40
    }
}

impl Component for Counted {
    fn clone_is_faithful(_source: Self, _copy: Self) {}
}

#[test]
fn test_spawn_destroy_cycle_reuses_slots() {
    let mut entities = Storage::<Entity>::new();
    let mut destroyed = Storage::<Destroyed>::new();

    for _round in 0..2 {
        let mut spawned = Vec::new();
        for index in 0..10 {
            let e = entities.spawn().unwrap();
            // The indices are used again, and the generation is 1 again
            assert_eq!(e.index(), index);
            assert_eq!(e.generation(), 1);
            spawned.push(e);
        }
        assert_eq!(entities.len(), 10);
        verify_storage_invariants(&entities).unwrap();

        for e in spawned {
            destroy_entity(&entities, &mut destroyed, e).unwrap();
        }
        assert_eq!(destroyed.len(), 10);
        // Marked, not yet removed
        assert_eq!(entities.len(), 10);

        DestroySystem::create().run(&mut entities, &mut destroyed);
        assert_eq!(entities.len(), 0);
        assert_eq!(destroyed.len(), 0);
        verify_storage_invariants(&entities).unwrap();
        verify_storage_invariants(&destroyed).unwrap();
    }

    for _ in 0..10 {
        entities.spawn().unwrap();
    }
    assert_eq!(entities.len(), 10);
    verify_storage_invariants(&entities).unwrap();
}

#[test]
fn test_rollback_across_add_and_updates_clones_once() {
    let clones = Arc::new(AtomicUsize::new(0));
    let value = |value: i32| Counted {
        value,
        clones: clones.clone(),
    };
    let mut storage = Storage::<Counted>::new();

    storage.set_tick(Tick::new(1));
    storage.set(0, &value(100)).unwrap();
    storage.clear_changes();
    storage.set_tick(Tick::new(2));
    storage.set(0, &value(200)).unwrap();
    storage.clear_changes();
    storage.set_tick(Tick::new(3));
    storage.set(0, &value(300)).unwrap();
    storage.clear_changes();
    assert_eq!(storage.get(0).unwrap().value, 300);

    // The snapshot of tick 2 holds the value of tick 1, that of tick 3 the value of tick 2
    let head = storage.snapshot.as_ref().unwrap();
    assert_eq!(head.tick, Tick::new(3));
    let before = head.prev.as_ref().unwrap();
    assert_eq!(before.tick, Tick::new(2));
    let leaf = before.root.data[0].as_ref().unwrap().data[0].as_ref().unwrap();
    assert_eq!(leaf.updated_mask & 1, 1);
    assert_eq!(leaf.data[0].as_ref().unwrap().value, 100);
    assert!(verify_snapshot_invariants(&storage));

    clones.store(0, Ordering::Relaxed);
    storage.rollback(Tick::new(1)).unwrap();

    assert_eq!(storage.get(0).unwrap().value, 100);
    assert_eq!(clones.load(Ordering::Relaxed), 1);
    assert_eq!(storage.current_tick, Tick::new(1));
    verify_storage_invariants(&storage).unwrap();
}
