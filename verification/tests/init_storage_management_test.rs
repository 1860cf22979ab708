use std::cell::Cell;
use std::rc::Rc;

use init_system::data::InitId;
use init_system::lifecycle::{InitContext, InitStorage};

/// A registered init: its id, an optional shared counter of free callbacks,
/// and, optionally, the id of a sibling it frees from its free callback.
struct TestInit {
    init_id: InitId,
    free_count: Option<Rc<Cell<u32>>>,
    frees_on_free: Option<Rc<Cell<u64>>>,
}

fn plain(init_id: InitId) -> TestInit {
    TestInit { init_id, free_count: None, frees_on_free: None }
}

/// Registers a fresh init under `parent`, as a factory does: a random id,
/// then the queued addition.
fn register(storage: &mut InitStorage<TestInit>, parent: InitId) -> InitId {
    let id = InitId::random();
    storage.add_init(parent, id, plain(id));
    id
}

/// Runs the queued work and the free callbacks of what it removed.
fn process_pending(storage: &mut InitStorage<TestInit>) {
    let removal = storage.process_pending();
    for (_, init) in removal.freed.iter() {
        if let Some(count) = &init.free_count {
            count.set(count.get() + 1);
        }
        if let Some(sibling) = &init.frees_on_free {
            storage.free(InitId::new(sibling.get()));
        }
    }
    storage.finish_pending(&removal.ids);
}

fn count_inits(storage: &InitStorage<TestInit>) -> usize {
    let mut count = 0;
    for id in storage.ids() {
        if storage.get_init(id).is_some() {
            count += 1;
        }
    }
    count
}

#[test]
fn free_removes_init_from_storage() {
    let mut storage = InitStorage::new();
    let parent_id = InitId::new(0);

    let init = register(&mut storage, parent_id);
    process_pending(&mut storage);
    assert_eq!(count_inits(&storage), 1);

    storage.free(init);
    process_pending(&mut storage);
    assert_eq!(count_inits(&storage), 0);
}

#[test]
fn freeing_parent_cascades_to_children() {
    let mut storage = InitStorage::new();
    let root_id = InitId::new(0);

    let parent = register(&mut storage, root_id);
    process_pending(&mut storage);

    register(&mut storage, parent);
    register(&mut storage, parent);
    process_pending(&mut storage);
    assert_eq!(count_inits(&storage), 3);

    storage.free(parent);
    process_pending(&mut storage);
    assert_eq!(count_inits(&storage), 0);
}

#[test]
fn multiple_inits_coexist_with_unique_ids() {
    let mut storage = InitStorage::new();
    let parent_id = InitId::new(0);

    let a = register(&mut storage, parent_id);
    let b = register(&mut storage, parent_id);
    let c = register(&mut storage, parent_id);
    process_pending(&mut storage);

    assert_eq!(count_inits(&storage), 3);
    assert_ne!(a, b);
    assert_ne!(b, c);
    assert_ne!(a, c);
}

#[test]
fn double_free_does_not_panic() {
    let mut storage = InitStorage::new();
    let parent_id = InitId::new(0);

    let init = register(&mut storage, parent_id);
    process_pending(&mut storage);

    storage.free(init);
    storage.free(init);
    process_pending(&mut storage);

    assert_eq!(count_inits(&storage), 0);
}

/// on_free() should be called exactly once when an init is removed.
#[test]
fn on_free_called_on_removal() {
    let free_count = Rc::new(Cell::new(0u32));
    let mut storage = InitStorage::new();
    let parent_id = InitId::new(0);

    let id = InitId::random();
    storage.add_init(
        parent_id,
        id,
        TestInit { init_id: id, free_count: Some(free_count.clone()), frees_on_free: None },
    );
    process_pending(&mut storage);

    storage.free(id);
    process_pending(&mut storage);

    assert_eq!(free_count.get(), 1);
}

/// on_free() should be called for every init in a cascade (parent + all children).
#[test]
fn on_free_called_for_all_cascaded_inits() {
    let free_count = Rc::new(Cell::new(0u32));
    let mut storage = InitStorage::new();
    let root_id = InitId::new(0);

    let counted = |id: InitId| TestInit {
        init_id: id,
        free_count: Some(free_count.clone()),
        frees_on_free: None,
    };
    let parent = InitId::random();
    storage.add_init(root_id, parent, counted(parent));
    process_pending(&mut storage);

    let a = InitId::random();
    storage.add_init(parent, a, counted(a));
    let b = InitId::random();
    storage.add_init(parent, b, counted(b));
    process_pending(&mut storage);

    storage.free(parent);
    process_pending(&mut storage);

    assert_eq!(free_count.get(), 3);
}

/// An init added and freed before process_pending() should never appear in storage.
#[test]
fn add_then_free_before_process_pending_never_enters_storage() {
    let mut storage = InitStorage::new();
    let parent_id = InitId::new(0);

    let init = register(&mut storage, parent_id);
    storage.free(init);
    process_pending(&mut storage);

    assert_eq!(count_inits(&storage), 0);
}

/// A deep chain (grandparent → parent → child → grandchild) should fully cascade on root free.
#[test]
fn deep_cascade_removes_entire_chain() {
    let mut storage = InitStorage::new();
    let root_id = InitId::new(0);

    let grandparent = register(&mut storage, root_id);
    process_pending(&mut storage);
    let parent = register(&mut storage, grandparent);
    process_pending(&mut storage);
    let child = register(&mut storage, parent);
    process_pending(&mut storage);
    register(&mut storage, child);
    process_pending(&mut storage);

    assert_eq!(count_inits(&storage), 4);

    storage.free(grandparent);
    process_pending(&mut storage);

    assert_eq!(count_inits(&storage), 0);
}

/// for_each on an empty storage should not panic and should not invoke the callback.
#[test]
fn for_each_on_empty_storage_does_not_panic() {
    let storage: InitStorage<TestInit> = InitStorage::new();
    let mut called = false;
    for id in storage.ids() {
        if storage.get_init(id).is_some() {
            called = true;
        }
    }
    assert!(!called);
}

/// Freeing an ID that was never added should not panic and storage should remain empty.
#[test]
fn freeing_unknown_id_does_not_panic() {
    let mut storage: InitStorage<TestInit> = InitStorage::new();
    storage.free(InitId::new(9999));
    process_pending(&mut storage);
    assert_eq!(count_inits(&storage), 0);
}

/// process_pending() called repeatedly with no pending work should be a no-op and not panic.
#[test]
fn repeated_process_pending_on_stable_storage_does_not_panic() {
    let mut storage = InitStorage::new();
    let parent_id = InitId::new(0);

    register(&mut storage, parent_id);
    process_pending(&mut storage);
    process_pending(&mut storage);
    process_pending(&mut storage);

    assert_eq!(count_inits(&storage), 1);
}

/// Child freed one frame, parent freed next frame — storage must end fully clean.
#[test]
fn child_freed_before_parent_leaves_storage_clean() {
    let mut storage = InitStorage::new();
    let root_id = InitId::new(0);

    let parent = register(&mut storage, root_id);
    process_pending(&mut storage);
    let child = register(&mut storage, parent);
    process_pending(&mut storage);

    storage.free(child);
    process_pending(&mut storage);
    assert_eq!(count_inits(&storage), 1);

    storage.free(parent);
    process_pending(&mut storage);
    assert_eq!(count_inits(&storage), 0);
}

/// free() called from inside on_free() is deferred — the re-entrant free survives
/// process_pending() and is flushed on the next call. Two process_pending() calls needed.
#[test]
fn free_called_from_on_free_is_deferred_to_next_process_pending() {
    let mut storage = InitStorage::new();
    let root_id = InitId::new(0);
    let sibling_id = Rc::new(Cell::new(0u64));

    let trigger = InitId::random();
    storage.add_init(
        root_id,
        trigger,
        TestInit { init_id: trigger, free_count: None, frees_on_free: Some(sibling_id.clone()) },
    );
    process_pending(&mut storage);

    let sibling = register(&mut storage, root_id);
    process_pending(&mut storage);

    sibling_id.set(sibling.get_id());

    storage.free(trigger);
    process_pending(&mut storage);
    // Re-entrant free survived — sibling queued but not yet removed.
    assert_eq!(count_inits(&storage), 1);

    process_pending(&mut storage);
    // Second call flushes the deferred free.
    assert_eq!(count_inits(&storage), 0);
}

/// Using InitId::new(0) — the sentinel root — as a real init ID should not corrupt the graph.
#[test]
fn sentinel_id_used_as_real_init_id_does_not_corrupt_storage() {
    let mut storage = InitStorage::new();
    let sentinel = InitId::new(0);

    let child = register(&mut storage, sentinel);
    process_pending(&mut storage);
    assert_eq!(count_inits(&storage), 1);

    // The sentinel parent (0) is not a real init, so its cascade lookup finds
    // no children.
    storage.free(child);
    process_pending(&mut storage);
    assert_eq!(count_inits(&storage), 0);
}

/// Grandchild added same frame as grandparent is freed should be caught by cascade.
#[test]
fn grandchild_added_same_frame_as_grandparent_freed_is_removed_by_cascade() {
    let mut storage = InitStorage::new();
    let root_id = InitId::new(0);

    let parent = register(&mut storage, root_id);
    process_pending(&mut storage);

    let child = register(&mut storage, parent);
    process_pending(&mut storage);

    // Same frame: free the parent AND add a grandchild under the child.
    storage.free(parent);
    register(&mut storage, child);

    process_pending(&mut storage);

    assert_eq!(count_inits(&storage), 0);
}

/// get_init returns the init by ID after process_pending, and None after it is freed.
#[test]
fn get_init_returns_init_by_id_and_none_after_free() {
    let mut ctx: InitContext<TestInit> = InitContext::new();
    let parent_id = InitId::new(0);

    let id = InitId::random();
    ctx.add_init(parent_id, id, plain(id));

    // Not yet committed — should not be findable.
    assert!(ctx.get_init(id).is_none());

    let removal = ctx.process_pending();
    ctx.finish_pending(&removal.ids);

    // Now committed — should be the same init (verified by matching init_id).
    let found = ctx.get_init(id).expect("init should be present after process_pending");
    assert_eq!(found.init_id, id);

    ctx.free(id);
    let removal = ctx.process_pending();
    ctx.finish_pending(&removal.ids);

    // Freed — should be gone.
    assert!(ctx.get_init(id).is_none());
}
