use init_system::data::InitId;
use init_system::lifecycle::{InitContext, InitStorage};

fn sorted_ids(v: &[InitId]) -> Vec<u64> {
    let mut out: Vec<u64> = v.iter().map(|i| i.get_id()).collect();
    out.sort();
    out
}

#[test]
fn second_addition_with_same_key_is_ignored() {
    let mut storage: InitStorage<&str> = InitStorage::new();
    assert!(storage.add_init(InitId::new(0), InitId::new(1), "first"));
    assert!(!storage.add_init(InitId::new(0), InitId::new(1), "second"));
    let removal = storage.process_pending();
    assert!(removal.ids.is_empty());
    assert_eq!(storage.get_init(InitId::new(1)), Some(&"first"));
}

#[test]
fn committed_id_keeps_its_first_init() {
    let mut storage: InitStorage<&str> = InitStorage::new();
    storage.add_init(InitId::new(0), InitId::new(1), "first");
    storage.process_pending();
    // Another parent, same id: queued, but the committed init stays.
    assert!(storage.add_init(InitId::new(5), InitId::new(1), "second"));
    storage.process_pending();
    assert_eq!(storage.get_init(InitId::new(1)), Some(&"first"));
    assert_eq!(storage.len(), 1);
}

#[test]
fn free_reports_whether_it_was_already_queued() {
    let mut storage: InitStorage<u8> = InitStorage::new();
    assert!(storage.free(InitId::new(3)));
    assert!(!storage.free(InitId::new(3)));
}

#[test]
fn free_is_deferred_until_process_pending() {
    let mut storage: InitStorage<u8> = InitStorage::new();
    storage.add_init(InitId::new(0), InitId::new(1), 10);
    storage.process_pending();
    storage.free(InitId::new(1));
    assert_eq!(storage.get_init(InitId::new(1)), Some(&10));
    storage.process_pending();
    assert_eq!(storage.get_init(InitId::new(1)), None);
}

#[test]
fn removal_lists_every_removed_id_and_the_committed_inits() {
    let mut storage: InitStorage<u8> = InitStorage::new();
    storage.add_init(InitId::new(0), InitId::new(1), 10);
    storage.add_init(InitId::new(1), InitId::new(2), 20);
    storage.add_init(InitId::new(2), InitId::new(3), 30);
    storage.add_init(InitId::new(0), InitId::new(4), 40);
    storage.process_pending();

    storage.free(InitId::new(1));
    storage.free(InitId::new(99));
    let removal = storage.process_pending();
    assert_eq!(sorted_ids(&removal.ids), vec![1, 2, 3, 99]);
    let mut freed: Vec<(u64, u8)> = removal.freed.iter().map(|(i, v)| (i.get_id(), *v)).collect();
    freed.sort();
    assert_eq!(freed, vec![(1, 10), (2, 20), (3, 30)]);
    assert_eq!(sorted_ids(&storage.ids()), vec![4]);
}

#[test]
fn free_during_callbacks_of_removed_id_is_dropped() {
    let mut storage: InitStorage<u8> = InitStorage::new();
    storage.add_init(InitId::new(0), InitId::new(1), 10);
    storage.add_init(InitId::new(0), InitId::new(2), 20);
    storage.process_pending();

    storage.free(InitId::new(1));
    let removal = storage.process_pending();
    // A callback frees the id just removed and an id still present.
    storage.free(InitId::new(1));
    storage.free(InitId::new(2));
    storage.finish_pending(&removal.ids);

    // Re-adding id 1 is not cancelled by the dropped removal.
    storage.add_init(InitId::new(0), InitId::new(1), 11);
    let removal = storage.process_pending();
    assert_eq!(sorted_ids(&removal.ids), vec![2]);
    assert_eq!(storage.get_init(InitId::new(1)), Some(&11));
    assert_eq!(storage.get_init(InitId::new(2)), None);
}

#[test]
fn addition_under_a_freed_parent_is_removed_in_the_same_step() {
    let mut ctx: InitContext<u8> = InitContext::default();
    ctx.add_init(InitId::new(0), InitId::new(1), 1);
    ctx.free(InitId::new(0));
    let removal = ctx.process_pending();
    assert_eq!(sorted_ids(&removal.ids), vec![0, 1]);
    assert_eq!(ctx.len(), 0);
}

#[test]
fn process_pending_twice_changes_nothing_more() {
    let mut storage: InitStorage<u8> = InitStorage::default();
    storage.add_init(InitId::new(0), InitId::new(1), 1);
    storage.add_init(InitId::new(1), InitId::new(2), 2);
    storage.process_pending();
    let before = sorted_ids(&storage.ids());
    let removal = storage.process_pending();
    assert!(removal.ids.is_empty());
    assert!(removal.freed.is_empty());
    assert_eq!(sorted_ids(&storage.ids()), before);
}

#[test]
fn freed_child_leaves_its_parent_and_siblings() {
    let mut storage: InitStorage<u8> = InitStorage::new();
    for (parent, id) in [(0u64, 1u64), (1, 2), (1, 3), (3, 4)] {
        storage.add_init(InitId::new(parent), InitId::new(id), id as u8);
    }
    storage.process_pending();
    storage.free(InitId::new(3));
    storage.process_pending();
    assert_eq!(sorted_ids(&storage.ids()), vec![1, 2]);
    // The pruned relation no longer cascades into the removed ids.
    storage.free(InitId::new(1));
    let removal = storage.process_pending();
    assert_eq!(sorted_ids(&removal.ids), vec![1, 2]);
    assert_eq!(storage.len(), 0);
}

#[test]
fn additions_of_a_committed_id_are_reported() {
    let mut storage: InitStorage<&str> = InitStorage::new();
    storage.add_init(InitId::new(0), InitId::new(1), "first");
    let removal = storage.process_pending();
    assert!(removal.already_present.is_empty());
    storage.add_init(InitId::new(7), InitId::new(1), "again");
    storage.add_init(InitId::new(0), InitId::new(2), "other");
    let removal = storage.process_pending();
    assert_eq!(sorted_ids(&removal.already_present), vec![1]);
    assert_eq!(storage.get_init(InitId::new(1)), Some(&"first"));
    assert_eq!(storage.get_init(InitId::new(2)), Some(&"other"));
}

#[test]
fn readded_id_survives_its_former_parent() {
    let mut storage: InitStorage<&str> = InitStorage::new();
    storage.add_init(InitId::new(0), InitId::new(1), "parent");
    storage.add_init(InitId::new(1), InitId::new(2), "child");
    storage.add_init(InitId::new(0), InitId::new(3), "other parent");
    storage.process_pending();

    storage.free(InitId::new(2));
    storage.process_pending();
    storage.add_init(InitId::new(3), InitId::new(2), "child again");
    storage.process_pending();

    storage.free(InitId::new(1));
    let removal = storage.process_pending();
    assert_eq!(sorted_ids(&removal.ids), vec![1]);
    assert_eq!(storage.get_init(InitId::new(2)), Some(&"child again"));
}

#[test]
fn readded_id_below_the_former_parent_is_removed_again() {
    let mut storage: InitStorage<&str> = InitStorage::new();
    storage.add_init(InitId::new(0), InitId::new(1), "parent");
    storage.add_init(InitId::new(1), InitId::new(2), "child");
    storage.add_init(InitId::new(1), InitId::new(3), "sibling");
    storage.process_pending();

    storage.free(InitId::new(2));
    storage.process_pending();
    // Registered again under a sibling, which lies below the former parent.
    storage.add_init(InitId::new(3), InitId::new(2), "child again");
    storage.process_pending();

    storage.free(InitId::new(1));
    let removal = storage.process_pending();
    assert_eq!(sorted_ids(&removal.ids), vec![1, 2, 3]);
    assert_eq!(storage.len(), 0);
}

#[test]
fn work_queued_during_callbacks_is_all_that_stays_queued() {
    let mut storage: InitStorage<u8> = InitStorage::new();
    storage.add_init(InitId::new(0), InitId::new(1), 1);
    storage.add_init(InitId::new(0), InitId::new(2), 2);
    storage.process_pending();

    storage.free(InitId::new(1));
    let removal = storage.process_pending();
    // Callbacks: free a removed id, free a live one twice, queue two additions.
    storage.free(InitId::new(1));
    storage.free(InitId::new(2));
    storage.free(InitId::new(2));
    storage.add_init(InitId::new(0), InitId::new(5), 5);
    storage.add_init(InitId::new(0), InitId::new(5), 6);
    storage.finish_pending(&removal.ids);

    let removal = storage.process_pending();
    assert_eq!(sorted_ids(&removal.ids), vec![2]);
    assert_eq!(storage.get_init(InitId::new(5)), Some(&5));
    assert_eq!(sorted_ids(&storage.ids()), vec![5]);
}

#[test]
fn addition_is_committed_under_its_parent_beside_other_removals() {
    let mut storage: InitStorage<&str> = InitStorage::new();
    storage.add_init(InitId::new(0), InitId::new(1), "parent");
    storage.add_init(InitId::new(0), InitId::new(2), "doomed");
    storage.process_pending();

    // Same step: another init is freed while a new child is queued.
    storage.free(InitId::new(2));
    storage.add_init(InitId::new(1), InitId::new(3), "child");
    assert_eq!(storage.get_init(InitId::new(3)), None);
    let removal = storage.process_pending();
    assert_eq!(sorted_ids(&removal.ids), vec![2]);
    assert_eq!(storage.get_init(InitId::new(3)), Some(&"child"));

    // It was registered under its parent: freeing the parent reaches it.
    storage.free(InitId::new(1));
    let removal = storage.process_pending();
    assert_eq!(sorted_ids(&removal.ids), vec![1, 3]);
}
