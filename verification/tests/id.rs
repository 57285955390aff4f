use filterfs::id::IdManager;

#[test]
fn allocations() {
    let mut idman: IdManager<u64> = IdManager::new();

    let id = idman.get();

    assert_eq!(id, 0);
}

#[test]
fn releases() {
    let mut idman: IdManager<u64> = IdManager::new();

    assert_eq!(idman.released_count(), 0);

    let id = idman.get();
    idman.release(id);

    assert_eq!(idman.released_count(), 1);

    let id = idman.get();

    assert_eq!(id, 0);
    assert_eq!(idman.released_count(), 0);

    let id2 = idman.get();

    assert_eq!(id2, 1);
    assert_eq!(idman.released_count(), 0);

    idman.release(id);

    assert_eq!(idman.released_count(), 1);

    let id = idman.get();

    assert_eq!(id, 0);
}

#[test]
fn released_ids_come_back_last_first() {
    let mut idman: IdManager<u64> = IdManager::new();
    let a = idman.get();
    let b = idman.get();
    let c = idman.get();
    assert_eq!((a, b, c), (0, 1, 2));
    idman.release(a);
    idman.release(c);
    assert_eq!(idman.get(), c);
    assert_eq!(idman.get(), a);
    assert_eq!(idman.get(), 3);
    assert!(idman.can_allocate());
}

#[test]
fn counter_grows_only_when_every_id_is_in_use() {
    let mut idman: IdManager<u64> = IdManager::new();
    let a = idman.get();
    let b = idman.get();
    assert_eq!((a, b), (0, 1));
    idman.release(a);
    // a released id is taken before a fresh one
    assert_eq!(idman.get(), 0);
    assert_eq!(idman.released_count(), 0);
    // ids 0 and 1 are in use: only now does the counter move on
    assert_eq!(idman.get(), 2);
    idman.release(1);
    idman.release(2);
    assert_eq!(idman.get(), 2);
    assert_eq!(idman.get(), 1);
    assert_eq!(idman.get(), 3);
}
