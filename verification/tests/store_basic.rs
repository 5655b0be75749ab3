use x_bow::containers::{XBowLeaf, XBowTracked_HashMap, XBowTracked_Vec};
use x_bow::mapper::{Mapper, MapperHashMap, MapperVec};
use x_bow::store::Store;
use x_bow::value::{ImitateOption, Value};

fn text(s: &str) -> Value {
    Value::Text(s.to_string())
}

#[test]
fn root_reads_the_initial_value() {
    let mut store = Store::create(Value::Num(5));
    let root = store.root();
    assert_eq!(store.borrow(&root).unwrap(), Some(&Value::Num(5)));
}

#[test]
fn leaf_set_and_read() {
    let mut store = Store::create(Value::Num(5));
    let root = store.root();
    let leaf = XBowLeaf::new(root);
    assert_eq!(leaf.set(&mut store, Value::Num(9)).unwrap(), Some(Value::Num(5)));
    assert_eq!(leaf.borrow(&store).unwrap(), Some(&Value::Num(9)));
}

#[test]
fn handles_are_identity_equal() {
    let mut store = Store::create(Value::Dict(vec![(1, text("a"))]));
    let root = store.root();
    let map = XBowTracked_HashMap::new(root);

    let h1 = map.handle_at(&mut store, 1);
    let h2 = map.handle_at(&mut store, 1);
    assert_eq!(h1.id, h2.id);

    // once every handle is given back the node is dead, and the next
    // request materializes a fresh one
    let old_id = h1.id;
    store.drop_handle(h1);
    store.drop_handle(h2);
    let h3 = map.handle_at(&mut store, 1);
    assert_ne!(h3.id, old_id);
}

#[test]
fn create_item_is_always_fresh() {
    let mut store = Store::create(Value::Dict(vec![(1, text("a"))]));
    let root = store.root();
    let map = XBowTracked_HashMap::new(root);

    let h1 = map.create_item(&mut store, 1);
    let h2 = map.create_item(&mut store, 1);
    assert_ne!(h1.id, h2.id);
    // both still resolve to the same entry
    assert_eq!(store.borrow(&h1).unwrap(), Some(&text("a")));
    assert_eq!(store.borrow(&h2).unwrap(), Some(&text("a")));
}

#[test]
fn remove_absent_key_changes_nothing() {
    let mut store = Store::create(Value::Dict(vec![(1, text("a"))]));
    let root = store.root();
    let v0 = store.version_of(&root);
    let map = XBowTracked_HashMap::new(root);

    assert_eq!(map.remove(&mut store, 99).unwrap(), None);
    assert_eq!(store.version_of(&map.incoming_edge), v0);
}

#[test]
fn deep_mutation_reaches_the_root_observer() {
    let mut store = Store::create(Value::Dict(vec![(
        1,
        Value::Dict(vec![(2, text("x"))]),
    )]));
    let root = store.root();
    let outer = XBowTracked_HashMap::new(root);
    let inner_handle = outer.handle_at(&mut store, 1);
    let inner = XBowTracked_HashMap::new(inner_handle);

    let v_root = store.version_of(&outer.incoming_edge);
    let v_inner = store.version_of(&inner.incoming_edge);

    assert_eq!(inner.insert(&mut store, 3, text("y")).unwrap(), None);

    // the change is visible at every level of the chain once the call returns
    assert_eq!(store.version_of(&outer.incoming_edge), v_root.wrapping_add(1));
    assert_eq!(store.version_of(&inner.incoming_edge), v_inner.wrapping_add(1));
}

#[test]
fn exclusive_acquisition_blocks_readers_and_writers() {
    let mut store = Store::create(Value::Dict(vec![(1, text("a"))]));
    let root = store.root();
    let map = XBowTracked_HashMap::new(root);
    let h1 = map.handle_at(&mut store, 1);

    store.acquire_exclusive(&h1).unwrap();
    assert!(store.borrow(&h1).is_err());
    assert!(map.insert(&mut store, 2, text("b")).is_err());
    assert!(map.remove(&mut store, 1).is_err());

    assert!(store.release_exclusive(&h1));
    assert_eq!(store.borrow(&h1).unwrap(), Some(&text("a")));
}

#[test]
fn shared_acquisition_blocks_writers_only() {
    let mut store = Store::create(Value::Dict(vec![(1, text("a"))]));
    let root = store.root();
    let map = XBowTracked_HashMap::new(root);
    let h1 = map.handle_at(&mut store, 1);

    store.acquire_shared(&h1).unwrap();
    assert_eq!(store.borrow(&h1).unwrap(), Some(&text("a")));
    assert!(map.insert(&mut store, 2, text("b")).is_err());
    assert!(store.acquire_exclusive(&h1).is_err());

    assert!(store.release_shared(&h1));
    assert_eq!(map.insert(&mut store, 2, text("b")).unwrap(), None);
}

#[test]
fn variant_mapper_follows_the_payload() {
    let mut store = Store::create(Value::Opt(ImitateOption::Present(Box::new(Value::Num(7)))));
    let root = store.root();
    let payload = store.child_at(&root, Mapper::Variant);
    assert_eq!(store.borrow(&payload).unwrap(), Some(&Value::Num(7)));

    let leaf = XBowLeaf::new(payload);
    assert_eq!(leaf.set(&mut store, Value::Num(9)).unwrap(), Some(Value::Num(7)));
    assert_eq!(
        store.borrow(&root).unwrap(),
        Some(&Value::Opt(ImitateOption::Present(Box::new(Value::Num(9)))))
    );
}

#[test]
fn variant_mapper_reports_absence() {
    let mut store = Store::create(Value::Opt(ImitateOption::Absent));
    let root = store.root();
    let payload = store.child_at(&root, Mapper::Variant);
    assert_eq!(store.borrow(&payload).unwrap(), None);

    // writing through an absent projection changes nothing, silently
    let v0 = store.version_of(&root);
    let leaf = XBowLeaf::new(payload);
    assert_eq!(leaf.set(&mut store, Value::Num(1)).unwrap(), None);
    assert_eq!(store.version_of(&root), v0);
}

#[test]
fn downward_invalidation_compacts_dead_entries() {
    let mut store = Store::create(Value::Dict(vec![(1, text("a")), (2, text("b"))]));
    let root = store.root();
    let map = XBowTracked_HashMap::new(root);

    let ha = map.handle_at(&mut store, 1);
    let hb = map.handle_at(&mut store, 2);
    let hb_id = hb.id;
    store.drop_handle(hb);

    map.invalidate_outside_down(&mut store);

    // the live entry survives with its identity; the dead one was compacted
    let ha2 = map.handle_at(&mut store, 1);
    assert_eq!(ha2.id, ha.id);
    let hb2 = map.handle_at(&mut store, 2);
    assert_ne!(hb2.id, hb_id);
}

#[test]
fn removal_invalidates_the_subtree_cache() {
    let mut store = Store::create(Value::Dict(vec![(
        1,
        Value::Dict(vec![(5, text("deep"))]),
    )]));
    let root = store.root();
    let outer = XBowTracked_HashMap::new(root);
    let inner_handle = outer.handle_at(&mut store, 1);
    let inner = XBowTracked_HashMap::new(inner_handle);
    let deep = inner.handle_at(&mut store, 5);
    assert_eq!(store.borrow(&deep).unwrap(), Some(&text("deep")));

    assert!(outer.remove(&mut store, 1).unwrap().is_some());

    // the stale handles stay safely inert and read absence
    assert_eq!(store.borrow(&deep).unwrap(), None);
    assert_eq!(store.borrow(&inner.incoming_edge).unwrap(), None);
}

#[test]
fn clone_handle_keeps_the_node_alive() {
    let mut store = Store::create(Value::Dict(vec![(1, text("a"))]));
    let root = store.root();
    let map = XBowTracked_HashMap::new(root);

    let h1 = map.handle_at(&mut store, 1);
    let h1_id = h1.id;
    let extra = store.clone_handle(&h1);
    store.drop_handle(h1);

    // the clone still holds the node live, so the cache returns it again
    let h2 = map.handle_at(&mut store, 1);
    assert_eq!(h2.id, h1_id);
    assert_eq!(store.strong_of(&extra), 2);
}

#[test]
fn mappers_project_and_report_absence() {
    let list = Value::List(vec![Value::Num(1), Value::Num(2)]);
    assert_eq!(MapperVec::new(1).map(&list), Some(&Value::Num(2)));
    assert_eq!(MapperVec::new(2).map(&list), None);

    let dict = Value::Dict(vec![(4, text("x"))]);
    assert_eq!(MapperHashMap::new(4).map(&dict), Some(&text("x")));
    assert_eq!(MapperHashMap::new(5).map(&dict), None);

    // a mapper on a value of the wrong shape reports absence, never a fault
    assert_eq!(MapperVec::new(0).map(&dict), None);
    assert_eq!(MapperHashMap::new(4).map(&list), None);
}

#[test]
fn shared_acquisition_nests() {
    let mut store = Store::create(Value::Num(1));
    let root = store.root();

    store.acquire_shared(&root).unwrap();
    store.acquire_shared(&root).unwrap();
    assert!(store.acquire_exclusive(&root).is_err());

    assert!(store.release_shared(&root));
    // one reader is still out, so exclusive access stays refused
    assert!(store.acquire_exclusive(&root).is_err());

    assert!(store.release_shared(&root));
    store.acquire_exclusive(&root).unwrap();
    assert!(store.release_exclusive(&root));
}

#[test]
fn sequence_remove_out_of_range_changes_nothing() {
    let mut store = Store::create(Value::List(vec![Value::Num(1)]));
    let root = store.root();
    let v0 = store.version_of(&root);
    let seq = XBowTracked_Vec::new(root);

    assert_eq!(seq.remove_at(&mut store, 4).unwrap(), None);
    assert_eq!(store.version_of(&seq.incoming_edge), v0);
    assert_eq!(
        store.borrow(&seq.incoming_edge).unwrap(),
        Some(&Value::List(vec![Value::Num(1)]))
    );
}
