use x_bow::containers::{XBowTracked_HashMap, XBowTracked_Vec};
use x_bow::store::Store;
use x_bow::value::Value;

fn text(s: &str) -> Value {
    Value::Text(s.to_string())
}

#[test]
fn mapping_remove_and_reinsert() {
    let mut store = Store::create(Value::Dict(vec![(1, text("a")), (2, text("b"))]));
    let root = store.root();
    let map = XBowTracked_HashMap::new(root);

    let h1 = map.handle_at(&mut store, 1);
    let h2 = map.handle_at(&mut store, 2);
    assert_eq!(store.borrow(&h1).unwrap(), Some(&text("a")));

    assert_eq!(map.remove(&mut store, 1).unwrap(), Some(text("a")));
    assert_eq!(store.borrow(&h1).unwrap(), None);

    // exactly the handle for the removed key went stale: the other key's
    // handle stays a distinct live node and reads what it read before
    assert_ne!(h2.id, h1.id);
    assert_eq!(store.borrow(&h2).unwrap(), Some(&text("b")));
    let h2_again = map.handle_at(&mut store, 2);
    assert_eq!(h2_again.id, h2.id);

    let h1b = map.handle_at(&mut store, 1);
    assert_eq!(store.borrow(&h1b).unwrap(), None);

    assert_eq!(map.insert(&mut store, 1, text("c")).unwrap(), None);
    let h1c = map.handle_at(&mut store, 1);
    assert_eq!(store.borrow(&h1c).unwrap(), Some(&text("c")));
}

#[test]
fn sequence_removal_is_not_rekeyed() {
    let mut store = Store::create(Value::List(vec![
        Value::Num(10),
        Value::Num(20),
        Value::Num(30),
    ]));
    let root = store.root();
    let seq = XBowTracked_Vec::new(root);

    let h = seq.handle_at(&mut store, 1);
    assert_eq!(store.borrow(&h).unwrap(), Some(&Value::Num(20)));

    assert_eq!(seq.remove_at(&mut store, 0).unwrap(), Some(Value::Num(10)));

    // the handle keeps its positional mapper: slot one now holds 30
    assert_eq!(store.borrow(&h).unwrap(), Some(&Value::Num(30)));
    assert_eq!(
        store.borrow(&seq.incoming_edge).unwrap(),
        Some(&Value::List(vec![Value::Num(20), Value::Num(30)]))
    );
}

#[test]
fn sequence_bounds() {
    let mut store = Store::create(Value::List(vec![Value::Num(10), Value::Num(20)]));
    let root = store.root();
    let seq = XBowTracked_Vec::new(root);

    let inside = seq.handle_at(&mut store, 1);
    assert_eq!(store.borrow(&inside).unwrap(), Some(&Value::Num(20)));

    let outside = seq.handle_at(&mut store, 5);
    assert_eq!(store.borrow(&outside).unwrap(), None);
}

#[test]
fn sequence_splice() {
    let mut store = Store::create(Value::List(vec![Value::Num(1), Value::Num(3)]));
    let root = store.root();
    let seq = XBowTracked_Vec::new(root);

    assert!(seq.insert_at(&mut store, 1, Value::Num(2)).unwrap());
    assert_eq!(
        store.borrow(&seq.incoming_edge).unwrap(),
        Some(&Value::List(vec![Value::Num(1), Value::Num(2), Value::Num(3)]))
    );

    // a splice past the end changes nothing
    assert!(!seq.insert_at(&mut store, 9, Value::Num(4)).unwrap());
    assert_eq!(
        store.borrow(&seq.incoming_edge).unwrap(),
        Some(&Value::List(vec![Value::Num(1), Value::Num(2), Value::Num(3)]))
    );
}

#[test]
fn insert_then_handle_reads_it() {
    let mut store = Store::create(Value::Dict(vec![]));
    let root = store.root();
    let map = XBowTracked_HashMap::new(root);

    assert_eq!(map.insert(&mut store, 7, text("seven")).unwrap(), None);
    let h = map.handle_at(&mut store, 7);
    assert_eq!(store.borrow(&h).unwrap(), Some(&text("seven")));

    // overwriting yields the previous value
    assert_eq!(
        map.insert(&mut store, 7, text("again")).unwrap(),
        Some(text("seven"))
    );
    assert_eq!(store.borrow(&h).unwrap(), Some(&text("again")));
}
