use di::util::{Info, LimitedHeap};

#[test]
fn new_selector_is_empty() {
    let h = LimitedHeap::new(5);
    assert_eq!(h.len(), 0);
    assert!(h.peek().is_none());
    assert_eq!(h.limit, 5);
}

#[test]
fn push_below_capacity_inserts() {
    let mut h = LimitedHeap::new(3);
    h.push(Info(10, String::from("a")));
    h.push(Info(50, String::from("b")));
    h.push(Info(5, String::from("c")));
    assert_eq!(h.len(), 3);
    // the minimum sits at the front
    assert_eq!(h.peek().unwrap().0, 5);
}

#[test]
fn push_at_capacity_keeps_largest() {
    let mut h = LimitedHeap::new(2);
    h.push(Info(10, String::from("a")));
    h.push(Info(50, String::from("b")));
    h.push(Info(5, String::from("c")));
    assert_eq!(h.len(), 2);
    let out = h.drain_sorted();
    assert_eq!(out.len(), 2);
    assert_eq!(out[0].0, 50);
    assert_eq!(out[1].0, 10);
}

#[test]
fn push_evicts_minimum_when_strictly_heavier() {
    let mut h = LimitedHeap::new(1);
    h.push(Info(5, String::from("a")));
    h.push(Info(7, String::from("b")));
    assert_eq!(h.len(), 1);
    let kept = h.pop().unwrap();
    assert_eq!(kept.0, 7);
    assert_eq!(kept.1, "b");
}

#[test]
fn push_discards_on_weight_tie() {
    let mut h = LimitedHeap::new(1);
    h.push(Info(5, String::from("first")));
    h.push(Info(5, String::from("second")));
    assert_eq!(h.len(), 1);
    let kept = h.pop().unwrap();
    assert_eq!(kept.0, 5);
    assert_eq!(kept.1, "first");
}

#[test]
fn zero_capacity_retains_nothing() {
    let mut h = LimitedHeap::new(0);
    h.push(Info(10, String::from("a")));
    h.push(Info(0, String::from("b")));
    h.push(Info(u64::MAX, String::from("c")));
    assert_eq!(h.len(), 0);
    assert!(h.peek().is_none());
    assert!(h.pop().is_none());
    assert!(h.drain_sorted().is_empty());
}

#[test]
fn zero_weight_record_is_valid() {
    let mut h = LimitedHeap::new(2);
    h.push(Info(0, String::from("empty")));
    assert_eq!(h.len(), 1);
    assert_eq!(h.peek().unwrap().0, 0);
}

#[test]
fn pop_returns_records_smallest_first() {
    let mut h = LimitedHeap::new(4);
    h.push(Info(8, String::from("a")));
    h.push(Info(3, String::from("b")));
    h.push(Info(12, String::from("c")));
    assert_eq!(h.pop().unwrap().0, 3);
    assert_eq!(h.pop().unwrap().0, 8);
    assert_eq!(h.pop().unwrap().0, 12);
    assert!(h.pop().is_none());
}

#[test]
fn drain_sorted_is_non_increasing() {
    let mut h = LimitedHeap::new(6);
    for (w, l) in [(4u64, "a"), (9, "b"), (1, "c"), (9, "d"), (0, "e"), (7, "f")] {
        h.push(Info(w, String::from(l)));
    }
    let out = h.drain_sorted();
    assert_eq!(out.len(), 6);
    for pair in out.windows(2) {
        assert!(pair[0].0 >= pair[1].0);
    }
    let weights: Vec<u64> = out.iter().map(|i| i.0).collect();
    assert_eq!(weights, vec![9, 9, 7, 4, 1, 0]);
}

#[test]
fn selector_holds_min_of_capacity_and_pushes() {
    let mut h = LimitedHeap::new(10);
    for w in 0..4u64 {
        h.push(Info(w, String::from("x")));
    }
    assert_eq!(h.len(), 4);
    let mut h2 = LimitedHeap::new(3);
    for w in 0..20u64 {
        h2.push(Info(w, String::from("y")));
    }
    assert_eq!(h2.len(), 3);
    let out = h2.drain_sorted();
    let weights: Vec<u64> = out.iter().map(|i| i.0).collect();
    assert_eq!(weights, vec![19, 18, 17]);
}
