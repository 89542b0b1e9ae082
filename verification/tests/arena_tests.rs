use lists::arena::Arena;

#[test]
fn arena_hands_out_distinct_slots() {
    let mut arena = Arena::new();
    let a = arena.insert('a');
    let b = arena.insert('b');
    let c = arena.insert('c');
    assert_ne!(a, b);
    assert_ne!(a, c);
    assert_ne!(b, c);
    assert_eq!(&'a', arena.get(a));
    assert_eq!(&'b', arena.get(b));
    assert_eq!(&'c', arena.get(c));
}

#[test]
fn arena_remove_returns_the_stored_value_and_keeps_the_others() {
    let mut arena = Arena::new();
    let a = arena.insert(String::from("a"));
    let b = arena.insert(String::from("b"));
    let c = arena.insert(String::from("c"));
    assert_eq!("b", arena.remove(b));
    assert_eq!("a", arena.get(a));
    assert_eq!("c", arena.get(c));
    assert_eq!("a", arena.remove(a));
    assert_eq!("c", arena.get(c));
}

#[test]
fn arena_reuses_a_vacated_slot_before_growing() {
    let mut arena = Arena::new();
    let a = arena.insert(1);
    let b = arena.insert(2);
    assert_eq!(1, arena.remove(a));
    let c = arena.insert(3);
    assert_eq!(a, c);
    assert_eq!(&3, arena.get(c));
    assert_eq!(&2, arena.get(b));
    let d = arena.insert(4);
    assert_ne!(d, b);
    assert_ne!(d, c);
}

#[test]
fn arena_get_mut_changes_one_slot_only() {
    let mut arena = Arena::new();
    let a = arena.insert(10);
    let b = arena.insert(20);
    *arena.get_mut(a) += 1;
    assert_eq!(&11, arena.get(a));
    assert_eq!(&20, arena.get(b));
    *arena.get_mut(b) = 0;
    assert_eq!(&11, arena.get(a));
    assert_eq!(&0, arena.get(b));
}
