use lists::dll::DlList;

#[test]
fn length_counts_values_enqueued_minus_values_removed() {
    let mut l = DlList::new();
    let mut enqueued = 0;
    let mut removed = 0;
    for i in 0..10 {
        enqueued += 1;
        assert_eq!(enqueued - removed, l.enqueue(i));
        assert_eq!(enqueued - removed, l.get_length());
    }
    for round in 0..4 {
        if l.get_head().is_some() {
            removed += 1;
        }
        assert_eq!(enqueued - removed, l.get_length());
        if l.get_tail().is_some() {
            removed += 1;
        }
        assert_eq!(enqueued - removed, l.get_length());
        if l.get_current_position().is_some() {
            removed += 1;
        }
        assert_eq!(enqueued - removed, l.get_length());
        enqueued += 1;
        assert_eq!(enqueued - removed, l.enqueue(100 + round));
        l.move_forward();
        l.move_backward();
        assert_eq!(enqueued - removed, l.get_length());
    }
    assert_eq!(14, enqueued);
    assert_eq!(12, removed);
    assert_eq!(2, l.get_length());
    assert!(l.get_head().is_some());
    assert!(l.get_head().is_some());
    assert!(l.get_head().is_none());
    assert!(l.get_tail().is_none());
    assert!(l.get_current_position().is_none());
    assert_eq!(0, l.get_length());
}

#[test]
fn values_come_back_from_the_head_in_order() {
    let values = [3, 1, 4, 1, 5, 9, 2, 6];
    let mut l = DlList::new();
    for v in values {
        l.enqueue(v);
    }
    for v in values {
        assert_eq!(Some(v), l.get_head());
    }
    assert_eq!(None, l.get_head());
}

#[test]
fn values_come_back_from_the_tail_in_reverse_order() {
    let values = [3, 1, 4, 1, 5, 9, 2, 6];
    let mut l = DlList::new();
    for v in values {
        l.enqueue(v);
    }
    for v in values.iter().rev() {
        assert_eq!(Some(*v), l.get_tail());
    }
    assert_eq!(None, l.get_tail());
}

#[test]
fn emptied_by_get_head_nothing_is_left() {
    let mut l = DlList::new();
    l.enqueue(1);
    l.enqueue(2);
    assert_eq!(Some(1), l.get_head());
    assert_eq!(Some(2), l.get_head());
    assert_eq!(None, l.get_head());
    assert_eq!(None, l.get_tail());
    assert!(l.peek_current_position().is_none());
    assert_eq!(0, l.get_length());
}

#[test]
fn emptied_by_get_tail_nothing_is_left() {
    let mut l = DlList::new();
    l.enqueue(1);
    l.enqueue(2);
    assert_eq!(Some(2), l.get_tail());
    assert_eq!(Some(1), l.get_tail());
    assert_eq!(None, l.get_head());
    assert_eq!(None, l.get_tail());
    assert!(l.peek_current_position().is_none());
    assert_eq!(0, l.get_length());
}

#[test]
fn emptied_by_removal_at_the_cursor_nothing_is_left() {
    let mut l = DlList::new();
    l.enqueue(1);
    l.enqueue(2);
    assert_eq!(Some(1), l.get_current_position());
    assert_eq!(Some(2), l.get_current_position());
    assert_eq!(None, l.get_head());
    assert_eq!(None, l.get_tail());
    assert!(l.peek_current_position().is_none());
    assert_eq!(0, l.get_length());
}

#[test]
fn cursor_starts_at_head_and_walks_to_the_last_value() {
    let mut l = DlList::new();
    l.enqueue(7);
    assert_eq!(Some(&7), l.peek_current_position());
    l.enqueue(8);
    l.enqueue(9);
    assert_eq!(Some(&7), l.peek_current_position());
    let mut steps = 0;
    while l.move_forward() {
        steps += 1;
    }
    assert_eq!(2, steps);
    assert_eq!(Some(9), l.get_current_position());
}

#[test]
fn removals_from_both_ends_around_an_enqueue() {
    let mut l = DlList::new();
    for i in 1..6 {
        assert_eq!(i, l.enqueue(i));
    }
    assert_eq!(Some(5), l.get_tail());
    assert_eq!(Some(1), l.get_head());
    assert_eq!(4, l.enqueue(6));
    assert_eq!(Some(2), l.get_head());
    assert_eq!(Some(6), l.get_tail());
    assert_eq!(Some(4), l.get_tail());
    assert_eq!(Some(3), l.get_head());
    assert_eq!(0, l.get_length());
    assert_eq!(None, l.get_head());
    assert_eq!(None, l.get_tail());
}

#[test]
fn walks_in_both_directions_are_as_long_as_the_list() {
    let mut l = DlList::new();
    for i in 0..9 {
        l.enqueue(i);
    }
    l.move_forward();
    l.move_forward();
    l.move_forward();
    assert_eq!(Some(3), l.get_current_position());
    assert_eq!(Some(0), l.get_head());
    assert_eq!(Some(8), l.get_tail());
    l.enqueue(10);
    // the list now holds 1 2 4 5 6 7 10
    let expected = [1, 2, 4, 5, 6, 7, 10];
    assert_eq!(expected.len() as i32, l.get_length());
    while l.move_backward() {}
    assert_eq!(l.peek_head(), l.peek_current_position());
    let mut seen = vec![*l.peek_current_position().unwrap()];
    while l.move_forward() {
        seen.push(*l.peek_current_position().unwrap());
    }
    assert_eq!(expected.to_vec(), seen);
    assert_eq!(l.peek_tail(), l.peek_current_position());
    let mut seen_backward = vec![*l.peek_current_position().unwrap()];
    while l.move_backward() {
        seen_backward.push(*l.peek_current_position().unwrap());
    }
    seen_backward.reverse();
    assert_eq!(expected.to_vec(), seen_backward);
    assert_eq!(l.peek_head(), l.peek_current_position());
}

#[test]
fn interleaved_calls_match_a_plain_sequence_with_a_cursor() {
    let mut l = DlList::new();
    let mut items: Vec<u32> = Vec::new();
    let mut cursor: Option<usize> = None;
    let mut seed: u32 = 2463534242;
    for step in 0..5000u32 {
        seed ^= seed << 13;
        seed ^= seed >> 17;
        seed ^= seed << 5;
        match seed % 8 {
            0 | 1 | 2 => {
                if items.is_empty() {
                    cursor = Some(0);
                }
                items.push(step);
                assert_eq!(items.len() as i32, l.enqueue(step));
            }
            3 => {
                let expected = if items.is_empty() {
                    None
                } else {
                    let c = cursor.unwrap();
                    cursor = if c > 0 {
                        Some(c - 1)
                    } else if items.len() > 1 {
                        Some(0)
                    } else {
                        None
                    };
                    Some(items.remove(0))
                };
                assert_eq!(expected, l.get_head());
            }
            4 => {
                let expected = if items.is_empty() {
                    None
                } else {
                    let c = cursor.unwrap();
                    let last = items.len() - 1;
                    cursor = if c < last {
                        Some(c)
                    } else if last > 0 {
                        Some(last - 1)
                    } else {
                        None
                    };
                    items.pop()
                };
                assert_eq!(expected, l.get_tail());
            }
            5 => {
                let expected = match cursor {
                    None => None,
                    Some(c) => {
                        cursor = if c + 1 < items.len() {
                            Some(c)
                        } else if c > 0 {
                            Some(c - 1)
                        } else {
                            None
                        };
                        Some(items.remove(c))
                    }
                };
                assert_eq!(expected, l.get_current_position());
            }
            6 => {
                let expected = match cursor {
                    Some(c) if c + 1 < items.len() => {
                        cursor = Some(c + 1);
                        true
                    }
                    _ => false,
                };
                assert_eq!(expected, l.move_forward());
            }
            _ => {
                let expected = match cursor {
                    Some(c) if c > 0 => {
                        cursor = Some(c - 1);
                        true
                    }
                    _ => false,
                };
                assert_eq!(expected, l.move_backward());
            }
        }
        assert_eq!(items.len() as i32, l.get_length());
        assert_eq!(items.first(), l.peek_head());
        assert_eq!(items.last(), l.peek_tail());
        assert_eq!(cursor.map(|c| &items[c]), l.peek_current_position());
    }
}
