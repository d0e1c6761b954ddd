use rust_dust::deque::Deque;

#[test]
fn box_test() {
    let mut deque: Deque<i32> = Deque::new();
    deque.push(1);
    assert_eq!(deque.size, 1);
}

#[test]
fn rc_test() {
    let mut deque: Deque<i32> = Deque::new();
    deque.push(1);
    assert_eq!(deque.pop(), Some(1));
}

#[test]
fn test_front() {
    let mut deque: Deque<i32> = Deque::new();
    assert_eq!(deque.size, 0);
    assert_eq!(deque.pop(), None);
    assert_eq!(deque.size, 0);

    for i in 0..10 {
        deque.push(i);
        assert_eq!(deque.size, (i + 1) as usize);
    }
    for i in (0..10).rev() {
        assert_eq!(deque.pop().unwrap(), i);
        assert_eq!(deque.size, i as usize);
    }
    assert_eq!(deque.size, 0);
    assert_eq!(deque.pop(), None);
    assert_eq!(deque.size, 0);
}

#[test]
fn test_back() {
    let mut deque: Deque<i32> = Deque::new();
    assert_eq!(deque.size, 0);
    assert_eq!(deque.pop_back(), None);
    assert_eq!(deque.size, 0);

    for i in 0..10 {
        deque.push_back(i);
        assert_eq!(deque.size, (i + 1) as usize);
    }
    for i in (0..10).rev() {
        assert_eq!(deque.pop_back().unwrap(), i);
        assert_eq!(deque.size, i as usize);
    }
    assert_eq!(deque.size, 0);
    assert_eq!(deque.pop(), None);
    assert_eq!(deque.size, 0);
}

#[test]
fn test_mixed() {
    let mut deque: Deque<i32> = Deque::new();
    assert_eq!(deque.size, 0);
    assert_eq!(deque.pop_back(), None);
    assert_eq!(deque.size, 0);

    for i in 0..10 {
        if i % 2 == 0 {
            deque.push(i);
        } else {
            deque.push_back(i);
        }
        assert_eq!(deque.size, (i + 1) as usize);
    }
    assert_eq!(deque.pop().unwrap(), 8);
    assert_eq!(deque.size, 9);
    assert_eq!(deque.pop().unwrap(), 6);
    assert_eq!(deque.size, 8);
    assert_eq!(deque.pop().unwrap(), 4);
    assert_eq!(deque.size, 7);
    assert_eq!(deque.pop().unwrap(), 2);
    assert_eq!(deque.size, 6);
    assert_eq!(deque.pop().unwrap(), 0);
    assert_eq!(deque.size, 5);
    assert_eq!(deque.pop().unwrap(), 1);
    assert_eq!(deque.size, 4);
    assert_eq!(deque.pop().unwrap(), 3);
    assert_eq!(deque.size, 3);
    assert_eq!(deque.pop().unwrap(), 5);
    assert_eq!(deque.size, 2);
    assert_eq!(deque.pop().unwrap(), 7);
    assert_eq!(deque.size, 1);
    assert_eq!(deque.pop().unwrap(), 9);
    assert_eq!(deque.size, 0);
    assert_eq!(deque.pop(), None);
    assert_eq!(deque.size, 0);
}

#[test]
fn test_iterator() {
    let mut deque: Deque<String> = Deque::new();
    for i in 0..10 {
        deque.push(i.to_string());
    }
    let mut expected = (0..10).rev();
    while let Some(s) = deque.next() {
        let ix = expected.next().unwrap();
        assert_eq!(ix, s.parse::<i32>().unwrap());
    }
    assert_eq!(expected.next(), None);
}

#[test]
fn deque_drop_test() {
    let mut deque: Deque<i32> = Deque::new();
    let size = 1000000;
    for i in 0..size {
        deque.push(i);
    }
    assert_eq!(size, deque.size as i32)
}

#[test]
fn deque_next_back_yields_back_first() {
    let mut deque: Deque<i32> = Deque::new();
    for i in 0..4 {
        deque.push_back(i);
    }
    assert_eq!(deque.next_back(), Some(3));
    assert_eq!(deque.next(), Some(0));
    assert_eq!(deque.next_back(), Some(2));
    assert_eq!(deque.next(), Some(1));
    assert_eq!(deque.next(), None);
    assert_eq!(deque.next_back(), None);
}

#[test]
fn deque_first_in_first_out() {
    let mut deque: Deque<i32> = Deque::new();
    deque.push_back(1);
    deque.push_back(2);
    assert_eq!(deque.pop(), Some(1));
    deque.push_back(3);
    assert_eq!(deque.pop(), Some(2));
    assert_eq!(deque.pop(), Some(3));
    assert_eq!(deque.pop(), None);
}

#[test]
fn deque_push_back_then_pop_back_restores() {
    let mut deque: Deque<i32> = Deque::new();
    deque.push(5);
    deque.push_back(6);
    assert_eq!(deque.pop_back(), Some(6));
    assert_eq!(deque.size, 1);
    assert_eq!(deque.pop_back(), Some(5));
    assert_eq!(deque.pop_back(), None);
}

#[test]
fn deque_removal_from_the_middle_of_the_slots() {
    // Nodes pushed at the back then removed from the front move the last
    // slot into the freed one; the order must survive many such moves.
    let mut deque: Deque<i32> = Deque::new();
    for i in 0..6 {
        deque.push_back(i);
    }
    deque.push(-1);
    assert_eq!(deque.pop_back(), Some(5));
    assert_eq!(deque.pop(), Some(-1));
    deque.push_back(10);
    let mut rest = Vec::new();
    while let Some(x) = deque.pop() {
        rest.push(x);
    }
    assert_eq!(rest, vec![0, 1, 2, 3, 4, 10]);
}
