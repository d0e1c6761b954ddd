use rust_dust::stack::Stack;

#[test]
fn naive_test() {
    let stack: Stack<i32> = Stack::new();
    assert_eq!(0, stack.size);
}

#[test]
fn int_test() {
    let mut stack: Stack<i32> = Stack::new();
    assert!(stack.pop().is_none());
    assert_eq!(0, stack.size);
    stack.push(1);
    assert_eq!(1, stack.size);
    assert_eq!(1, stack.pop().unwrap());
    assert_eq!(0, stack.size);
    assert!(stack.pop().is_none());
}

#[test]
fn struct_test() {
    #[derive(Debug)]
    struct Struct(i32, String);
    impl PartialEq for Struct {
        fn eq(&self, other: &Self) -> bool {
            self.0 == other.0 && self.1 == other.1
        }

        fn ne(&self, other: &Self) -> bool {
            !self.eq(other)
        }
    }
    let mut stack: Stack<Struct> = Stack::new();
    for i in 1..10 {
        stack.push(Struct(i, i.to_string()));
        assert_eq!(i, stack.size as i32);
    }

    for i in 10..1 {
        assert_eq!(Struct(i, i.to_string()), stack.pop().unwrap());
        assert_eq!(i - 1, stack.size as i32);
    }
}

#[test]
fn stack_drop_test() {
    let mut stack: Stack<i32> = Stack::new();
    for i in 0..100000 {
        stack.push(i);
    }
}

#[test]
fn iter_test() {
    let mut stack: Stack<String> = Stack::new();
    for i in 0..100 {
        stack.push(i.to_string());
    }

    let mut count = 0;
    while let Some(i) = stack.next() {
        println!("{}", i);
        count += 1;
    }
    assert_eq!(count, 100);
}

#[test]
fn stack_push_then_pop_restores() {
    let mut stack: Stack<i32> = Stack::new();
    stack.push(7);
    stack.push(8);
    stack.push(42);
    assert_eq!(stack.pop(), Some(42));
    assert_eq!(stack.size, 2);
    assert_eq!(stack.pop(), Some(8));
    assert_eq!(stack.pop(), Some(7));
    assert_eq!(stack.pop(), None);
    assert_eq!(stack.size, 0);
}

#[test]
fn stack_last_in_first_out() {
    let mut stack: Stack<i32> = Stack::new();
    for i in 0..5 {
        stack.push(i);
    }
    let mut popped = Vec::new();
    while let Some(i) = stack.pop() {
        popped.push(i);
    }
    assert_eq!(popped, vec![4, 3, 2, 1, 0]);
}
