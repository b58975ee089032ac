use ccl::stack::ConcurrentStack;

#[test]
fn insert_then_pop_assert_1024_st() {
    let mut stack = ConcurrentStack::new();

    for _ in 0..1024_i32 {
        stack.push(9);
    }

    for _ in 0..1024_i32 {
        assert_eq!(9, stack.pop().unwrap());
    }
}

#[test]
fn pop_in_reverse_order() {
    let mut stack: ConcurrentStack<u64> = ConcurrentStack::default();
    stack.push(1);
    stack.push(2);
    stack.push(3);
    assert_eq!(stack.pop(), Some(3));
    assert_eq!(stack.pop(), Some(2));
    assert_eq!(stack.pop(), Some(1));
    assert_eq!(stack.pop(), None);
}

#[test]
fn push_pop_with_guard() {
    let mut stack: ConcurrentStack<String> = ConcurrentStack::new();
    let guard = ccl::stack::aquire_guard();
    stack.push_with_guard("a".to_string(), &guard);
    stack.push_with_guard("b".to_string(), &guard);
    assert_eq!(stack.pop_with_guard(&guard), Some("b".to_string()));
    assert_eq!(stack.pop_with_guard(&guard), Some("a".to_string()));
    assert_eq!(stack.pop_with_guard(&guard), None);
}
