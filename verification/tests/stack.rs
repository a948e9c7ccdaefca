use algorithms::stack::{car, ArrayStack, List, Stack};

fn test_push_pop<T: Stack<u32>>(s: &mut T, more: u32) {
    assert!(s.is_empty());
    assert_eq!(None, s.pop());
    s.push(1);
    s.push(2);
    s.push(3);
    assert_eq!(Some(3), s.pop());
    assert_eq!(Some(2), s.pop());
    assert_eq!(Some(1), s.pop());
    assert!(s.is_empty());
    for i in 0..more {
        s.push(i);
    }
}

#[test]
fn list_stack() {
    let mut list_stack = List::<u32>::new();
    test_push_pop(&mut list_stack, 15);
}

#[test]
fn array_stack_up_to_its_capacity() {
    let mut array_stack = ArrayStack::new();
    test_push_pop(&mut array_stack, 9);
    for i in (0..9).rev() {
        assert_eq!(Some(i), array_stack.pop());
    }
    assert!(array_stack.is_empty());
}

#[test]
fn array_stack_underflow_shows_bottom_slot() {
    let mut array_stack = ArrayStack::new();
    assert_eq!(None, array_stack.pop());
    array_stack.push(7);
    assert_eq!(Some(7), array_stack.pop());
    assert!(array_stack.is_empty());
    // the slot is not cleared when its element leaves
    assert_eq!(Some(7), array_stack.pop());
    assert!(array_stack.is_empty());
}

#[test]
fn car_is_the_top() {
    let mut list = List::<u32>::new();
    assert_eq!(None, car(&list));
    list.push(4);
    list.push(5);
    assert_eq!(Some(&5), car(&list));
    assert_eq!(Some(5), list.pop());
    assert_eq!(Some(&4), car(&list));
    assert_eq!(Some(4), list.pop());
    assert_eq!(None, list.pop());
    assert!(list.is_empty());
}
