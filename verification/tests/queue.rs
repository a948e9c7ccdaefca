use algorithms::queue::{LinkedList, Node, Queue};

#[test]
fn test_queue() {
    let mut q = LinkedList::new();
    assert!(q.is_empty());
    for i in 0..10 {
        q.queue(i);
    }
    for i in 0..10 {
        assert_eq!(Some(i), q.dequeue());
    }
    assert!(q.is_empty());
}

#[test]
fn push_enters_at_the_head() {
    let mut q = LinkedList::new();
    q.push(1);
    q.push(2);
    q.append(3);
    assert_eq!(q.to_vec(), vec![2, 1, 3]);
    assert_eq!(Some(2), q.pop());
    assert_eq!(Some(1), q.pop());
    assert_eq!(Some(3), q.pop());
    assert_eq!(None, q.pop());
    assert!(q.is_empty());
}

#[test]
fn dequeue_of_empty_queue() {
    let mut q = LinkedList::new();
    assert_eq!(None, q.dequeue());
    assert!(Queue::is_empty(&q));
    assert_eq!(q.to_vec(), Vec::<u32>::new());
}

#[test]
fn nodes_can_be_chained() {
    let mut first = Node::new(1);
    first.set_next(Box::new(Node::new(2)));
    let mut q = LinkedList::new();
    q.append(5);
    assert_eq!(q.to_vec(), vec![5]);
}
