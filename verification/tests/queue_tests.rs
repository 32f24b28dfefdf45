use algos::queue::{myStack, Queue};

#[test]
fn test_queue() {
    let mut s = myStack::<i32>::new();
    assert_eq!(s.pop(), Err("Stack is empty"));
    s.push(1);
    s.push(2);
    s.push(3);
    assert_eq!(s.pop(), Ok(3));
    assert_eq!(s.pop(), Ok(2));
    s.push(4);
    s.push(5);
    assert_eq!(s.is_empty(), false);
    assert_eq!(s.pop(), Ok(5));
    assert_eq!(s.pop(), Ok(4));
    assert_eq!(s.pop(), Ok(1));
    assert_eq!(s.pop(), Err("Stack is empty"));
    assert_eq!(s.is_empty(), true);
}

#[test]
fn queue_is_first_in_first_out() {
    let mut q = Queue::new();
    assert_eq!(q.dequeue(), Err("Queue is empty"));
    assert_eq!(q.peek(), Err("Queue is empty"));
    assert!(q.is_empty());
    q.enqueue(1);
    q.enqueue(2);
    q.enqueue(3);
    assert_eq!(q.size(), 3);
    assert_eq!(q.peek(), Ok(&1));
    assert_eq!(q.dequeue(), Ok(1));
    assert_eq!(q.dequeue(), Ok(2));
    assert_eq!(q.peek(), Ok(&3));
    assert_eq!(q.dequeue(), Ok(3));
    assert_eq!(q.dequeue(), Err("Queue is empty"));
    assert_eq!(q.size(), 0);
}

#[test]
fn queue_default_is_empty() {
    let q: Queue<i32> = Default::default();
    assert!(q.is_empty());
    assert_eq!(q.size(), 0);
}
