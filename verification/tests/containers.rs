use maze_solver::data_structures::{Queue, Stack};

#[test]
fn stack_is_last_in_first_out() {
    let mut stack: Stack<(usize, usize)> = Stack::new();
    assert!(stack.empty());
    stack.push((1, 2));
    stack.push((3, 4));
    stack.push((5, 6));
    assert!(!stack.empty());
    assert_eq!(stack.pop(), Some((5, 6)));
    assert_eq!(stack.pop(), Some((3, 4)));
    stack.push((7, 8));
    assert_eq!(stack.pop(), Some((7, 8)));
    assert_eq!(stack.pop(), Some((1, 2)));
    assert!(stack.empty());
}

#[test]
fn stack_pop_on_empty_gives_none() {
    let mut stack: Stack<u8> = Stack::new();
    assert_eq!(stack.pop(), None);
    assert!(stack.empty());
    stack.push(9);
    assert_eq!(stack.pop(), Some(9));
    assert_eq!(stack.pop(), None);
}

#[test]
fn queue_is_first_in_first_out() {
    let mut queue: Queue<(usize, usize)> = Queue::new();
    assert!(queue.empty());
    queue.enqueue((1, 2));
    queue.enqueue((3, 4));
    queue.enqueue((5, 6));
    assert!(!queue.empty());
    assert_eq!(queue.dequeue(), (1, 2));
    queue.enqueue((7, 8));
    assert_eq!(queue.dequeue(), (3, 4));
    assert_eq!(queue.dequeue(), (5, 6));
    assert_eq!(queue.dequeue(), (7, 8));
    assert!(queue.empty());
}

#[test]
fn default_containers_are_empty() {
    let stack: Stack<u32> = Stack::default();
    let queue: Queue<u32> = Queue::default();
    assert!(stack.empty());
    assert!(queue.empty());
}
