use pulsur::hash_map::SimpleHashMap;
use pulsur::linked_list::LinkedList;
use pulsur::stack::Stack;

#[test]
fn test_new() {
    let list: LinkedList<i32> = LinkedList::new();
    assert!(list.is_empty());
    assert_eq!(list.len(), 0);
}

#[test]
fn test_push_pop() {
    let mut list = LinkedList::new();
    list.push_front(1);
    list.push_front(2);
    list.push_front(3);

    assert_eq!(list.len(), 3);
    assert_eq!(list.pop_front(), Some(3));
    assert_eq!(list.pop_front(), Some(2));
    assert_eq!(list.pop_front(), Some(1));
    assert_eq!(list.pop_front(), None);
}

#[test]
fn test_peek() {
    let mut list = LinkedList::new();
    list.push_front(42);
    assert_eq!(list.peek_front(), Some(&42));
    list.pop_front();
    assert_eq!(list.peek_front(), None);
}

#[test]
fn test_is_empty() {
    let mut list = LinkedList::new();
    assert!(list.is_empty());
    list.push_front(10);
    assert!(!list.is_empty());
    list.pop_front();
    assert!(list.is_empty());
}

#[test]
fn test_len_recursive() {
    let mut list = LinkedList::new();
    for i in 0..100 {
        list.push_front(i);
    }
    assert_eq!(list.len(), 100);
}

#[test]
fn linked_list_default_is_empty() {
    let list: LinkedList<u8> = LinkedList::default();
    assert!(list.is_empty());
    assert_eq!(list.peek_front(), None);
}

#[test]
fn test_hashmap_basic() {
    let mut map = SimpleHashMap::new(10);
    map.insert("key1".to_string(), 100);
    map.insert("key2".to_string(), 200);

    assert_eq!(map.len(), 2);
    assert_eq!(map.get(&"key1".to_string()), Some(&100));
    assert_eq!(map.get(&"key2".to_string()), Some(&200));
}

#[test]
fn test_hashmap_update() {
    let mut map = SimpleHashMap::new(10);
    map.insert("key1", 100);
    map.insert("key1", 500);
    assert_eq!(map.get(&"key1"), Some(&500));
    assert_eq!(map.len(), 1);
}

#[test]
fn test_hashmap_remove() {
    let mut map = SimpleHashMap::new(10);
    map.insert("key1", 42);
    assert_eq!(map.remove(&"key1"), Some(42));
    assert_eq!(map.len(), 0);
    assert_eq!(map.get(&"key1"), None);
}

#[test]
fn test_hashmap_collision() {
    let mut map = SimpleHashMap::new(1);
    map.insert("a", 1);
    map.insert("b", 2);
    assert_eq!(map.len(), 2);
    assert_eq!(map.get(&"a"), Some(&1));
    assert_eq!(map.get(&"b"), Some(&2));
}

#[test]
fn test_hashmap_non_existent() {
    let map: SimpleHashMap<i32, i32> = SimpleHashMap::new(10);
    assert_eq!(map.get(&99), None);
    assert_eq!(map.len(), 0);
}

#[test]
fn hashmap_insert_returns_replaced_value() {
    let mut map = SimpleHashMap::new(4);
    assert_eq!(map.insert(7u32, "a"), None);
    assert_eq!(map.insert(7u32, "b"), Some("a"));
    assert_eq!(map.remove(&8u32), None);
    assert_eq!(map.remove(&7u32), Some("b"));
    assert!(map.is_empty());
}

#[test]
fn hashmap_many_keys_across_buckets() {
    let mut map = SimpleHashMap::new(3);
    for i in 0..50i32 {
        map.insert(i, i * 2);
    }
    assert_eq!(map.len(), 50);
    for i in 0..50i32 {
        assert_eq!(map.get(&i), Some(&(i * 2)));
    }
    assert_eq!(map.get(&-1), None);
}

#[test]
fn test_stack_new() {
    let stack: Stack<i32> = Stack::new();
    assert!(stack.is_empty());
}

#[test]
fn test_stack_push_pop() {
    let mut stack = Stack::new();
    stack.push("hello");
    stack.push("world");

    assert_eq!(stack.len(), 2);
    assert_eq!(stack.pop(), Some("world"));
    assert_eq!(stack.pop(), Some("hello"));
    assert_eq!(stack.pop(), None);
}

#[test]
fn test_stack_peek() {
    let mut stack = Stack::new();
    stack.push(100);
    assert_eq!(stack.peek(), Some(&100));
    assert_eq!(stack.len(), 1);
}

#[test]
fn test_stack_generic_complex() {
    let mut stack = Stack::new();
    stack.push(vec![1, 2, 3]);
    assert_eq!(stack.pop().unwrap().len(), 3);
}

#[test]
fn test_stack_default() {
    let stack: Stack<u32> = Stack::default();
    assert!(stack.is_empty());
}
