//! End-to-end scenarios exercising the documented usage of a context
//! stack: building layers, shadowing, mutating, forking and clearing.

use std::collections::HashMap;

use contexts::ContextManager;

#[test]
fn single_context_lookup() {
    let mut manager = ContextManager::with_empty();
    manager.insert("red", 255u8);

    assert!(manager.contains_key(&"red"));
    assert_eq!(manager.get(&"green"), None);
}

#[test]
fn empty_front_falls_through() {
    let mut manager = ContextManager::with_empty();
    manager.insert("red", 255u8);
    manager.push(HashMap::from([("red", 63u8)]));
    manager.push_empty();

    assert_eq!(manager.len(), 3);
    assert_eq!(manager.index(&"red"), &63);
}

#[test]
fn get_from_skips_and_local_misses() {
    let mut manager = ContextManager::with_empty();
    manager.insert("red", 255u8);
    manager.push(HashMap::from([("red", 63u8)]));
    manager.push_empty();

    assert_eq!(manager.get_from(1, &"red"), Some(&63));
    assert_eq!(manager.get_local(&"red"), None);
}

#[test]
fn pop_removes_front_context() {
    let mut manager = ContextManager::with_empty();
    manager.insert("red", 255u8);
    manager.push(HashMap::from([("red", 63u8)]));
    manager.push_empty();

    let popped = manager.pop();
    assert_eq!(popped, Some(HashMap::new()));
    assert_eq!(manager.len(), 2);
    assert_eq!(manager.index(&"red"), &63);
    assert_eq!(manager.get_from(1, &"red"), Some(&255));
    assert_eq!(manager.get_local(&"red"), Some(&63));
}

#[test]
fn push_local_then_mutate_and_remove() {
    let mut manager = ContextManager::with_empty();
    manager.insert("red", 255u8);
    manager.push(HashMap::from([("red", 63u8)]));

    manager.push_local();
    assert_eq!(manager.len(), 3);

    if let Some(b) = manager.get_mut(&"red") {
        *b = 192;
    }
    assert_eq!(manager.index(&"red"), &192);

    assert_eq!(manager.remove(&"red"), Some(192));
    assert_eq!(manager.get_local(&"red"), None);
    assert_eq!(manager.index(&"red"), &63);
}

#[test]
fn fork_and_remove_all() {
    let mut manager = ContextManager::with_empty();
    manager.insert("red", 255u8);
    manager.push(HashMap::from([("red", 63u8)]));
    manager.push_empty();

    let fork = manager.fork().unwrap();
    assert_eq!(fork.len(), 1);
    assert_eq!(fork.get(&"red"), None);

    let fork2 = manager.fork_from(1).unwrap();
    assert_eq!(fork2.len(), 2);
    assert_eq!(fork2.get(&"red"), Some(&63));

    let removed = manager.remove_all(&"red");
    assert_eq!(removed, vec![63, 255]);
    assert_eq!(manager.get(&"red"), None);
    assert_eq!(manager.len(), 3);
}

#[test]
fn forks_are_independent() {
    let mut manager = ContextManager::with_empty();
    manager.insert("red", 255u8);

    let mut fork = manager.fork().unwrap();
    fork.insert("red", 1);

    assert_eq!(manager.get(&"red"), Some(&255));
    assert_eq!(fork.get(&"red"), Some(&1));
}

#[test]
fn clone_is_deep() {
    let mut manager = ContextManager::with_empty();
    manager.insert("red", 255u8);

    let clone = manager.clone();
    manager.insert("red", 7);

    assert_eq!(clone.get(&"red"), Some(&255));
    assert_eq!(manager.get(&"red"), Some(&7));
}
