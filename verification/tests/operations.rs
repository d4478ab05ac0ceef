//! Per-operation checks: construction, lookup, mutation, aggregation and
//! the general properties the library states of every stack.

use std::collections::{BTreeMap, HashMap};

use contexts::ContextManager;

#[test]
fn new_manager_ignores_writes() {
    let mut manager = ContextManager::new();

    assert!(manager.is_empty());
    assert_eq!(manager.len(), 0);
    assert_eq!(manager.insert("x", 1), None);
    assert!(!manager.contains_key(&"x"));
}

#[test]
fn with_capacity_starts_without_contexts() {
    let mut manager = ContextManager::with_capacity(3);

    assert_eq!(manager.len(), 0);
    assert_eq!(manager.insert("x", 1), None);
    assert!(!manager.contains_key(&"x"));
}

#[test]
fn default_manager_is_empty() {
    let manager: ContextManager<&str, i32> = ContextManager::default();

    assert!(manager.is_empty());
}

#[test]
fn with_empty_accepts_writes() {
    let mut manager = ContextManager::with_empty();

    assert!(!manager.is_empty());
    assert_eq!(manager.len(), 1);
    manager.insert("x", 1);
    assert_eq!(manager.index(&"x"), &1);
}

#[test]
fn insert_returns_prior_local_value() {
    let mut manager = ContextManager::with_empty();

    manager.insert("w", 1);
    assert_eq!(manager.insert("w", 2), Some(1));

    manager.push_empty();
    assert_eq!(manager.insert("w", 3), None);
}

#[test]
fn remove_touches_local_only() {
    let mut manager = ContextManager::with_capacity(3);

    assert_eq!(manager.remove(&"w"), None);

    manager.push(HashMap::from([("w", 1)]));
    manager.push(HashMap::from([("w", 2)]));

    assert_eq!(manager.remove(&"w"), Some(2));
    assert_eq!(manager.remove(&"w"), None);
    assert_eq!(manager.index(&"w"), &1);
}

#[test]
fn remove_all_absent_key_is_empty() {
    let mut manager = ContextManager::with_empty();
    manager.insert("w", 1);

    assert_eq!(manager.remove_all(&"x"), Vec::<i32>::new());
    assert_eq!(manager.get(&"w"), Some(&1));
}

#[test]
fn remove_all_collects_by_precedence() {
    let mut manager = ContextManager::with_capacity(3);
    manager.push(HashMap::from([("w", 1)]));
    manager.push(HashMap::from([("x", 9)]));
    manager.push(HashMap::from([("w", 3)]));

    let removed = manager.remove_all(&"w");

    assert_eq!(removed, vec![3, 1]);
    assert_eq!(removed.len(), 2);
    assert_eq!(manager.get(&"w"), None);
    assert_eq!(manager.get(&"x"), Some(&9));
}

#[test]
fn get_matches_get_from_front() {
    let mut manager = ContextManager::with_capacity(3);
    manager.push(HashMap::from([("w", 1)]));
    manager.push(HashMap::from([("x", 2)]));

    assert_eq!(manager.get(&"w"), manager.get_from(0, &"w"));
    assert_eq!(manager.get(&"x"), manager.get_from(0, &"x"));
    assert_eq!(manager.get(&"y"), manager.get_from(0, &"y"));
}

#[test]
fn get_local_restricted_to_front() {
    let mut manager = ContextManager::with_capacity(2);
    manager.push(HashMap::from([("w", 1)]));
    manager.push(HashMap::from([("x", 2)]));

    assert_eq!(manager.get_local(&"x"), manager.get_from(0, &"x"));
    assert_eq!(manager.get_local(&"w"), None);
    assert_eq!(manager.get_from(0, &"w"), Some(&1));
}

#[test]
fn insert_then_get_local_yields_value() {
    let mut manager = ContextManager::with_capacity(2);
    manager.push(HashMap::from([("w", 1)]));
    manager.push(HashMap::from([("w", 2)]));

    manager.insert("w", 42);
    assert_eq!(manager.get_local(&"w"), Some(&42));
}

#[test]
fn get_all_orders_by_precedence() {
    let mut manager = ContextManager::with_capacity(3);
    manager.push(HashMap::from([("w", 1)]));
    manager.push(HashMap::from([("w", 2)]));
    manager.push(HashMap::from([("w", 3)]));

    assert_eq!(manager.get_all(&"w"), vec![&3, &2, &1]);
    assert_eq!(manager.get_all(&"x"), Vec::<&i32>::new());
}

#[test]
fn get_from_bounds() {
    let mut manager = ContextManager::with_capacity(3);
    manager.push(HashMap::from([("w", 1)]));
    manager.push(HashMap::from([("x", 2)]));
    manager.push(HashMap::from([("w", 3)]));

    assert_eq!(manager.get_from(0, &"w"), Some(&3));
    assert_eq!(manager.get_from(1, &"w"), Some(&1));
    assert_eq!(manager.get_from(2, &"w"), Some(&1));
    assert_eq!(manager.get_from(3, &"w"), None);
}

#[test]
fn contains_local_key_tracks_front() {
    let mut manager = ContextManager::new();
    manager.push(HashMap::from([("w", 1)]));

    assert!(manager.contains_local_key(&"w"));

    manager.push_empty();
    assert!(!manager.contains_local_key(&"w"));
    assert!(manager.contains_key(&"w"));
}

#[test]
fn get_local_mut_edits_front_entry() {
    let mut manager = ContextManager::from_context(HashMap::from([("w", 1)]));

    if let Some(w) = manager.get_local_mut(&"w") {
        *w = 2;
    }
    assert_eq!(manager.get(&"w"), Some(&2));

    manager.push_empty();
    assert_eq!(manager.get_local_mut(&"w"), None);
    assert_eq!(manager.get(&"w"), Some(&2));
}

#[test]
fn get_mut_from_edits_deeper_entry() {
    let mut manager = ContextManager::new();
    manager.push(HashMap::from([("w", 1)]));
    manager.push(HashMap::from([("w", 2)]));

    if let Some(v) = manager.get_mut_from(1, &"w") {
        *v = 3;
    }

    assert_eq!(manager.get_from(0, &"w"), Some(&2));
    assert_eq!(manager.get_from(1, &"w"), Some(&3));
    assert_eq!(manager.get_mut_from(2, &"w"), None);
}

#[test]
fn collapse_keeps_most_recent_values() {
    let mut manager = ContextManager::with_capacity(3);
    manager.push(HashMap::from([("y", 3)]));
    manager.push(HashMap::from([("w", 1), ("x", 2)]));
    manager.push(HashMap::from([("y", 4), ("z", 3)]));

    let map = manager.collapse();

    assert_eq!(map, HashMap::from([("w", 1), ("x", 2), ("y", 4), ("z", 3)]));
}

#[test]
fn collapse_agrees_with_get() {
    let mut manager = ContextManager::with_capacity(3);
    manager.push(HashMap::from([("y", 3)]));
    manager.push(HashMap::from([("w", 1), ("x", 2)]));
    manager.push(HashMap::from([("y", 4), ("z", 3)]));

    let before: Vec<Option<i32>> = ["w", "x", "y", "z"]
        .iter()
        .map(|k| manager.get(k).copied())
        .collect();
    let map = manager.collapse();
    let after: Vec<Option<i32>> = ["w", "x", "y", "z"].iter().map(|k| map.get(k).copied()).collect();

    assert_eq!(before, after);
}

#[test]
fn collapse_into_respects_precedence() {
    let mut manager = ContextManager::with_capacity(3);
    manager.push(HashMap::from([("y", 4)]));
    manager.push(HashMap::from([("w", 2), ("x", 3)]));

    let mut map = HashMap::from([("v", 1), ("x", 2), ("z", 5)]);
    manager.collapse_into(&mut map);

    assert_eq!(map, HashMap::from([("v", 1), ("w", 2), ("x", 3), ("y", 4), ("z", 5)]));
}

#[test]
fn collapse_ordered_keeps_most_recent_values() {
    let mut manager = ContextManager::with_capacity(3);
    manager.push(HashMap::from([("y", 3)]));
    manager.push(HashMap::from([("w", 1), ("x", 2)]));
    manager.push(HashMap::from([("y", 4), ("z", 3)]));

    let map = manager.collapse_ordered();

    assert_eq!(map, BTreeMap::from([("w", 1), ("x", 2), ("y", 4), ("z", 3)]));
    let keys: Vec<&&str> = map.keys().collect();
    assert_eq!(keys, vec![&"w", &"x", &"y", &"z"]);
}

#[test]
fn collapse_into_ordered_respects_precedence() {
    let mut manager = ContextManager::with_capacity(3);
    manager.push(HashMap::from([("y", 4)]));
    manager.push(HashMap::from([("w", 2), ("x", 3)]));

    let mut map = BTreeMap::from([("v", 1), ("x", 2), ("z", 5)]);
    manager.collapse_into_ordered(&mut map);

    assert_eq!(map, BTreeMap::from([("v", 1), ("w", 2), ("x", 3), ("y", 4), ("z", 5)]));
}

#[test]
fn push_then_pop_restores_stack() {
    let mut manager = ContextManager::with_empty();
    manager.insert("w", 1);

    let context = HashMap::from([("w", 9), ("x", 8)]);
    manager.push(context.clone());
    let popped = manager.pop();

    assert_eq!(popped, Some(context));
    assert_eq!(manager.len(), 1);
    assert_eq!(manager.get(&"w"), Some(&1));
    assert_eq!(manager.get(&"x"), None);
}

#[test]
fn fork_from_full_prefix_equals_clone() {
    let mut manager = ContextManager::with_capacity(3);
    manager.push(HashMap::from([("w", 1)]));
    manager.push(HashMap::from([("x", 2)]));
    manager.push(HashMap::from([("y", 3)]));

    let mut fork = manager.fork_from(manager.len() - 1).unwrap();
    let mut clone = manager.clone();

    assert_eq!(fork.len(), clone.len());
    while fork.len() > 0 {
        assert_eq!(fork.pop(), clone.pop());
    }
}

#[test]
fn fork_from_out_of_bounds_is_none() {
    let mut manager = ContextManager::with_capacity(3);
    manager.push(HashMap::from([("w", 1)]));

    assert!(manager.fork_from(1).is_none());
    assert!(ContextManager::<&str, i32>::new().fork().is_none());
}

#[test]
fn push_local_on_empty_is_noop() {
    let mut manager: ContextManager<&str, i32> = ContextManager::new();
    manager.push_local();

    assert_eq!(manager.len(), 0);
}

#[test]
fn push_with_local_merges_over_front() {
    let mut manager = ContextManager::from_pairs(vec![("w", 1), ("x", 7)]);
    let context = HashMap::from([("x", 2)]);

    manager.push_with_local(context);

    assert_eq!(manager.len(), 2);
    assert_eq!(manager.get_local(&"w"), Some(&1));
    assert_eq!(manager.index(&"x"), &2);

    manager.pop();
    assert_eq!(manager.index(&"w"), &1);
    assert_eq!(manager.index(&"x"), &7);
}

#[test]
fn push_with_local_on_empty_becomes_base() {
    let mut manager = ContextManager::new();
    manager.push_with_local(HashMap::from([("x", 2)]));

    assert_eq!(manager.len(), 1);
    assert_eq!(manager.get_local(&"x"), Some(&2));
}

#[test]
fn extend_merges_into_front() {
    let mut manager = ContextManager::from_pairs(vec![("w", 1), ("x", 7)]);
    manager.extend(vec![("x", 2), ("y", 3)]);

    assert_eq!(manager.len(), 1);
    assert_eq!(manager.get(&"w"), Some(&1));
    assert_eq!(manager.get(&"x"), Some(&2));
    assert_eq!(manager.get(&"y"), Some(&3));
}

#[test]
fn extend_on_empty_creates_base() {
    let mut manager = ContextManager::new();
    manager.extend(vec![("w", 1)]);

    assert_eq!(manager.len(), 1);
    assert_eq!(manager.get(&"w"), Some(&1));
}

#[test]
fn repeated_pairs_keep_last_value() {
    let manager = ContextManager::from_pairs(vec![("w", 1), ("w", 2), ("w", 3)]);

    assert_eq!(manager.len(), 1);
    assert_eq!(manager.get(&"w"), Some(&3));

    let mut other = ContextManager::with_empty();
    other.extend(vec![("w", 4), ("w", 5)]);
    assert_eq!(other.get(&"w"), Some(&5));
}

#[test]
fn empty_stack_reads_nothing_and_sinks_writes() {
    let mut manager: ContextManager<&str, i32> = ContextManager::new();

    assert_eq!(manager.get(&"w"), None);
    assert_eq!(manager.get_local(&"w"), None);
    assert_eq!(manager.get_from(0, &"w"), None);
    assert_eq!(manager.get_all(&"w"), Vec::<&i32>::new());
    assert!(!manager.contains_key(&"w"));
    assert!(!manager.contains_local_key(&"w"));
    assert_eq!(manager.get_mut(&"w"), None);
    assert_eq!(manager.get_local_mut(&"w"), None);
    assert_eq!(manager.insert("w", 1), None);
    assert_eq!(manager.remove(&"w"), None);
    assert_eq!(manager.remove_all(&"w"), Vec::<i32>::new());
    assert_eq!(manager.pop(), None);
    assert_eq!(manager.len(), 0);

    let flat = manager.collapse();
    assert!(flat.is_empty());
}

#[test]
fn collapse_of_empty_into_keeps_target() {
    let manager: ContextManager<&str, i32> = ContextManager::new();
    let mut map = HashMap::from([("v", 1)]);

    manager.collapse_into(&mut map);

    assert_eq!(map, HashMap::from([("v", 1)]));
}

#[test]
fn from_contexts_orders_by_precedence() {
    let manager = ContextManager::from_contexts(vec![
        HashMap::from([("w", 1)]),
        HashMap::from([("w", 2), ("x", 9)]),
    ]);

    assert_eq!(manager.len(), 2);
    assert_eq!(manager.get(&"w"), Some(&1));
    assert_eq!(manager.get(&"x"), Some(&9));
}
