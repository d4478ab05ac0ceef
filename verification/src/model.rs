//! The mathematical model of a context stack.
//!
//! A stack is modeled as a `Seq<Map<K, V>>`: index 0 is the front (the
//! "local" context, highest precedence) and the last index is the back
//! (lowest precedence). The spec functions here define what every lookup,
//! mutation and aggregation operation of the library means on that model.

use vstd::prelude::*;

verus! {

/// The position of the first context at or after `start` that contains
/// `key`, scanning toward the back; `None` if no context at or after
/// `start` contains it (in particular whenever `start` is out of range).
pub open spec fn first_from<K, V>(stack: Seq<Map<K, V>>, start: int, key: K) -> Option<int>
    decreases stack.len() - start,
{
    if start < 0 || start >= stack.len() {
        None
    } else if stack[start].contains_key(key) {
        Some(start)
    } else {
        first_from(stack, start + 1, key)
    }
}

/// The value resolved for `key` when scanning starts at `start`: the value
/// held by the first context at or after `start` that contains the key.
pub open spec fn stack_get_from<K, V>(stack: Seq<Map<K, V>>, start: int, key: K) -> Option<V> {
    match first_from(stack, start, key) {
        Some(i) => Some(stack[i][key]),
        None => None,
    }
}

/// The resolved value for `key`: the value in the front-most context that
/// contains it.
pub open spec fn stack_get<K, V>(stack: Seq<Map<K, V>>, key: K) -> Option<V> {
    stack_get_from(stack, 0, key)
}

/// The value for `key` in the front context alone; `None` if the stack is
/// empty or the front context lacks the key, even when a deeper one has it.
pub open spec fn stack_get_local<K, V>(stack: Seq<Map<K, V>>, key: K) -> Option<V> {
    if stack.len() > 0 && stack[0].contains_key(key) {
        Some(stack[0][key])
    } else {
        None
    }
}

/// One value per context at or after `start` that contains `key`, in
/// front-to-back (highest-to-lowest precedence) order.
pub open spec fn values_from<K, V>(stack: Seq<Map<K, V>>, start: int, key: K) -> Seq<V>
    decreases stack.len() - start,
{
    if start < 0 || start >= stack.len() {
        Seq::empty()
    } else if stack[start].contains_key(key) {
        seq![stack[start][key]] + values_from(stack, start + 1, key)
    } else {
        values_from(stack, start + 1, key)
    }
}

/// How many contexts at or after `start` contain `key`.
pub open spec fn count_from<K, V>(stack: Seq<Map<K, V>>, start: int, key: K) -> nat
    decreases stack.len() - start,
{
    if start < 0 || start >= stack.len() {
        0
    } else if stack[start].contains_key(key) {
        1 + count_from(stack, start + 1, key)
    } else {
        count_from(stack, start + 1, key)
    }
}

/// The stack with `key` deleted from every context; the contexts themselves
/// all remain, in place.
pub open spec fn stack_remove_all<K, V>(stack: Seq<Map<K, V>>, key: K) -> Seq<Map<K, V>> {
    Seq::new(stack.len(), |i: int| stack[i].remove(key))
}

/// The flat map obtained by resolving every key against the whole stack:
/// each key present anywhere maps to its front-most value.
pub open spec fn stack_collapse<K, V>(stack: Seq<Map<K, V>>) -> Map<K, V> {
    Map::new(
        |k: K| stack_get(stack, k) is Some,
        |k: K| stack_get(stack, k).unwrap(),
    )
}

/// The map built by inserting `pairs` in order into an initially empty map:
/// for a repeated key the last occurrence wins.
pub open spec fn pairs_map<K, V>(pairs: Seq<(K, V)>) -> Map<K, V>
    decreases pairs.len(),
{
    if pairs.len() == 0 {
        Map::empty()
    } else {
        pairs_map(pairs.drop_last()).insert(pairs.last().0, pairs.last().1)
    }
}

/// The map obtained by inserting `pairs` in order, front to back, on top of
/// `base`.
pub open spec fn insert_pairs<K, V>(base: Map<K, V>, pairs: Seq<(K, V)>) -> Map<K, V>
    decreases pairs.len(),
{
    if pairs.len() == 0 {
        base
    } else {
        insert_pairs(base.insert(pairs[0].0, pairs[0].1), pairs.drop_first())
    }
}

/// Appending one more pair to the inserted sequence is one more insertion.
pub proof fn lemma_insert_pairs_push<K, V>(base: Map<K, V>, pairs: Seq<(K, V)>, pair: (K, V))
    ensures
        insert_pairs(base, pairs.push(pair)) == insert_pairs(base, pairs).insert(pair.0, pair.1),
    decreases pairs.len(),
{
    if pairs.len() == 0 {
        assert(pairs.push(pair).drop_first() =~= Seq::<(K, V)>::empty());
        assert(insert_pairs(base.insert(pair.0, pair.1), Seq::<(K, V)>::empty()) == base.insert(
            pair.0,
            pair.1,
        ));
    } else {
        assert(pairs.push(pair).drop_first() =~= pairs.drop_first().push(pair));
        lemma_insert_pairs_push(base.insert(pairs[0].0, pairs[0].1), pairs.drop_first(), pair);
    }
}

/// Inserting a sequence of pairs on top of `base` yields `base` overridden
/// by the pairs' own map, in which the last occurrence of a key wins.
pub proof fn lemma_insert_pairs_union<K, V>(base: Map<K, V>, pairs: Seq<(K, V)>)
    ensures
        insert_pairs(base, pairs) == base.union_prefer_right(pairs_map(pairs)),
    decreases pairs.len(),
{
    if pairs.len() == 0 {
        assert(base.union_prefer_right(Map::<K, V>::empty()) =~= base);
    } else {
        lemma_insert_pairs_union(base, pairs.drop_last());
        lemma_insert_pairs_push(base, pairs.drop_last(), pairs.last());
        assert(pairs.drop_last().push(pairs.last()) =~= pairs);
        assert(base.union_prefer_right(pairs_map(pairs.drop_last())).insert(
            pairs.last().0,
            pairs.last().1,
        ) =~= base.union_prefer_right(pairs_map(pairs)));
    }
}

/// What `first_from` promises about the position it picks: the position is
/// in range, its context contains the key, and no context between `start`
/// and it does; when it yields `None`, no context at or after `start`
/// contains the key.
pub proof fn lemma_first_from_properties<K, V>(stack: Seq<Map<K, V>>, start: int, key: K)
    requires
        0 <= start,
    ensures
        match first_from(stack, start, key) {
            Some(i) => {
                &&& start <= i < stack.len()
                &&& stack[i].contains_key(key)
                &&& forall|j: int| start <= j < i ==> !(#[trigger] stack[j]).contains_key(key)
            },
            None => forall|j: int|
                start <= j < stack.len() ==> !(#[trigger] stack[j]).contains_key(key),
        },
    decreases stack.len() - start,
{
    if start < 0 || start >= stack.len() {
    } else if stack[start].contains_key(key) {
    } else {
        lemma_first_from_properties(stack, start + 1, key);
    }
}

/// The values collected for a key are one per containing context: their
/// count equals the number of contexts that contain the key.
pub proof fn lemma_values_from_len<K, V>(stack: Seq<Map<K, V>>, start: int, key: K)
    ensures
        values_from(stack, start, key).len() == count_from(stack, start, key),
    decreases stack.len() - start,
{
    if start < 0 || start >= stack.len() {
    } else {
        lemma_values_from_len(stack, start + 1, key);
    }
}

} // verus!
