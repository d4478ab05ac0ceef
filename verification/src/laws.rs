//! General properties of the context stack, stated over the model and
//! proved once for every stack, key and value.

use vstd::prelude::*;

use crate::model::count_from;
use crate::model::first_from;
use crate::model::lemma_first_from_properties;
use crate::model::lemma_values_from_len;
use crate::model::stack_collapse;
use crate::model::stack_get;
use crate::model::stack_get_from;
use crate::model::stack_get_local;
use crate::model::stack_remove_all;
use crate::model::values_from;

verus! {

/// For every stack and key, a whole-stack lookup resolves to exactly what
/// a lookup starting at position 0 resolves to.
pub proof fn lemma_get_is_get_from_front<K, V>(stack: Seq<Map<K, V>>, key: K)
    ensures
        stack_get(stack, key) == stack_get_from(stack, 0, key),
{
}

/// For every stack and key, the local lookup is the front-restricted form
/// of a lookup from position 0: it agrees with that lookup whenever the
/// front context holds the key, and resolves to nothing whenever the stack
/// is empty or the front lacks the key, even when a deeper context has it.
pub proof fn lemma_get_local_restricts_to_front<K, V>(stack: Seq<Map<K, V>>, key: K)
    ensures
        stack.len() > 0 && stack[0].contains_key(key) ==> stack_get_local(stack, key)
            == stack_get_from(stack, 0, key),
        !(stack.len() > 0 && stack[0].contains_key(key)) ==> stack_get_local(stack, key) is None,
{
}

/// Inserting a value into the front context of a non-empty stack makes the
/// local lookup of that key yield exactly the inserted value.
pub proof fn lemma_insert_then_get_local<K, V>(stack: Seq<Map<K, V>>, key: K, value: V)
    requires
        stack.len() > 0,
    ensures
        stack_get_local(stack.update(0, stack[0].insert(key, value)), key) == Some(value),
{
}

/// After removing a key from every context, a whole-stack lookup of that
/// key resolves to nothing, and the number of values that were collected
/// equals the number of contexts that contained the key beforehand.
pub proof fn lemma_remove_all_clears<K, V>(stack: Seq<Map<K, V>>, key: K)
    ensures
        stack_get(stack_remove_all(stack, key), key) is None,
        values_from(stack, 0, key).len() == count_from(stack, 0, key),
{
    let cleared = stack_remove_all(stack, key);
    lemma_first_from_properties(cleared, 0, key);
    if first_from(cleared, 0, key) is Some {
        let i = first_from(cleared, 0, key).unwrap();
        assert(cleared[i] == stack[i].remove(key));
        assert(false);
    }
    lemma_values_from_len(stack, 0, key);
}

/// Collapsing a stack maps every key that some context holds to exactly
/// the value a whole-stack lookup would have resolved beforehand.
pub proof fn lemma_collapse_agrees_with_get<K, V>(stack: Seq<Map<K, V>>, key: K)
    requires
        stack_get(stack, key) is Some,
    ensures
        stack_collapse(stack).contains_key(key),
        stack_collapse(stack)[key] == stack_get(stack, key).unwrap(),
{
}

/// Forking from the last position copies the whole stack: the prefix
/// through `stack.len() - 1` is the stack itself, so the fork equals a
/// full clone, position by position.
pub proof fn lemma_fork_full_prefix_is_whole<K, V>(stack: Seq<Map<K, V>>)
    requires
        stack.len() > 0,
    ensures
        stack.subrange(0, (stack.len() - 1) + 1) == stack,
{
    assert(stack.subrange(0, stack.len() as int) =~= stack);
}

/// Pushing a context and immediately popping it restores the stack: the
/// popped context is the one pushed, and the remaining stack is unchanged
/// in content and length.
pub proof fn lemma_push_then_pop<K, V>(stack: Seq<Map<K, V>>, context: Map<K, V>)
    ensures
        (seq![context] + stack)[0] == context,
        (seq![context] + stack).drop_first() == stack,
{
    assert((seq![context] + stack).drop_first() =~= stack);
}

} // verus!
