//! The context stack itself: an ordered collection of hash-map contexts
//! treated as a single map, with the front context ("local") taking
//! precedence and receiving every write.

use std::collections::BTreeMap;
use std::collections::HashMap;
use std::hash::Hash;
use vstd::pervasive::unreached;
use vstd::prelude::*;
use vstd::std_specs::btree::key_obeys_cmp_spec;
use vstd::std_specs::hash::obeys_key_model;

use crate::model::first_from;
use crate::model::insert_pairs;
use crate::model::lemma_insert_pairs_union;
use crate::model::pairs_map;
use crate::model::stack_collapse;
use crate::model::stack_get;
use crate::model::stack_get_from;
use crate::model::stack_get_local;
use crate::model::stack_remove_all;
use crate::model::values_from;

verus! {

/// Relies on `HashMap::get_mut`: the returned reference points at the value
/// stored for `key` (`None` when the key is absent), and whatever the caller
/// writes through it becomes the map's value for that key; no other entry
/// changes.
#[verifier::external_body]
fn map_get_mut<'a, K: Hash + Eq, V>(m: &'a mut HashMap<K, V>, key: &K) -> (result: Option<
    &'a mut V,
>)
    ensures
        obeys_key_model::<K>() ==> {
            &&& result is Some <==> old(m)@.contains_key(*key)
            &&& result is Some ==> *result.unwrap() == old(m)@[*key] && final(m)@ == old(
                m,
            )@.insert(*key, *final(result.unwrap()))
            &&& result is None ==> final(m)@ == old(m)@
        },
{
    m.get_mut(key)
}

/// Relies on `HashMap`'s `Extend` implementation: every entry of `src` is
/// inserted into `dst`, so for a key held by both maps the entry of `src`
/// wins, and every other entry of `dst` is kept.
#[verifier::external_body]
fn map_extend<K: Hash + Eq, V>(dst: &mut HashMap<K, V>, src: HashMap<K, V>)
    ensures
        obeys_key_model::<K>() ==> final(dst)@ == old(dst)@.union_prefer_right(src@),
{
    dst.extend(src);
}

/// Relies on `BTreeMap`'s `Extend` implementation: every entry of `src` is
/// inserted into `dst`, so for a key held by both maps the entry of `src`
/// wins, and every other entry of `dst` is kept.
#[verifier::external_body]
fn btree_extend<K: Ord, V>(dst: &mut BTreeMap<K, V>, src: HashMap<K, V>)
    ensures
        obeys_key_model::<K>() && key_obeys_cmp_spec::<K>() ==> final(dst)@ == old(
            dst,
        )@.union_prefer_right(src@),
{
    dst.extend(src);
}

/// A singular view into an ordered stack of `HashMap<K, V>` contexts.
///
/// Index 0 of the stack is the front: the local context, the sole target of
/// insertions and removals, and the highest precedence for lookups. The
/// stack may be empty, in which case every read resolves to nothing and
/// every local-scoped write is a no-op.
pub struct ContextManager<K, V> {
    inner: Vec<HashMap<K, V>>,
}

/// The stack of per-context maps modeled by a sequence of hash maps.
pub open spec fn views_of<K, V>(maps: Seq<HashMap<K, V>>) -> Seq<Map<K, V>> {
    Seq::new(maps.len(), |i: int| maps[i]@)
}

/// Replacing one hash map in a sequence replaces exactly its entry in the
/// modeled stack.
proof fn lemma_views_of_update<K, V>(maps: Seq<HashMap<K, V>>, i: int)
    requires
        0 <= i < maps.len(),
    ensures
        forall|h: HashMap<K, V>| #[trigger] views_of(maps.update(i, h)) == views_of(
            maps,
        ).update(i, h@),
{
    assert forall|h: HashMap<K, V>| #[trigger] views_of(maps.update(i, h)) == views_of(
        maps,
    ).update(i, h@) by {
        assert(views_of(maps.update(i, h)) =~= views_of(maps).update(i, h@));
    }
}

/// Appending one hash map to a sequence appends exactly its entry to the
/// modeled stack.
proof fn lemma_views_of_push<K, V>(maps: Seq<HashMap<K, V>>)
    ensures
        forall|h: HashMap<K, V>| #[trigger] views_of(maps.push(h)) == views_of(maps).push(h@),
{
    assert forall|h: HashMap<K, V>| #[trigger] views_of(maps.push(h)) == views_of(maps).push(
        h@,
    ) by {
        assert(views_of(maps.push(h)) =~= views_of(maps).push(h@));
    }
}

impl<K, V> View for ContextManager<K, V> {
    type V = Seq<Map<K, V>>;

    closed spec fn view(&self) -> Seq<Map<K, V>> {
        views_of(self.inner@)
    }
}

impl<K, V> Default for ContextManager<K, V> {
    /// Creates an empty `ContextManager<K, V>` with no contexts.
    fn default() -> (result: Self)
        ensures
            result@ == Seq::<Map<K, V>>::empty(),
    {
        let result = ContextManager { inner: Vec::new() };
        proof {
            assert(result@ =~= Seq::<Map<K, V>>::empty());
        }
        result
    }
}

impl<K, V> ContextManager<K, V> {
    /// Creates an empty context manager.
    pub fn new() -> (result: Self)
        ensures
            result@ == Seq::<Map<K, V>>::empty(),
    {
        Self::default()
    }

    /// Creates an empty context manager with space reserved for `capacity`
    /// contexts.
    pub fn with_capacity(capacity: usize) -> (result: Self)
        ensures
            result@ == Seq::<Map<K, V>>::empty(),
    {
        let result = ContextManager { inner: Vec::with_capacity(capacity) };
        proof {
            assert(result@ =~= Seq::<Map<K, V>>::empty());
        }
        result
    }

    /// Creates a context manager initialized with a single empty context.
    pub fn with_empty() -> (result: Self)
        ensures
            result@ == seq![Map::<K, V>::empty()],
    {
        let mut inner: Vec<HashMap<K, V>> = Vec::new();
        inner.push(HashMap::new());
        let result = ContextManager { inner };
        proof {
            assert(result@ =~= seq![Map::<K, V>::empty()]);
        }
        result
    }

    /// Creates a context manager whose sole context is `initial`.
    pub fn from_context(initial: HashMap<K, V>) -> (result: Self)
        ensures
            result@ == seq![initial@],
    {
        let mut inner: Vec<HashMap<K, V>> = Vec::new();
        inner.push(initial);
        let result = ContextManager { inner };
        proof {
            assert(result@ =~= seq![result.inner@[0]@]);
        }
        result
    }

    /// Creates a context manager holding the given contexts, with
    /// precedence proceeding from the first toward the last.
    pub fn from_contexts(initial: Vec<HashMap<K, V>>) -> (result: Self)
        ensures
            result@ == views_of(initial@),
    {
        ContextManager { inner: initial }
    }

    /// The number of contexts in the manager.
    pub fn len(&self) -> (n: usize)
        ensures
            n == self@.len(),
    {
        self.inner.len()
    }

    /// Whether the manager holds no contexts at all.
    pub fn is_empty(&self) -> (empty: bool)
        ensures
            empty == (self@.len() == 0),
    {
        self.inner.is_empty()
    }

    /// Adds `context` as the new front (local) context.
    pub fn push(&mut self, context: HashMap<K, V>)
        ensures
            final(self)@ == seq![context@] + old(self)@,
    {
        self.inner.insert(0, context);
        proof {
            assert(final(self)@ =~= seq![context@] + old(self)@);
        }
    }

    /// Adds a freshly created empty context as the new front.
    pub fn push_empty(&mut self)
        ensures
            final(self)@ == seq![Map::<K, V>::empty()] + old(self)@,
    {
        self.push(HashMap::new());
    }

    /// Removes and returns the front context, transferring ownership to the
    /// caller; yields `None` when the stack is empty.
    pub fn pop(&mut self) -> (popped: Option<HashMap<K, V>>)
        ensures
            old(self)@.len() == 0 ==> popped is None && final(self)@ == old(self)@,
            old(self)@.len() > 0 ==> {
                &&& popped is Some
                &&& popped.unwrap()@ == old(self)@[0]
                &&& final(self)@ == old(self)@.drop_first()
            },
    {
        if self.inner.len() == 0 {
            None
        } else {
            let front = self.inner.remove(0);
            proof {
                assert(final(self)@ =~= old(self)@.drop_first());
            }
            Some(front)
        }
    }
}

impl<K: Hash + Eq, V> ContextManager<K, V> {
    /// Looks `key` up starting with the context at `index` and scanning
    /// toward the back; a start at or past the number of contexts is a
    /// valid query that matches nothing.
    pub fn get_from(&self, index: usize, key: &K) -> (result: Option<&V>)
        requires
            obeys_key_model::<K>(),
        ensures
            match result {
                Some(v) => stack_get_from(self@, index as int, *key) == Some(*v),
                None => stack_get_from(self@, index as int, *key) is None,
            },
    {
        let mut i: usize = index;
        while i < self.inner.len()
            invariant
                obeys_key_model::<K>(),
                index <= i,
                first_from(self@, index as int, *key) == first_from(self@, i as int, *key),
            decreases self.inner@.len() - i,
        {
            match self.inner[i].get(key) {
                Some(v) => {
                    return Some(v);
                },
                None => {},
            }
            i = i + 1;
        }
        None
    }

    /// Looks `key` up in every context, front to back, and returns the
    /// first (highest-precedence) match.
    pub fn get(&self, key: &K) -> (result: Option<&V>)
        requires
            obeys_key_model::<K>(),
        ensures
            match result {
                Some(v) => stack_get(self@, *key) == Some(*v),
                None => stack_get(self@, *key) is None,
            },
    {
        self.get_from(0, key)
    }

    /// Looks `key` up in the front (local) context only.
    pub fn get_local(&self, key: &K) -> (result: Option<&V>)
        requires
            obeys_key_model::<K>(),
        ensures
            match result {
                Some(v) => stack_get_local(self@, *key) == Some(*v),
                None => stack_get_local(self@, *key) is None,
            },
    {
        if self.inner.len() == 0 {
            None
        } else {
            self.inner[0].get(key)
        }
    }

    /// Whether any context holds `key`.
    pub fn contains_key(&self, key: &K) -> (present: bool)
        requires
            obeys_key_model::<K>(),
        ensures
            present == (stack_get(self@, *key) is Some),
    {
        self.get(key).is_some()
    }

    /// Whether the front (local) context holds `key`.
    pub fn contains_local_key(&self, key: &K) -> (present: bool)
        requires
            obeys_key_model::<K>(),
        ensures
            present == (self@.len() > 0 && self@[0].contains_key(*key)),
    {
        self.inner.len() > 0 && self.inner[0].contains_key(key)
    }

    /// One value per context that holds `key`, collected in front-to-back
    /// (highest-to-lowest precedence) order; empty if the key is absent
    /// everywhere.
    pub fn get_all(&self, key: &K) -> (result: Vec<&V>)
        requires
            obeys_key_model::<K>(),
        ensures
            result@.unref() == values_from(self@, 0, *key),
    {
        let mut result: Vec<&V> = Vec::new();
        let mut i: usize = 0;
        proof {
            assert(result@.unref() + values_from(self@, 0, *key) =~= values_from(
                self@,
                0,
                *key,
            ));
        }
        while i < self.inner.len()
            invariant
                obeys_key_model::<K>(),
                result@.unref() + values_from(self@, i as int, *key) == values_from(
                    self@,
                    0,
                    *key,
                ),
            decreases self.inner@.len() - i,
        {
            match self.inner[i].get(key) {
                Some(v) => {
                    let ghost prev = result@;
                    result.push(v);
                    proof {
                        assert(result@.unref() =~= prev.unref().push(*v));
                        assert(result@.unref() + values_from(self@, i + 1, *key) =~= prev.unref()
                            + values_from(self@, i as int, *key));
                    }
                },
                None => {},
            }
            i = i + 1;
        }
        proof {
            assert(result@.unref() + values_from(self@, i as int, *key) =~= result@.unref());
        }
        result
    }

    /// Associates `value` with `key` in the front (local) context, if there
    /// is one, and returns the prior local value for that key; on an empty
    /// stack the write is discarded and `None` is returned. Values of the
    /// same key in deeper contexts are neither reported nor affected.
    pub fn insert(&mut self, key: K, value: V) -> (previous: Option<V>)
        requires
            obeys_key_model::<K>(),
        ensures
            old(self)@.len() == 0 ==> previous is None && final(self)@ == old(self)@,
            old(self)@.len() > 0 ==> {
                &&& final(self)@ == old(self)@.update(0, old(self)@[0].insert(key, value))
                &&& previous == stack_get_local(old(self)@, key)
            },
    {
        if self.inner.len() == 0 {
            None
        } else {
            let m = &mut self.inner[0];
            let previous = m.insert(key, value);
            proof {
                assert(self@ =~= old(self)@.update(0, old(self)@[0].insert(key, value)));
            }
            previous
        }
    }

    /// Deletes `key` from the front (local) context only and returns the
    /// removed value, if any; a value of the same key in a deeper context
    /// is untouched and becomes visible to later lookups.
    pub fn remove(&mut self, key: &K) -> (removed: Option<V>)
        requires
            obeys_key_model::<K>(),
        ensures
            old(self)@.len() == 0 ==> removed is None && final(self)@ == old(self)@,
            old(self)@.len() > 0 ==> {
                &&& final(self)@ == old(self)@.update(0, old(self)@[0].remove(*key))
                &&& removed == stack_get_local(old(self)@, *key)
            },
    {
        if self.inner.len() == 0 {
            None
        } else {
            let m = &mut self.inner[0];
            let removed = m.remove(key);
            proof {
                assert(self@ =~= old(self)@.update(0, old(self)@[0].remove(*key)));
            }
            removed
        }
    }

    /// Deletes `key` from every context that holds it, front to back, and
    /// returns the removed values in that (precedence) order; the contexts
    /// themselves all remain in place.
    pub fn remove_all(&mut self, key: &K) -> (removed: Vec<V>)
        requires
            obeys_key_model::<K>(),
        ensures
            final(self)@ == stack_remove_all(old(self)@, *key),
            removed@ == values_from(old(self)@, 0, *key),
    {
        let ghost orig = self@;
        let mut removed: Vec<V> = Vec::new();
        let mut i: usize = 0;
        proof {
            assert(removed@ + values_from(orig, 0, *key) =~= values_from(orig, 0, *key));
        }
        while i < self.inner.len()
            invariant
                obeys_key_model::<K>(),
                self@.len() == orig.len(),
                i <= orig.len(),
                forall|j: int| 0 <= j < i ==> self@[j] == #[trigger] orig[j].remove(*key),
                forall|j: int| i <= j < orig.len() ==> #[trigger] self@[j] == orig[j],
                removed@ + values_from(orig, i as int, *key) == values_from(orig, 0, *key),
            decreases orig.len() - i,
        {
            let ghost prev = removed@;
            let ghost cur = self.inner@;
            let m = &mut self.inner[i];
            match m.remove(key) {
                Some(v) => removed.push(v),
                None => {},
            }
            proof {
                lemma_views_of_update(cur, i as int);
                assert(views_of(cur)[i as int] == cur[i as int]@);
                if orig[i as int].contains_key(*key) {
                    assert(removed@ + values_from(orig, i + 1, *key) =~= prev + values_from(
                        orig,
                        i as int,
                        *key,
                    ));
                }
            }
            i = i + 1;
        }
        proof {
            assert(self@ =~= stack_remove_all(orig, *key));
            assert(removed@ + values_from(orig, i as int, *key) =~= removed@);
        }
        removed
    }

    /// Looks `key` up starting at `index` and yields a mutable handle to
    /// the first match; writing through the handle updates that one entry
    /// and nothing else.
    pub fn get_mut_from(&mut self, index: usize, key: &K) -> (result: Option<&mut V>)
        requires
            obeys_key_model::<K>(),
        ensures
            result is Some <==> first_from(old(self)@, index as int, *key) is Some,
            result is Some ==> {
                let i = first_from(old(self)@, index as int, *key).unwrap();
                &&& stack_get_from(old(self)@, index as int, *key) == Some(*result.unwrap())
                &&& final(self)@ == old(self)@.update(
                    i,
                    old(self)@[i].insert(*key, *final(result.unwrap())),
                )
            },
            result is None ==> final(self)@ == old(self)@,
    {
        let mut i: usize = index;
        while i < self.inner.len()
            invariant
                obeys_key_model::<K>(),
                index <= i,
                self@ == old(self)@,
                first_from(self@, index as int, *key) == first_from(self@, i as int, *key),
            decreases self.inner@.len() - i,
        {
            if self.inner[i].contains_key(key) {
                let ghost cur = self.inner@;
                let m = &mut self.inner[i];
                let result = map_get_mut(m, key);
                proof {
                    lemma_views_of_update(cur, i as int);
                }
                return result;
            }
            i = i + 1;
        }
        None
    }

    /// Yields a mutable handle to the highest-precedence value for `key`,
    /// scanning the whole stack.
    pub fn get_mut(&mut self, key: &K) -> (result: Option<&mut V>)
        requires
            obeys_key_model::<K>(),
        ensures
            result is Some <==> first_from(old(self)@, 0, *key) is Some,
            result is Some ==> {
                let i = first_from(old(self)@, 0, *key).unwrap();
                &&& stack_get(old(self)@, *key) == Some(*result.unwrap())
                &&& final(self)@ == old(self)@.update(
                    i,
                    old(self)@[i].insert(*key, *final(result.unwrap())),
                )
            },
            result is None ==> final(self)@ == old(self)@,
    {
        self.get_mut_from(0, key)
    }

    /// Yields a mutable handle to the value for `key` in the front (local)
    /// context only.
    pub fn get_local_mut(&mut self, key: &K) -> (result: Option<&mut V>)
        requires
            obeys_key_model::<K>(),
        ensures
            result is Some <==> (old(self)@.len() > 0 && old(self)@[0].contains_key(*key)),
            result is Some ==> stack_get_local(old(self)@, *key) == Some(*result.unwrap())
                && final(self)@ == old(self)@.update(
                0,
                old(self)@[0].insert(*key, *final(result.unwrap())),
            ),
            result is None ==> final(self)@ == old(self)@,
    {
        if self.inner.len() == 0 {
            None
        } else {
            let ghost cur = self.inner@;
            let m = &mut self.inner[0];
            let result = map_get_mut(m, key);
            proof {
                lemma_views_of_update(cur, 0);
                if result is None {
                    assert(views_of(cur).update(0, cur[0]@) =~= views_of(cur));
                }
            }
            result
        }
    }

    /// Direct access to the resolved value for `key`. Reserved for call
    /// sites that have already established that some context holds the
    /// key: absence is ruled out by the precondition rather than reported.
    pub fn index(&self, key: &K) -> (value: &V)
        requires
            obeys_key_model::<K>(),
            stack_get(self@, *key) is Some,
        ensures
            stack_get(self@, *key) == Some(*value),
    {
        match self.get(key) {
            Some(v) => v,
            None => unreached(),
        }
    }

    /// Builds one hash map from `pairs`, inserted in order: the last
    /// occurrence of a repeated key wins.
    fn map_from_pairs(pairs: Vec<(K, V)>) -> (m: HashMap<K, V>)
        requires
            obeys_key_model::<K>(),
        ensures
            m@ == pairs_map(pairs@),
    {
        let ghost orig = pairs@;
        let mut pairs = pairs;
        let mut m: HashMap<K, V> = HashMap::new();
        while pairs.len() > 0
            invariant
                obeys_key_model::<K>(),
                insert_pairs(m@, pairs@) == insert_pairs(Map::<K, V>::empty(), orig),
            decreases pairs@.len(),
        {
            let ghost before = pairs@;
            let pair = pairs.remove(0);
            m.insert(pair.0, pair.1);
            proof {
                assert(before.remove(0) =~= before.drop_first());
            }
        }
        proof {
            lemma_insert_pairs_union(Map::<K, V>::empty(), orig);
            assert(Map::<K, V>::empty().union_prefer_right(pairs_map(orig)) =~= pairs_map(orig));
        }
        m
    }

    /// Creates a context manager whose single context holds the given
    /// key-value pairs; for a repeated key the last occurrence wins.
    pub fn from_pairs(pairs: Vec<(K, V)>) -> (result: Self)
        requires
            obeys_key_model::<K>(),
        ensures
            result@ == seq![pairs_map(pairs@)],
    {
        Self::from_context(Self::map_from_pairs(pairs))
    }

    /// Merges the given pairs into the front (local) context, later pairs
    /// overriding earlier ones and any pre-existing local value; on an
    /// empty stack the pairs become the sole base context.
    pub fn extend(&mut self, pairs: Vec<(K, V)>)
        requires
            obeys_key_model::<K>(),
        ensures
            old(self)@.len() == 0 ==> final(self)@ == seq![pairs_map(pairs@)],
            old(self)@.len() > 0 ==> final(self)@ == old(self)@.update(
                0,
                old(self)@[0].union_prefer_right(pairs_map(pairs@)),
            ),
    {
        let m = Self::map_from_pairs(pairs);
        if self.inner.len() == 0 {
            self.push(m);
            proof {
                assert(seq![pairs_map(pairs@)] + old(self)@ =~= seq![pairs_map(pairs@)]);
            }
        } else {
            let ghost cur = self.inner@;
            let front = &mut self.inner[0];
            map_extend(front, m);
            proof {
                lemma_views_of_update(cur, 0);
                assert(views_of(cur)[0] == cur[0]@);
            }
        }
    }
}

impl<K: Hash + Eq + Clone, V: Clone> ContextManager<K, V> {
    /// Adds a new front context holding the previous front's entries
    /// overridden by those of `context`; the prior front stays untouched
    /// beneath it. On an empty stack `context` becomes the sole base
    /// context.
    pub fn push_with_local(&mut self, context: HashMap<K, V>)
        requires
            obeys_key_model::<K>(),
        ensures
            old(self)@.len() == 0 ==> final(self)@ == seq![context@],
            old(self)@.len() > 0 ==> final(self)@ == seq![
                old(self)@[0].union_prefer_right(context@),
            ] + old(self)@,
    {
        if self.inner.len() == 0 {
            self.inner.push(context);
            proof {
                assert(self@ =~= seq![context@]);
            }
        } else {
            let mut merged = self.inner[0].clone();
            map_extend(&mut merged, context);
            self.inner.insert(0, merged);
            proof {
                assert(self@ =~= seq![old(self)@[0].union_prefer_right(context@)] + old(self)@);
            }
        }
    }
}

impl<K: Clone, V: Clone> ContextManager<K, V> {
    /// Pushes a clone of the front context, producing two historically
    /// identical front layers that diverge under later mutation; a no-op
    /// on an empty stack.
    pub fn push_local(&mut self)
        ensures
            old(self)@.len() == 0 ==> final(self)@ == old(self)@,
            old(self)@.len() > 0 ==> final(self)@ == seq![old(self)@[0]] + old(self)@,
    {
        if self.inner.len() > 0 {
            let context = self.inner[0].clone();
            self.inner.insert(0, context);
            proof {
                assert(self@ =~= seq![old(self)@[0]] + old(self)@);
            }
        }
    }

    /// Produces an independent new stack holding one deep copy of the
    /// front (local) context; `None` on an empty stack.
    pub fn fork(&self) -> (result: Option<Self>)
        ensures
            result is Some <==> self@.len() > 0,
            result is Some ==> result.unwrap()@ == seq![self@[0]],
    {
        if self.inner.len() == 0 {
            None
        } else {
            let mut inner: Vec<HashMap<K, V>> = Vec::new();
            inner.push(self.inner[0].clone());
            let forked = ContextManager { inner };
            proof {
                assert(forked@ =~= seq![self@[0]]);
            }
            Some(forked)
        }
    }

    /// Produces an independent new stack holding deep copies of every
    /// context from the front through `index` inclusive, preserving their
    /// order; `None` when `index` is out of bounds.
    pub fn fork_from(&self, index: usize) -> (result: Option<Self>)
        ensures
            result is Some <==> index < self@.len(),
            result is Some ==> result.unwrap()@ == self@.subrange(0, index + 1),
    {
        if index >= self.inner.len() {
            None
        } else {
            let mut inner: Vec<HashMap<K, V>> = Vec::new();
            let mut i: usize = 0;
            proof {
                assert(views_of(inner@) =~= self@.subrange(0, 0));
            }
            while i <= index
                invariant
                    index < self.inner@.len(),
                    self.inner@.len() <= usize::MAX,
                    i <= index + 1,
                    views_of(inner@) == self@.subrange(0, i as int),
                decreases index + 1 - i,
            {
                let ghost before = inner@;
                inner.push(self.inner[i].clone());
                proof {
                    lemma_views_of_push(before);
                    assert(self@[i as int] == self.inner@[i as int]@);
                    assert(views_of(before).push(self@[i as int]) =~= self@.subrange(0, i + 1));
                }
                i = i + 1;
            }
            Some(ContextManager { inner })
        }
    }
}

impl<K: Clone, V: Clone> Clone for ContextManager<K, V> {
    /// Deep-copies every context and preserves their order exactly.
    fn clone(&self) -> (result: Self)
        ensures
            result@ == self@,
    {
        let mut inner: Vec<HashMap<K, V>> = Vec::new();
        let mut i: usize = 0;
        proof {
            assert(views_of(inner@) =~= self@.subrange(0, 0));
        }
        while i < self.inner.len()
            invariant
                i <= self.inner@.len(),
                views_of(inner@) == self@.subrange(0, i as int),
            decreases self.inner@.len() - i,
        {
            let ghost before = inner@;
            inner.push(self.inner[i].clone());
            proof {
                lemma_views_of_push(before);
                assert(self@[i as int] == self.inner@[i as int]@);
                assert(views_of(before).push(self@[i as int]) =~= self@.subrange(0, i + 1));
            }
            i = i + 1;
        }
        proof {
            assert(self@.subrange(0, self@.len() as int) =~= self@);
        }
        ContextManager { inner }
    }
}

impl<K: Hash + Eq, V> ContextManager<K, V> {
    /// Consumes the stack and aggregates every context into one flat hash
    /// map in which each key holds its highest-precedence value.
    pub fn collapse(self) -> (flat: HashMap<K, V>)
        requires
            obeys_key_model::<K>(),
        ensures
            flat@ == stack_collapse(self@),
    {
        let ghost orig = self@;
        let mut inner = self.inner;
        let mut flat: HashMap<K, V> = HashMap::new();
        while inner.len() > 0
            invariant
                obeys_key_model::<K>(),
                inner@.len() <= orig.len(),
                forall|j: int| 0 <= j < inner@.len() ==> #[trigger] inner@[j]@ == orig[j],
                forall|k: K|
                    #[trigger] flat@.contains_key(k) <==> stack_get_from(
                        orig,
                        inner@.len() as int,
                        k,
                    ) is Some,
                forall|k: K|
                    #[trigger] flat@.contains_key(k) ==> flat@[k] == stack_get_from(
                        orig,
                        inner@.len() as int,
                        k,
                    ).unwrap(),
            decreases inner@.len(),
        {
            let m = inner.pop().unwrap();
            map_extend(&mut flat, m);
        }
        proof {
            assert(flat@ =~= stack_collapse(orig));
        }
        flat
    }

    /// Consumes the stack and merges every context into `target`, each key
    /// taking its highest-precedence stack value and `target`'s
    /// pre-existing entries surviving where no stack key collides.
    pub fn collapse_into(self, target: &mut HashMap<K, V>)
        requires
            obeys_key_model::<K>(),
        ensures
            final(target)@ == old(target)@.union_prefer_right(stack_collapse(self@)),
    {
        let ghost orig = self@;
        let ghost base = target@;
        let mut inner = self.inner;
        while inner.len() > 0
            invariant
                obeys_key_model::<K>(),
                inner@.len() <= orig.len(),
                forall|j: int| 0 <= j < inner@.len() ==> #[trigger] inner@[j]@ == orig[j],
                forall|k: K|
                    #[trigger] target@.contains_key(k) <==> (stack_get_from(
                        orig,
                        inner@.len() as int,
                        k,
                    ) is Some || base.contains_key(k)),
                forall|k: K|
                    #[trigger] target@.contains_key(k) ==> target@[k] == (if stack_get_from(
                        orig,
                        inner@.len() as int,
                        k,
                    ) is Some {
                        stack_get_from(orig, inner@.len() as int, k).unwrap()
                    } else {
                        base[k]
                    }),
            decreases inner@.len(),
        {
            let m = inner.pop().unwrap();
            map_extend(target, m);
        }
        proof {
            assert(target@ =~= base.union_prefer_right(stack_collapse(orig)));
        }
    }
}

impl<K: Ord, V> ContextManager<K, V> {
    /// Consumes the stack and aggregates every context into one ordered
    /// flat map in which each key holds its highest-precedence value.
    pub fn collapse_ordered(self) -> (flat: BTreeMap<K, V>)
        requires
            obeys_key_model::<K>(),
            key_obeys_cmp_spec::<K>(),
        ensures
            flat@ == stack_collapse(self@),
    {
        let ghost orig = self@;
        let mut inner = self.inner;
        let mut flat: BTreeMap<K, V> = BTreeMap::new();
        while inner.len() > 0
            invariant
                obeys_key_model::<K>(),
                key_obeys_cmp_spec::<K>(),
                inner@.len() <= orig.len(),
                forall|j: int| 0 <= j < inner@.len() ==> #[trigger] inner@[j]@ == orig[j],
                forall|k: K|
                    #[trigger] flat@.contains_key(k) <==> stack_get_from(
                        orig,
                        inner@.len() as int,
                        k,
                    ) is Some,
                forall|k: K|
                    #[trigger] flat@.contains_key(k) ==> flat@[k] == stack_get_from(
                        orig,
                        inner@.len() as int,
                        k,
                    ).unwrap(),
            decreases inner@.len(),
        {
            let m = inner.pop().unwrap();
            btree_extend(&mut flat, m);
        }
        proof {
            assert(flat@ =~= stack_collapse(orig));
        }
        flat
    }

    /// Consumes the stack and merges every context into the ordered map
    /// `target`, each key taking its highest-precedence stack value and
    /// `target`'s pre-existing entries surviving where no stack key
    /// collides.
    pub fn collapse_into_ordered(self, target: &mut BTreeMap<K, V>)
        requires
            obeys_key_model::<K>(),
            key_obeys_cmp_spec::<K>(),
        ensures
            final(target)@ == old(target)@.union_prefer_right(stack_collapse(self@)),
    {
        let ghost orig = self@;
        let ghost base = target@;
        let mut inner = self.inner;
        while inner.len() > 0
            invariant
                obeys_key_model::<K>(),
                key_obeys_cmp_spec::<K>(),
                inner@.len() <= orig.len(),
                forall|j: int| 0 <= j < inner@.len() ==> #[trigger] inner@[j]@ == orig[j],
                forall|k: K|
                    #[trigger] target@.contains_key(k) <==> (stack_get_from(
                        orig,
                        inner@.len() as int,
                        k,
                    ) is Some || base.contains_key(k)),
                forall|k: K|
                    #[trigger] target@.contains_key(k) ==> target@[k] == (if stack_get_from(
                        orig,
                        inner@.len() as int,
                        k,
                    ) is Some {
                        stack_get_from(orig, inner@.len() as int, k).unwrap()
                    } else {
                        base[k]
                    }),
            decreases inner@.len(),
        {
            let m = inner.pop().unwrap();
            btree_extend(target, m);
        }
        proof {
            assert(target@ =~= base.union_prefer_right(stack_collapse(orig)));
        }
    }
}

} // verus!
