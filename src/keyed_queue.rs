use keyed_priority_queue::KeyedPriorityQueue;
use std::collections::hash_map::RandomState;
use std::hash::{BuildHasher, Hash};
use vstd::prelude::*;

use crate::primitives::Blake2bHash;

verus! {

#[verifier::external_type_specification]
#[verifier::external_body]
#[verifier::reject_recursive_types(TKey)]
#[verifier::reject_recursive_types(TPriority)]
#[verifier::reject_recursive_types(S)]
pub struct ExKeyedPriorityQueue<TKey: Hash + Eq, TPriority: Ord, S: BuildHasher>(
    KeyedPriorityQueue<TKey, TPriority, S>,
);

/// The queue used for the mempool's indices: transaction hash to priority.
pub type HashQueue = KeyedPriorityQueue<Blake2bHash, u64, RandomState>;

/// What a queue holds: each key with its priority.
pub uninterp spec fn queue_contents(q: HashQueue) -> Map<Blake2bHash, u64>;

/// The contents of an empty queue.
pub open spec fn no_entries() -> Map<Blake2bHash, u64> {
    Map::empty()
}

/// Relies on `KeyedPriorityQueue::new`: the new queue is empty.
#[verifier::external_body]
pub fn queue_new() -> (r: HashQueue)
    ensures
        queue_contents(r) == no_entries(),
{
    KeyedPriorityQueue::new()
}

/// Relies on `KeyedPriorityQueue::push`: the key is stored with the given
/// priority, replacing any priority it had.
#[verifier::external_body]
pub fn queue_push(q: &mut HashQueue, key: Blake2bHash, priority: u64)
    ensures
        queue_contents(*final(q)) == queue_contents(*old(q)).insert(key, priority),
{
    q.push(key, priority);
}

/// Relies on `KeyedPriorityQueue::remove`: the key leaves the queue, and its
/// priority is returned if it was there.
#[verifier::external_body]
pub fn queue_remove(q: &mut HashQueue, key: &Blake2bHash) -> (r: Option<u64>)
    ensures
        queue_contents(*final(q)) == queue_contents(*old(q)).remove(*key),
        queue_contents(*old(q)).contains_key(*key) ==> r == Some(queue_contents(*old(q))[*key]),
        !queue_contents(*old(q)).contains_key(*key) ==> r is None,
{
    q.remove(key)
}

/// Relies on `KeyedPriorityQueue::peek`: a key of maximal priority, or `None`
/// when the queue is empty.
#[verifier::external_body]
pub fn queue_peek(q: &HashQueue) -> (r: Option<(Blake2bHash, u64)>)
    ensures
        r is None <==> queue_contents(*q) == no_entries(),
        r matches Some((k, p)) ==> {
            &&& queue_contents(*q).contains_key(k)
            &&& queue_contents(*q)[k] == p
            &&& forall|k2: Blake2bHash| #[trigger]
                queue_contents(*q).contains_key(k2) ==> queue_contents(*q)[k2] <= p
        },
{
    q.peek().map(|(k, p)| (*k, *p))
}

} // verus!
