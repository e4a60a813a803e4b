//! Searching a vector with a predicate.
use vstd::prelude::*;

verus! {

/// The index of the first element of `vector` that `predicate` holds for, or
/// 0 if it holds for none. Elements after the first match are not asked.
pub fn index_of_first_match<T, Fun>(predicate: Fun, vector: &Vec<T>) -> (ret: usize) where
    Fun: Fn(&T) -> bool,

    requires
        forall|i: int| 0 <= i < vector@.len() ==> call_requires(predicate, (&vector@[i],)),
    ensures
        forall|j: int| 0 <= j < ret ==> call_ensures(predicate, (&vector@[j],), false),
        (ret < vector@.len() && call_ensures(predicate, (&vector@[ret as int],), true)) || (ret == 0
            && forall|j: int| 0 <= j < vector@.len() ==> call_ensures(predicate, (&vector@[j],), false)),
{
    let n = vector.len();
    let mut i: usize = 0;
    while i < n
        invariant
            n == vector@.len(),
            i <= n,
            forall|k: int| 0 <= k < vector@.len() ==> call_requires(predicate, (&vector@[k],)),
            forall|j: int| 0 <= j < i ==> call_ensures(predicate, (&vector@[j],), false),
        decreases n - i,
    {
        if predicate(&vector[i]) {
            return i;
        }
        i += 1;
    }
    0
}

/// The position, counted from the end of `vector` (0 for the last element),
/// of the last element that `predicate` holds for, or 0 if it holds for none.
/// Elements before the last match are not asked.
pub fn index_of_last_match<T, Fun>(predicate: Fun, vector: &Vec<T>) -> (ret: usize) where
    Fun: Fn(&T) -> bool,

    requires
        forall|i: int| 0 <= i < vector@.len() ==> call_requires(predicate, (&vector@[i],)),
    ensures
        forall|k: int|
            vector@.len() - ret <= k < vector@.len() ==> call_ensures(predicate, (&vector@[k],), false),
        (ret < vector@.len() && call_ensures(predicate, (&vector@[vector@.len() - 1 - ret],), true)) || (
        ret == 0 && forall|k: int| 0 <= k < vector@.len() ==> call_ensures(predicate, (&vector@[k],), false)),
{
    let n = vector.len();
    let mut i: usize = 0;
    while i < n
        invariant
            n == vector@.len(),
            i <= n,
            forall|k: int| 0 <= k < vector@.len() ==> call_requires(predicate, (&vector@[k],)),
            forall|k: int| n - i <= k < n ==> call_ensures(predicate, (&vector@[k],), false),
        decreases n - i,
    {
        if predicate(&vector[n - 1 - i]) {
            return i;
        }
        i += 1;
    }
    0
}

} // verus!
