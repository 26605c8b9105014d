//! Landmark measurements in a generated network: each node measures its
//! shortest-path latency to 32 nodes drawn at random and to each of its
//! neighbours.

use vstd::prelude::*;
use std::collections::HashMap;
use crate::random::uniform_index;

verus! {

broadcast use vstd::std_specs::hash::group_hash_axioms;

/// How many landmarks of a node are drawn at random.
pub const RANDOM_LANDMARKS: usize = 32;

/// The landmarks of one node of a network of `node_count` nodes: 32 node
/// indices drawn uniformly (repeats allowed), followed by the node's
/// `neighbors` in the order given.
pub fn choose_landmarks(node_count: usize, neighbors: &Vec<usize>) -> (r: Vec<usize>)
    requires
        node_count > 0,
    ensures
        r.len() == RANDOM_LANDMARKS + neighbors.len(),
        forall|k: int| 0 <= k < RANDOM_LANDMARKS ==> #[trigger] r@[k] < node_count,
        r@.skip(RANDOM_LANDMARKS as int) == neighbors@,
{
    let mut r: Vec<usize> = Vec::new();
    let mut k: usize = 0;
    while k < RANDOM_LANDMARKS
        invariant
            k <= RANDOM_LANDMARKS,
            r.len() == k,
            node_count > 0,
            forall|i: int| 0 <= i < k ==> #[trigger] r@[i] < node_count,
        decreases RANDOM_LANDMARKS - k,
    {
        let n = uniform_index(node_count);
        r.push(n);
        k = k + 1;
    }
    let mut j: usize = 0;
    while j < neighbors.len()
        invariant
            j <= neighbors.len(),
            r.len() == RANDOM_LANDMARKS + j,
            forall|i: int| 0 <= i < RANDOM_LANDMARKS ==> #[trigger] r@[i] < node_count,
            r@.skip(RANDOM_LANDMARKS as int) == neighbors@.take(j as int),
        decreases neighbors.len() - j,
    {
        let ghost before = r@;
        r.push(neighbors[j]);
        proof {
            assert(r@.skip(RANDOM_LANDMARKS as int) =~= before.skip(RANDOM_LANDMARKS as int).push(neighbors@[j as int]));
            assert(neighbors@.take(j + 1) =~= neighbors@.take(j as int).push(neighbors@[j as int]));
        }
        j = j + 1;
    }
    proof {
        assert(neighbors@.take(neighbors.len() as int) =~= neighbors@);
    }
    r
}

/// Pairs each landmark with its distance from the measuring node, given the
/// shortest-path distances (as `f32` bit patterns) of the nodes reachable
/// from it. `None` exactly when some landmark is not reachable.
pub fn landmark_metrics(landmarks: &Vec<usize>, distances: &HashMap<usize, u32>) -> (r: Option<Vec<(usize, u32)>>)
    ensures
        r is Some <==> forall|k: int| 0 <= k < landmarks.len() ==> distances@.contains_key(#[trigger] landmarks@[k]),
        r matches Some(v) ==> {
            &&& v.len() == landmarks.len()
            &&& forall|k: int| 0 <= k < v.len() ==>
                #[trigger] v@[k] == (landmarks@[k], distances@[landmarks@[k]])
        },
{
    let mut v: Vec<(usize, u32)> = Vec::new();
    let mut k: usize = 0;
    while k < landmarks.len()
        invariant
            k <= landmarks.len(),
            v.len() == k,
            forall|i: int| 0 <= i < k ==> distances@.contains_key(#[trigger] landmarks@[i]),
            forall|i: int| 0 <= i < k ==>
                #[trigger] v@[i] == (landmarks@[i], distances@[landmarks@[i]]),
        decreases landmarks.len() - k,
    {
        let j = landmarks[k];
        match distances.get(&j) {
            Some(d) => {
                v.push((j, *d));
            },
            None => {
                return None;
            },
        }
        k = k + 1;
    }
    Some(v)
}

} // verus!
