//! Network coordinates: the clipping of coordinate vectors.

use vstd::prelude::*;
use crate::float_bits::{f32_lt, float_less, is_nan, order_key, ZERO_BITS};
use crate::random::{uniform_unit_bits, ONE_BITS};

verus! {

/// Number of components of a coordinate vector.
pub const NC_DIM: usize = 10;

/// The bit pattern of `0.0001f32`, the value a negative component is raised to.
pub const CLIP_FLOOR_BITS: u32 = 0x38d1_b717;

/// The bit pattern of `1000.0f32`, the largest value a component keeps.
pub const CLIP_CEIL_BITS: u32 = 0x447a_0000;

/// The bit pattern of `0.05f32`, the learning rate a node starts with.
pub const INITIAL_LEARN_RATE_BITS: u32 = 0x3d4c_cccd;

/// The coordinates of one node: the vector that predicts its outgoing
/// latencies, the one that predicts its incoming latencies, and its
/// learning rate, each component a `f32` held as its bit pattern.
#[derive(Clone, Copy, Debug)]
pub struct NCNodeData {
    pub outgoing_vec: [u32; NC_DIM],
    pub incoming_vec: [u32; NC_DIM],
    pub learn_rate: u32,
}

/// `v` holds values drawn from `[0, 1)`.
pub open spec fn is_unit_vector(v: [u32; NC_DIM]) -> bool {
    forall|i: int| 0 <= i < NC_DIM ==> #[trigger] v[i] < ONE_BITS
}

fn random_unit_vector() -> (v: [u32; NC_DIM])
    ensures
        is_unit_vector(v),
{
    let mut v: [u32; NC_DIM] = [0u32; NC_DIM];
    let mut i: usize = 0;
    while i < NC_DIM
        invariant
            0 <= i <= NC_DIM,
            forall|j: int| 0 <= j < NC_DIM ==> #[trigger] v[j] < ONE_BITS,
        decreases NC_DIM - i,
    {
        v[i] = uniform_unit_bits();
        i = i + 1;
    }
    v
}

impl NCNodeData {
    /// Fresh coordinates: every component of both vectors drawn uniformly
    /// from `[0, 1)`, and the learning rate `0.05`.
    pub fn new() -> (d: NCNodeData)
        ensures
            is_unit_vector(d.outgoing_vec),
            is_unit_vector(d.incoming_vec),
            d.learn_rate == INITIAL_LEARN_RATE_BITS,
    {
        let outgoing_vec = random_unit_vector();
        let incoming_vec = random_unit_vector();
        NCNodeData { outgoing_vec, incoming_vec, learn_rate: INITIAL_LEARN_RATE_BITS }
    }
}

/// One component after clipping: a value below zero becomes `0.0001`, and
/// then a value above `1000` becomes `1000`; anything else, NaN included,
/// is left as it is.
pub open spec fn clip_component(b: u32) -> u32 {
    let raised = if f32_lt(b, ZERO_BITS) { CLIP_FLOOR_BITS } else { b };
    if f32_lt(CLIP_CEIL_BITS, raised) { CLIP_CEIL_BITS } else { raised }
}

/// Clips every component of a coordinate vector into `[0, 1000]`
/// (a negative component becomes `0.0001`).
pub fn clip_nc(a: &mut [u32; NC_DIM])
    ensures
        forall|i: int| 0 <= i < NC_DIM ==> final(a)[i] == clip_component(old(a)[i]),
        forall|i: int| 0 <= i < NC_DIM ==> {
            let b = #[trigger] old(a)[i];
            &&& is_nan(b) ==> final(a)[i] == b
            &&& !is_nan(b) && order_key(b) < 0 ==> final(a)[i] == 0x38d1_b717u32
            &&& !is_nan(b) && 0 <= order_key(b) <= 0x447a_0000 ==> final(a)[i] == b
            &&& !is_nan(b) && order_key(b) > 0x447a_0000 ==> final(a)[i] == 0x447a_0000u32
        },
{
    let mut i: usize = 0;
    while i < NC_DIM
        invariant
            0 <= i <= NC_DIM,
            forall|j: int| 0 <= j < i ==> a[j] == clip_component(old(a)[j]),
            forall|j: int| i <= j < NC_DIM ==> a[j] == old(a)[j],
        decreases NC_DIM - i,
    {
        if float_less(a[i], ZERO_BITS) {
            a[i] = CLIP_FLOOR_BITS;
        }
        if float_less(CLIP_CEIL_BITS, a[i]) {
            a[i] = CLIP_CEIL_BITS;
        }
        i = i + 1;
    }
    proof {
        assert forall|i: int| 0 <= i < NC_DIM implies {
            let b = #[trigger] old(a)[i];
            &&& is_nan(b) ==> a[i] == b
            &&& !is_nan(b) && order_key(b) < 0 ==> a[i] == 0x38d1_b717u32
            &&& !is_nan(b) && 0 <= order_key(b) <= 0x447a_0000 ==> a[i] == b
            &&& !is_nan(b) && order_key(b) > 0x447a_0000 ==> a[i] == 0x447a_0000u32
        } by {
            lemma_clip_characterized(old(a)[i]);
        }
    }
}

/// Clipping twice is clipping once.
pub proof fn lemma_clip_idempotent(b: u32)
    ensures
        clip_component(clip_component(b)) == clip_component(b),
{
}

/// A clipped component that is not a NaN lies in `[0, 1000]`.
pub proof fn lemma_clip_range(b: u32)
    requires
        !is_nan(b),
    ensures
        !is_nan(clip_component(b)),
        0 <= order_key(clip_component(b)) <= order_key(CLIP_CEIL_BITS),
{
}

/// What clipping does to one component, by where the value lies on the
/// real line: a NaN is kept; a value below zero becomes `0.0001`
/// (`0x38d1_b717`); a value in `[0, 1000]` is kept as it is, bit for bit;
/// a value above `1000` (`0x447a_0000`) becomes `1000`.
pub proof fn lemma_clip_characterized(b: u32)
    ensures
        is_nan(b) ==> clip_component(b) == b,
        !is_nan(b) && order_key(b) < 0 ==> clip_component(b) == 0x38d1_b717u32,
        !is_nan(b) && 0 <= order_key(b) <= 0x447a_0000 ==> clip_component(b) == b,
        !is_nan(b) && order_key(b) > 0x447a_0000 ==> clip_component(b) == 0x447a_0000u32,
{
}

} // verus!
