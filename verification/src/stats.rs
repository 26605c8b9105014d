//! The error percentiles that the coordinate training reports: the relative
//! errors are put in the order of a stable sort by `f32::partial_cmp`, and
//! nine of them are picked at tenths of the way through.

use vstd::prelude::*;
use crate::float_bits::{float_order_key, is_nan, order_key};

verus! {

/// Number of percentiles reported.
pub const PERCENTILE_COUNT: usize = 9;

/// Position `i` comes before position `j` in `keys` when its key is smaller,
/// or when the keys are equal and `i` comes first (a stable order).
pub open spec fn key_before(keys: Seq<i64>, i: int, j: int) -> bool {
    keys[i] < keys[j] || (keys[i] == keys[j] && i < j)
}

/// `p` lists the positions `lo..hi` of `keys`, each once, in stable key order.
pub open spec fn is_stable_key_order(keys: Seq<i64>, lo: int, hi: int, p: Seq<usize>) -> bool {
    &&& p.len() == hi - lo
    &&& forall|k: int| 0 <= k < p.len() ==> lo <= #[trigger] p[k] < hi
    &&& forall|k: int, l: int|
        0 <= k < l < p.len() ==> key_before(keys, #[trigger] p[k] as int, #[trigger] p[l] as int)
}

/// The keys by which `partial_cmp` orders the values of `v`.
pub open spec fn float_keys(v: Seq<u32>) -> Seq<i64> {
    Seq::new(v.len(), |i: int| order_key(v[i]) as i64)
}

/// `p` lists the positions of `v` in the order in which a stable sort by
/// `f32::partial_cmp` puts the values (for values that hold no NaN).
pub open spec fn is_stable_float_order(v: Seq<u32>, p: Seq<usize>) -> bool {
    is_stable_key_order(float_keys(v), 0, v.len() as int, p)
}

/// The rank of the `i`-th reported percentile among `len` sorted values.
pub open spec fn percentile_rank(i: int, len: int) -> int {
    (i * (len - 1)) / 10
}

fn merge_positions(keys: &Vec<i64>, a: Vec<usize>, b: Vec<usize>, lo: usize, mid: usize, hi: usize) -> (r: Vec<usize>)
    requires
        lo <= mid <= hi <= keys.len(),
        is_stable_key_order(keys@, lo as int, mid as int, a@),
        is_stable_key_order(keys@, mid as int, hi as int, b@),
    ensures
        is_stable_key_order(keys@, lo as int, hi as int, r@),
{
    let mut r: Vec<usize> = Vec::new();
    let mut ia: usize = 0;
    let mut ib: usize = 0;
    while ia < a.len() || ib < b.len()
        invariant
            lo <= mid <= hi <= keys.len(),
            is_stable_key_order(keys@, lo as int, mid as int, a@),
            is_stable_key_order(keys@, mid as int, hi as int, b@),
            0 <= ia <= a.len(),
            0 <= ib <= b.len(),
            r.len() == ia + ib,
            forall|k: int| 0 <= k < r.len() ==> lo <= #[trigger] r@[k] < hi,
            forall|k: int, l: int|
                0 <= k < l < r.len() ==> key_before(keys@, #[trigger] r@[k] as int, #[trigger] r@[l] as int),
            forall|k: int, x: int|
                0 <= k < r.len() && ia <= x < a.len() ==> key_before(keys@, #[trigger] r@[k] as int, #[trigger] a@[x] as int),
            forall|k: int, x: int|
                0 <= k < r.len() && ib <= x < b.len() ==> key_before(keys@, #[trigger] r@[k] as int, #[trigger] b@[x] as int),
        decreases a.len() + b.len() - ia - ib,
    {
        let take_a = if ia < a.len() && ib < b.len() {
            let x = a[ia];
            let y = b[ib];
            keys[x] < keys[y] || (keys[x] == keys[y] && x < y)
        } else {
            ia < a.len()
        };
        if take_a {
            let x = a[ia];
            proof {
                assert forall|y: int| ib <= y < b.len() implies key_before(keys@, x as int, #[trigger] b@[y] as int) by {
                    if y > ib {
                        assert(key_before(keys@, b@[ib as int] as int, b@[y] as int));
                    }
                }
            }
            r.push(x);
            ia = ia + 1;
        } else {
            let y = b[ib];
            proof {
                assert forall|x: int| ia <= x < a.len() implies key_before(keys@, y as int, #[trigger] a@[x] as int) by {
                    assert(a@[ia as int] < mid <= y);
                    if x > ia {
                        assert(key_before(keys@, a@[ia as int] as int, a@[x] as int));
                    }
                }
            }
            r.push(y);
            ib = ib + 1;
        }
    }
    r
}

fn sort_positions(keys: &Vec<i64>, lo: usize, hi: usize) -> (p: Vec<usize>)
    requires
        lo <= hi <= keys.len(),
    ensures
        is_stable_key_order(keys@, lo as int, hi as int, p@),
    decreases hi - lo,
{
    if hi - lo <= 1 {
        let mut p: Vec<usize> = Vec::new();
        if lo < hi {
            p.push(lo);
        }
        p
    } else {
        let mid = lo + (hi - lo) / 2;
        let a = sort_positions(keys, lo, mid);
        let b = sort_positions(keys, mid, hi);
        merge_positions(keys, a, b, lo, mid, hi)
    }
}

/// The positions of `values` in the order of a stable sort by their
/// `order_key`; for values that hold no NaN this is the order in which a
/// stable sort by `f32::partial_cmp` puts them.
pub fn stable_float_order(values: &Vec<u32>) -> (p: Vec<usize>)
    ensures
        is_stable_float_order(values@, p@),
{
    let mut keys: Vec<i64> = Vec::new();
    let mut i: usize = 0;
    while i < values.len()
        invariant
            i <= values.len(),
            keys.len() == i,
            forall|j: int| 0 <= j < i ==> keys@[j] == order_key(values@[j]),
        decreases values.len() - i,
    {
        let k = float_order_key(values[i]);
        keys.push(k);
        i = i + 1;
    }
    assert(keys@ =~= float_keys(values@));
    sort_positions(&keys, 0, values.len())
}

/// The nine error percentiles of the training report: the values of
/// `errors` at ranks `i * (len - 1) / 10`, for `i` in `1..10`, of their
/// stable sort by `f32::partial_cmp`. The report panics on an empty list
/// (`len - 1`), on a rank that overflows, and on a NaN that the sort has
/// to compare, which it does whenever there are two values or more.
pub fn error_percentiles(errors: &Vec<u32>) -> (r: [u32; PERCENTILE_COUNT])
    requires
        errors.len() >= 1,
        9 * (errors.len() - 1) <= usize::MAX,
        errors.len() >= 2 ==> forall|i: int| 0 <= i < errors.len() ==> !is_nan(#[trigger] errors@[i]),
    ensures
        exists|p: Seq<usize>|
            #[trigger] is_stable_float_order(errors@, p)
            && forall|k: int| 0 <= k < PERCENTILE_COUNT ==>
                r[k] == errors@[p[percentile_rank(k + 1, errors.len() as int)] as int],
        forall|k: int| 0 <= k < PERCENTILE_COUNT - 1 ==>
            order_key(#[trigger] r[k]) <= order_key(r[k + 1]),
{
    let order = stable_float_order(errors);
    let l = errors.len();
    let mut r: [u32; PERCENTILE_COUNT] = [0u32; PERCENTILE_COUNT];
    let mut i: usize = 1;
    while i < 10
        invariant
            1 <= i <= 10,
            l == errors.len(),
            l >= 1,
            9 * (l - 1) <= usize::MAX,
            is_stable_float_order(errors@, order@),
            forall|k: int| 0 <= k < i - 1 ==>
                r[k] == errors@[order@[percentile_rank(k + 1, l as int)] as int],
        decreases 10 - i,
    {
        assert(i * (l - 1) <= 9 * (l - 1)) by (nonlinear_arith)
            requires 1 <= i <= 9, l >= 1;
        assert((i * (l - 1)) / 10 < l) by (nonlinear_arith)
            requires i <= 9, l >= 1, i * (l - 1) <= 9 * (l - 1);
        let rank = (i * (l - 1)) / 10;
        r[i - 1] = errors[order[rank]];
        i = i + 1;
    }
    proof {
        assert forall|k: int| 0 <= k < PERCENTILE_COUNT - 1 implies
            order_key(#[trigger] r[k]) <= order_key(r[k + 1]) by {
            let a = percentile_rank(k + 1, l as int);
            let b = percentile_rank(k + 2, l as int);
            assert((k + 1) * (l - 1) <= (k + 2) * (l - 1)) by (nonlinear_arith)
                requires 0 <= k, l >= 1;
            assert(a <= b) by (nonlinear_arith)
                requires (k + 1) * (l - 1) <= (k + 2) * (l - 1),
                    a == ((k + 1) * (l - 1)) / 10, b == ((k + 2) * (l - 1)) / 10;
            assert((k + 2) * (l - 1) <= 9 * (l - 1)) by (nonlinear_arith)
                requires k + 2 <= 9, l >= 1;
            assert(b < l) by (nonlinear_arith)
                requires (k + 2) * (l - 1) <= 9 * (l - 1), l >= 1, b == ((k + 2) * (l - 1)) / 10;
            assert(0 <= a) by (nonlinear_arith)
                requires 0 <= k, l >= 1, a == ((k + 1) * (l - 1)) / 10;
            if a < b {
                assert(key_before(float_keys(errors@), order@[a] as int, order@[b] as int));
            }
        }
    }
    r
}

/// A stable float order lists every position of the values exactly once.
pub proof fn lemma_stable_order_is_permutation(v: Seq<u32>, p: Seq<usize>)
    requires
        v.len() <= usize::MAX,
        is_stable_float_order(v, p),
    ensures
        p.no_duplicates(),
        forall|i: usize| i < v.len() ==> p.contains(i),
{
    let keys = float_keys(v);
    assert forall|k: int, l: int| 0 <= k < p.len() && 0 <= l < p.len() && k != l implies p[k] != p[l] by {
        if k < l {
            assert(key_before(keys, p[k] as int, p[l] as int));
        } else {
            assert(key_before(keys, p[l] as int, p[k] as int));
        }
    }
    let range = Set::new(|i: usize| i < v.len());
    assert(range =~= <usize as vstd::set_lib::FiniteRange>::range_set(0, v.len() as usize));
    vstd::set_lib::range_set_properties::<usize>(0, v.len() as usize);
    p.unique_seq_to_set();
    assert(p.to_set().subset_of(range));
    vstd::set_lib::lemma_subset_equality(p.to_set(), range);
    assert forall|i: usize| i < v.len() implies p.contains(i) by {
        assert(range.contains(i));
        assert(p.to_set().contains(i));
    }
}

} // verus!
