//! Why the scheduled sort stages sort.
//!
//! The argument is the classical one. A stage only compares keys, so it
//! cannot tell keys from their images under a threshold: if the stages left
//! two keys in the wrong order, they would leave a sequence of zeros and ones
//! unsorted. On zeros and ones, the first stage of a merge turns two sorted
//! neighbouring blocks into two blocks that each rise and fall, with no key
//! of the first above a key of the second, and every further stage does the
//! same to the halves of such blocks, until the blocks are single keys.
//! Records that do not fill the last block behave as if the block were
//! filled up with keys that are as large as a key can be, because such keys
//! would never be moved.

use crate::grid::sorted;
use crate::pipeline::{level_stages, sort_stages, stages_from, MAX_SORTABLE};
use crate::records::SortParams;
use crate::sort::{lemma_partner, partner, run_keys, stage_keys, stage_source};
use vstd::arithmetic::div_mod::lemma_fundamental_div_mod_converse;
use vstd::prelude::*;

verus! {

/// `n` is 1, 2, 4, 8, ...
spec fn is_power_of_two(n: nat) -> bool
    decreases n,
{
    n == 1 || (n > 1 && n % 2 == 0 && is_power_of_two(n / 2))
}

/// The first power of two that is at least `n`.
spec fn next_power_of_two(n: nat) -> nat
    decreases n,
{
    if n <= 1 {
        1
    } else {
        2 * next_power_of_two((n + 1) / 2)
    }
}

/// 0 for a key up to `t`, 1 for a key above it.
spec fn threshold(t: u32, key: u32) -> u32 {
    if key <= t {
        0
    } else {
        1
    }
}

/// The keys, each replaced by 0 or 1 as it lies up to `t` or above.
spec fn thresholded(keys: Seq<u32>, t: u32) -> Seq<u32> {
    Seq::new(keys.len(), |i: int| threshold(t, keys[i]))
}

/// The keys, filled up to `total` keys with the largest key there is.
spec fn padded(keys: Seq<u32>, total: nat) -> Seq<u32> {
    Seq::new(
        if total >= keys.len() {
            total
        } else {
            keys.len()
        },
        |i: int|
            if i < keys.len() {
                keys[i]
            } else {
                u32::MAX
            },
    )
}

/// The smaller of two keys.
spec fn lesser(a: u32, b: u32) -> u32 {
    if a <= b {
        a
    } else {
        b
    }
}

/// The larger of two keys.
spec fn greater(a: u32, b: u32) -> u32 {
    if a <= b {
        b
    } else {
        a
    }
}

/// Every key is 0 or 1.
spec fn zero_one(z: Seq<u32>) -> bool {
    forall|i: int| 0 <= i < z.len() ==> #[trigger] z[i] <= 1
}

/// The keys at `lo`, ..., `lo + size - 1` are all `v`.
spec fn all_equal(z: Seq<u32>, lo: int, size: int, v: u32) -> bool {
    forall|x: int| lo <= x < lo + size ==> #[trigger] z[x] == v
}

/// The keys at `lo`, ..., `lo + size - 1` are `v` from `a` up to `b` and the
/// other of 0 and 1 elsewhere.
spec fn shaped(z: Seq<u32>, lo: int, size: int, a: int, b: int, v: u32) -> bool {
    &&& lo <= a <= b <= lo + size
    &&& v <= 1
    &&& forall|x: int|
        lo <= x < lo + size ==> #[trigger] z[x] == if a <= x < b {
            v
        } else {
            (1 - v) as u32
        }
}

/// The zeros and ones of a block rise and then fall, or fall and then rise.
spec fn bitonic(z: Seq<u32>, lo: int, size: int) -> bool {
    exists|a: int, b: int, v: u32| shaped(z, lo, size, a, b, v)
}

/// The keys of a block are in ascending order.
spec fn block_sorted(z: Seq<u32>, lo: int, size: int) -> bool {
    forall|x: int, y: int| lo <= x <= y < lo + size ==> z[x] <= z[y]
}

/// Block `q` of width `size` is sorted.
spec fn level_sorted_at(z: Seq<u32>, size: nat, q: int) -> bool {
    block_sorted(z, q * size, size as int)
}

/// Every whole block of width `size` is sorted.
spec fn level_sorted(z: Seq<u32>, size: nat) -> bool {
    forall|q: int| 0 <= q && (q + 1) * size <= z.len() ==> #[trigger] level_sorted_at(z, size, q)
}

/// Of a block of `2 h` keys, the smaller key of each pair of keys that lie
/// `h` apart.
spec fn pair_min(z: Seq<u32>, lo: int, h: int) -> Seq<u32> {
    Seq::new(h as nat, |r: int| lesser(z[lo + r], z[lo + h + r]))
}

/// The larger key of each pair of keys that lie `h` apart.
spec fn pair_max(z: Seq<u32>, lo: int, h: int) -> Seq<u32> {
    Seq::new(h as nat, |r: int| greater(z[lo + r], z[lo + h + r]))
}

/// Of a block of `2 h` keys, the smaller key of each pair of keys that lie
/// equally far from the two ends, from the ends inwards.
spec fn mirror_min(z: Seq<u32>, lo: int, h: int) -> Seq<u32> {
    Seq::new(h as nat, |r: int| lesser(z[lo + r], z[lo + 2 * h - 1 - r]))
}

/// The larger key of each such pair, from the middle outwards.
spec fn mirror_max(z: Seq<u32>, lo: int, h: int) -> Seq<u32> {
    Seq::new(h as nat, |r: int| greater(z[lo + h - 1 - r], z[lo + h + r]))
}

/// The first position from `from` on whose key is 1; `end` if there is none
/// before it.
spec fn first_one(z: Seq<u32>, from: int, end: int) -> int
    decreases end - from,
{
    if from >= end || z[from] == 1 {
        from
    } else {
        first_one(z, from + 1, end)
    }
}

/// A run of stages keeps the number of keys.
proof fn lemma_run_len(keys: Seq<u32>, stages: Seq<SortParams>)
    ensures
        run_keys(keys, stages).len() == keys.len(),
    decreases stages.len(),
{
    if stages.len() > 0 {
        lemma_run_len(stage_keys(keys, stages[0].j as int, stages[0].k as int), stages.drop_first());
    }
}

/// Running two lists of stages one after the other is running their
/// concatenation.
proof fn lemma_run_concat(keys: Seq<u32>, first: Seq<SortParams>, second: Seq<SortParams>)
    ensures
        run_keys(keys, first + second) == run_keys(run_keys(keys, first), second),
    decreases first.len(),
{
    if first.len() == 0 {
        assert(first + second =~= second);
    } else {
        assert((first + second).drop_first() =~= first.drop_first() + second);
        lemma_run_concat(
            stage_keys(keys, first[0].j as int, first[0].k as int),
            first.drop_first(),
            second,
        );
    }
}

/// A stage cannot tell keys from their images under a threshold.
proof fn lemma_threshold_stage(keys: Seq<u32>, j: int, k: int, t: u32)
    ensures
        stage_keys(thresholded(keys, t), j, k) == thresholded(stage_keys(keys, j, k), t),
{
    let low_keys = thresholded(keys, t);
    let left = stage_keys(low_keys, j, k);
    let right = thresholded(stage_keys(keys, j, k), t);
    assert forall|i: int| 0 <= i < keys.len() implies left[i] == right[i] by {
        if j > 0 && k > 0 {
            lemma_partner(i, j, k);
            let p = partner(i, j, k);
            if p < keys.len() {
                assert(low_keys[p] == threshold(t, keys[p]));
                assert(low_keys[i] == threshold(t, keys[i]));
            }
        }
    }
    assert(left =~= right);
}

/// Nor can a run of stages.
proof fn lemma_threshold_run(keys: Seq<u32>, stages: Seq<SortParams>, t: u32)
    ensures
        run_keys(thresholded(keys, t), stages) == thresholded(run_keys(keys, stages), t),
    decreases stages.len(),
{
    if stages.len() > 0 {
        let j = stages[0].j as int;
        let k = stages[0].k as int;
        lemma_threshold_stage(keys, j, k, t);
        lemma_threshold_run(stage_keys(keys, j, k), stages.drop_first(), t);
    }
}

/// A stage never moves a key that is as large as a key can be down, so it
/// does to keys what it does to the same keys filled up with such keys.
proof fn lemma_stage_padded(keys: Seq<u32>, total: nat, j: int, k: int)
    ensures
        stage_keys(padded(keys, total), j, k) == padded(stage_keys(keys, j, k), total),
{
    let wide = padded(keys, total);
    let left = stage_keys(wide, j, k);
    let right = padded(stage_keys(keys, j, k), total);
    assert forall|i: int| 0 <= i < wide.len() implies left[i] == right[i] by {
        if j > 0 && k > 0 {
            lemma_partner(i, j, k);
        }
    }
    assert(left =~= right);
}

/// Nor does a run of stages.
proof fn lemma_run_padded(keys: Seq<u32>, total: nat, stages: Seq<SortParams>)
    ensures
        run_keys(padded(keys, total), stages) == padded(run_keys(keys, stages), total),
    decreases stages.len(),
{
    if stages.len() > 0 {
        let j = stages[0].j as int;
        let k = stages[0].k as int;
        lemma_stage_padded(keys, total, j, k);
        lemma_run_padded(stage_keys(keys, j, k), total, stages.drop_first());
    }
}

/// A stage turns zeros and ones into zeros and ones.
proof fn lemma_stage_zero_one(z: Seq<u32>, j: int, k: int)
    requires
        zero_one(z),
    ensures
        zero_one(stage_keys(z, j, k)),
{
    let o = stage_keys(z, j, k);
    assert forall|i: int| 0 <= i < o.len() implies #[trigger] o[i] <= 1 by {
        if j > 0 && k > 0 {
            lemma_partner(i, j, k);
        }
        assert(z[stage_source(z, j, k, i)] <= 1);
    }
}

/// So does a run of stages.
proof fn lemma_run_zero_one(z: Seq<u32>, stages: Seq<SortParams>)
    requires
        zero_one(z),
    ensures
        zero_one(run_keys(z, stages)),
    decreases stages.len(),
{
    if stages.len() > 0 {
        let j = stages[0].j as int;
        let k = stages[0].k as int;
        lemma_stage_zero_one(z, j, k);
        lemma_run_zero_one(stage_keys(z, j, k), stages.drop_first());
    }
}

/// Half of a power of two above 1 is a power of two.
proof fn lemma_half(n: nat)
    requires
        is_power_of_two(n),
        n > 1,
    ensures
        n == 2 * (n / 2),
        n / 2 >= 1,
        is_power_of_two(n / 2),
{
}

/// A power of two below twice another is at most the other.
proof fn lemma_powers_apart(a: nat, b: nat)
    requires
        is_power_of_two(a),
        is_power_of_two(b),
        a < 2 * b,
    ensures
        a <= b,
    decreases a,
{
    if a > 1 && b > 1 {
        lemma_powers_apart(a / 2, b / 2);
    }
}

/// The first power of two that is at least `n` is one, and lies below `2 n`.
proof fn lemma_next_power_of_two(n: nat)
    ensures
        is_power_of_two(next_power_of_two(n)),
        n <= next_power_of_two(n),
        n >= 1 ==> next_power_of_two(n) < 2 * n,
    decreases n,
{
    if n > 1 {
        let m = (n + 1) / 2;
        lemma_next_power_of_two(m);
        let p = next_power_of_two(m);
        assert((2 * p) / 2 == p);
        if n % 2 == 1 && p > 1 {
            lemma_half(p);
        }
    }
}

/// No key before the first one is a one.
proof fn lemma_first_one(z: Seq<u32>, from: int, end: int)
    requires
        from <= end,
    ensures
        from <= first_one(z, from, end) <= end,
        forall|x: int| from <= x < first_one(z, from, end) ==> #[trigger] z[x] != 1,
        first_one(z, from, end) < end ==> z[first_one(z, from, end)] == 1,
    decreases end - from,
{
    if from < end && z[from] != 1 {
        lemma_first_one(z, from + 1, end);
    }
}

/// A sorted block of zeros and ones is zeros up to its first one and ones
/// from there on.
proof fn lemma_sorted_shape(z: Seq<u32>, lo: int, size: int)
    requires
        0 <= size,
        block_sorted(z, lo, size),
        forall|x: int| lo <= x < lo + size ==> #[trigger] z[x] <= 1,
    ensures
        shaped(z, lo, size, first_one(z, lo, lo + size), lo + size, 1),
        bitonic(z, lo, size),
{
    let a = first_one(z, lo, lo + size);
    lemma_first_one(z, lo, lo + size);
    assert forall|x: int| lo <= x < lo + size implies #[trigger] z[x] == if a <= x < lo + size {
        1u32
    } else {
        0u32
    } by {
        if a <= x {
            assert(z[a] <= z[x]);
        }
    }
    assert(shaped(z, lo, size, a, lo + size, 1));
}

/// In a block of `2 h` keys that starts at a multiple of `2 h`, a stage with
/// distance `h` that is not the first of its merge pairs every key of the
/// lower half with the key `h` above it.
proof fn lemma_pair_in_block(h: int, k: int, lo: int, q: int, x: int)
    requires
        0 < h,
        0 < k,
        k != 2 * h,
        0 <= q,
        lo == q * (2 * h),
        lo <= x < lo + h,
    ensures
        partner(x, h, k) == x + h,
        partner(x + h, h, k) == x,
{
    assert(q * (2 * h) == (2 * q) * h) by (nonlinear_arith);
    assert((2 * q + 1) * h == (2 * q) * h + h) by (nonlinear_arith);
    lemma_fundamental_div_mod_converse(x, h, 2 * q, x - lo);
    lemma_fundamental_div_mod_converse(x + h, h, 2 * q + 1, x - lo);
}

/// In a block of `2 h` keys that starts at a multiple of `2 h`, the first
/// stage of the merge of width `2 h` pairs the keys that lie equally far
/// from the two ends.
proof fn lemma_mirror_in_block(h: int, lo: int, q: int, x: int)
    requires
        0 < h,
        0 <= q,
        lo == q * (2 * h),
        lo <= x < lo + 2 * h,
    ensures
        partner(x, h, 2 * h) == lo + (lo + 2 * h - 1 - x),
{
    lemma_fundamental_div_mod_converse(x, 2 * h, q, x - lo);
}

/// What a stage that is not the first of its merge does to such a block: the
/// smaller keys of the pairs go to the lower half and the larger keys to the
/// upper half.
proof fn lemma_stage_on_block(z: Seq<u32>, h: int, k: int, lo: int, q: int)
    requires
        0 < h,
        0 < k,
        k != 2 * h,
        0 <= q,
        lo == q * (2 * h),
        lo + 2 * h <= z.len(),
    ensures
        stage_keys(z, h, k).len() == z.len(),
        forall|x: int|
            lo <= x < lo + h ==> #[trigger] stage_keys(z, h, k)[x] == pair_min(z, lo, h)[x - lo],
        forall|y: int|
            lo + h <= y < lo + 2 * h ==> #[trigger] stage_keys(z, h, k)[y] == pair_max(
                z,
                lo,
                h,
            )[y - lo - h],
{
    let o = stage_keys(z, h, k);
    assert(0 <= lo) by (nonlinear_arith)
        requires
            0 <= q,
            0 < h,
            lo == q * (2 * h),
    ;
    assert forall|x: int| lo <= x < lo + h implies #[trigger] o[x] == pair_min(z, lo, h)[x
        - lo] by {
        lemma_pair_in_block(h, k, lo, q, x);
    }
    assert forall|y: int| lo + h <= y < lo + 2 * h implies #[trigger] o[y] == pair_max(
        z,
        lo,
        h,
    )[y - lo - h] by {
        lemma_pair_in_block(h, k, lo, q, y - h);
    }
}

/// What the first stage of a merge does to such a block: the smaller keys
/// of the pairs go to the lower half and the larger keys to the upper half.
proof fn lemma_mirror_on_block(z: Seq<u32>, h: int, lo: int, q: int)
    requires
        0 < h,
        0 <= q,
        lo == q * (2 * h),
        lo + 2 * h <= z.len(),
    ensures
        stage_keys(z, h, 2 * h).len() == z.len(),
        forall|x: int|
            lo <= x < lo + h ==> #[trigger] stage_keys(z, h, 2 * h)[x] == mirror_min(z, lo, h)[x
                - lo],
        forall|y: int|
            lo + h <= y < lo + 2 * h ==> #[trigger] stage_keys(z, h, 2 * h)[y] == mirror_max(
                z,
                lo,
                h,
            )[y - lo - h],
{
    let o = stage_keys(z, h, 2 * h);
    assert(0 <= lo) by (nonlinear_arith)
        requires
            0 <= q,
            0 < h,
            lo == q * (2 * h),
    ;
    assert forall|x: int| lo <= x < lo + h implies #[trigger] o[x] == mirror_min(z, lo, h)[x
        - lo] by {
        lemma_mirror_in_block(h, lo, q, x);
    }
    assert forall|y: int| lo + h <= y < lo + 2 * h implies #[trigger] o[y] == mirror_max(
        z,
        lo,
        h,
    )[y - lo - h] by {
        lemma_mirror_in_block(h, lo, q, y);
    }
}

/// Where a block of `2 h` zeros and ones holds its ones in one run, the
/// smaller and the larger keys of its pairs each rise and fall, and the
/// smaller keys are all 0 or the larger keys are all 1.
proof fn lemma_split_ones(z: Seq<u32>, lo: int, h: int, a: int, b: int)
    requires
        0 < h,
        0 <= lo,
        lo + 2 * h <= z.len(),
        shaped(z, lo, 2 * h, a, b, 1),
    ensures
        bitonic(pair_min(z, lo, h), 0, h),
        bitonic(pair_max(z, lo, h), 0, h),
        all_equal(pair_min(z, lo, h), 0, h, 0) || all_equal(pair_max(z, lo, h), 0, h, 1),
{
    let small = pair_min(z, lo, h);
    let large = pair_max(z, lo, h);
    let mid = lo + h;
    if b <= mid {
        assert(shaped(small, 0, h, 0, 0, 1));
        assert(shaped(large, 0, h, a - lo, b - lo, 1));
    } else if a >= mid {
        assert(shaped(small, 0, h, 0, 0, 1));
        assert(shaped(large, 0, h, a - mid, b - mid, 1));
    } else if b - h >= a {
        assert(shaped(large, 0, h, 0, h, 1));
        assert(shaped(small, 0, h, a - lo, b - h - lo, 1));
    } else {
        assert(shaped(small, 0, h, 0, 0, 1));
        assert(shaped(large, 0, h, b - h - lo, a - lo, 0));
    }
}

/// The same where the block holds its zeros in one run.
proof fn lemma_split_zeros(z: Seq<u32>, lo: int, h: int, a: int, b: int)
    requires
        0 < h,
        0 <= lo,
        lo + 2 * h <= z.len(),
        shaped(z, lo, 2 * h, a, b, 0),
    ensures
        bitonic(pair_min(z, lo, h), 0, h),
        bitonic(pair_max(z, lo, h), 0, h),
        all_equal(pair_min(z, lo, h), 0, h, 0) || all_equal(pair_max(z, lo, h), 0, h, 1),
{
    let small = pair_min(z, lo, h);
    let large = pair_max(z, lo, h);
    let mid = lo + h;
    if b <= mid {
        assert(shaped(large, 0, h, 0, h, 1));
        assert(shaped(small, 0, h, a - lo, b - lo, 0));
    } else if a >= mid {
        assert(shaped(large, 0, h, 0, h, 1));
        assert(shaped(small, 0, h, a - mid, b - mid, 0));
    } else if b - h >= a {
        assert(shaped(small, 0, h, 0, 0, 1));
        assert(shaped(large, 0, h, a - lo, b - h - lo, 0));
    } else {
        assert(shaped(large, 0, h, 0, h, 1));
        assert(shaped(small, 0, h, b - h - lo, a - lo, 1));
    }
}

/// Where the two halves of a block of `2 h` zeros and ones are sorted, with
/// their first ones at `a` and at `b`, the smaller and the larger keys of
/// the pairs taken from the ends inwards each rise and fall, and the smaller
/// keys are all 0 or the larger keys are all 1.
proof fn lemma_mirror_shapes(z: Seq<u32>, lo: int, h: int, a: int, b: int)
    requires
        0 < h,
        0 <= lo,
        lo + 2 * h <= z.len(),
        shaped(z, lo, h, a, lo + h, 1),
        shaped(z, lo + h, h, b, lo + 2 * h, 1),
    ensures
        bitonic(mirror_min(z, lo, h), 0, h),
        bitonic(mirror_max(z, lo, h), 0, h),
        all_equal(mirror_min(z, lo, h), 0, h, 0) || all_equal(mirror_max(z, lo, h), 0, h, 1),
{
    let small = mirror_min(z, lo, h);
    let large = mirror_max(z, lo, h);
    // The ones of the smaller keys lie from `a - lo` up to `lo + 2 h - b`,
    // the zeros of the larger keys from `lo + h - a` up to `b - lo - h`.
    assert forall|r: int| 0 <= r < h implies #[trigger] small[r] == if a - lo <= r < lo + 2 * h
        - b {
        1u32
    } else {
        0u32
    } by {
        assert(z[lo + r] == if a <= lo + r {
            1u32
        } else {
            0u32
        });
        assert(z[lo + 2 * h - 1 - r] == if b <= lo + 2 * h - 1 - r {
            1u32
        } else {
            0u32
        });
    }
    assert forall|r: int| 0 <= r < h implies #[trigger] large[r] == if lo + h - a <= r < b - lo
        - h {
        0u32
    } else {
        1u32
    } by {
        assert(z[lo + h - 1 - r] == if a <= lo + h - 1 - r {
            1u32
        } else {
            0u32
        });
        assert(z[lo + h + r] == if b <= lo + h + r {
            1u32
        } else {
            0u32
        });
    }
    if a - lo < lo + 2 * h - b {
        assert(shaped(small, 0, h, a - lo, lo + 2 * h - b, 1));
        assert(shaped(large, 0, h, 0, 0, 0));
        assert(all_equal(large, 0, h, 1));
    } else {
        assert(shaped(small, 0, h, 0, 0, 1));
        assert(shaped(large, 0, h, lo + h - a, b - lo - h, 0));
        assert(all_equal(small, 0, h, 0));
    }
}

/// A block that holds the keys of another block, in order, has its shape.
proof fn lemma_shape_moves(from: Seq<u32>, to: Seq<u32>, lo: int, size: int)
    requires
        bitonic(from, 0, size),
        forall|x: int| lo <= x < lo + size ==> #[trigger] to[x] == from[x - lo],
    ensures
        bitonic(to, lo, size),
        all_equal(from, 0, size, 0) ==> all_equal(to, lo, size, 0),
        all_equal(from, 0, size, 1) ==> all_equal(to, lo, size, 1),
{
    let zero = 0int;
    let (a, b, v) = choose|a: int, b: int, v: u32| #[trigger] shaped(from, zero, size, a, b, v);
    assert(shaped(to, lo, size, a + lo, b + lo, v));
}

/// A stage that is not the first of its merge splits a block of zeros and
/// ones that rises and falls into two halves that each rise and fall, and
/// leaves no key of the lower half above a key of the upper half.
proof fn lemma_split(z: Seq<u32>, h: int, k: int, lo: int, q: int)
    requires
        0 < h,
        0 < k,
        k != 2 * h,
        0 <= q,
        lo == q * (2 * h),
        lo + 2 * h <= z.len(),
        bitonic(z, lo, 2 * h),
    ensures
        stage_keys(z, h, k).len() == z.len(),
        bitonic(stage_keys(z, h, k), lo, h),
        bitonic(stage_keys(z, h, k), lo + h, h),
        all_equal(stage_keys(z, h, k), lo, h, 0) || all_equal(stage_keys(z, h, k), lo + h, h, 1),
{
    let o = stage_keys(z, h, k);
    lemma_stage_on_block(z, h, k, lo, q);
    assert(0 <= lo) by (nonlinear_arith)
        requires
            0 <= q,
            0 < h,
            lo == q * (2 * h),
    ;
    let size = 2 * h;
    let (a, b, v) = choose|a: int, b: int, v: u32| #[trigger] shaped(z, lo, size, a, b, v);
    if v == 1 {
        lemma_split_ones(z, lo, h, a, b);
    } else {
        lemma_split_zeros(z, lo, h, a, b);
    }
    lemma_shape_moves(pair_min(z, lo, h), o, lo, h);
    lemma_shape_moves(pair_max(z, lo, h), o, lo + h, h);
}

/// The first stage of a merge turns two sorted neighbouring blocks of zeros
/// and ones into two blocks that each rise and fall, and leaves no key of
/// the first above a key of the second.
proof fn lemma_mirror_split(z: Seq<u32>, h: int, lo: int, q: int)
    requires
        0 < h,
        0 <= q,
        lo == q * (2 * h),
        lo + 2 * h <= z.len(),
        zero_one(z),
        block_sorted(z, lo, h),
        block_sorted(z, lo + h, h),
    ensures
        stage_keys(z, h, 2 * h).len() == z.len(),
        bitonic(stage_keys(z, h, 2 * h), lo, h),
        bitonic(stage_keys(z, h, 2 * h), lo + h, h),
        all_equal(stage_keys(z, h, 2 * h), lo, h, 0) || all_equal(
            stage_keys(z, h, 2 * h),
            lo + h,
            h,
            1,
        ),
{
    let o = stage_keys(z, h, 2 * h);
    lemma_mirror_on_block(z, h, lo, q);
    assert(0 <= lo) by (nonlinear_arith)
        requires
            0 <= q,
            0 < h,
            lo == q * (2 * h),
    ;
    lemma_sorted_shape(z, lo, h);
    lemma_sorted_shape(z, lo + h, h);
    lemma_mirror_shapes(z, lo, h, first_one(z, lo, lo + h), first_one(z, lo + h, lo + h + h));
    lemma_shape_moves(mirror_min(z, lo, h), o, lo, h);
    lemma_shape_moves(mirror_max(z, lo, h), o, lo + h, h);
}

/// A stage that is not the first of its merge leaves a block of equal keys
/// as it is.
proof fn lemma_stage_keeps_equal(z: Seq<u32>, h: int, k: int, lo: int, q: int, v: u32)
    requires
        0 < h,
        0 < k,
        k != 2 * h,
        0 <= q,
        lo == q * (2 * h),
        lo + 2 * h <= z.len(),
        all_equal(z, lo, 2 * h, v),
    ensures
        all_equal(stage_keys(z, h, k), lo, 2 * h, v),
{
    let o = stage_keys(z, h, k);
    lemma_stage_on_block(z, h, k, lo, q);
    assert forall|x: int| lo <= x < lo + 2 * h implies #[trigger] o[x] == v by {
        if x < lo + h {
            assert(z[lo + (x - lo)] == v && z[lo + h + (x - lo)] == v);
        } else {
            assert(z[lo + (x - lo - h)] == v && z[lo + h + (x - lo - h)] == v);
        }
    }
}

/// The stages `(size / 2, k)`, `(size / 4, k)`, ..., `(1, k)`, none of them
/// the first of the merge of width `k`, sort every block of `size` zeros and
/// ones that rises and falls. A block of equal keys stays as it is.
proof fn lemma_merge(z: Seq<u32>, k: nat, size: nat, lo: int, q: int)
    requires
        is_power_of_two(size),
        2 * size <= k <= u32::MAX,
        0 <= q,
        lo == q * size,
        lo + size <= z.len(),
        bitonic(z, lo, size as int),
    ensures
        run_keys(z, level_stages(k, size / 2)).len() == z.len(),
        block_sorted(run_keys(z, level_stages(k, size / 2)), lo, size as int),
        forall|x: int|
            lo <= x < lo + size ==> #[trigger] run_keys(z, level_stages(k, size / 2))[x] <= 1,
        all_equal(z, lo, size as int, 0) ==> all_equal(
            run_keys(z, level_stages(k, size / 2)),
            lo,
            size as int,
            0,
        ),
        all_equal(z, lo, size as int, 1) ==> all_equal(
            run_keys(z, level_stages(k, size / 2)),
            lo,
            size as int,
            1,
        ),
    decreases size,
{
    if size == 1 {
        assert(level_stages(k, 0).len() == 0);
        let one = 1int;
        let (a, b, v) = choose|a: int, b: int, v: u32| #[trigger] shaped(z, lo, one, a, b, v);
        assert(z[lo] <= 1);
    } else {
        lemma_half(size);
        let h = size / 2;
        let stages = level_stages(k, h);
        let rest = level_stages(k, h / 2);
        assert(stages == seq![SortParams { j: h as u32, k: k as u32 }] + rest);
        assert(stages[0].j == h && stages[0].k == k);
        assert(stages.drop_first() =~= rest);
        let o1 = stage_keys(z, h as int, k as int);
        let o = run_keys(o1, rest);
        assert(run_keys(z, stages) == o);
        lemma_split(z, h as int, k as int, lo, q);
        assert(lo == (2 * q) * h && lo + h == (2 * q + 1) * h) by (nonlinear_arith)
            requires
                lo == q * (2 * h),
        ;
        lemma_merge(o1, k, h, lo, 2 * q);
        lemma_merge(o1, k, h, lo + h, 2 * q + 1);
        let mid = lo + h;
        // No key of the lower half lies above a key of the upper half.
        assert(all_equal(o, lo, h as int, 0) || all_equal(o, mid, h as int, 1));
        assert forall|x: int, y: int| lo <= x <= y < lo + size implies o[x] <= o[y] by {
            assert(o[x] <= 1 && o[y] <= 1);
            if x < mid && y >= mid {
                if all_equal(o, lo, h as int, 0) {
                    assert(o[x] == 0);
                } else {
                    assert(o[y] == 1);
                }
            }
        }
        if all_equal(z, lo, size as int, 0) {
            lemma_stage_keeps_equal(z, h as int, k as int, lo, q, 0);
            assert(all_equal(o1, lo, h as int, 0));
            assert(all_equal(o1, mid, h as int, 0));
            assert(all_equal(o, lo, size as int, 0));
        }
        if all_equal(z, lo, size as int, 1) {
            lemma_stage_keeps_equal(z, h as int, k as int, lo, q, 1);
            assert(all_equal(o1, lo, h as int, 1));
            assert(all_equal(o1, mid, h as int, 1));
            assert(all_equal(o, lo, size as int, 1));
        }
    }
}

/// The merge of width `k` turns two sorted neighbouring blocks of `k / 2`
/// zeros and ones into one sorted block.
proof fn lemma_level(z: Seq<u32>, k: nat, big_q: int)
    requires
        zero_one(z),
        is_power_of_two(k),
        2 <= k <= u32::MAX,
        0 <= big_q,
        (big_q + 1) * k <= z.len(),
        level_sorted(z, k / 2),
    ensures
        level_sorted_at(run_keys(z, level_stages(k, k / 2)), k, big_q),
{
    lemma_half(k);
    let h = k / 2;
    let lo = big_q * k;
    assert(0 <= lo && lo == (2 * big_q) * h && lo + h == (2 * big_q + 1) * h && lo + k == (2
        * big_q + 2) * h && lo + k == (big_q + 1) * k && lo == big_q * (2 * h)) by (nonlinear_arith)
        requires
            lo == big_q * k,
            k == 2 * h,
            0 <= big_q,
    ;
    assert(level_sorted_at(z, h, 2 * big_q));
    assert(level_sorted_at(z, h, 2 * big_q + 1));
    let stages = level_stages(k, h);
    let rest = level_stages(k, h / 2);
    assert(stages == seq![SortParams { j: h as u32, k: k as u32 }] + rest);
    assert(stages[0].j == h && stages[0].k == k);
    assert(stages.drop_first() =~= rest);
    let o1 = stage_keys(z, h as int, k as int);
    let o = run_keys(o1, rest);
    assert(run_keys(z, stages) == o);
    lemma_mirror_split(z, h as int, lo, big_q);
    lemma_merge(o1, k, h, lo, 2 * big_q);
    lemma_merge(o1, k, h, lo + h, 2 * big_q + 1);
    let mid = lo + h;
    assert(all_equal(o, lo, h as int, 0) || all_equal(o, mid, h as int, 1));
    assert forall|x: int, y: int| lo <= x <= y < lo + k implies o[x] <= o[y] by {
        assert(o[x] <= 1 && o[y] <= 1);
        if x < mid && y >= mid {
            if all_equal(o, lo, h as int, 0) {
                assert(o[x] == 0);
            } else {
                assert(o[y] == 1);
            }
        }
    }
}

/// From the merges of width `k` on, the schedule sorts zeros and ones whose
/// number is a power of two and whose blocks of width `k / 2` are sorted.
proof fn lemma_levels(z: Seq<u32>, k: nat)
    requires
        zero_one(z),
        is_power_of_two(z.len()),
        z.len() <= MAX_SORTABLE,
        is_power_of_two(k),
        2 <= k <= 2 * z.len(),
        level_sorted(z, k / 2),
    ensures
        sorted(run_keys(z, stages_from(k, z.len()))),
    decreases 2 * z.len() - k,
{
    let n = z.len();
    lemma_half(k);
    if k >= 2 * n {
        assert(run_keys(z, stages_from(k, n)) == z);
        assert(level_sorted_at(z, n, 0));
        assert(block_sorted(z, 0, n as int));
    } else {
        lemma_powers_apart(k, n);
        let merge = level_stages(k, k / 2);
        let o1 = run_keys(z, merge);
        lemma_run_len(z, merge);
        lemma_run_zero_one(z, merge);
        assert forall|big_q: int| 0 <= big_q && (big_q + 1) * k <= o1.len() implies #[trigger]
            level_sorted_at(o1, k, big_q) by {
            lemma_level(z, k, big_q);
        }
        assert(is_power_of_two(2 * k)) by {
            assert((2 * k) / 2 == k);
        }
        assert((2 * k) / 2 == k);
        lemma_levels(o1, 2 * k);
        lemma_run_concat(z, merge, stages_from(2 * k, n));
    }
}

/// The schedule for a number of keys is the schedule for the first power of
/// two that is at least that number.
proof fn lemma_same_stages(k: nat, count: nat, total: nat)
    requires
        is_power_of_two(k),
        is_power_of_two(total),
        1 <= count <= total < 2 * count,
        2 <= k,
    ensures
        stages_from(k, count) == stages_from(k, total),
    decreases (if k < 2 * total {
        2 * total - k
    } else {
        0
    }),
{
    if k >= 2 * total {
    } else {
        lemma_powers_apart(k, total);
        assert(k < 2 * count);
        assert(is_power_of_two(2 * k)) by {
            assert((2 * k) / 2 == k);
        }
        lemma_same_stages(2 * k, count, total);
    }
}

/// The scheduled stages put zeros and ones whose number is a power of two in
/// ascending order.
proof fn lemma_network_sorts_bits(z: Seq<u32>)
    requires
        zero_one(z),
        is_power_of_two(z.len()),
        z.len() <= MAX_SORTABLE,
    ensures
        sorted(run_keys(z, sort_stages(z.len()))),
{
    assert(level_sorted(z, 1)) by {
        assert forall|q: int| 0 <= q && (q + 1) * 1 <= z.len() implies #[trigger] level_sorted_at(
            z,
            1,
            q,
        ) by {}
    }
    assert(is_power_of_two(2)) by {
        assert(is_power_of_two(1));
    }
    lemma_levels(z, 2);
}

/// `2^31` is a power of two.
proof fn lemma_max_sortable()
    ensures
        is_power_of_two(MAX_SORTABLE as nat),
{
    reveal_with_fuel(is_power_of_two, 33);
}

/// The scheduled stages put any keys in ascending order, however many there
/// are, as long as the widest stage fits its descriptor.
pub proof fn lemma_network_sorts(keys: Seq<u32>)
    requires
        keys.len() <= MAX_SORTABLE,
    ensures
        sorted(run_keys(keys, sort_stages(keys.len()))),
{
    let n = keys.len();
    let stages = sort_stages(n);
    let o = run_keys(keys, stages);
    lemma_run_len(keys, stages);
    if n >= 1 {
        let total = next_power_of_two(n);
        lemma_next_power_of_two(n);
        lemma_max_sortable();
        lemma_powers_apart(total, MAX_SORTABLE as nat);
        assert(is_power_of_two(2)) by {
            assert(is_power_of_two(1));
        }
        lemma_same_stages(2, n, total);
        assert forall|a: int, b: int| 0 <= a <= b < o.len() implies o[a] <= o[b] by {
            if o[a] > o[b] {
                let t = o[b];
                let wide = padded(keys, total);
                let z = thresholded(wide, t);
                lemma_network_sorts_bits(z);
                lemma_threshold_run(wide, stages, t);
                lemma_run_padded(keys, total, stages);
                let oz = run_keys(z, stages);
                assert(oz == thresholded(padded(o, total), t));
                assert(oz[a] == threshold(t, o[a]));
                assert(oz[b] == threshold(t, o[b]));
                assert(oz[a] <= oz[b]);
            }
        }
    }
}

} // verus!
