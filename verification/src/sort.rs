//! The sort stage, stated on the host.
//!
//! One stage of the sorting network looks at the records in pairs and leaves
//! each pair in the order of its cells, the lower cell at the lower position.
//! The first stage of a merge of width `k`, the one with `j == k / 2`, pairs
//! the positions of every block of `k` records from the ends inwards: the
//! first with the last, the second with the last but one. Every other stage
//! pairs the positions that lie `j` apart. The pairs of a stage do not
//! overlap, so the order in which they are looked at does not matter, and a
//! position whose partner lies beyond the last record is left alone. That
//! makes the network sort any number of records, not only a power of two.

use crate::grid::{keys_of, sorted};
use crate::network::lemma_network_sorts;
use crate::pipeline::{sort_schedule, sort_stages, MAX_SORTABLE};
use crate::records::{ComputeInstanceRaw, SortParams};
use vstd::arithmetic::div_mod::{
    lemma_basic_div, lemma_div_minus_one, lemma_div_plus_one, lemma_fundamental_div_mod,
    lemma_fundamental_div_mod_converse, lemma_mod_pos_bound,
};
use vstd::arithmetic::mul::lemma_mul_nonnegative;
use vstd::prelude::*;
use vstd::seq_lib::to_multiset_update;

verus! {

/// The position that position `i` is paired with in the stage `(j, k)`.
pub open spec fn partner(i: int, j: int, k: int) -> int {
    if k == 2 * j {
        i + k - 1 - 2 * (i % k)
    } else if (i / j) % 2 == 0 {
        i + j
    } else {
        i - j
    }
}

/// The lower position of the pair that position `i` belongs to.
pub open spec fn pair_low(i: int, j: int, k: int) -> int {
    if partner(i, j, k) < i {
        partner(i, j, k)
    } else {
        i
    }
}

/// The position whose record the stage `(j, k)` puts at position `i`: that
/// of its partner if the two are out of order, its own otherwise. A stage
/// with `j == 0` or `k == 0` moves nothing.
pub open spec fn stage_source(keys: Seq<u32>, j: int, k: int, i: int) -> int {
    if j <= 0 || k <= 0 {
        i
    } else if partner(i, j, k) < 0 || partner(i, j, k) >= keys.len() {
        i
    } else if i < partner(i, j, k) {
        if keys[i] > keys[partner(i, j, k)] {
            partner(i, j, k)
        } else {
            i
        }
    } else {
        if keys[partner(i, j, k)] > keys[i] {
            partner(i, j, k)
        } else {
            i
        }
    }
}

/// The keys after the stage `(j, k)`.
pub open spec fn stage_keys(keys: Seq<u32>, j: int, k: int) -> Seq<u32> {
    Seq::new(keys.len(), |i: int| keys[stage_source(keys, j, k, i)])
}

/// The records after one stage.
pub open spec fn stage_records(records: Seq<ComputeInstanceRaw>, params: SortParams) -> Seq<
    ComputeInstanceRaw,
> {
    Seq::new(
        records.len(),
        |i: int| records[stage_source(keys_of(records), params.j as int, params.k as int, i)],
    )
}

/// The keys after the given stages, first stage first.
pub open spec fn run_keys(keys: Seq<u32>, stages: Seq<SortParams>) -> Seq<u32>
    decreases stages.len(),
{
    if stages.len() == 0 {
        keys
    } else {
        run_keys(stage_keys(keys, stages[0].j as int, stages[0].k as int), stages.drop_first())
    }
}

/// The records after the given stages, first stage first.
pub open spec fn run_records(records: Seq<ComputeInstanceRaw>, stages: Seq<SortParams>) -> Seq<
    ComputeInstanceRaw,
>
    decreases stages.len(),
{
    if stages.len() == 0 {
        records
    } else {
        run_records(stage_records(records, stages[0]), stages.drop_first())
    }
}

/// Every position has one partner, which is another position and has it as
/// its partner in turn.
pub proof fn lemma_partner(i: int, j: int, k: int)
    requires
        0 <= i,
        0 < j,
        0 < k,
    ensures
        0 <= partner(i, j, k),
        partner(i, j, k) != i,
        partner(partner(i, j, k), j, k) == i,
        0 <= pair_low(i, j, k) <= i,
{
    let p = partner(i, j, k);
    if k == 2 * j {
        let o = i % k;
        let q = i / k;
        lemma_fundamental_div_mod(i, k);
        lemma_mod_pos_bound(i, k);
        assert(q >= 0) by {
            if q < 0 {
                assert(k * q <= -k) by (nonlinear_arith)
                    requires
                        q <= -1,
                        k > 0,
                ;
            }
        }
        lemma_mul_nonnegative(k, q);
        assert(q * k == k * q) by (nonlinear_arith);
        lemma_fundamental_div_mod_converse(p, k, q, k - 1 - o);
    } else {
        lemma_div_plus_one(i, j);
        lemma_div_minus_one(i, j);
        if (i / j) % 2 != 0 {
            assert(i >= j) by {
                if i < j {
                    lemma_basic_div(i, j);
                }
            }
        }
    }
}

/// A stage moves whole records, so the keys after it are those that the
/// stage gives for the keys alone.
pub proof fn lemma_stage_keys(records: Seq<ComputeInstanceRaw>, params: SortParams)
    ensures
        keys_of(stage_records(records, params)) == stage_keys(
            keys_of(records),
            params.j as int,
            params.k as int,
        ),
{
    let keys = keys_of(records);
    let j = params.j as int;
    let k = params.k as int;
    assert(keys_of(stage_records(records, params)) =~= stage_keys(keys, j, k));
}

/// The keys after a run of stages on records are those that the run gives
/// for the keys alone.
pub proof fn lemma_run_keys(records: Seq<ComputeInstanceRaw>, stages: Seq<SortParams>)
    ensures
        keys_of(run_records(records, stages)) == run_keys(keys_of(records), stages),
        run_records(records, stages).len() == records.len(),
    decreases stages.len(),
{
    if stages.len() > 0 {
        lemma_stage_keys(records, stages[0]);
        lemma_run_keys(stage_records(records, stages[0]), stages.drop_first());
    }
}

/// Running some stages and then one more is running them all.
proof fn lemma_run_records_push(
    records: Seq<ComputeInstanceRaw>,
    stages: Seq<SortParams>,
    last: SortParams,
)
    ensures
        run_records(records, stages.push(last)) == stage_records(
            run_records(records, stages),
            last,
        ),
    decreases stages.len(),
{
    if stages.len() == 0 {
        assert(stages.push(last).drop_first() =~= stages);
        assert(run_records(stage_records(records, last), stages) == stage_records(records, last));
    } else {
        assert(stages.push(last).drop_first() =~= stages.drop_first().push(last));
        lemma_run_records_push(stage_records(records, stages[0]), stages.drop_first(), last);
    }
}

/// Exchanging two records loses none and adds none.
proof fn lemma_swap_keeps_records(records: Seq<ComputeInstanceRaw>, i: int, j: int)
    requires
        0 <= i < records.len(),
        0 <= j < records.len(),
        i != j,
    ensures
        records.update(i, records[j]).update(j, records[i]).to_multiset()
            == records.to_multiset(),
{
    let first = records.update(i, records[j]);
    let second = first.update(j, records[i]);
    to_multiset_update(records, i, records[j]);
    to_multiset_update(first, j, records[i]);
    records.to_multiset_ensures();
    assert(records.contains(records[i]));
    assert(records.contains(records[j]));
    assert(second.to_multiset() =~= records.to_multiset());
}

/// Carries out one stage of the sorting network on the records: of every
/// pair of the stage, the record of the lower cell goes to the lower
/// position. No record is lost and none is added.
pub fn sort_stage(records: &mut Vec<ComputeInstanceRaw>, params: SortParams)
    ensures
        final(records)@ == stage_records(old(records)@, params),
        final(records)@.to_multiset() == old(records)@.to_multiset(),
{
    let n: usize = records.len();
    let j: usize = params.j as usize;
    let k: usize = params.k as usize;
    let ghost before = records@;
    let ghost staged = stage_records(before, params);
    if j == 0 || k == 0 {
        assert(records@ =~= staged);
        return ;
    }
    let mirrored: bool = k as u64 == 2 * (j as u64);
    assert forall|x: int| 0 <= x < n implies pair_low(x, j as int, k as int) >= 0 by {
        lemma_partner(x, j as int, k as int);
    }
    let mut i: usize = 0;
    while i < n
        invariant
            0 < j == params.j,
            0 < k == params.k,
            mirrored == (k == 2 * j),
            i <= n,
            n == before.len(),
            records@.len() == n,
            staged == stage_records(before, params),
            records@.to_multiset() == before.to_multiset(),
            forall|x: int|
                0 <= x < n ==> #[trigger] records@[x] == if pair_low(x, j as int, k as int) < i {
                    staged[x]
                } else {
                    before[x]
                },
        decreases n - i,
    {
        let ghost entry = records@;
        proof {
            lemma_partner(i as int, j as int, k as int);
        }
        // How far above `i` its partner lies, where it lies above it.
        let distance: usize = if mirrored {
            let offset: usize = i % k;
            if offset < j {
                k - 1 - 2 * offset
            } else {
                0
            }
        } else if (i / j) % 2 == 0 {
            j
        } else {
            0
        };
        assert(distance > 0 ==> partner(i as int, j as int, k as int) == i + distance);
        assert(distance == 0 ==> partner(i as int, j as int, k as int) < i);
        if distance > 0 && distance < n - i {
            let high: usize = i + distance;
            let a = records[i];
            let b = records[high];
            if a.cell_index > b.cell_index {
                records.set(i, b);
                records.set(high, a);
                proof {
                    lemma_swap_keeps_records(entry, i as int, high as int);
                    assert(records@ =~= entry.update(i as int, entry[high as int]).update(
                        high as int,
                        entry[i as int],
                    ));
                }
            }
        }
        proof {
            assert forall|x: int| 0 <= x < n implies #[trigger] records@[x] == if pair_low(
                x,
                j as int,
                k as int,
            ) < i + 1 {
                staged[x]
            } else {
                before[x]
            } by {
                lemma_partner(x, j as int, k as int);
                assert(entry[x] == if pair_low(x, j as int, k as int) < i {
                    staged[x]
                } else {
                    before[x]
                });
            }
        }
        i = i + 1;
    }
    assert forall|x: int| 0 <= x < n implies records@[x] == staged[x] by {
        lemma_partner(x, j as int, k as int);
    }
    assert(records@ =~= staged);
}

/// Sorts the records by cell with the bitonic sorting network, stage by
/// stage as the sort kernel is scheduled. The records end up in the order of
/// their cells, and they are the records that were there before.
pub fn bitonic_sort(records: &mut Vec<ComputeInstanceRaw>)
    requires
        old(records)@.len() <= MAX_SORTABLE,
    ensures
        final(records)@ == run_records(
            old(records)@,
            sort_stages(old(records)@.len()),
        ),
        final(records)@.len() == old(records)@.len(),
        final(records)@.to_multiset() == old(records)@.to_multiset(),
        sorted(keys_of(final(records)@)),
{
    let count: u32 = records.len() as u32;
    let stages = sort_schedule(count);
    let mut s: usize = 0;
    while s < stages.len()
        invariant
            s <= stages@.len(),
            records@.to_multiset() == old(records)@.to_multiset(),
            records@ == run_records(old(records)@, stages@.subrange(0, s as int)),
        decreases stages@.len() - s,
    {
        proof {
            lemma_run_records_push(old(records)@, stages@.subrange(0, s as int), stages@[s as int]);
            assert(stages@.subrange(0, s as int).push(stages@[s as int]) =~= stages@.subrange(
                0,
                s + 1,
            ));
        }
        sort_stage(records, stages[s]);
        s = s + 1;
    }
    proof {
        assert(stages@.subrange(0, s as int) =~= stages@);
        lemma_run_keys(old(records)@, stages@);
        lemma_network_sorts(keys_of(old(records)@));
    }
}

} // verus!
