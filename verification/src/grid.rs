//! What the integer stages of a sub-step compute, stated on the host.
//!
//! The kernels run on the device. The functions here do the work of the sort
//! and grid stages on a copy of the records, one record at a time, so that a
//! device's output can be held against them.

use crate::records::{CellIndex, ComputeInstanceRaw};
use vstd::prelude::*;

verus! {

/// The cell index of every record, in record order.
pub open spec fn keys_of(records: Seq<ComputeInstanceRaw>) -> Seq<u32> {
    Seq::new(records.len(), |i: int| records[i].cell_index)
}

/// The keys never decrease from one record to the next.
pub open spec fn sorted(keys: Seq<u32>) -> bool {
    forall|a: int, b: int| 0 <= a <= b < keys.len() ==> keys[a] <= keys[b]
}

/// Every key names one of `cell_count` cells.
pub open spec fn in_cells(keys: Seq<u32>, cell_count: nat) -> bool {
    forall|i: int| 0 <= i < keys.len() ==> keys[i] < cell_count
}

/// `grid` is the cell table of records with these keys: the range of cell `c`
/// holds the records of cell `c` and no others, and the ranges follow one
/// another from the first record to the last without gap or overlap.
pub open spec fn is_grid_of(grid: Seq<CellIndex>, keys: Seq<u32>) -> bool {
    &&& forall|c: int| 0 <= c < grid.len() ==> (#[trigger] grid[c]).start <= grid[c].end <= keys.len()
    &&& forall|c: int, i: int|
        0 <= c < grid.len() && 0 <= i < keys.len() ==> ((#[trigger] grid[c]).start <= i < grid[c].end
            <==> #[trigger] keys[i] == c)
    &&& forall|c: int| 0 <= c < grid.len() - 1 ==> (#[trigger] grid[c]).end == grid[c + 1].start
    &&& grid.len() > 0 ==> grid[0].start == 0 && grid[grid.len() - 1].end == keys.len()
    &&& grid.len() == 0 ==> keys.len() == 0
}

/// The records in the range of a cell lie in that cell, every record lies in
/// the range of its own cell, and records that have a cell table are sorted.
pub proof fn lemma_grid_partitions(grid: Seq<CellIndex>, keys: Seq<u32>)
    requires
        is_grid_of(grid, keys),
    ensures
        in_cells(keys, grid.len()),
        sorted(keys),
        forall|c: int, i: int|
            0 <= c < grid.len() && grid[c].start <= i < grid[c].end ==> #[trigger] keys[i]
                == #[trigger] (c as u32),
        forall|i: int|
            0 <= i < keys.len() ==> (#[trigger] grid[keys[i] as int]).start <= i < grid[keys[i] as int].end,
{
    lemma_ranges_ascend(grid, keys, 0, grid.len() as int);
    assert forall|i: int| 0 <= i < keys.len() implies keys[i] < grid.len() by {
        lemma_covered(grid, keys, i, grid.len() as int - 1);
    }
    assert forall|i: int| 0 <= i < keys.len() implies keys[i] < grid.len() && (
    #[trigger] grid[keys[i] as int]).start <= i < grid[keys[i] as int].end by {
        lemma_covered(grid, keys, i, grid.len() as int - 1);
    }
    assert forall|a: int, b: int| 0 <= a <= b < keys.len() implies keys[a] <= keys[b] by {
        lemma_covered(grid, keys, a, grid.len() as int - 1);
        lemma_covered(grid, keys, b, grid.len() as int - 1);
        let ca = keys[a] as int;
        let cb = keys[b] as int;
        if ca > cb {
            lemma_ranges_ascend(grid, keys, cb, ca);
        }
    }
    assert forall|c: int, i: int|
        0 <= c < grid.len() && grid[c].start <= i < grid[c].end implies #[trigger] keys[i]
        == #[trigger] (c as u32) by {
        assert(grid[c].end <= keys.len());
    }
}

/// The ranges of two cells lie in the order of the cells.
proof fn lemma_ranges_ascend(grid: Seq<CellIndex>, keys: Seq<u32>, low: int, high: int)
    requires
        is_grid_of(grid, keys),
        0 <= low <= high <= grid.len(),
    ensures
        low < high < grid.len() ==> grid[low].end <= grid[high].start,
        low < high ==> grid[low].end <= grid[high - 1].end,
    decreases high - low,
{
    if low < high - 1 {
        lemma_ranges_ascend(grid, keys, low, high - 1);
        assert(grid[high - 2].end == grid[high - 1].start);
        if high < grid.len() {
            assert(grid[high - 1].end == grid[high].start);
        }
    } else if low < high {
        if high < grid.len() {
            assert(grid[low].end == grid[low + 1].start);
        }
    }
}

/// A record that comes before the end of the range of cell `last` lies in
/// the range of a cell up to `last`, which is its own.
proof fn lemma_covered(grid: Seq<CellIndex>, keys: Seq<u32>, i: int, last: int)
    requires
        is_grid_of(grid, keys),
        0 <= i < keys.len(),
        0 <= last < grid.len(),
        i < grid[last].end,
    ensures
        keys[i] <= last,
        grid[keys[i] as int].start <= i < grid[keys[i] as int].end,
    decreases last,
{
    if grid[last].start <= i {
        assert(keys[i] == last);
    } else {
        assert(last > 0) by {
            if last == 0 {
                assert(grid[0].start == 0);
            }
        }
        assert(grid[last - 1].end == grid[last].start);
        lemma_covered(grid, keys, i, last - 1);
    }
}

/// Records with given keys have one cell table only.
pub proof fn lemma_grid_unique(first: Seq<CellIndex>, second: Seq<CellIndex>, keys: Seq<u32>)
    requires
        is_grid_of(first, keys),
        is_grid_of(second, keys),
        first.len() == second.len(),
    ensures
        first == second,
{
    assert forall|c: int| 0 <= c < first.len() implies first[c] == second[c] by {
        lemma_starts_agree(first, second, keys, c);
        if c + 1 < first.len() {
            lemma_starts_agree(first, second, keys, c + 1);
            assert(first[c].end == first[c + 1].start);
            assert(second[c].end == second[c + 1].start);
        }
    }
    assert(first =~= second);
}

/// Two cell tables of the same records start the range of every cell at the
/// same record.
proof fn lemma_starts_agree(
    first: Seq<CellIndex>,
    second: Seq<CellIndex>,
    keys: Seq<u32>,
    c: int,
)
    requires
        is_grid_of(first, keys),
        is_grid_of(second, keys),
        first.len() == second.len(),
        0 <= c < first.len(),
    ensures
        first[c].start == second[c].start,
    decreases c,
{
    if c > 0 {
        lemma_starts_agree(first, second, keys, c - 1);
        let s = first[c - 1].start;
        assert(s == second[c - 1].start);
        let a = first[c - 1].end;
        let b = second[c - 1].end;
        assert(a == first[c].start && b == second[c].start);
        if a < b {
            assert(keys[a as int] == c - 1);
        } else if b < a {
            assert(keys[b as int] == c - 1);
        }
    }
}

/// Builds the cell table of records that are sorted by cell: one range for
/// each of `cell_count` cells, found in a single pass over the records.
/// There is a table only if the records are sorted, every record lies in one
/// of the cells, and a `u32` can count the records.
pub fn build_grid(records: &[ComputeInstanceRaw], cell_count: u32) -> (grid: Option<
    Vec<CellIndex>,
>)
    ensures
        grid is Some <==> sorted(keys_of(records@)) && in_cells(
            keys_of(records@),
            cell_count as nat,
        ) && records@.len() <= u32::MAX,
        grid matches Some(table) ==> table@.len() == cell_count && is_grid_of(
            table@,
            keys_of(records@),
        ),
{
    let ghost keys = keys_of(records@);
    let n: usize = records.len();
    if n > u32::MAX as usize {
        return None;
    }
    let mut table: Vec<CellIndex> = Vec::new();
    let mut p: usize = 0;
    let mut c: u32 = 0;
    while c < cell_count
        invariant
            keys == keys_of(records@),
            n == records@.len(),
            n <= u32::MAX,
            c <= cell_count,
            p <= n,
            table@.len() == c,
            forall|i: int| 0 <= i < p ==> keys[i] < c,
            forall|a: int, b: int| 0 <= a <= b < p ==> keys[a] <= keys[b],
            p < n ==> keys[p as int] >= c,
            forall|d: int| 0 <= d < c ==> (#[trigger] table@[d]).start <= table@[d].end <= p,
            forall|d: int, i: int|
                0 <= d < c && 0 <= i < p ==> ((#[trigger] table@[d]).start <= i < table@[d].end
                    <==> #[trigger] keys[i] == d),
            forall|d: int| 0 <= d < c - 1 ==> (#[trigger] table@[d]).end == table@[d + 1].start,
            c > 0 ==> table@[0].start == 0 && table@[c - 1].end == p,
            c == 0 ==> p == 0,
        decreases cell_count - c,
    {
        let start: usize = p;
        while p < n && records[p].cell_index == c
            invariant
                keys == keys_of(records@),
                n == records@.len(),
                start <= p <= n,
                forall|i: int| start <= i < p ==> keys[i] == c,
            decreases n - p,
        {
            p = p + 1;
        }
        if p < n && records[p].cell_index < c {
            proof {
                assert(p > start);
                assert(keys[p - 1] == c);
                assert(keys[p - 1] > keys[p as int]);
                assert(!sorted(keys));
            }
            return None;
        }
        let ghost before = table@;
        table.push(CellIndex { start: start as u32, end: p as u32 });
        proof {
            assert forall|d: int| 0 <= d < c + 1 implies (#[trigger] table@[d]).start
                <= table@[d].end <= p by {
                if d < c {
                    assert(table@[d] == before[d]);
                }
            }
            assert forall|d: int, i: int| 0 <= d < c + 1 && 0 <= i < p implies ((
            #[trigger] table@[d]).start <= i < table@[d].end <==> #[trigger] keys[i] == d) by {
                if d < c {
                    assert(table@[d] == before[d]);
                    assert(before[d].end <= start);
                }
            }
            assert forall|d: int| 0 <= d < c implies (#[trigger] table@[d]).end == table@[d
                + 1].start by {
                assert(table@[d] == before[d]);
                if d < c - 1 {
                    assert(table@[d + 1] == before[d + 1]);
                }
            }
            assert forall|a: int, b: int| 0 <= a <= b < p implies keys[a] <= keys[b] by {
                if b >= start && a < start {
                    assert(keys[a] < c);
                }
            }
            if c > 0 {
                assert(table@[0] == before[0]);
            }
        }
        c = c + 1;
    }
    if p < n {
        proof {
            assert(keys[p as int] >= cell_count);
            assert(!in_cells(keys, cell_count as nat));
        }
        return None;
    }
    assert(is_grid_of(table@, keys));
    Some(table)
}

} // verus!
