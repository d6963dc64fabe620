//! Kernels and the commands that run them.
//!
//! The host does not run a kernel: it records commands, and whoever owns the
//! device carries them out in the order recorded.

use crate::buffers::BufferName;
use crate::records::SortParams;
use vstd::prelude::*;

verus! {

/// Threads in one thread group of every kernel.
pub const WORKGROUP_SIZE: u32 = 64;

/// The largest number of records that the sorting network can take: its
/// widest stage must fit in a `u32`.
pub const MAX_SORTABLE: u32 = 0x8000_0000;

/// The four stages of one simulation sub-step.
#[derive(Debug, Copy, Clone, PartialEq, Eq, Structural)]
pub enum Kernel {
    AssignCell,
    Sort,
    BuildGrid,
    Collision,
}

impl Kernel {
    /// The label that the kernel and what belongs to it carry on the device.
    pub fn label(self) -> (label: &'static str)
        ensures
            label@ == match self {
                Kernel::AssignCell => "Assign Cell"@,
                Kernel::Sort => "Sort"@,
                Kernel::BuildGrid => "Build Grid"@,
                Kernel::Collision => "Collision"@,
            },
    {
        match self {
            Kernel::AssignCell => "Assign Cell",
            Kernel::Sort => "Sort",
            Kernel::BuildGrid => "Build Grid",
            Kernel::Collision => "Collision",
        }
    }
}

/// One step of device work.
#[derive(Debug, Copy, Clone, PartialEq, Eq, Structural)]
pub enum Command {
    /// Write this descriptor to the sort parameter buffer.
    WriteSortParams(SortParams),
    /// Make this kernel the current one.
    SetPipeline(Kernel),
    /// Bind this buffer as bind group `index` of the current kernel.
    SetBindGroup { index: u32, buffer: BufferName },
    /// Run the current kernel on `x` times `y` times `z` thread groups.
    DispatchWorkgroups { x: u32, y: u32, z: u32 },
}

/// The commands that bind the buffers in order, each under its position in
/// the list.
pub open spec fn bind_commands(bind_groups: Seq<BufferName>) -> Seq<Command> {
    Seq::new(
        bind_groups.len(),
        |i: int| Command::SetBindGroup { index: i as u32, buffer: bind_groups[i] },
    )
}

/// The commands of one launch of a kernel on `workgroup_count` thread groups.
/// A launch on no thread group is no work at all.
pub open spec fn dispatch_commands(
    kernel: Kernel,
    bind_groups: Seq<BufferName>,
    workgroup_count: u32,
) -> Seq<Command> {
    if workgroup_count == 0 {
        Seq::empty()
    } else {
        seq![Command::SetPipeline(kernel)] + bind_commands(bind_groups) + seq![
            Command::DispatchWorkgroups { x: workgroup_count, y: 1, z: 1 },
        ]
    }
}

/// The number of thread groups that gives each of `count` records a thread.
pub open spec fn workgroups_for(count: nat) -> nat {
    count / 64 + 1
}

/// The stages `(j, k)`, `(j / 2, k)`, ..., `(1, k)` of one merge of the
/// sorting network.
pub open spec fn level_stages(k: nat, j: nat) -> Seq<SortParams>
    decreases j,
{
    if j == 0 {
        Seq::empty()
    } else {
        seq![SortParams { j: j as u32, k: k as u32 }] + level_stages(k, j / 2)
    }
}

/// The merges of width `k`, `2 k`, `4 k`, ..., up to the first width that
/// covers `count` records.
pub open spec fn stages_from(k: nat, count: nat) -> Seq<SortParams>
    decreases (if k < 2 * count { 2 * count - k } else { 0 }),
{
    if k == 0 || k >= 2 * count {
        Seq::empty()
    } else {
        level_stages(k, k / 2) + stages_from(2 * k, count)
    }
}

/// The stages of the bitonic sorting network for `count` records: `k` doubles
/// from 2 up to the first power of two that is at least `count`, and for each
/// `k`, `j` halves from `k / 2` down to 1.
pub open spec fn sort_stages(count: nat) -> Seq<SortParams> {
    stages_from(2, count)
}

/// The stages of the bitonic sorting network for `count` records, in the
/// order in which the sort kernel has to run them.
pub fn sort_schedule(count: u32) -> (stages: Vec<SortParams>)
    requires
        count <= MAX_SORTABLE,
    ensures
        stages@ == sort_stages(count as nat),
{
    let mut stages: Vec<SortParams> = Vec::new();
    let limit: u64 = 2 * (count as u64);
    let mut k: u64 = 2;
    while k < limit
        invariant
            limit == 2 * count,
            count <= MAX_SORTABLE,
            0 < k <= 0x2_0000_0000,
            stages@ + stages_from(k as nat, count as nat) == sort_stages(count as nat),
        decreases 2 * limit - k,
    {
        let ghost done = stages@;
        let mut j: u64 = k / 2;
        while j > 0
            invariant
                k < limit,
                limit <= 0x1_0000_0000,
                j < k,
                stages@ + level_stages(k as nat, j as nat) == done + level_stages(
                    k as nat,
                    (k / 2) as nat,
                ),
            decreases j,
        {
            proof {
                assert(stages@.push(SortParams { j: j as u32, k: k as u32 }) + level_stages(
                    k as nat,
                    (j / 2) as nat,
                ) =~= stages@ + level_stages(k as nat, j as nat));
            }
            stages.push(SortParams { j: j as u32, k: k as u32 });
            j = j / 2;
        }
        proof {
            assert(stages@ =~= stages@ + level_stages(k as nat, 0));
            assert(stages@ + stages_from((2 * k) as nat, count as nat) =~= done + stages_from(
                k as nat,
                count as nat,
            ));
        }
        k = 2 * k;
    }
    assert(stages@ =~= stages@ + stages_from(k as nat, count as nat));
    stages
}

/// One kernel, bound to the buffers it sees.
#[derive(Debug)]
pub struct ComputeNode {
    pub kernel: Kernel,
    /// The buffer behind each bind group, by group index.
    pub bind_groups: Vec<BufferName>,
}

impl ComputeNode {
    /// A bind group index is a `u32`.
    pub open spec fn wf(&self) -> bool {
        self.bind_groups@.len() <= u32::MAX
    }

    /// The commands of one launch on `workgroup_count` thread groups.
    pub open spec fn commands(&self, workgroup_count: u32) -> Seq<Command> {
        dispatch_commands(self.kernel, self.bind_groups@, workgroup_count)
    }

    /// Whether a `u32` can index every bind group.
    pub fn is_wf(&self) -> (ok: bool)
        ensures
            ok == self.wf(),
    {
        self.bind_groups.len() as u64 <= u32::MAX as u64
    }

    /// Binds the kernel to `buffers`: the buffer at position `i` becomes bind
    /// group `i`.
    pub fn new(kernel: Kernel, buffers: &[BufferName]) -> (node: ComputeNode)
        requires
            buffers@.len() <= u32::MAX,
        ensures
            node.wf(),
            node.kernel == kernel,
            node.bind_groups@ == buffers@,
    {
        let mut bind_groups: Vec<BufferName> = Vec::new();
        let mut i: usize = 0;
        while i < buffers.len()
            invariant
                i <= buffers@.len(),
                bind_groups@ == buffers@.subrange(0, i as int),
            decreases buffers@.len() - i,
        {
            bind_groups.push(buffers[i]);
            assert(bind_groups@ =~= buffers@.subrange(0, i + 1));
            i = i + 1;
        }
        assert(bind_groups@ =~= buffers@);
        ComputeNode { kernel, bind_groups }
    }

    /// Records one launch of the kernel at the end of `cpass`: the kernel is
    /// made current, every buffer is bound under its group index, and the
    /// thread groups are started. With `workgroup_count == 0` nothing is
    /// recorded. Nothing runs before the commands are carried out.
    pub fn dispatch(&self, cpass: &mut Vec<Command>, workgroup_count: u32)
        requires
            self.wf(),
        ensures
            final(cpass)@ == old(cpass)@ + self.commands(workgroup_count),
    {
        if workgroup_count == 0 {
            assert(cpass@ =~= old(cpass)@ + self.commands(workgroup_count));
            return ;
        }
        cpass.push(Command::SetPipeline(self.kernel));
        let mut i: usize = 0;
        while i < self.bind_groups.len()
            invariant
                self.wf(),
                i <= self.bind_groups@.len(),
                cpass@ == old(cpass)@ + seq![Command::SetPipeline(self.kernel)] + bind_commands(
                    self.bind_groups@.subrange(0, i as int),
                ),
            decreases self.bind_groups@.len() - i,
        {
            cpass.push(Command::SetBindGroup { index: i as u32, buffer: self.bind_groups[i] });
            assert(cpass@ =~= old(cpass)@ + seq![Command::SetPipeline(self.kernel)]
                + bind_commands(self.bind_groups@.subrange(0, i + 1)));
            i = i + 1;
        }
        assert(self.bind_groups@.subrange(0, i as int) =~= self.bind_groups@);
        cpass.push(Command::DispatchWorkgroups { x: workgroup_count, y: 1, z: 1 });
        assert(cpass@ =~= old(cpass)@ + self.commands(workgroup_count));
    }
}

} // verus!
