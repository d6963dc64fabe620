//! The orchestrator: the particle store, and the host's part of every frame.
//!
//! A frame has two halves. [`ComputeState::prepare`] lays out what goes to
//! the device: the particle buffer, the parameters and the commands of all
//! sub-steps. Once the device has run them and the result buffer has been
//! read, [`ComputeState::update`] folds the results into the particle store.
//! Between the two the store does not change.

use crate::buffers::{all_buffers, BufferName, ComputeError, DeviceBufferSet};
use crate::pipeline::{
    sort_schedule, sort_stages, workgroups_for, Command, ComputeNode, Kernel, MAX_SORTABLE,
    WORKGROUP_SIZE,
};
use crate::records::{
    instance_words, instances_to_words, lemma_result_read_back, result_words, ComputeInstance,
    Parameters, Result as ResultRecord, SortParams,
};
use crate::utils::bytes_to_u32;
use crate::words::{cast_words, lemma_words_round_trip, native_bytes, native_words};
use vstd::endian::endianness;
use vstd::prelude::*;

verus! {

/// Sub-steps in one frame.
pub const SIMULATION_ROUNDS: u32 = 10;

/// Which kernels a sub-step runs.
#[derive(Debug, Copy, Clone, PartialEq, Eq, Structural)]
pub enum PipelineMode {
    /// The collision kernel alone, which tests every pair.
    CollisionOnly,
    /// Cell assignment, the sorting network, grid construction, and then the
    /// collision kernel, which looks through the grid.
    Grid,
}

/// What became of reading the result buffer.
#[derive(Debug)]
pub enum Readback {
    /// The buffer was mapped; these are its bytes.
    Mapped(Vec<u8>),
    /// The buffer could not be mapped.
    MapFailed,
    /// The device did not finish in time.
    TimedOut,
}

/// What one frame sends to the device.
#[derive(Debug)]
pub struct Frame {
    /// The whole content of the particle buffer.
    pub particles: Vec<u8>,
    /// The whole content of the parameter buffer.
    pub parameters: Vec<u8>,
    /// The device work of all sub-steps, in order.
    pub commands: Vec<Command>,
}

/// The host side of the pipeline.
#[derive(Debug)]
pub struct ComputeState {
    /// The particle store. Index `i` here is record `i` on the device.
    pub instances: Vec<ComputeInstance>,
    /// The device buffers, sized once and for all.
    pub buffers: DeviceBufferSet,
    /// Bit pattern of the half width of the simulated cube.
    pub boundary: u32,
    /// Bit pattern of the diameter of a particle.
    pub particle_diameter: u32,
    /// Cells along each axis of the grid.
    pub grid_size: u32,
    /// Which kernels a sub-step runs.
    pub mode: PipelineMode,
    pub assign_cell_node: ComputeNode,
    pub sort_node: ComputeNode,
    pub build_grid_node: ComputeNode,
    pub collision_node: ComputeNode,
}

/// `commands`, `rounds` times over.
pub open spec fn repeated(commands: Seq<Command>, rounds: nat) -> Seq<Command>
    decreases rounds,
{
    if rounds == 0 {
        Seq::empty()
    } else {
        repeated(commands, (rounds - 1) as nat) + commands
    }
}

/// The commands of the sort stages `stages[from]`, ...: each descriptor is
/// written, then the sort kernel is launched.
pub open spec fn sort_commands(
    stages: Seq<SortParams>,
    from: int,
    launch: Seq<Command>,
) -> Seq<Command>
    decreases stages.len() - from,
{
    if from < 0 || from >= stages.len() {
        Seq::empty()
    } else {
        seq![Command::WriteSortParams(stages[from])] + launch + sort_commands(
            stages,
            from + 1,
            launch,
        )
    }
}

/// The particles with the positions and velocities of a result buffer held
/// as words; everything else stays.
pub open spec fn moved_instances(instances: Seq<ComputeInstance>, words: Seq<u32>) -> Seq<
    ComputeInstance,
> {
    Seq::new(instances.len(), |i: int| instances[i].moved(ResultRecord::at(words, i)))
}

/// The particle store after a frame whose read-back ended as `readback`, for
/// a pipeline sized for `particles` particles: the results are taken over
/// only if they were read and have the size of the result buffer.
pub open spec fn instances_after(
    instances: Seq<ComputeInstance>,
    particles: nat,
    readback: Readback,
) -> Seq<ComputeInstance> {
    match readback {
        Readback::Mapped(bytes) => if instances.len() == particles && bytes@.len() == 32
            * particles {
            moved_instances(instances, native_words(bytes@))
        } else {
            instances
        },
        _ => instances,
    }
}

/// How a frame with this read-back ends for the caller.
pub open spec fn outcome_of(instances_len: nat, particles: nat, readback: Readback) -> Result<
    (),
    ComputeError,
> {
    match readback {
        Readback::Mapped(bytes) => if instances_len == particles && bytes@.len() == 32
            * particles {
            Ok(())
        } else {
            Err(ComputeError::SizeMismatch)
        },
        Readback::MapFailed => Err(ComputeError::MapFailure),
        Readback::TimedOut => Err(ComputeError::DeviceTimeout),
    }
}

/// Whether two read-backs ended alike: the same failure, or the same bytes.
pub open spec fn same_readback(a: Readback, b: Readback) -> bool {
    match (a, b) {
        (Readback::Mapped(x), Readback::Mapped(y)) => x@ == y@,
        (Readback::MapFailed, Readback::MapFailed) => true,
        (Readback::TimedOut, Readback::TimedOut) => true,
        _ => false,
    }
}

/// The particle store after a run of frames, one read-back for each frame.
pub open spec fn instances_after_all(
    instances: Seq<ComputeInstance>,
    particles: nat,
    readbacks: Seq<Readback>,
) -> Seq<ComputeInstance>
    decreases readbacks.len(),
{
    if readbacks.len() == 0 {
        instances
    } else {
        instances_after(
            instances_after_all(instances, particles, readbacks.drop_last()),
            particles,
            readbacks.last(),
        )
    }
}

/// A frame changes neither the number of particles nor the identity and
/// radius of any of them, however the read-back ended.
pub proof fn lemma_frame_keeps_identity(
    instances: Seq<ComputeInstance>,
    particles: nat,
    readback: Readback,
)
    ensures
        instances_after(instances, particles, readback).len() == instances.len(),
        forall|i: int|
            0 <= i < instances.len() ==> {
                &&& (#[trigger] instances_after(instances, particles, readback)[i]).id
                    == instances[i].id
                &&& instances_after(instances, particles, readback)[i].radius
                    == instances[i].radius
            },
{
}

/// A device that leaves every particle where it was, as it must when the
/// time step is zero, leaves the particle store as it was, bit for bit: what
/// the host lays out as the results of unmoved particles, it reads back as
/// the particles themselves.
pub proof fn lemma_still_frame(instances: Seq<ComputeInstance>, results: Seq<ResultRecord>, bytes: Vec<u8>)
    requires
        results.len() == instances.len(),
        forall|i: int|
            0 <= i < instances.len() ==> {
                &&& (#[trigger] results[i]).position@ == instances[i].position@
                &&& results[i].velocity@ == instances[i].velocity@
            },
        bytes@ == native_bytes(result_words(results)),
    ensures
        instances_after(instances, instances.len(), Readback::Mapped(bytes)) == instances,
{
    let words = result_words(results);
    lemma_words_round_trip(endianness(), words);
    let after = instances_after(instances, instances.len(), Readback::Mapped(bytes));
    assert(native_words(bytes@) == words);
    assert(after == moved_instances(instances, words));
    assert forall|i: int| 0 <= i < instances.len() implies after[i] == instances[i] by {
        lemma_result_read_back(results, i);
        let got = ResultRecord::at(words, i);
        assert(got.position@ == instances[i].position@);
        assert(got.position =~= instances[i].position);
        assert(got.velocity =~= instances[i].velocity);
    }
    assert(after =~= instances);
}

/// The host adds nothing of its own to a run: two runs that start from the
/// same particles and whose read-backs end alike, frame for frame, end with
/// the same particles.
pub proof fn lemma_runs_agree(
    first: Seq<ComputeInstance>,
    second: Seq<ComputeInstance>,
    particles: nat,
    first_readbacks: Seq<Readback>,
    second_readbacks: Seq<Readback>,
)
    requires
        first == second,
        first_readbacks.len() == second_readbacks.len(),
        forall|f: int|
            0 <= f < first_readbacks.len() ==> same_readback(
                #[trigger] first_readbacks[f],
                second_readbacks[f],
            ),
    ensures
        instances_after_all(first, particles, first_readbacks) == instances_after_all(
            second,
            particles,
            second_readbacks,
        ),
    decreases first_readbacks.len(),
{
    if first_readbacks.len() > 0 {
        let a = first_readbacks.drop_last();
        let b = second_readbacks.drop_last();
        assert forall|f: int| 0 <= f < a.len() implies same_readback(#[trigger] a[f], b[f]) by {
            assert(a[f] == first_readbacks[f]);
            assert(b[f] == second_readbacks[f]);
        }
        lemma_runs_agree(first, second, particles, a, b);
        assert(same_readback(
            first_readbacks[first_readbacks.len() - 1],
            second_readbacks[first_readbacks.len() - 1],
        ));
    }
}

/// Whether the kernel is bound to the five buffers in the order of their
/// bind groups.
fn binds_all(node: &ComputeNode) -> (ok: bool)
    ensures
        ok == (node.bind_groups@ == all_buffers()),
{
    let ok = node.bind_groups.len() == 5 && node.bind_groups[0] == BufferName::Parameters
        && node.bind_groups[1] == BufferName::Particles && node.bind_groups[2]
        == BufferName::SortParams && node.bind_groups[3] == BufferName::CellIndex
        && node.bind_groups[4] == BufferName::Result;
    assert(ok ==> node.bind_groups@ =~= all_buffers());
    ok
}

impl ComputeState {
    /// The number of particles that the device buffers are sized for.
    pub open spec fn particles(&self) -> nat {
        self.buffers.particles()
    }

    /// The parameters that a sub-step of length `time_step` runs with.
    pub open spec fn parameters(&self, time_step: u32) -> Parameters {
        Parameters { time_step, boundary: self.boundary, grid_size: self.grid_size }
    }

    /// Every kernel is bound to the five buffers in the order of their bind
    /// groups, and the grid pipeline is in use only where the sorting network
    /// can take all particles.
    pub open spec fn wf(&self) -> bool {
        &&& self.assign_cell_node.kernel == Kernel::AssignCell
        &&& self.sort_node.kernel == Kernel::Sort
        &&& self.build_grid_node.kernel == Kernel::BuildGrid
        &&& self.collision_node.kernel == Kernel::Collision
        &&& self.assign_cell_node.bind_groups@ == all_buffers()
        &&& self.sort_node.bind_groups@ == all_buffers()
        &&& self.build_grid_node.bind_groups@ == all_buffers()
        &&& self.collision_node.bind_groups@ == all_buffers()
        &&& self.mode == PipelineMode::Grid ==> self.particles() <= MAX_SORTABLE
    }

    /// Whether the pipeline is as [`ComputeState::new`] made it, up to the
    /// choice of kernels.
    pub fn is_wf(&self) -> (ok: bool)
        ensures
            ok == self.wf(),
    {
        let kernels = self.assign_cell_node.kernel == Kernel::AssignCell && self.sort_node.kernel
            == Kernel::Sort && self.build_grid_node.kernel == Kernel::BuildGrid
            && self.collision_node.kernel == Kernel::Collision;
        let sortable = match self.mode {
            PipelineMode::CollisionOnly => true,
            PipelineMode::Grid => self.buffers.buffer_len() <= MAX_SORTABLE,
        };
        kernels && sortable && binds_all(&self.assign_cell_node) && binds_all(&self.sort_node)
            && binds_all(&self.build_grid_node) && binds_all(&self.collision_node)
    }

    /// The thread groups of every launch: one thread for each particle.
    pub open spec fn workgroups(&self) -> u32 {
        workgroups_for(self.particles()) as u32
    }

    /// The commands of one sub-step.
    pub open spec fn substep_commands(&self) -> Seq<Command> {
        match self.mode {
            PipelineMode::CollisionOnly => self.collision_node.commands(self.workgroups()),
            PipelineMode::Grid => self.assign_cell_node.commands(self.workgroups())
                + sort_commands(
                sort_stages(self.particles()),
                0,
                self.sort_node.commands(self.workgroups()),
            ) + self.build_grid_node.commands(self.workgroups()) + self.collision_node.commands(
                self.workgroups(),
            ),
        }
    }

    /// A pipeline for `particle_count` particles in the cube of half width
    /// `boundary`, with an empty particle store. `boundary` and
    /// `particle_diameter` are bit patterns of single-precision numbers. The
    /// pipeline starts out with the collision kernel alone and a grid of one
    /// cell.
    pub fn new(particle_count: u32, boundary: u32, particle_diameter: u32) -> (state: ComputeState)
        ensures
            state.wf(),
            state.instances@.len() == 0,
            state.particles() == particle_count,
            state.mode == PipelineMode::CollisionOnly,
            state.boundary == boundary,
            state.particle_diameter == particle_diameter,
            state.grid_size == 1,
    {
        let buffers = [
            BufferName::Parameters,
            BufferName::Particles,
            BufferName::SortParams,
            BufferName::CellIndex,
            BufferName::Result,
        ];
        assert(buffers@ =~= all_buffers());
        let assign_cell_node = ComputeNode::new(Kernel::AssignCell, buffers.as_slice());
        let sort_node = ComputeNode::new(Kernel::Sort, buffers.as_slice());
        let build_grid_node = ComputeNode::new(Kernel::BuildGrid, buffers.as_slice());
        let collision_node = ComputeNode::new(Kernel::Collision, buffers.as_slice());
        ComputeState {
            instances: Vec::new(),
            buffers: DeviceBufferSet::new(particle_count),
            boundary,
            particle_diameter,
            grid_size: 1,
            mode: PipelineMode::CollisionOnly,
            assign_cell_node,
            sort_node,
            build_grid_node,
            collision_node,
        }
    }

    /// Chooses the kernels that a sub-step runs. The grid pipeline needs one
    /// sort stage as wide as the first power of two that covers all
    /// particles; where the stage descriptor cannot hold that width, the
    /// choice is refused and nothing changes.
    pub fn set_mode(&mut self, mode: PipelineMode) -> (accepted: bool)
        requires
            old(self).wf(),
        ensures
            final(self).wf(),
            accepted <==> (mode == PipelineMode::Grid ==> old(self).particles() <= MAX_SORTABLE),
            final(self).mode == if accepted {
                mode
            } else {
                old(self).mode
            },
            final(self).instances == old(self).instances,
            final(self).buffers == old(self).buffers,
            final(self).boundary == old(self).boundary,
            final(self).particle_diameter == old(self).particle_diameter,
            final(self).grid_size == old(self).grid_size,
    {
        let accepted = match mode {
            PipelineMode::CollisionOnly => true,
            PipelineMode::Grid => self.buffers.buffer_len() <= MAX_SORTABLE,
        };
        if accepted {
            self.mode = mode;
        }
        accepted
    }

    /// The content of the particle buffer for `instances`: their packed
    /// records, one after the other. Fails with `SizeMismatch` unless there
    /// are exactly as many particles as the buffer has records.
    pub fn write_instances_buffer(&self, instances: &[ComputeInstance]) -> (payload: Result<
        Vec<u8>,
        ComputeError,
    >)
        ensures
            payload is Ok <==> instances@.len() == self.particles(),
            payload matches Ok(bytes) ==> bytes@ == native_bytes(instance_words(instances@))
                && bytes@.len() == self.buffers.capacity(BufferName::Particles),
            payload matches Err(e) ==> e == ComputeError::SizeMismatch,
    {
        if instances.len() as u64 != self.buffers.buffer_len() as u64 {
            return Err(ComputeError::SizeMismatch);
        }
        let words = instances_to_words(instances);
        let bytes = cast_words(words.as_slice());
        Ok(bytes)
    }

    /// The device work of `simulation_rounds` sub-steps, in order.
    pub fn do_compute(&self, simulation_rounds: u32) -> (commands: Vec<Command>)
        requires
            self.wf(),
        ensures
            commands@ == repeated(self.substep_commands(), simulation_rounds as nat),
    {
        let workgroups: u32 = self.buffers.buffer_len() / WORKGROUP_SIZE + 1;
        let mut commands: Vec<Command> = Vec::new();
        let mut round: u32 = 0;
        while round < simulation_rounds
            invariant
                self.wf(),
                workgroups == self.workgroups(),
                round <= simulation_rounds,
                commands@ == repeated(self.substep_commands(), round as nat),
            decreases simulation_rounds - round,
        {
            let ghost before = commands@;
            match self.mode {
                PipelineMode::CollisionOnly => {
                    self.collision_node.dispatch(&mut commands, workgroups);
                },
                PipelineMode::Grid => {
                    self.assign_cell_node.dispatch(&mut commands, workgroups);
                    let stages = sort_schedule(self.buffers.buffer_len());
                    let ghost launch = self.sort_node.commands(workgroups);
                    let ghost sorted_from = commands@;
                    let mut s: usize = 0;
                    while s < stages.len()
                        invariant
                            self.wf(),
                            s <= stages@.len(),
                            launch == self.sort_node.commands(workgroups),
                            commands@ + sort_commands(stages@, s as int, launch) == sorted_from
                                + sort_commands(stages@, 0, launch),
                        decreases stages@.len() - s,
                    {
                        proof {
                            assert(commands@.push(Command::WriteSortParams(stages@[s as int]))
                                + launch + sort_commands(stages@, s + 1, launch) =~= commands@
                                + sort_commands(stages@, s as int, launch));
                        }
                        commands.push(Command::WriteSortParams(stages[s]));
                        self.sort_node.dispatch(&mut commands, workgroups);
                        s = s + 1;
                    }
                    assert(commands@ =~= commands@ + sort_commands(stages@, s as int, launch));
                    self.build_grid_node.dispatch(&mut commands, workgroups);
                    self.collision_node.dispatch(&mut commands, workgroups);
                },
            }
            assert(commands@ =~= before + self.substep_commands());
            round = round + 1;
        }
        commands
    }

    /// The first half of a frame: what goes to the device for a frame whose
    /// sub-steps each last `time_step` (the bit pattern of the frame's length
    /// in seconds divided by [`SIMULATION_ROUNDS`]). Fails with
    /// `SizeMismatch` unless the particle store fills the particle buffer.
    pub fn prepare(&self, time_step: u32) -> (frame: Result<Frame, ComputeError>)
        requires
            self.wf(),
        ensures
            frame is Ok <==> self.instances@.len() == self.particles(),
            frame matches Ok(f) ==> {
                &&& f.particles@ == native_bytes(instance_words(self.instances@))
                &&& f.parameters@ == native_bytes(self.parameters(time_step).words())
                &&& f.commands@ == repeated(self.substep_commands(), SIMULATION_ROUNDS as nat)
            },
            frame matches Err(e) ==> e == ComputeError::SizeMismatch,
    {
        let particles = match self.write_instances_buffer(self.instances.as_slice()) {
            Ok(bytes) => bytes,
            Err(e) => {
                return Err(e);
            },
        };
        let params = Parameters {
            time_step,
            boundary: self.boundary,
            grid_size: self.grid_size,
        };
        let parameters = params.to_bytes();
        let commands = self.do_compute(SIMULATION_ROUNDS);
        Ok(Frame { particles, parameters, commands })
    }

    /// The second half of a frame: takes the position and velocity of every
    /// particle from the result buffer, record `i` for particle `i`. Identity
    /// and radius stay with the host and are never touched, nor is the number
    /// of particles. Where the read-back failed, or the bytes do not have the
    /// size of the result buffer, the particle store stays as it was and the
    /// error says why.
    pub fn update(&mut self, readback: Readback) -> (done: Result<(), ComputeError>)
        ensures
            done == outcome_of(old(self).instances@.len(), old(self).particles(), readback),
            final(self).instances@ == instances_after(
                old(self).instances@,
                old(self).particles(),
                readback,
            ),
            final(self).instances@.len() == old(self).instances@.len(),
            forall|i: int|
                0 <= i < old(self).instances@.len() ==> {
                    &&& (#[trigger] final(self).instances@[i]).id == old(self).instances@[i].id
                    &&& final(self).instances@[i].radius == old(self).instances@[i].radius
                },
            final(self).buffers == old(self).buffers,
            final(self).boundary == old(self).boundary,
            final(self).particle_diameter == old(self).particle_diameter,
            final(self).grid_size == old(self).grid_size,
            final(self).mode == old(self).mode,
            final(self).assign_cell_node == old(self).assign_cell_node,
            final(self).sort_node == old(self).sort_node,
            final(self).build_grid_node == old(self).build_grid_node,
            final(self).collision_node == old(self).collision_node,
    {
        let bytes = match readback {
            Readback::Mapped(bytes) => bytes,
            Readback::MapFailed => {
                return Err(ComputeError::MapFailure);
            },
            Readback::TimedOut => {
                return Err(ComputeError::DeviceTimeout);
            },
        };
        let count: usize = self.instances.len();
        if count as u64 != self.buffers.buffer_len() as u64 {
            return Err(ComputeError::SizeMismatch);
        }
        if self.buffers.check_size(BufferName::Result, bytes.len()).is_err() {
            return Err(ComputeError::SizeMismatch);
        }
        let results = bytes_to_u32(bytes.as_slice());
        let mut i: usize = 0;
        while i < count
            invariant
                i <= count,
                count == self.instances@.len(),
                count == old(self).instances@.len(),
                results@.len() == 8 * count,
                forall|n: int|
                    0 <= n < i ==> #[trigger] self.instances@[n] == old(self).instances@[n].moved(
                        ResultRecord::at(results@, n),
                    ),
                forall|n: int| i <= n < count ==> #[trigger] self.instances@[n] == old(
                    self,
                ).instances@[n],
                self.buffers == old(self).buffers,
                self.boundary == old(self).boundary,
                self.particle_diameter == old(self).particle_diameter,
                self.grid_size == old(self).grid_size,
                self.mode == old(self).mode,
                self.assign_cell_node == old(self).assign_cell_node,
                self.sort_node == old(self).sort_node,
                self.build_grid_node == old(self).build_grid_node,
                self.collision_node == old(self).collision_node,
            decreases count - i,
        {
            let result = ResultRecord::read(results.as_slice(), i);
            let mut instance = self.instances[i];
            instance.position = result.position;
            instance.velocity = result.velocity;
            self.instances.set(i, instance);
            i = i + 1;
        }
        assert(self.instances@ =~= moved_instances(old(self).instances@, results@));
        Ok(())
    }
}

} // verus!
