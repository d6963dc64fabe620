use particle_sim::buffers::{BufferName, ComputeError};
use particle_sim::compute::{ComputeState, PipelineMode, Readback, SIMULATION_ROUNDS};
use particle_sim::pipeline::{Command, Kernel};
use particle_sim::records::{results_to_words, ComputeInstance, Result, SortParams};
use particle_sim::utils::bytes_to_u32;

fn bytes_of(words: &[u32]) -> Vec<u8> {
    let mut bytes = Vec::new();
    for w in words {
        bytes.extend_from_slice(&w.to_ne_bytes());
    }
    bytes
}

fn particle(id: u32, x: f32, y: f32, z: f32) -> ComputeInstance {
    ComputeInstance {
        id,
        position: [x.to_bits(), y.to_bits(), z.to_bits()],
        radius: 0.2f32.to_bits(),
        velocity: [0.0f32.to_bits(), 0.0f32.to_bits(), 0.0f32.to_bits()],
    }
}

fn state_with(particles: &[ComputeInstance]) -> ComputeState {
    let mut state = ComputeState::new(particles.len() as u32, 10.0f32.to_bits(), 0.4f32.to_bits());
    for p in particles {
        state.instances.push(*p);
    }
    state
}

/// A device on which nothing moves: what it leaves in the result buffer for
/// the particle buffer it was given.
fn still_device(particle_bytes: &[u8]) -> Vec<u8> {
    let words = bytes_to_u32(particle_bytes);
    let mut results = Vec::new();
    for record in words.chunks(12) {
        results.push(Result {
            position: [record[4], record[5], record[6]],
            _padding: 0,
            velocity: [record[8], record[9], record[10]],
            _padding2: 0,
        });
    }
    bytes_of(&results_to_words(&results))
}

fn launch(kernel: Kernel, groups: u32) -> Vec<Command> {
    vec![
        Command::SetPipeline(kernel),
        Command::SetBindGroup { index: 0, buffer: BufferName::Parameters },
        Command::SetBindGroup { index: 1, buffer: BufferName::Particles },
        Command::SetBindGroup { index: 2, buffer: BufferName::SortParams },
        Command::SetBindGroup { index: 3, buffer: BufferName::CellIndex },
        Command::SetBindGroup { index: 4, buffer: BufferName::Result },
        Command::DispatchWorkgroups { x: groups, y: 1, z: 1 },
    ]
}

#[test]
fn new_state_is_empty_and_runs_the_collision_kernel_alone() {
    let state = ComputeState::new(10000, 10.0f32.to_bits(), 0.4f32.to_bits());
    assert!(state.instances.is_empty());
    assert_eq!(state.buffers.buffer_len(), 10000);
    assert_eq!(state.boundary, 10.0f32.to_bits());
    assert_eq!(state.particle_diameter, 0.4f32.to_bits());
    assert_eq!(state.grid_size, 1);
    assert_eq!(state.mode, PipelineMode::CollisionOnly);
    assert_eq!(state.collision_node.kernel, Kernel::Collision);
    assert_eq!(state.assign_cell_node.kernel, Kernel::AssignCell);
    assert_eq!(state.sort_node.kernel, Kernel::Sort);
    assert_eq!(state.build_grid_node.kernel, Kernel::BuildGrid);
    let all = vec![
        BufferName::Parameters,
        BufferName::Particles,
        BufferName::SortParams,
        BufferName::CellIndex,
        BufferName::Result,
    ];
    assert_eq!(state.collision_node.bind_groups, all);
    assert_eq!(state.sort_node.bind_groups, all);
}

#[test]
fn simulation_rounds_default() {
    assert_eq!(SIMULATION_ROUNDS, 10);
}

#[test]
fn write_instances_buffer_packs_native_bytes() {
    let p = ComputeInstance { id: 7, position: [1, 2, 3], radius: 4, velocity: [5, 6, 7] };
    let state = ComputeState::new(1, 0, 0);
    let bytes = state.write_instances_buffer(&[p]).unwrap();
    assert_eq!(bytes.len(), 48);
    assert_eq!(bytes, bytes_of(&[7, 4, 0, 0, 1, 2, 3, 0, 5, 6, 7, 0]));
}

#[test]
fn write_instances_buffer_needs_a_full_buffer() {
    let p = ComputeInstance { id: 7, position: [1, 2, 3], radius: 4, velocity: [5, 6, 7] };
    let state = ComputeState::new(2, 0, 0);
    assert_eq!(state.write_instances_buffer(&[p]), Err(ComputeError::SizeMismatch));
    assert_eq!(state.write_instances_buffer(&[p, p, p]), Err(ComputeError::SizeMismatch));
    assert_eq!(state.write_instances_buffer(&[]), Err(ComputeError::SizeMismatch));
    assert!(state.write_instances_buffer(&[p, p]).is_ok());
    let empty = ComputeState::new(0, 0, 0);
    assert_eq!(empty.write_instances_buffer(&[]), Ok(vec![]));
}

#[test]
fn do_compute_collision_only() {
    let state = ComputeState::new(10000, 0, 0);
    let commands = state.do_compute(2);
    let mut expected = launch(Kernel::Collision, 157);
    expected.extend(launch(Kernel::Collision, 157));
    assert_eq!(commands, expected);
    assert!(state.do_compute(0).is_empty());
    assert_eq!(state.do_compute(10).len(), 70);
}

#[test]
fn workgroups_cover_every_particle() {
    for (count, groups) in [(0u32, 1u32), (1, 1), (63, 1), (64, 2), (65, 2), (10000, 157)] {
        let state = ComputeState::new(count, 0, 0);
        let commands = state.do_compute(1);
        assert_eq!(commands[commands.len() - 1], Command::DispatchWorkgroups { x: groups, y: 1, z: 1 });
    }
    let most = ComputeState::new(u32::MAX, 0, 0);
    let commands = most.do_compute(1);
    assert_eq!(
        commands[commands.len() - 1],
        Command::DispatchWorkgroups { x: 67108864, y: 1, z: 1 }
    );
}

#[test]
fn do_compute_grid_pipeline_runs_the_four_stages_in_order() {
    let mut state = ComputeState::new(4, 0, 0);
    assert!(state.set_mode(PipelineMode::Grid));
    let commands = state.do_compute(1);
    let mut expected = launch(Kernel::AssignCell, 1);
    for (j, k) in [(1u32, 2u32), (2, 4), (1, 4)] {
        expected.push(Command::WriteSortParams(SortParams { j, k }));
        expected.extend(launch(Kernel::Sort, 1));
    }
    expected.extend(launch(Kernel::BuildGrid, 1));
    expected.extend(launch(Kernel::Collision, 1));
    assert_eq!(commands, expected);
    let twice = state.do_compute(2);
    let mut both = expected.clone();
    both.extend(expected);
    assert_eq!(twice, both);
}

#[test]
fn set_mode_refuses_a_grid_too_wide_to_sort() {
    let mut wide = ComputeState::new(0x8000_0001, 0, 0);
    assert!(!wide.set_mode(PipelineMode::Grid));
    assert_eq!(wide.mode, PipelineMode::CollisionOnly);
    assert!(wide.set_mode(PipelineMode::CollisionOnly));
    let mut widest_ok = ComputeState::new(0x8000_0000, 0, 0);
    assert!(widest_ok.set_mode(PipelineMode::Grid));
    assert_eq!(widest_ok.mode, PipelineMode::Grid);
    assert!(widest_ok.set_mode(PipelineMode::CollisionOnly));
    assert_eq!(widest_ok.mode, PipelineMode::CollisionOnly);
}

#[test]
fn prepare_lays_out_the_frame() {
    let p = particle(3, 1.0, 2.0, 3.0);
    let state = state_with(&[p]);
    let time_step = (0.016f32 / 10.0).to_bits();
    let frame = state.prepare(time_step).unwrap();
    assert_eq!(
        frame.particles,
        bytes_of(&[
            3,
            0.2f32.to_bits(),
            0,
            0,
            1.0f32.to_bits(),
            2.0f32.to_bits(),
            3.0f32.to_bits(),
            0,
            0,
            0,
            0,
            0
        ])
    );
    assert_eq!(frame.parameters, bytes_of(&[time_step, 10.0f32.to_bits(), 1]));
    assert_eq!(frame.commands, state.do_compute(10));
    assert_eq!(frame.commands.len(), 70);
}

#[test]
fn prepare_fails_unless_the_store_fills_the_buffer() {
    let mut state = ComputeState::new(2, 0, 0);
    assert_eq!(state.prepare(0).err(), Some(ComputeError::SizeMismatch));
    state.instances.push(particle(0, 0.0, 0.0, 0.0));
    assert_eq!(state.prepare(0).err(), Some(ComputeError::SizeMismatch));
    state.instances.push(particle(1, 0.0, 0.0, 0.0));
    assert!(state.prepare(0).is_ok());
    state.instances.push(particle(2, 0.0, 0.0, 0.0));
    assert_eq!(state.prepare(0).err(), Some(ComputeError::SizeMismatch));
}

#[test]
fn update_takes_position_and_velocity_from_the_results() {
    let mut state = state_with(&[particle(10, 1.0, 2.0, 3.0), particle(11, 4.0, 5.0, 6.0)]);
    let results = bytes_of(&[
        100, 101, 102, 777, 103, 104, 105, 888, 200, 201, 202, 999, 203, 204, 205, 111,
    ]);
    assert_eq!(state.update(Readback::Mapped(results)), Ok(()));
    assert_eq!(
        state.instances,
        vec![
            ComputeInstance {
                id: 10,
                position: [100, 101, 102],
                radius: 0.2f32.to_bits(),
                velocity: [103, 104, 105]
            },
            ComputeInstance {
                id: 11,
                position: [200, 201, 202],
                radius: 0.2f32.to_bits(),
                velocity: [203, 204, 205]
            },
        ]
    );
}

#[test]
fn update_keeps_length_identity_and_radius() {
    let before = vec![particle(5, 1.0, 1.0, 1.0), particle(6, 2.0, 2.0, 2.0), particle(7, 3.0, 3.0, 3.0)];
    let mut state = state_with(&before);
    let mut words = Vec::new();
    for i in 0..24u32 {
        words.push(i.wrapping_mul(2654435761));
    }
    assert_eq!(state.update(Readback::Mapped(bytes_of(&words))), Ok(()));
    assert_eq!(state.instances.len(), before.len());
    for i in 0..before.len() {
        assert_eq!(state.instances[i].id, before[i].id);
        assert_eq!(state.instances[i].radius, before[i].radius);
    }
    assert_ne!(state.instances[0].position, before[0].position);
}

#[test]
fn update_with_a_failed_mapping_keeps_the_store() {
    let before = vec![particle(1, 1.0, 2.0, 3.0)];
    let mut state = state_with(&before);
    assert_eq!(state.update(Readback::MapFailed), Err(ComputeError::MapFailure));
    assert_eq!(state.instances, before);
}

#[test]
fn update_after_a_timeout_keeps_the_store() {
    let before = vec![particle(1, 1.0, 2.0, 3.0)];
    let mut state = state_with(&before);
    assert_eq!(state.update(Readback::TimedOut), Err(ComputeError::DeviceTimeout));
    assert_eq!(state.instances, before);
}

#[test]
fn update_with_results_of_the_wrong_size_keeps_the_store() {
    let before = vec![particle(1, 1.0, 2.0, 3.0)];
    let mut state = state_with(&before);
    assert_eq!(state.update(Readback::Mapped(vec![0; 31])), Err(ComputeError::SizeMismatch));
    assert_eq!(state.update(Readback::Mapped(vec![0; 33])), Err(ComputeError::SizeMismatch));
    assert_eq!(state.update(Readback::Mapped(vec![0; 64])), Err(ComputeError::SizeMismatch));
    assert_eq!(state.update(Readback::Mapped(vec![])), Err(ComputeError::SizeMismatch));
    assert_eq!(state.instances, before);
    let mut short = ComputeState::new(2, 0, 0);
    short.instances.push(particle(1, 1.0, 2.0, 3.0));
    assert_eq!(short.update(Readback::Mapped(vec![0; 64])), Err(ComputeError::SizeMismatch));
    assert_eq!(short.instances, before);
}

#[test]
fn update_of_an_empty_pipeline() {
    let mut state = ComputeState::new(0, 0, 0);
    assert_eq!(state.update(Readback::Mapped(vec![])), Ok(()));
    assert!(state.instances.is_empty());
}

#[test]
fn a_still_frame_reads_back_bit_for_bit() {
    let mut state = state_with(&[particle(0, 1.0, 2.0, 3.0)]);
    let frame = state.prepare(0.0f32.to_bits()).unwrap();
    let results = still_device(&frame.particles);
    assert_eq!(state.update(Readback::Mapped(results)), Ok(()));
    assert_eq!(
        state.instances[0].position,
        [1.0f32.to_bits(), 2.0f32.to_bits(), 3.0f32.to_bits()]
    );
    assert_eq!(f32::from_bits(state.instances[0].position[0]), 1.0);
    assert_eq!(f32::from_bits(state.instances[0].position[1]), 2.0);
    assert_eq!(f32::from_bits(state.instances[0].position[2]), 3.0);
    assert_eq!(state.instances[0].velocity, [0, 0, 0]);
}

#[test]
fn still_frames_never_move_a_particle() {
    let before = vec![
        particle(0, 1.5, -2.25, 3.0),
        ComputeInstance {
            id: 1,
            position: [f32::NAN.to_bits(), (-0.0f32).to_bits(), f32::INFINITY.to_bits()],
            radius: 0.5f32.to_bits(),
            velocity: [1.0f32.to_bits(), f32::MIN_POSITIVE.to_bits(), 0x7fc0_1234],
        },
    ];
    let mut state = state_with(&before);
    for _ in 0..5 {
        let frame = state.prepare(0.0f32.to_bits()).unwrap();
        let results = still_device(&frame.particles);
        assert_eq!(state.update(Readback::Mapped(results)), Ok(()));
        assert_eq!(state.instances, before);
    }
}

#[test]
fn two_runs_with_the_same_results_agree() {
    let start = vec![particle(0, 1.0, 2.0, 3.0), particle(1, -1.0, -2.0, -3.0)];
    let mut first = state_with(&start);
    let mut second = state_with(&start);
    let mut words: Vec<u32> = vec![0; 16];
    for frame in 0..4u32 {
        for (i, w) in words.iter_mut().enumerate() {
            *w = (i as u32 + 1).wrapping_mul(frame + 17).wrapping_mul(2246822519);
        }
        let a = first.prepare(frame).unwrap();
        let b = second.prepare(frame).unwrap();
        assert_eq!(a.particles, b.particles);
        assert_eq!(a.parameters, b.parameters);
        assert_eq!(a.commands, b.commands);
        assert_eq!(first.update(Readback::Mapped(bytes_of(&words))), Ok(()));
        assert_eq!(second.update(Readback::Mapped(bytes_of(&words))), Ok(()));
        assert_eq!(first.instances, second.instances);
    }
}

#[test]
fn a_pipeline_taken_apart_is_told_from_a_whole_one() {
    let mut state = ComputeState::new(8, 0, 0);
    assert!(state.is_wf());
    assert!(state.set_mode(PipelineMode::Grid));
    assert!(state.is_wf());
    state.sort_node.bind_groups.pop();
    assert!(!state.is_wf());

    let mut swapped = ComputeState::new(8, 0, 0);
    swapped.collision_node.kernel = Kernel::Sort;
    assert!(!swapped.is_wf());

    let mut reordered = ComputeState::new(8, 0, 0);
    reordered.assign_cell_node.bind_groups.swap(0, 1);
    assert!(!reordered.is_wf());

    let mut wide = ComputeState::new(0x8000_0001, 0, 0);
    assert!(wide.is_wf());
    wide.mode = PipelineMode::Grid;
    assert!(!wide.is_wf());
}

#[test]
fn every_node_of_a_new_pipeline_can_be_launched() {
    let state = ComputeState::new(8, 0, 0);
    assert!(state.assign_cell_node.is_wf());
    assert!(state.sort_node.is_wf());
    assert!(state.build_grid_node.is_wf());
    assert!(state.collision_node.is_wf());
}
