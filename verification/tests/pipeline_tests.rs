use particle_sim::buffers::BufferName;
use particle_sim::pipeline::{
    sort_schedule, Command, ComputeNode, Kernel, MAX_SORTABLE, WORKGROUP_SIZE,
};
use particle_sim::records::SortParams;

fn pairs(stages: &[SortParams]) -> Vec<(u32, u32)> {
    stages.iter().map(|s| (s.j, s.k)).collect()
}

#[test]
fn no_stage_for_fewer_than_two_records() {
    assert!(sort_schedule(0).is_empty());
    assert!(sort_schedule(1).is_empty());
}

#[test]
fn schedule_for_two_records() {
    assert_eq!(pairs(&sort_schedule(2)), vec![(1, 2)]);
}

#[test]
fn schedule_for_eight_records() {
    assert_eq!(
        pairs(&sort_schedule(8)),
        vec![(1, 2), (2, 4), (1, 4), (4, 8), (2, 8), (1, 8)]
    );
}

#[test]
fn schedule_goes_up_to_the_next_power_of_two() {
    assert_eq!(pairs(&sort_schedule(3)), vec![(1, 2), (2, 4), (1, 4)]);
    assert_eq!(pairs(&sort_schedule(4)), vec![(1, 2), (2, 4), (1, 4)]);
    assert_eq!(
        pairs(&sort_schedule(5)),
        vec![(1, 2), (2, 4), (1, 4), (4, 8), (2, 8), (1, 8)]
    );
}

#[test]
fn schedule_length_is_quadratic_in_the_logarithm() {
    // 10000 records: merges of width 2 up to 16384, that is 1 + 2 + ... + 14 stages.
    assert_eq!(sort_schedule(10000).len(), 105);
    let widest = sort_schedule(MAX_SORTABLE);
    assert_eq!(widest.len(), 31 * 32 / 2);
    let last = widest[widest.len() - 1];
    assert_eq!((last.j, last.k), (1, 0x8000_0000));
    let first_of_last_merge = widest[widest.len() - 31];
    assert_eq!((first_of_last_merge.j, first_of_last_merge.k), (0x4000_0000, 0x8000_0000));
}

#[test]
fn workgroup_size_is_sixty_four() {
    assert_eq!(WORKGROUP_SIZE, 64);
}

#[test]
fn kernel_labels() {
    assert_eq!(Kernel::AssignCell.label(), "Assign Cell");
    assert_eq!(Kernel::Sort.label(), "Sort");
    assert_eq!(Kernel::BuildGrid.label(), "Build Grid");
    assert_eq!(Kernel::Collision.label(), "Collision");
}

#[test]
fn node_binds_buffers_in_the_order_given() {
    let node = ComputeNode::new(Kernel::Sort, &[BufferName::Result, BufferName::Particles]);
    assert_eq!(node.kernel, Kernel::Sort);
    assert_eq!(node.bind_groups, vec![BufferName::Result, BufferName::Particles]);
}

#[test]
fn dispatch_records_pipeline_bindings_and_launch() {
    let node = ComputeNode::new(
        Kernel::Collision,
        &[BufferName::Parameters, BufferName::Particles, BufferName::Result],
    );
    let mut pass = vec![Command::SetPipeline(Kernel::Sort)];
    node.dispatch(&mut pass, 157);
    assert_eq!(
        pass,
        vec![
            Command::SetPipeline(Kernel::Sort),
            Command::SetPipeline(Kernel::Collision),
            Command::SetBindGroup { index: 0, buffer: BufferName::Parameters },
            Command::SetBindGroup { index: 1, buffer: BufferName::Particles },
            Command::SetBindGroup { index: 2, buffer: BufferName::Result },
            Command::DispatchWorkgroups { x: 157, y: 1, z: 1 },
        ]
    );
}

#[test]
fn dispatch_on_no_thread_group_is_a_no_op() {
    let node = ComputeNode::new(Kernel::Collision, &[BufferName::Parameters]);
    let mut pass: Vec<Command> = Vec::new();
    node.dispatch(&mut pass, 0);
    assert!(pass.is_empty());
    let mut other = vec![Command::DispatchWorkgroups { x: 1, y: 1, z: 1 }];
    node.dispatch(&mut other, 0);
    assert_eq!(other, vec![Command::DispatchWorkgroups { x: 1, y: 1, z: 1 }]);
}

#[test]
fn dispatch_without_buffers() {
    let node = ComputeNode::new(Kernel::BuildGrid, &[]);
    let mut pass: Vec<Command> = Vec::new();
    node.dispatch(&mut pass, 3);
    assert_eq!(
        pass,
        vec![
            Command::SetPipeline(Kernel::BuildGrid),
            Command::DispatchWorkgroups { x: 3, y: 1, z: 1 },
        ]
    );
}
