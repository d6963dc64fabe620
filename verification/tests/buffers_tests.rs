use particle_sim::buffers::{BufferName, BufferUsage, ComputeError, DeviceBufferSet};

#[test]
fn buffer_sizes_follow_the_particle_count() {
    let set = DeviceBufferSet::new(10000);
    assert_eq!(set.buffer_len(), 10000);
    assert_eq!(set.size(BufferName::Parameters), 12);
    assert_eq!(set.size(BufferName::Particles), 480000);
    assert_eq!(set.size(BufferName::SortParams), 8);
    assert_eq!(set.size(BufferName::CellIndex), 80000);
    assert_eq!(set.size(BufferName::Result), 320000);
}

#[test]
fn buffer_sizes_at_the_limits() {
    let none = DeviceBufferSet::new(0);
    assert_eq!(none.size(BufferName::Particles), 0);
    assert_eq!(none.size(BufferName::Parameters), 12);
    let most = DeviceBufferSet::new(u32::MAX);
    assert_eq!(most.size(BufferName::Particles), 48 * (u32::MAX as u64));
    assert_eq!(most.size(BufferName::Result), 32 * (u32::MAX as u64));
}

#[test]
fn record_sizes_in_bytes() {
    assert_eq!(BufferName::Parameters.record_size(), 12);
    assert_eq!(BufferName::Particles.record_size(), 48);
    assert_eq!(BufferName::SortParams.record_size(), 8);
    assert_eq!(BufferName::CellIndex.record_size(), 8);
    assert_eq!(BufferName::Result.record_size(), 32);
}

#[test]
fn bind_groups_are_in_a_fixed_order() {
    assert_eq!(BufferName::Parameters.group(), 0);
    assert_eq!(BufferName::Particles.group(), 1);
    assert_eq!(BufferName::SortParams.group(), 2);
    assert_eq!(BufferName::CellIndex.group(), 3);
    assert_eq!(BufferName::Result.group(), 4);
}

#[test]
fn only_the_result_buffer_is_read_by_the_host() {
    assert_eq!(BufferName::Result.usage(), BufferUsage::HostRead);
    assert_eq!(BufferName::Parameters.usage(), BufferUsage::HostWrite);
    assert_eq!(BufferName::Particles.usage(), BufferUsage::HostWrite);
    assert_eq!(BufferName::SortParams.usage(), BufferUsage::HostWrite);
    assert_eq!(BufferName::CellIndex.usage(), BufferUsage::HostWrite);
}

#[test]
fn buffer_labels() {
    assert_eq!(BufferName::Parameters.label(), "Params Buffer");
    assert_eq!(BufferName::Particles.label(), "Instances Buffer");
    assert_eq!(BufferName::SortParams.label(), "Sort Params Buffer");
    assert_eq!(BufferName::CellIndex.label(), "Cell Index Buffer");
    assert_eq!(BufferName::Result.label(), "Output Position Buffer");
}

#[test]
fn a_payload_must_fill_its_buffer_exactly() {
    let set = DeviceBufferSet::new(4);
    assert_eq!(set.check_size(BufferName::Particles, 192), Ok(()));
    assert_eq!(set.check_size(BufferName::Particles, 191), Err(ComputeError::SizeMismatch));
    assert_eq!(set.check_size(BufferName::Particles, 193), Err(ComputeError::SizeMismatch));
    assert_eq!(set.check_size(BufferName::Particles, 0), Err(ComputeError::SizeMismatch));
    assert_eq!(set.check_size(BufferName::Result, 128), Ok(()));
    assert_eq!(set.check_size(BufferName::Parameters, 12), Ok(()));
    assert_eq!(set.check_size(BufferName::SortParams, 12), Err(ComputeError::SizeMismatch));
}
