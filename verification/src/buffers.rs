//! The five device buffers: what each is for, how large it is, and who may
//! touch it.
//!
//! All sizes follow from the particle capacity that the set is made with, and
//! nothing changes them afterwards.

use crate::records::{
    CELL_INDEX_WORDS, INSTANCE_WORDS, PARAMETERS_WORDS, RESULT_WORDS, SORT_PARAMS_WORDS,
};
use crate::words::WORD_BYTES;
use vstd::prelude::*;

verus! {

/// What can go wrong in a frame.
#[derive(Debug, Copy, Clone, PartialEq, Eq, Structural)]
pub enum ComputeError {
    /// A payload does not have the size of the buffer it is meant for.
    SizeMismatch,
    /// The device did not finish in time.
    DeviceTimeout,
    /// The result buffer could not be mapped for reading.
    MapFailure,
}

/// The logical name of a device buffer.
#[derive(Debug, Copy, Clone, PartialEq, Eq, Structural)]
pub enum BufferName {
    Parameters,
    Particles,
    SortParams,
    CellIndex,
    Result,
}

/// Who, besides the kernels, touches a buffer.
#[derive(Debug, Copy, Clone, PartialEq, Eq, Structural)]
pub enum BufferUsage {
    /// Kernel storage that the host writes.
    HostWrite,
    /// Kernel storage that the host maps and reads.
    HostRead,
}

/// The size in bytes of one record of the named buffer.
pub open spec fn record_bytes(name: BufferName) -> nat {
    match name {
        BufferName::Parameters => 12,
        BufferName::Particles => 48,
        BufferName::SortParams => 8,
        BufferName::CellIndex => 8,
        BufferName::Result => 32,
    }
}

/// The number of records in the named buffer of a set for `particles`
/// particles.
pub open spec fn record_count(name: BufferName, particles: nat) -> nat {
    match name {
        BufferName::Parameters => 1,
        BufferName::Particles => particles,
        BufferName::SortParams => 1,
        BufferName::CellIndex => particles,
        BufferName::Result => particles,
    }
}

/// The bind group index under which every kernel sees the named buffer.
pub open spec fn group_of(name: BufferName) -> nat {
    match name {
        BufferName::Parameters => 0,
        BufferName::Particles => 1,
        BufferName::SortParams => 2,
        BufferName::CellIndex => 3,
        BufferName::Result => 4,
    }
}

/// The five buffers in the order of their bind groups.
pub open spec fn all_buffers() -> Seq<BufferName> {
    seq![
        BufferName::Parameters,
        BufferName::Particles,
        BufferName::SortParams,
        BufferName::CellIndex,
        BufferName::Result,
    ]
}

impl BufferName {
    /// The size in bytes of one record of this buffer.
    pub fn record_size(self) -> (size: u64)
        ensures
            size == record_bytes(self),
    {
        let words: usize = match self {
            BufferName::Parameters => PARAMETERS_WORDS,
            BufferName::Particles => INSTANCE_WORDS,
            BufferName::SortParams => SORT_PARAMS_WORDS,
            BufferName::CellIndex => CELL_INDEX_WORDS,
            BufferName::Result => RESULT_WORDS,
        };
        (words * WORD_BYTES) as u64
    }

    /// The bind group index under which every kernel sees this buffer.
    pub fn group(self) -> (index: u32)
        ensures
            index == group_of(self),
            all_buffers()[index as int] == self,
    {
        match self {
            BufferName::Parameters => 0,
            BufferName::Particles => 1,
            BufferName::SortParams => 2,
            BufferName::CellIndex => 3,
            BufferName::Result => 4,
        }
    }

    /// Who touches this buffer: the host reads the results and writes the
    /// rest.
    pub fn usage(self) -> (usage: BufferUsage)
        ensures
            usage == BufferUsage::HostRead <==> self == BufferName::Result,
    {
        match self {
            BufferName::Result => BufferUsage::HostRead,
            _ => BufferUsage::HostWrite,
        }
    }

    /// The label that the buffer carries on the device.
    pub fn label(self) -> (label: &'static str)
        ensures
            label@ == match self {
                BufferName::Parameters => "Params Buffer"@,
                BufferName::Particles => "Instances Buffer"@,
                BufferName::SortParams => "Sort Params Buffer"@,
                BufferName::CellIndex => "Cell Index Buffer"@,
                BufferName::Result => "Output Position Buffer"@,
            },
    {
        match self {
            BufferName::Parameters => "Params Buffer",
            BufferName::Particles => "Instances Buffer",
            BufferName::SortParams => "Sort Params Buffer",
            BufferName::CellIndex => "Cell Index Buffer",
            BufferName::Result => "Output Position Buffer",
        }
    }
}

/// The buffers of one pipeline, sized for a fixed number of particles.
#[derive(Debug, Copy, Clone)]
pub struct DeviceBufferSet {
    buffer_len: u32,
}

impl DeviceBufferSet {
    /// The number of particles that the set is sized for.
    pub closed spec fn particles(self) -> nat {
        self.buffer_len as nat
    }

    /// The size in bytes of the named buffer.
    pub open spec fn capacity(self, name: BufferName) -> nat {
        record_bytes(name) * record_count(name, self.particles())
    }

    /// The buffers for `buffer_len` particles.
    pub fn new(buffer_len: u32) -> (set: DeviceBufferSet)
        ensures
            set.particles() == buffer_len,
    {
        DeviceBufferSet { buffer_len }
    }

    /// The number of particles that the set is sized for.
    pub fn buffer_len(&self) -> (len: u32)
        ensures
            len == self.particles(),
    {
        self.buffer_len
    }

    /// The size in bytes with which the named buffer is allocated.
    pub fn size(&self, name: BufferName) -> (size: u64)
        ensures
            size == self.capacity(name),
    {
        let count: u64 = match name {
            BufferName::Parameters => 1,
            BufferName::Particles => self.buffer_len as u64,
            BufferName::SortParams => 1,
            BufferName::CellIndex => self.buffer_len as u64,
            BufferName::Result => self.buffer_len as u64,
        };
        let record: u64 = name.record_size();
        assert(record * count <= 48 * 0xffff_ffff) by (nonlinear_arith)
            requires
                record <= 48,
                count <= 0xffff_ffff,
        ;
        record * count
    }

    /// Whether a payload of `payload_len` bytes may be written to, or has
    /// been read from, the named buffer: only one that fills it exactly.
    pub fn check_size(&self, name: BufferName, payload_len: usize) -> (checked: Result<
        (),
        ComputeError,
    >)
        ensures
            checked is Ok <==> payload_len == self.capacity(name),
            checked is Err ==> checked == Err::<(), ComputeError>(ComputeError::SizeMismatch),
    {
        if payload_len as u64 == self.size(name) {
            Ok(())
        } else {
            Err(ComputeError::SizeMismatch)
        }
    }
}

} // verus!
