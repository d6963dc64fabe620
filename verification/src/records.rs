//! The records that the host and the kernels share.
//!
//! A record is a fixed run of 32-bit words. Field order and padding are part
//! of the agreement with the kernels: every three-component vector starts on a
//! 16-byte boundary and is followed by one word of padding. A field that is a
//! single-precision number on the device holds its bit pattern here.

use crate::words::{cast_words, native_bytes};
use vstd::prelude::*;

verus! {

/// Words in one packed particle record.
pub const INSTANCE_WORDS: usize = 12;

/// Words in the simulation parameters.
pub const PARAMETERS_WORDS: usize = 3;

/// Words in one sort stage descriptor.
pub const SORT_PARAMS_WORDS: usize = 2;

/// Words in one cell range.
pub const CELL_INDEX_WORDS: usize = 2;

/// Words in one result record.
pub const RESULT_WORDS: usize = 8;

/// A particle as the host keeps it between frames.
#[derive(Debug, Copy, Clone, PartialEq, Eq)]
pub struct ComputeInstance {
    pub id: u32,
    /// Bit patterns of the three coordinates.
    pub position: [u32; 3],
    /// Bit pattern of the radius.
    pub radius: u32,
    /// Bit patterns of the three velocity components.
    pub velocity: [u32; 3],
}

/// A particle as the kernels read it.
#[derive(Debug, Copy, Clone, PartialEq, Eq)]
pub struct ComputeInstanceRaw {
    pub id: u32,
    pub radius: u32,
    pub cell_index: u32,
    pub _padding_radius: u32,
    pub position: [u32; 3],
    pub _padding_position: u32,
    pub velocity: [u32; 3],
    pub _padding_velocity: u32,
}

/// The simulation parameters of one sub-step.
#[derive(Debug, Copy, Clone, PartialEq, Eq)]
pub struct Parameters {
    /// Bit pattern of the length of one sub-step, in seconds.
    pub time_step: u32,
    /// Bit pattern of the half width of the simulated cube.
    pub boundary: u32,
    pub grid_size: u32,
}

/// One stage of the bitonic sorting network.
#[derive(Debug, Copy, Clone, PartialEq, Eq, Structural)]
pub struct SortParams {
    pub j: u32,
    pub k: u32,
}

/// The records of one grid cell: those at `start`, ..., `end - 1` of the
/// sorted record array.
#[derive(Debug, Copy, Clone, PartialEq, Eq, Structural)]
pub struct CellIndex {
    pub start: u32,
    pub end: u32,
}

/// What the collision kernel writes for one particle.
#[derive(Debug, Copy, Clone, PartialEq, Eq)]
pub struct Result {
    pub position: [u32; 3],
    pub _padding: u32,
    pub velocity: [u32; 3],
    pub _padding2: u32,
}

impl ComputeInstance {
    /// The packed record of this particle, as a value.
    pub open spec fn raw(self) -> ComputeInstanceRaw {
        ComputeInstanceRaw {
            id: self.id,
            radius: self.radius,
            cell_index: 0,
            _padding_radius: 0,
            position: self.position,
            _padding_position: 0,
            velocity: self.velocity,
            _padding_velocity: 0,
        }
    }

    /// Packs the particle for the device. The cell index and the padding
    /// start out as zero.
    pub fn to_raw(&self) -> (raw: ComputeInstanceRaw)
        ensures
            raw == self.raw(),
    {
        ComputeInstanceRaw {
            id: self.id,
            cell_index: 0,
            position: self.position,
            radius: self.radius,
            velocity: self.velocity,
            _padding_position: 0,
            _padding_radius: 0,
            _padding_velocity: 0,
        }
    }

    /// This particle with the position and velocity of a result record.
    pub open spec fn moved(self, result: Result) -> ComputeInstance {
        ComputeInstance {
            id: self.id,
            position: result.position,
            radius: self.radius,
            velocity: result.velocity,
        }
    }
}

impl ComputeInstanceRaw {
    /// The words of the record, in buffer order.
    pub open spec fn words(self) -> Seq<u32> {
        seq![
            self.id,
            self.radius,
            self.cell_index,
            self._padding_radius,
            self.position[0],
            self.position[1],
            self.position[2],
            self._padding_position,
            self.velocity[0],
            self.velocity[1],
            self.velocity[2],
            self._padding_velocity,
        ]
    }

    /// Appends the words of the record to `out`.
    pub fn push_words(&self, out: &mut Vec<u32>)
        ensures
            final(out)@ == old(out)@ + self.words(),
    {
        out.push(self.id);
        out.push(self.radius);
        out.push(self.cell_index);
        out.push(self._padding_radius);
        out.push(self.position[0]);
        out.push(self.position[1]);
        out.push(self.position[2]);
        out.push(self._padding_position);
        out.push(self.velocity[0]);
        out.push(self.velocity[1]);
        out.push(self.velocity[2]);
        out.push(self._padding_velocity);
        assert(out@ =~= old(out)@ + self.words());
    }
}

impl Parameters {
    /// The words of the record, in buffer order.
    pub open spec fn words(self) -> Seq<u32> {
        seq![self.time_step, self.boundary, self.grid_size]
    }

    /// The words of the record, in buffer order.
    pub fn to_words(&self) -> (out: Vec<u32>)
        ensures
            out@ == self.words(),
    {
        let mut out: Vec<u32> = Vec::new();
        out.push(self.time_step);
        out.push(self.boundary);
        out.push(self.grid_size);
        assert(out@ =~= self.words());
        out
    }

    /// The whole content of the parameter buffer.
    pub fn to_bytes(&self) -> (bytes: Vec<u8>)
        ensures
            bytes@ == native_bytes(self.words()),
    {
        cast_words(self.to_words().as_slice())
    }
}

impl SortParams {
    /// The words of the record, in buffer order.
    pub open spec fn words(self) -> Seq<u32> {
        seq![self.j, self.k]
    }

    /// The words of the record, in buffer order.
    pub fn to_words(&self) -> (out: Vec<u32>)
        ensures
            out@ == self.words(),
    {
        let mut out: Vec<u32> = Vec::new();
        out.push(self.j);
        out.push(self.k);
        assert(out@ =~= self.words());
        out
    }

    /// The whole content of the sort parameter buffer.
    pub fn to_bytes(&self) -> (bytes: Vec<u8>)
        ensures
            bytes@ == native_bytes(self.words()),
    {
        cast_words(self.to_words().as_slice())
    }
}

impl Result {
    /// The words of the record, in buffer order.
    pub open spec fn words(self) -> Seq<u32> {
        seq![
            self.position[0],
            self.position[1],
            self.position[2],
            self._padding,
            self.velocity[0],
            self.velocity[1],
            self.velocity[2],
            self._padding2,
        ]
    }

    /// Record `index` of a result buffer held as words.
    pub open spec fn at(words: Seq<u32>, index: int) -> Result {
        Result {
            position: [words[8 * index], words[8 * index + 1], words[8 * index + 2]],
            _padding: words[8 * index + 3],
            velocity: [words[8 * index + 4], words[8 * index + 5], words[8 * index + 6]],
            _padding2: words[8 * index + 7],
        }
    }

    /// Appends the words of the record to `out`.
    pub fn push_words(&self, out: &mut Vec<u32>)
        ensures
            final(out)@ == old(out)@ + self.words(),
    {
        out.push(self.position[0]);
        out.push(self.position[1]);
        out.push(self.position[2]);
        out.push(self._padding);
        out.push(self.velocity[0]);
        out.push(self.velocity[1]);
        out.push(self.velocity[2]);
        out.push(self._padding2);
        assert(out@ =~= old(out)@ + self.words());
    }

    /// Reads record `index` of a result buffer held as words.
    pub fn read(words: &[u32], index: usize) -> (result: Result)
        requires
            8 * index + 8 <= words@.len(),
        ensures
            result == Result::at(words@, index as int),
    {
        let len: usize = words.len();
        assert(8 * index + 8 <= len);
        let base: usize = index * RESULT_WORDS;
        Result {
            position: [words[base], words[base + 1], words[base + 2]],
            _padding: words[base + 3],
            velocity: [words[base + 4], words[base + 5], words[base + 6]],
            _padding2: words[base + 7],
        }
    }
}

/// The words of a particle buffer that holds `instances`, record after record.
pub open spec fn instance_words(instances: Seq<ComputeInstance>) -> Seq<u32> {
    Seq::new(12 * instances.len(), |i: int| instances[i / 12].raw().words()[i % 12])
}

/// The words of a result buffer that holds `results`, record after record.
pub open spec fn result_words(results: Seq<Result>) -> Seq<u32> {
    Seq::new(8 * results.len(), |i: int| results[i / 8].words()[i % 8])
}

/// Lays the particles out as the words of the particle buffer.
pub fn instances_to_words(instances: &[ComputeInstance]) -> (out: Vec<u32>)
    ensures
        out@ == instance_words(instances@),
{
    let mut out: Vec<u32> = Vec::new();
    let mut i: usize = 0;
    while i < instances.len()
        invariant
            i <= instances@.len(),
            out@ == instance_words(instances@.subrange(0, i as int)),
        decreases instances@.len() - i,
    {
        let raw = instances[i].to_raw();
        let ghost before = out@;
        raw.push_words(&mut out);
        proof {
            let next = instances@.subrange(0, i + 1);
            assert(out@ =~= instance_words(next)) by {
                assert forall|n: int| 0 <= n < 12 * (i + 1) implies out@[n] == instance_words(
                    next,
                )[n] by {
                    if n < 12 * i {
                        assert(out@[n] == before[n]);
                        assert(next[n / 12] == instances@.subrange(0, i as int)[n / 12]);
                    } else {
                        assert(out@[n] == raw.words()[n - 12 * i]);
                        assert(n / 12 == i && n % 12 == n - 12 * i);
                    }
                }
            }
        }
        i = i + 1;
    }
    assert(instances@.subrange(0, i as int) =~= instances@);
    out
}

/// Lays result records out as the words of the result buffer.
pub fn results_to_words(results: &[Result]) -> (out: Vec<u32>)
    ensures
        out@ == result_words(results@),
{
    let mut out: Vec<u32> = Vec::new();
    let mut i: usize = 0;
    while i < results.len()
        invariant
            i <= results@.len(),
            out@ == result_words(results@.subrange(0, i as int)),
        decreases results@.len() - i,
    {
        let record = results[i];
        let ghost before = out@;
        record.push_words(&mut out);
        proof {
            let next = results@.subrange(0, i + 1);
            assert(out@ =~= result_words(next)) by {
                assert forall|n: int| 0 <= n < 8 * (i + 1) implies out@[n] == result_words(
                    next,
                )[n] by {
                    if n < 8 * i {
                        assert(out@[n] == before[n]);
                        assert(next[n / 8] == results@.subrange(0, i as int)[n / 8]);
                    } else {
                        assert(out@[n] == record.words()[n - 8 * i]);
                        assert(n / 8 == i && n % 8 == n - 8 * i);
                    }
                }
            }
        }
        i = i + 1;
    }
    assert(results@.subrange(0, i as int) =~= results@);
    out
}

/// A record read from the words of a result buffer is the record that was
/// laid out there, up to its padding.
pub proof fn lemma_result_read_back(results: Seq<Result>, index: int)
    requires
        0 <= index < results.len(),
    ensures
        Result::at(result_words(results), index).position@ == results[index].position@,
        Result::at(result_words(results), index).velocity@ == results[index].velocity@,
        Result::at(result_words(results), index)._padding == results[index]._padding,
        Result::at(result_words(results), index)._padding2 == results[index]._padding2,
{
    let words = result_words(results);
    let got = Result::at(words, index);
    assert forall|c: int| 0 <= c < 8 implies words[8 * index + c] == results[index].words()[c] by {
        assert((8 * index + c) / 8 == index && (8 * index + c) % 8 == c);
    }
    assert(got.position@ =~= results[index].position@);
    assert(got.velocity@ =~= results[index].velocity@);
}

} // verus!
