//! What a buffer may be used for.

use vstd::prelude::*;

verus! {

/// The ways in which a buffer is going to be used.
#[derive(Clone, Copy, Debug, PartialEq, Eq, Structural)]
pub struct BufferUsage {
    pub transfer_source: bool,
    pub transfer_destination: bool,
    pub uniform_texel_buffer: bool,
    pub storage_texel_buffer: bool,
    pub uniform_buffer: bool,
    pub storage_buffer: bool,
    pub index_buffer: bool,
    pub vertex_buffer: bool,
    pub indirect_buffer: bool,
}

impl BufferUsage {
    /// No use at all.
    pub open spec fn spec_none() -> BufferUsage {
        BufferUsage {
            transfer_source: false,
            transfer_destination: false,
            uniform_texel_buffer: false,
            storage_texel_buffer: false,
            uniform_buffer: false,
            storage_buffer: false,
            index_buffer: false,
            vertex_buffer: false,
            indirect_buffer: false,
        }
    }

    /// A usage with every flag off.
    pub fn none() -> (usage: BufferUsage)
        ensures
            usage == BufferUsage::spec_none(),
    {
        BufferUsage {
            transfer_source: false,
            transfer_destination: false,
            uniform_texel_buffer: false,
            storage_texel_buffer: false,
            uniform_buffer: false,
            storage_buffer: false,
            index_buffer: false,
            vertex_buffer: false,
            indirect_buffer: false,
        }
    }

    /// A usage with only `transfer_source` on.
    pub fn transfer_source() -> (usage: BufferUsage)
        ensures
            usage == (BufferUsage { transfer_source: true, ..BufferUsage::spec_none() }),
    {
        BufferUsage { transfer_source: true, ..BufferUsage::none() }
    }

    /// A usage with only `transfer_destination` on.
    pub fn transfer_destination() -> (usage: BufferUsage)
        ensures
            usage == (BufferUsage { transfer_destination: true, ..BufferUsage::spec_none() }),
    {
        BufferUsage { transfer_destination: true, ..BufferUsage::none() }
    }
}

} // verus!
