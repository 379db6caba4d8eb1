//! Entity handles and their locations.
//!
//! An entity is a 64-bit handle: the low 32 bits are its index into the
//! world's slot table, the high 32 bits the generation of that slot, which
//! is bumped whenever the slot is recycled so that stale handles are
//! detected.
use vstd::prelude::*;
use crate::ecs::archetype::ArchetypeId;

verus! {

/// Dense index type used inside packed archetype storage.
pub type EntityId = u32;
/// Generation counter used to guard against stale handles.
pub type Generation = u32;

/// External entity handle.
#[derive(Copy, Clone, Debug, PartialEq, Eq, Hash, Structural)]
pub struct Entity(pub u64);

/// Index part of handle bits.
pub open spec fn bits_index(bits: u64) -> u32 {
    (bits & 0xffff_ffffu64) as u32
}

/// Generation part of handle bits.
pub open spec fn bits_generation(bits: u64) -> u32 {
    (bits >> 32u64) as u32
}

/// Handle bits of `index` with `generation`.
pub open spec fn pack(index: u32, generation: u32) -> u64 {
    ((generation as u64) << 32u64) | (index as u64 & 0xffff_ffffu64)
}

proof fn lemma_pack(index: u32, generation: u32)
    ensures
        bits_index(pack(index, generation)) == index,
        bits_generation(pack(index, generation)) == generation,
{
    let i = index as u64;
    let g = generation as u64;
    assert((((g << 32u64) | (i & 0xffff_ffffu64)) & 0xffff_ffffu64) == i) by (bit_vector)
        requires i < 0x1_0000_0000u64, g < 0x1_0000_0000u64;
    assert((((g << 32u64) | (i & 0xffff_ffffu64)) >> 32u64) == g) by (bit_vector)
        requires i < 0x1_0000_0000u64, g < 0x1_0000_0000u64;
}

proof fn lemma_unpack(bits: u64)
    ensures
        pack(bits_index(bits), bits_generation(bits)) == bits,
{
    let lo = bits & 0xffff_ffffu64;
    let hi = bits >> 32u64;
    assert(lo < 0x1_0000_0000u64 && hi < 0x1_0000_0000u64) by (bit_vector)
        requires lo == bits & 0xffff_ffffu64, hi == bits >> 32u64;
    assert(((hi << 32u64) | (lo & 0xffff_ffffu64)) == bits) by (bit_vector)
        requires lo == bits & 0xffff_ffffu64, hi == bits >> 32u64;
}

impl Entity {
    /// Handle for slot `index` at `generation`.
    pub fn new(index: EntityId, generation: Generation) -> (e: Self)
        ensures
            e.0 == pack(index, generation),
            bits_index(e.0) == index,
            bits_generation(e.0) == generation,
    {
        proof {
            lemma_pack(index, generation);
        }
        let index_part = index as u64 & 0xffff_ffffu64;
        let gen_part = (generation as u64) << 32u64;
        Entity(gen_part | index_part)
    }

    pub fn index(self) -> (i: EntityId)
        ensures
            i == bits_index(self.0),
    {
        (self.0 & 0xffff_ffffu64) as u32
    }

    pub fn generation(self) -> (g: Generation)
        ensures
            g == bits_generation(self.0),
    {
        (self.0 >> 32u64) as u32
    }

    pub fn to_bits(self) -> (b: u64)
        ensures
            b == self.0,
    {
        self.0
    }

    pub fn from_bits(bits: u64) -> (e: Self)
        ensures
            e.0 == bits,
    {
        Entity(bits)
    }
}

/// A handle built from an index and a generation gives them back.
pub proof fn law_entity_fields_round_trip(index: u32, generation: u32)
    ensures
        bits_index(pack(index, generation)) == index,
        bits_generation(pack(index, generation)) == generation,
{
    lemma_pack(index, generation);
}

/// Rebuilding a handle from its own index and generation gives the same
/// handle, and so does going through its bits.
pub proof fn law_entity_bits_round_trip(e: Entity)
    ensures
        pack(bits_index(e.0), bits_generation(e.0)) == e.0,
        Entity(e.0) == e,
{
    lemma_unpack(e.0);
}

/// Location of a live entity inside world storage.
#[derive(Copy, Clone, Debug, PartialEq, Eq, Structural)]
pub struct EntityLoc {
    pub archetype: ArchetypeId,
    pub index: usize,
    pub generation: Generation,
}

impl EntityLoc {
    pub fn new(archetype: ArchetypeId, index: usize, generation: Generation) -> (l: Self)
        ensures
            l == (EntityLoc { archetype, index, generation }),
    {
        EntityLoc { archetype, index, generation }
    }
}

} // verus!
