//! Packed entity handles: a 22-bit slot index and a 10-bit generation.

use vstd::prelude::*;

verus! {

/// Number of distinct generation values (the low 10 bits of a handle).
pub const GENERATION_SPAN: u32 = 1024;

/// Number of distinct slot indices (the high 22 bits of a handle).
pub const INDEX_SPAN: u32 = 4194304;

/// A 32-bit entity handle. The high 22 bits are the slot index, the low
/// 10 bits the generation. Generation zero denotes "no entity".
#[derive(Clone, Copy, PartialEq, Eq, Hash, Debug, Structural)]
pub struct Entity(pub u32);

impl Default for Entity {
    fn default() -> (e: Entity)
        ensures
            e == Entity(0),
    {
        Entity(0)
    }
}

impl Entity {
    /// The slot index encoded in the handle.
    pub open spec fn spec_index(self) -> nat {
        (self.0 as nat) / (GENERATION_SPAN as nat)
    }

    /// The generation encoded in the handle.
    pub open spec fn spec_generation(self) -> nat {
        (self.0 as nat) % (GENERATION_SPAN as nat)
    }

    /// The handle with the given index and generation.
    pub open spec fn pack(index: nat, generation: nat) -> Entity
        recommends
            index < INDEX_SPAN,
            generation < GENERATION_SPAN,
    {
        Entity((index * (GENERATION_SPAN as nat) + generation) as u32)
    }

    /// The generation that follows `generation`: it counts `1..=1023` and
    /// wraps back to 1, never yielding the "none" generation 0.
    pub open spec fn next_generation(generation: nat) -> nat {
        if generation + 1 >= GENERATION_SPAN {
            1
        } else {
            generation + 1
        }
    }

    /// Packing is unambiguous: a handle is determined by its index and generation.
    pub proof fn lemma_pack_round_trip(index: nat, generation: nat)
        requires
            index < INDEX_SPAN,
            generation < GENERATION_SPAN,
        ensures
            Entity::pack(index, generation).spec_index() == index,
            Entity::pack(index, generation).spec_generation() == generation,
    {
        assert(index * 1024 + generation <= u32::MAX) by (nonlinear_arith)
            requires
                index < 4194304,
                generation < 1024,
        ;
        assert((index * 1024 + generation) / 1024 == index) by (nonlinear_arith)
            requires
                generation < 1024,
        ;
        assert((index * 1024 + generation) % 1024 == generation) by (nonlinear_arith)
            requires
                generation < 1024,
        ;
    }

    /// Create a new entity from index and generation; each is reduced to
    /// its field width.
    #[inline(always)]
    pub fn new(index: u32, generation: u32) -> (e: Entity)
        ensures
            e.spec_index() == index % INDEX_SPAN,
            e.spec_generation() == generation % GENERATION_SPAN,
    {
        let index_bits = index & 0x3F_FFFF;
        let generation_bits = generation & 0x3FF;
        let raw = (index_bits << 10) | generation_bits;
        assert(((index & 0x3F_FFFF) << 10 | (generation & 0x3FF)) / 1024 == index % 4194304
            && ((index & 0x3F_FFFF) << 10 | (generation & 0x3FF)) % 1024 == generation % 1024)
            by (bit_vector);
        Entity(raw)
    }

    /// The handle that denotes no entity.
    #[inline(always)]
    pub fn none() -> (e: Entity)
        ensures
            e == Entity(0),
            e.spec_index() == 0,
            e.spec_generation() == 0,
    {
        Entity(0)
    }

    /// Whether this handle denotes no entity, that is, its generation is zero.
    #[inline(always)]
    pub fn is_none(&self) -> (r: bool)
        ensures
            r == (self.spec_generation() == 0),
    {
        self.generation() == 0
    }

    /// The slot index.
    #[inline(always)]
    pub fn index(&self) -> (i: u32)
        ensures
            i == self.spec_index(),
            i < INDEX_SPAN,
    {
        let raw = self.0;
        assert((raw >> 10) & 0x3F_FFFF == raw / 1024 && raw / 1024 < 4194304) by (bit_vector);
        (raw >> 10) & 0x3F_FFFF
    }

    /// Replace the slot index (reduced to 22 bits), keeping the generation.
    #[inline(always)]
    pub fn set_index(&mut self, index: u32)
        ensures
            final(self).spec_index() == index % INDEX_SPAN,
            final(self).spec_generation() == old(self).spec_generation(),
    {
        let raw = self.0;
        let index_bits = index & 0x3F_FFFF;
        assert(((raw & 0x3FF) | ((index & 0x3F_FFFF) << 10)) / 1024 == index % 4194304
            && ((raw & 0x3FF) | ((index & 0x3F_FFFF) << 10)) % 1024 == raw % 1024)
            by (bit_vector);
        self.0 = (raw & 0x3FF) | (index_bits << 10);
    }

    /// The generation.
    #[inline(always)]
    pub fn generation(&self) -> (g: u32)
        ensures
            g == self.spec_generation(),
            g < GENERATION_SPAN,
    {
        let raw = self.0;
        assert(raw & 0x3FF == raw % 1024 && raw % 1024 < 1024) by (bit_vector);
        raw & 0x3FF
    }

    /// Replace the generation (reduced to 10 bits), keeping the index.
    #[inline(always)]
    pub fn set_generation(&mut self, generation: u32)
        ensures
            final(self).spec_generation() == generation % GENERATION_SPAN,
            final(self).spec_index() == old(self).spec_index(),
    {
        let raw = self.0;
        let generation_bits = generation & 0x3FF;
        assert(((raw & !0x3FFu32) | (generation & 0x3FF)) % 1024 == generation % 1024
            && ((raw & !0x3FFu32) | (generation & 0x3FF)) / 1024 == raw / 1024) by (bit_vector);
        self.0 = (raw & !0x3FFu32) | generation_bits;
    }

    /// Advance the generation, wrapping within `1..=1023`.
    #[inline(always)]
    pub fn increment_generation(&mut self)
        ensures
            final(self).spec_generation() == Entity::next_generation(old(self).spec_generation()),
            final(self).spec_index() == old(self).spec_index(),
            final(self).spec_generation() != 0,
    {
        let current = self.generation();
        let next = current.wrapping_add(1);
        let generation = next & 0x3FF;
        assert(next == current + 1);
        assert(generation == (if next == 1024 {
            0u32
        } else {
            next
        })) by (bit_vector)
            requires
                next <= 1024,
                generation == next & 0x3FF,
        ;
        self.set_generation(
            if generation == 0 {
                1u32
            } else {
                generation
            },
        );
    }
}

} // verus!
