//! Plain descriptors of translated blocks and the direct-jump-cache hash.

use vstd::prelude::*;

verus! {

/// Number of index bits of the direct-jump cache.
pub const TB_JMP_CACHE_BITS: u32 = 12;

/// Number of slots of the direct-jump cache.
pub const TB_JMP_CACHE_SIZE: usize = 4096;

/// Page-offset bits of a guest address, as the engine defines them.
pub const TARGET_PAGE_BITS: u32 = 12;

/// A translated block, described by plain values.
///
/// The engine owns the real block; the descriptor carries what the hook
/// logic reads: the guest start address `pc`, the span `size` in bytes, and
/// an engine-chosen identity `id` used to recognise the block currently
/// being compiled.
#[derive(Clone, Copy, PartialEq, Eq, Structural, Debug)]
pub struct TranslationBlock {
    pub pc: u64,
    pub size: u32,
    pub id: u64,
}

/// `pc` lies in the half-open address span of block `b`.
pub open spec fn in_block(pc: u64, b: TranslationBlock) -> bool {
    b.pc <= pc < b.pc + b.size
}

/// Executable span-membership test; safe for every `pc` and block.
pub fn pc_in_tb(pc: u64, tb: &TranslationBlock) -> (r: bool)
    ensures
        r == in_block(pc, *tb),
{
    tb.pc <= pc && pc - tb.pc < tb.size as u64
}

/// The direct-jump-cache slot of a guest address.
pub open spec fn jmp_cache_hash(pc: u64) -> u64 {
    (((pc ^ (pc >> 6)) >> 6) & 4032) | ((pc ^ (pc >> 6)) & 63)
}

/// Every address hashes to a valid cache slot.
pub proof fn lemma_jmp_cache_hash_bound(pc: u64)
    ensures
        jmp_cache_hash(pc) < 4096,
{
    assert((((pc ^ (pc >> 6)) >> 6) & 4032) | ((pc ^ (pc >> 6)) & 63) < 4096) by (bit_vector);
}

/// Executable direct-jump-cache hash, the engine's slot function: the page
/// bits above the low window select the page part, the low bits the offset
/// part.
pub fn rust_tb_jmp_cache_hash_func(pc: u64) -> (r: u32)
    ensures
        r as u64 == jmp_cache_hash(pc),
        r < 4096,
{
    let tmp: u64 = pc ^ (pc >> 6);
    let r64: u64 = ((tmp >> 6) & 4032) | (tmp & 63);
    proof {
        lemma_jmp_cache_hash_bound(pc);
    }
    r64 as u32
}

} // verus!
