//! The hook type and the total order on hook identity keys.

use vstd::prelude::*;

verus! {

/// One instrumentation hook.
///
/// * `pc` — guest instruction address the hook fires at.
/// * `asid` — optional address-space filter; `None` matches every space.
/// * `plugin_num` — owner identifier handed out by plugin registration.
/// * `cb` — opaque identity of the callback held by the caller's table.
/// * `always_starts_block` — the caller guarantees `pc` starts every
///   translated block it appears in, so invalidation can use the direct
///   jump cache instead of a full scan.
///
/// A hook is immutable once built.  Its identity key is
/// `(pc, asid, plugin_num, cb)`; the flag is not part of the key.
#[derive(Clone, Copy, PartialEq, Eq, Structural, Debug)]
pub struct Hook {
    pub pc: u64,
    pub asid: Option<u64>,
    pub plugin_num: u32,
    pub cb: u64,
    pub always_starts_block: bool,
}

/// Order on address-space filters: an unset filter sorts before every set one.
pub open spec fn asid_lt(x: Option<u64>, y: Option<u64>) -> bool {
    match (x, y) {
        (Option::None, Option::Some(_)) => true,
        (Option::Some(u), Option::Some(v)) => u < v,
        _ => false,
    }
}

/// Two hooks share an identity key: equal address, filter, owner and callback.
pub open spec fn key_eq(a: Hook, b: Hook) -> bool {
    a.pc == b.pc && a.asid == b.asid && a.plugin_num == b.plugin_num && a.cb == b.cb
}

/// Strict lexicographic order on identity keys `(pc, asid, plugin_num, cb)`.
pub open spec fn key_lt(a: Hook, b: Hook) -> bool {
    ||| a.pc < b.pc
    ||| (a.pc == b.pc && asid_lt(a.asid, b.asid))
    ||| (a.pc == b.pc && a.asid == b.asid && a.plugin_num < b.plugin_num)
    ||| (a.pc == b.pc && a.asid == b.asid && a.plugin_num == b.plugin_num && a.cb < b.cb)
}

/// The key order is total: exactly one of `key_lt(a, b)`, `key_lt(b, a)`,
/// `key_eq(a, b)` holds.
pub proof fn lemma_key_order_total(a: Hook, b: Hook)
    ensures
        key_lt(a, b) || key_lt(b, a) || key_eq(a, b),
        key_lt(a, b) ==> !key_lt(b, a) && !key_eq(a, b),
        key_eq(a, b) ==> !key_lt(a, b) && !key_lt(b, a),
        key_eq(a, b) == key_eq(b, a),
{
}

/// The key order is transitive.
pub proof fn lemma_key_lt_trans(a: Hook, b: Hook, c: Hook)
    requires
        key_lt(a, b),
        key_lt(b, c),
    ensures
        key_lt(a, c),
{
}

/// Executable test of identity-key equality.
pub fn hook_key_eq(a: &Hook, b: &Hook) -> (r: bool)
    ensures
        r == key_eq(*a, *b),
{
    let asid_same = match (a.asid, b.asid) {
        (Option::None, Option::None) => true,
        (Option::Some(x), Option::Some(y)) => x == y,
        _ => false,
    };
    a.pc == b.pc && asid_same && a.plugin_num == b.plugin_num && a.cb == b.cb
}

/// Executable test of strict identity-key order.
pub fn hook_key_lt(a: &Hook, b: &Hook) -> (r: bool)
    ensures
        r == key_lt(*a, *b),
{
    if a.pc != b.pc {
        return a.pc < b.pc;
    }
    let (asid_less, asid_same) = match (a.asid, b.asid) {
        (Option::None, Option::None) => (false, true),
        (Option::None, Option::Some(_)) => (true, false),
        (Option::Some(_), Option::None) => (false, false),
        (Option::Some(x), Option::Some(y)) => (x < y, x == y),
    };
    if !asid_same {
        return asid_less;
    }
    if a.plugin_num != b.plugin_num {
        return a.plugin_num < b.plugin_num;
    }
    a.cb < b.cb
}

} // verus!
