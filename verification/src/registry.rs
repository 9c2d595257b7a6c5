//! The hook registry: an ordered, duplicate-free collection of hooks with
//! range queries, kept as a vector sorted by the identity-key order.

use vstd::prelude::*;

use crate::hook::{
    hook_key_eq, hook_key_lt, key_eq, key_lt, lemma_key_lt_trans, lemma_key_order_total, Hook,
};
use crate::tb::{in_block, pc_in_tb, TranslationBlock};

verus! {

broadcast use
    vstd::seq_lib::group_filter_ensures,
    Seq::lemma_filter_push,
    Seq::lemma_filter_contains_rev;

/// The hooks stand in strictly increasing identity-key order.
pub open spec fn sorted(s: Seq<Hook>) -> bool {
    forall|i: int, j: int| 0 <= i < j < s.len() ==> key_lt(#[trigger] s[i], #[trigger] s[j])
}

/// Some hook of `s` shares its identity key with `h`.
pub open spec fn has_key(s: Seq<Hook>, h: Hook) -> bool {
    exists|i: int| 0 <= i < s.len() && key_eq(#[trigger] s[i], h)
}

/// Some hook of `s` targets address `pc`.
pub open spec fn has_pc(s: Seq<Hook>, pc: u64) -> bool {
    exists|i: int| 0 <= i < s.len() && (#[trigger] s[i]).pc == pc
}

/// No two hooks of `s` share an identity key.
pub open spec fn unique_keys(s: Seq<Hook>) -> bool {
    forall|i: int, j: int| 0 <= i < j < s.len() ==> !key_eq(#[trigger] s[i], #[trigger] s[j])
}

/// The hook's address-space filter is unset or names the current space.
pub open spec fn asid_matches(h: Hook, asid: u64) -> bool {
    h.asid is None || h.asid == Some(asid)
}

/// The hook fires when block `b` runs in address space `asid`.
pub open spec fn hook_matches(h: Hook, b: TranslationBlock, asid: u64) -> bool {
    in_block(h.pc, b) && asid_matches(h, asid)
}

/// The hooks of `s` dispatched when block `b` runs in space `asid`,
/// in registry order.
pub open spec fn matching(s: Seq<Hook>, b: TranslationBlock, asid: u64) -> Seq<Hook> {
    s.filter(|h: Hook| hook_matches(h, b, asid))
}

/// The hooks of `s` that do not belong to owner `num`, in registry order.
pub open spec fn without_plugin(s: Seq<Hook>, num: u32) -> Seq<Hook> {
    s.filter(|h: Hook| h.plugin_num != num)
}

/// The hooks of `s` whose identity key appears nowhere in `m`,
/// in registry order.
pub open spec fn without_keys(s: Seq<Hook>, m: Seq<Hook>) -> Seq<Hook> {
    s.filter(|h: Hook| !has_key(m, h))
}

/// A strictly ordered sequence has no repeated identity keys.
pub proof fn lemma_sorted_unique_keys(s: Seq<Hook>)
    requires
        sorted(s),
    ensures
        unique_keys(s),
{
    assert forall|i: int, j: int| 0 <= i < j < s.len() implies !key_eq(s[i], s[j]) by {
        lemma_key_order_total(s[i], s[j]);
    }
}

/// Filtering keeps the strict order.
pub proof fn lemma_filter_sorted(s: Seq<Hook>, p: spec_fn(Hook) -> bool)
    requires
        sorted(s),
    ensures
        sorted(s.filter(p)),
    decreases s.len(),
{
    reveal(Seq::filter);
    if s.len() > 0 {
        let dl = s.drop_last();
        assert(sorted(dl));
        lemma_filter_sorted(dl, p);
        if p(s.last()) {
            let f = dl.filter(p);
            assert(s.filter(p) == f.push(s.last()));
            assert forall|i: int, j: int|
                0 <= i < j < s.filter(p).len() implies key_lt(
                #[trigger] s.filter(p)[i],
                #[trigger] s.filter(p)[j],
            ) by {
                assert(s.filter(p)[i] == f[i]);
                if j < f.len() {
                    assert(s.filter(p)[j] == f[j]);
                } else {
                    assert(s.filter(p)[j] == s.last());
                    assert(f.contains(f[i]));
                    assert(dl.contains(f[i]));
                    let k = choose|k: int| 0 <= k < dl.len() && dl[k] == f[i];
                    assert(s[k] == dl[k]);
                    assert(key_lt(s[k], s[s.len() - 1]));
                }
            }
        } else {
            assert(s.filter(p) == dl.filter(p));
        }
    }
}

/// Filtering keeps mutually distinct identity keys distinct.
pub proof fn lemma_filter_unique_keys(s: Seq<Hook>, p: spec_fn(Hook) -> bool)
    requires
        unique_keys(s),
    ensures
        unique_keys(s.filter(p)),
    decreases s.len(),
{
    reveal(Seq::filter);
    if s.len() > 0 {
        let dl = s.drop_last();
        assert(unique_keys(dl));
        lemma_filter_unique_keys(dl, p);
        if p(s.last()) {
            let f = dl.filter(p);
            assert(s.filter(p) == f.push(s.last()));
            assert forall|i: int, j: int|
                0 <= i < j < s.filter(p).len() implies !key_eq(
                #[trigger] s.filter(p)[i],
                #[trigger] s.filter(p)[j],
            ) by {
                assert(s.filter(p)[i] == f[i]);
                if j < f.len() {
                    assert(s.filter(p)[j] == f[j]);
                } else {
                    assert(s.filter(p)[j] == s.last());
                    assert(f.contains(f[i]));
                    assert(dl.contains(f[i]));
                    let k = choose|k: int| 0 <= k < dl.len() && dl[k] == f[i];
                    assert(s[k] == dl[k]);
                    assert(!key_eq(s[k], s[s.len() - 1]));
                }
            }
        } else {
            assert(s.filter(p) == dl.filter(p));
        }
    }
}

/// What survives a filter: exactly the elements that pass the predicate.
pub proof fn lemma_filter_membership(s: Seq<Hook>, p: spec_fn(Hook) -> bool)
    ensures
        forall|x: Hook| #[trigger] s.filter(p).contains(x) <==> s.contains(x) && p(x),
{
    assert forall|x: Hook| #[trigger] s.filter(p).contains(x) implies s.contains(x) && p(x) by {
        let k = choose|k: int| 0 <= k < s.filter(p).len() && s.filter(p)[k] == x;
        assert(p(s.filter(p)[k]));
    }
    assert forall|x: Hook| s.contains(x) && p(x) implies #[trigger] s.filter(p).contains(x) by {
        let k = choose|k: int| 0 <= k < s.len() && s[k] == x;
        assert(s.filter(p).contains(s[k]));
    }
}

/// A filtered registry holds no identity key the whole registry lacks.
pub proof fn lemma_filter_has_key(s: Seq<Hook>, p: spec_fn(Hook) -> bool)
    ensures
        forall|g: Hook| #[trigger] has_key(s.filter(p), g) ==> has_key(s, g),
{
    assert forall|g: Hook| #[trigger] has_key(s.filter(p), g) implies has_key(s, g) by {
        let k = choose|k: int| 0 <= k < s.filter(p).len() && key_eq(s.filter(p)[k], g);
        assert(s.filter(p).contains(s.filter(p)[k]));
        assert(s.contains(s.filter(p)[k]));
        let j = choose|j: int| 0 <= j < s.len() && s[j] == s.filter(p)[k];
        assert(key_eq(s[j], g));
    }
}

/// `without_keys` keeps the registry sorted.
pub proof fn lemma_without_keys_sorted(s: Seq<Hook>, m: Seq<Hook>)
    requires
        sorted(s),
    ensures
        sorted(without_keys(s, m)),
{
    lemma_filter_sorted(s, |h: Hook| !has_key(m, h));
}

/// `without_plugin` keeps the registry sorted.
pub proof fn lemma_without_plugin_sorted(s: Seq<Hook>, num: u32)
    requires
        sorted(s),
    ensures
        sorted(without_plugin(s, num)),
{
    lemma_filter_sorted(s, |h: Hook| h.plugin_num != num);
}

/// `without_plugin` keeps distinct keys distinct.
pub proof fn lemma_without_plugin_unique(s: Seq<Hook>, num: u32)
    requires
        unique_keys(s),
    ensures
        unique_keys(without_plugin(s, num)),
{
    lemma_filter_unique_keys(s, |h: Hook| h.plugin_num != num);
}

/// Exactly the hooks of other owners survive `without_plugin`.
pub proof fn lemma_without_plugin_membership(s: Seq<Hook>, num: u32)
    ensures
        forall|x: Hook| #[trigger] without_plugin(s, num).contains(x) <==> s.contains(x)
            && x.plugin_num != num,
{
    lemma_filter_membership(s, |h: Hook| h.plugin_num != num);
}

/// `matching` keeps the registry order.
pub proof fn lemma_matching_sorted(s: Seq<Hook>, b: TranslationBlock, asid: u64)
    requires
        sorted(s),
    ensures
        sorted(matching(s, b, asid)),
{
    lemma_filter_sorted(s, |h: Hook| hook_matches(h, b, asid));
}

/// Exactly the hooks that match the block and address space survive
/// `matching`.
pub proof fn lemma_matching_membership(s: Seq<Hook>, b: TranslationBlock, asid: u64)
    ensures
        forall|x: Hook| #[trigger] matching(s, b, asid).contains(x) <==> s.contains(x)
            && hook_matches(x, b, asid),
{
    lemma_filter_membership(s, |h: Hook| hook_matches(h, b, asid));
}

/// Whether the registry already holds a hook with `h`'s identity key.
pub fn contains_hook_key(v: &Vec<Hook>, h: &Hook) -> (r: bool)
    ensures
        r == has_key(v@, *h),
{
    let mut i: usize = 0;
    while i < v.len()
        invariant
            0 <= i <= v@.len(),
            forall|k: int| 0 <= k < i ==> !key_eq(#[trigger] v@[k], *h),
        decreases v@.len() - i,
    {
        if hook_key_eq(&v[i], h) {
            return true;
        }
        i += 1;
    }
    false
}

/// Inserts `h` unless a hook with the same identity key is present, keeping
/// the strict order; reports whether anything was inserted.
pub fn insert_hook(v: &mut Vec<Hook>, h: Hook) -> (r: bool)
    requires
        sorted(old(v)@),
    ensures
        sorted(final(v)@),
        r == !has_key(old(v)@, h),
        !r ==> final(v)@ == old(v)@,
        r ==> final(v)@.len() == old(v)@.len() + 1,
        forall|x: Hook| final(v)@.contains(x) <==> old(v)@.contains(x) || (r && x == h),
        forall|g: Hook| has_key(final(v)@, g) <==> has_key(old(v)@, g) || key_eq(g, h),
{
    if contains_hook_key(v, &h) {
        proof {
            assert forall|g: Hook| has_key(v@, g) || key_eq(g, h) implies has_key(v@, g) by {
                if key_eq(g, h) {
                    let i = choose|i: int| 0 <= i < v@.len() && key_eq(v@[i], h);
                    assert(key_eq(v@[i], g));
                }
            }
        }
        return false;
    }
    let mut i: usize = 0;
    while i < v.len() && hook_key_lt(&v[i], &h)
        invariant
            0 <= i <= v@.len(),
            forall|k: int| 0 <= k < i ==> key_lt(#[trigger] v@[k], h),
        decreases v@.len() - i,
    {
        i += 1;
    }
    proof {
        if i < v@.len() {
            lemma_key_order_total(v@[i as int], h);
        }
        assert forall|k: int| i <= k < v@.len() implies key_lt(h, #[trigger] v@[k]) by {
            lemma_key_order_total(v@[k], h);
            if i < k {
                lemma_key_lt_trans(h, v@[i as int], v@[k]);
            }
        }
    }
    let ghost pre = v@;
    v.insert(i, h);
    proof {
        assert forall|a: int, b: int|
            0 <= a < b < v@.len() implies key_lt(#[trigger] v@[a], #[trigger] v@[b]) by {
            if b < i {
            } else if a < i && b == i {
            } else if a < i && b > i {
                assert(v@[b] == pre[b - 1]);
                if a == b - 1 {
                } else {
                    assert(key_lt(pre[a], pre[b - 1]));
                }
            } else if a == i {
                assert(v@[b] == pre[b - 1]);
            } else {
                assert(v@[a] == pre[a - 1] && v@[b] == pre[b - 1]);
            }
        }
        assert forall|x: Hook| v@.contains(x) implies pre.contains(x) || x == h by {
            let k = choose|k: int| 0 <= k < v@.len() && v@[k] == x;
            if k < i {
                assert(pre[k] == x);
            } else if k > i {
                assert(pre[k - 1] == x);
            }
        }
        assert forall|x: Hook| pre.contains(x) implies v@.contains(x) by {
            let k = choose|k: int| 0 <= k < pre.len() && pre[k] == x;
            if k < i {
                assert(v@[k] == x);
            } else {
                assert(v@[k + 1] == x);
            }
        }
        assert(v@[i as int] == h);
        assert forall|g: Hook| has_key(v@, g) implies has_key(pre, g) || key_eq(g, h) by {
            let k = choose|k: int| 0 <= k < v@.len() && key_eq(v@[k], g);
            if k < i {
                assert(key_eq(pre[k], g));
            } else if k > i {
                assert(key_eq(pre[k - 1], g));
            } else {
                lemma_key_order_total(g, h);
                assert(key_eq(h, g));
            }
        }
        assert forall|g: Hook| has_key(pre, g) || key_eq(g, h) implies has_key(v@, g) by {
            if has_key(pre, g) {
                let k = choose|k: int| 0 <= k < pre.len() && key_eq(pre[k], g);
                if k < i {
                    assert(key_eq(v@[k], g));
                } else {
                    assert(key_eq(v@[k + 1], g));
                }
            } else {
                lemma_key_order_total(g, h);
                assert(key_eq(v@[i as int], g));
            }
        }
    }
    true
}

/// Copies the registry without owner `num`'s hooks.
pub fn filter_without_plugin(v: &Vec<Hook>, num: u32) -> (out: Vec<Hook>)
    ensures
        out@ == without_plugin(v@, num),
{
    let mut out: Vec<Hook> = Vec::new();
    let mut i: usize = 0;
    while i < v.len()
        invariant
            0 <= i <= v@.len(),
            out@ == without_plugin(v@.take(i as int), num),
        decreases v@.len() - i,
    {
        proof {
            assert(v@.take(i + 1) =~= v@.take(i as int).push(v@[i as int]));
        }
        if v[i].plugin_num != num {
            out.push(v[i]);
        }
        i += 1;
    }
    proof {
        assert(v@.take(v@.len() as int) =~= v@);
    }
    out
}

/// Copies the registry without every hook whose identity key appears in
/// `matched`.
pub fn filter_without_keys(v: &Vec<Hook>, matched: &Vec<Hook>) -> (out: Vec<Hook>)
    ensures
        out@ == without_keys(v@, matched@),
{
    let mut out: Vec<Hook> = Vec::new();
    let mut i: usize = 0;
    while i < v.len()
        invariant
            0 <= i <= v@.len(),
            out@ == without_keys(v@.take(i as int), matched@),
        decreases v@.len() - i,
    {
        proof {
            assert(v@.take(i + 1) =~= v@.take(i as int).push(v@[i as int]));
        }
        if !contains_hook_key(matched, &v[i]) {
            out.push(v[i]);
        }
        i += 1;
    }
    proof {
        assert(v@.take(v@.len() as int) =~= v@);
    }
    out
}

/// Range query with the address-space post-filter: the hooks dispatched when
/// block `tb` runs in space `asid`, in registry order.
pub fn matching_hooks(v: &Vec<Hook>, tb: &TranslationBlock, asid: u64) -> (out: Vec<Hook>)
    ensures
        out@ == matching(v@, *tb, asid),
{
    let mut out: Vec<Hook> = Vec::new();
    let mut i: usize = 0;
    while i < v.len()
        invariant
            0 <= i <= v@.len(),
            out@ == matching(v@.take(i as int), *tb, asid),
        decreases v@.len() - i,
    {
        proof {
            assert(v@.take(i + 1) =~= v@.take(i as int).push(v@[i as int]));
        }
        let h = v[i];
        let asid_ok = match h.asid {
            Option::None => true,
            Option::Some(a) => a == asid,
        };
        if pc_in_tb(h.pc, tb) && asid_ok {
            out.push(h);
        }
        i += 1;
    }
    proof {
        assert(v@.take(v@.len() as int) =~= v@);
    }
    out
}

/// Whether `pc` appears in a list of addresses.
pub fn contains_pc(v: &Vec<u64>, pc: u64) -> (r: bool)
    ensures
        r == v@.contains(pc),
{
    let mut i: usize = 0;
    while i < v.len()
        invariant
            0 <= i <= v@.len(),
            forall|k: int| 0 <= k < i ==> v@[k] != pc,
        decreases v@.len() - i,
    {
        if v[i] == pc {
            return true;
        }
        i += 1;
    }
    false
}

/// Whether some hook of the registry targets address `pc`.
pub fn hook_at_pc(v: &Vec<Hook>, pc: u64) -> (r: bool)
    ensures
        r == has_pc(v@, pc),
{
    let mut i: usize = 0;
    while i < v.len()
        invariant
            0 <= i <= v@.len(),
            forall|k: int| 0 <= k < i ==> (#[trigger] v@[k]).pc != pc,
        decreases v@.len() - i,
    {
        if v[i].pc == pc {
            return true;
        }
        i += 1;
    }
    false
}

} // verus!
