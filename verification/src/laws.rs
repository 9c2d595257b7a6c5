//! The crate-level laws: uniqueness of registration, dispatch-exactly-once,
//! owner isolation, pipeline gating, and the fate of a hook removed before
//! any merge.  Each law is stated over the models and transition relations
//! the executable functions' contracts use.

use vstd::prelude::*;

use crate::hook::{key_eq, Hook};
use crate::hook_manager::{
    add_rel, clear_rel, merge_rel, needs_retranslation, remove_rel, splice_backed, wf,
    ManagerModel, SpliceTarget,
};
use crate::registry::{
    has_key, hook_matches, lemma_matching_membership, lemma_matching_sorted,
    lemma_sorted_unique_keys, lemma_without_plugin_membership, matching, sorted, unique_keys,
};
use crate::tb::TranslationBlock;

verus! {

broadcast use vstd::seq_lib::group_filter_ensures;

/// Number of hooks of `s` that share `h`'s identity key.
pub open spec fn count_key(s: Seq<Hook>, h: Hook) -> int
    decreases s.len(),
{
    if s.len() == 0 {
        0
    } else {
        count_key(s.drop_last(), h) + if key_eq(s.last(), h) {
            1int
        } else {
            0int
        }
    }
}

/// A key is present exactly when it is counted at least once, and counts
/// are never negative.
pub proof fn lemma_count_key_has_key(s: Seq<Hook>, h: Hook)
    ensures
        has_key(s, h) <==> count_key(s, h) >= 1,
        count_key(s, h) >= 0,
    decreases s.len(),
{
    if s.len() > 0 {
        let dl = s.drop_last();
        lemma_count_key_has_key(dl, h);
        if has_key(s, h) {
            let k = choose|k: int| 0 <= k < s.len() && key_eq(s[k], h);
            if k < dl.len() {
                assert(key_eq(dl[k], h));
            }
        }
        if has_key(dl, h) {
            let k = choose|k: int| 0 <= k < dl.len() && key_eq(dl[k], h);
            assert(key_eq(s[k], h));
        }
    }
}

/// Mutually distinct keys are counted at most once.
pub proof fn lemma_unique_count_key(s: Seq<Hook>, h: Hook)
    requires
        unique_keys(s),
    ensures
        count_key(s, h) <= 1,
    decreases s.len(),
{
    if s.len() > 0 {
        let dl = s.drop_last();
        assert(unique_keys(dl));
        lemma_unique_count_key(dl, h);
        lemma_count_key_has_key(dl, h);
        if key_eq(s.last(), h) && count_key(dl, h) >= 1 {
            let k = choose|k: int| 0 <= k < dl.len() && key_eq(dl[k], h);
            assert(key_eq(s[k], s[s.len() - 1]));
        }
    }
}

/// Pushing a hook raises exactly its own key's count by one.
pub proof fn lemma_count_key_push(s: Seq<Hook>, x: Hook, h: Hook)
    ensures
        count_key(s.push(x), h) == count_key(s, h) + if key_eq(x, h) {
            1int
        } else {
            0int
        },
{
    assert(s.push(x).drop_last() =~= s);
    assert(s.push(x).last() == x);
}

/// Uniqueness: registering two hooks with the same identity key — in either
/// order, whatever each call returned — leaves exactly one entry carrying
/// that key across the registry and the pending queue, and the second call
/// never reports a new addition after a successful first one.
pub proof fn lemma_registration_unique(
    m0: ManagerModel,
    m1: ManagerModel,
    m2: ManagerModel,
    h1: Hook,
    h2: Hook,
    r1: bool,
    r2: bool,
)
    requires
        wf(m0),
        key_eq(h1, h2),
        add_rel(m0, h1, m1, r1),
        add_rel(m1, h2, m2, r2),
    ensures
        count_key(m2.hooks, h1) + count_key(m2.pending, h1) == 1,
        !(r1 && r2),
{
    lemma_sorted_unique_keys(m0.hooks);
    lemma_unique_count_key(m0.hooks, h1);
    lemma_unique_count_key(m0.pending, h1);
    lemma_count_key_has_key(m0.hooks, h1);
    lemma_count_key_has_key(m0.pending, h1);
    if has_key(m0.hooks, h1) && has_key(m0.pending, h1) {
        let i = choose|i: int| 0 <= i < m0.pending.len() && key_eq(m0.pending[i], h1);
        let j = choose|j: int| 0 <= j < m0.hooks.len() && key_eq(m0.hooks[j], h1);
        assert(key_eq(m0.hooks[j], m0.pending[i]));
        assert(has_key(m0.hooks, m0.pending[i]));
    }
    if r1 {
        lemma_count_key_push(m0.pending, h1, h1);
        assert(has_key(m1.pending, h2)) by {
            assert(key_eq(m1.pending[m1.pending.len() - 1], h2));
        }
        assert(!r2);
        assert(count_key(m2.pending, h1) == 1);
    } else {
        assert(has_key(m0.hooks, h2) || has_key(m0.pending, h2)) by {
            if has_key(m0.hooks, h1) {
                let j = choose|j: int| 0 <= j < m0.hooks.len() && key_eq(m0.hooks[j], h1);
                assert(key_eq(m0.hooks[j], h2));
            }
            if has_key(m0.pending, h1) {
                let i = choose|i: int| 0 <= i < m0.pending.len() && key_eq(m0.pending[i], h1);
                assert(key_eq(m0.pending[i], h2));
            }
        }
        assert(!r2);
    }
}

/// Dispatch correctness: the dispatch list computed for one execution of a
/// block holds every active hook that matches the block and address space,
/// holds nothing else, and holds no two entries with one identity key — so
/// each matching hook's callback is invoked exactly once per execution.
pub proof fn lemma_dispatch_exactly_once(hooks: Seq<Hook>, b: TranslationBlock, asid: u64)
    requires
        sorted(hooks),
    ensures
        forall|h: Hook| #[trigger]
            matching(hooks, b, asid).contains(h) <==> hooks.contains(h) && hook_matches(
                h,
                b,
                asid,
            ),
        unique_keys(matching(hooks, b, asid)),
{
    lemma_matching_membership(hooks, b, asid);
    lemma_matching_sorted(hooks, b, asid);
    lemma_sorted_unique_keys(matching(hooks, b, asid));
}

/// Owner isolation: unregistering owner `a` leaves no hook of `a` behind,
/// while every hook of another owner survives and still dispatches for
/// exactly the blocks and address spaces it dispatched for before.
pub proof fn lemma_owner_isolation(
    m0: ManagerModel,
    m1: ManagerModel,
    a: u32,
    h: Hook,
    b: TranslationBlock,
    asid: u64,
)
    requires
        wf(m0),
        remove_rel(m0, a, m1),
        h.plugin_num != a,
    ensures
        forall|x: Hook| #[trigger] m1.hooks.contains(x) ==> x.plugin_num != a,
        m1.hooks.contains(h) == m0.hooks.contains(h),
        matching(m1.hooks, b, asid).contains(h) == matching(m0.hooks, b, asid).contains(h),
{
    lemma_without_plugin_membership(m0.hooks, a);
    lemma_matching_membership(m0.hooks, b, asid);
    lemma_matching_membership(m1.hooks, b, asid);
}

/// Pipeline gating: when the batched removal after a dispatch pass empties
/// the registry, the disable signal has fired, and a block compiled
/// afterwards gets an empty dispatch list, no splice target, and no
/// retranslation demand — no instrumentation overhead remains.
pub proof fn lemma_pipeline_gating(
    m0: ManagerModel,
    matched: Seq<Hook>,
    m1: ManagerModel,
    b: TranslationBlock,
    asid: u64,
)
    requires
        clear_rel(m0, matched, m1),
        m1.hooks.len() == 0,
    ensures
        !m1.enabled,
        matching(m1.hooks, b, asid).len() == 0,
        forall|t: SpliceTarget| !splice_backed(m1.hooks, m1.instrumented, b, t),
        forall|instr: Seq<u64>| !needs_retranslation(m1.hooks, instr, b),
{
    assert(matching(m1.hooks, b, asid).len() <= m1.hooks.len());
}

/// Round trip of an unmerged hook: a hook enqueued and whose owner is
/// unregistered before any merge never reaches the registry and never
/// stands in a dispatch list.
pub proof fn lemma_unmerged_hook_never_fires(
    m0: ManagerModel,
    h: Hook,
    r: bool,
    m1: ManagerModel,
    m2: ManagerModel,
    m3: ManagerModel,
    b: TranslationBlock,
    asid: u64,
)
    requires
        wf(m0),
        !has_key(m0.hooks, h),
        add_rel(m0, h, m1, r),
        remove_rel(m1, h.plugin_num, m2),
        merge_rel(m2, m3),
    ensures
        !has_key(m3.hooks, h),
        !matching(m3.hooks, b, asid).contains(h),
{
    lemma_without_plugin_membership(m1.pending, h.plugin_num);
    assert(!has_key(m2.pending, h)) by {
        if has_key(m2.pending, h) {
            let k = choose|k: int| 0 <= k < m2.pending.len() && key_eq(m2.pending[k], h);
            assert(m2.pending.contains(m2.pending[k]));
            assert(m2.pending[k].plugin_num == h.plugin_num);
        }
    }
    assert(!has_key(m2.hooks, h)) by {
        crate::registry::lemma_filter_has_key(m1.hooks, |x: Hook| x.plugin_num != h.plugin_num);
    }
    assert(!has_key(m3.hooks, h));
    assert(!matching(m3.hooks, b, asid).contains(h)) by {
        lemma_matching_membership(m3.hooks, b, asid);
        if m3.hooks.contains(h) {
            let k = choose|k: int| 0 <= k < m3.hooks.len() && m3.hooks[k] == h;
            assert(key_eq(m3.hooks[k], h));
        }
    }
}

} // verus!
