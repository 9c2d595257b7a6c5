//! State management for the hook layer: the registry of active hooks, the
//! pending queue of cross-thread additions, the set of instrumented
//! addresses, and the two invalidation work-lists.

use vstd::prelude::*;

use crate::hook::{key_eq, key_lt, Hook};
use crate::registry::{
    contains_hook_key, contains_pc, filter_without_keys, filter_without_plugin, has_key, has_pc,
    hook_at_pc, insert_hook, lemma_filter_has_key, lemma_without_keys_sorted,
    lemma_without_plugin_membership, lemma_without_plugin_sorted,
    lemma_without_plugin_unique, matching, matching_hooks, sorted, unique_keys, without_keys,
    without_plugin,
};
use crate::tb::{in_block, jmp_cache_hash, pc_in_tb, rust_tb_jmp_cache_hash_func, TranslationBlock};

verus! {

broadcast use vstd::seq_lib::lemma_seq_contains_after_push;

/// Mathematical model of the manager's state.
pub struct ManagerModel {
    /// Hooks enqueued by `add` and not yet merged into the registry.
    pub pending: Seq<Hook>,
    /// The active registry, in strictly increasing identity-key order.
    pub hooks: Seq<Hook>,
    /// Guest addresses whose cached code already dispatches to the hooks.
    pub instrumented: Seq<u64>,
    /// Addresses awaiting invalidation via direct-cache lookup.
    pub clear_start: Seq<u64>,
    /// Addresses awaiting invalidation via a full cache scan.
    pub clear_full: Seq<u64>,
    /// Whether the engine's instrumentation pipeline is signalled on.
    pub enabled: bool,
    /// The next owner identifier to hand out.
    pub next_plugin: u32,
}

/// No address appears twice in the list.
pub open spec fn distinct_addrs(s: Seq<u64>) -> bool {
    forall|i: int, j: int| 0 <= i < j < s.len() ==> #[trigger] s[i] != #[trigger] s[j]
}

/// Well-formedness of the manager's state: the registry is strictly ordered
/// (hence duplicate-free), pending hooks are mutually distinct and not yet
/// registered, and an instrumented address is recorded once and only while
/// some active hook targets it.
pub open spec fn wf(m: ManagerModel) -> bool {
    &&& sorted(m.hooks)
    &&& unique_keys(m.pending)
    &&& forall|i: int| 0 <= i < m.pending.len() ==> !has_key(m.hooks, #[trigger] m.pending[i])
    &&& distinct_addrs(m.instrumented)
    &&& forall|i: int|
        0 <= i < m.instrumented.len() ==> has_pc(m.hooks, #[trigger] m.instrumented[i])
}

/// The addresses of the block-start-guaranteed hooks of `s`, in order.
pub open spec fn start_pcs(s: Seq<Hook>) -> Seq<u64>
    decreases s.len(),
{
    if s.len() == 0 {
        Seq::empty()
    } else {
        start_pcs(s.drop_last()) + if s.last().always_starts_block {
            seq![s.last().pc]
        } else {
            Seq::empty()
        }
    }
}

/// The addresses of the remaining (anywhere-in-block) hooks of `s`, in order.
pub open spec fn full_pcs(s: Seq<Hook>) -> Seq<u64>
    decreases s.len(),
{
    if s.len() == 0 {
        Seq::empty()
    } else {
        full_pcs(s.drop_last()) + if s.last().always_starts_block {
            Seq::empty()
        } else {
            seq![s.last().pc]
        }
    }
}

/// The direct-lookup obligation list a merge of `m`'s pending queue leaves.
pub open spec fn pending_start_list(m: ManagerModel) -> Seq<u64> {
    m.clear_start + start_pcs(m.pending)
}

/// The full-scan obligation list a merge of `m`'s pending queue leaves.
pub open spec fn pending_full_list(m: ManagerModel) -> Seq<u64> {
    m.clear_full + full_pcs(m.pending)
}

/// The keys of `hooks` are exactly those of `base` plus those of `added`.
pub open spec fn keys_cover(hooks: Seq<Hook>, base: Seq<Hook>, added: Seq<Hook>) -> bool {
    forall|g: Hook| #[trigger] has_key(hooks, g) <==> has_key(base, g) || has_key(added, g)
}

/// How a merge transforms the registry: every pending key is inserted, no
/// key is lost, already-registered hooks stay untouched, and nothing appears
/// from nowhere.
pub open spec fn hooks_merged(pre: ManagerModel, post: ManagerModel) -> bool {
    &&& sorted(post.hooks)
    &&& keys_cover(post.hooks, pre.hooks, pre.pending)
    &&& forall|h: Hook| pre.hooks.contains(h) ==> post.hooks.contains(h)
    &&& forall|x: Hook|
        post.hooks.contains(x) ==> pre.hooks.contains(x) || pre.pending.contains(x)
}

/// Effect of `add`: the engine pipeline is signalled on when the registry
/// was empty, and the hook joins the pending queue exactly when its identity
/// key is new to both the registry and the queue.
pub open spec fn add_rel(pre: ManagerModel, h: Hook, post: ManagerModel, r: bool) -> bool {
    &&& r == (!has_key(pre.hooks, h) && !has_key(pre.pending, h))
    &&& post.pending == if r {
        pre.pending.push(h)
    } else {
        pre.pending
    }
    &&& post.hooks == pre.hooks
    &&& post.instrumented == pre.instrumented
    &&& post.clear_start == pre.clear_start
    &&& post.clear_full == pre.clear_full
    &&& post.enabled == (pre.enabled || pre.hooks.len() == 0)
    &&& post.next_plugin == pre.next_plugin
}

/// Effect of a merge: the pending queue drains into the registry and each
/// drained hook's address joins the obligation list its flag selects; all
/// other state is untouched.
pub open spec fn merge_rel(pre: ManagerModel, post: ManagerModel) -> bool {
    &&& post.pending.len() == 0
    &&& hooks_merged(pre, post)
    &&& post.clear_start == pending_start_list(pre)
    &&& post.clear_full == pending_full_list(pre)
    &&& post.instrumented == pre.instrumented
    &&& post.enabled == pre.enabled
    &&& post.next_plugin == pre.next_plugin
}

/// Effect of removing hooks: the registry keeps exactly the hooks the caller
/// did not name, instrumented addresses stay recorded only while still
/// hooked, and the pipeline-disable signal fires when the registry empties.
pub open spec fn removal_frame(pre: ManagerModel, post: ManagerModel) -> bool {
    &&& post.clear_start == pre.clear_start
    &&& post.clear_full == pre.clear_full
    &&& post.next_plugin == pre.next_plugin
    &&& pruned_addrs(post.instrumented, pre.instrumented, post.hooks)
    &&& post.enabled == (post.hooks.len() > 0 && pre.enabled)
}

/// The addresses of `post` are exactly those of `pre` still targeted by some
/// hook of `hooks`.
pub open spec fn pruned_addrs(post: Seq<u64>, pre: Seq<u64>, hooks: Seq<Hook>) -> bool {
    forall|pc: u64| #[trigger] post.contains(pc) <==> pre.contains(pc) && has_pc(hooks, pc)
}

/// Effect of the batched removal after a dispatch pass.
pub open spec fn clear_rel(pre: ManagerModel, matched: Seq<Hook>, post: ManagerModel) -> bool {
    &&& post.hooks == without_keys(pre.hooks, matched)
    &&& post.pending == pre.pending
    &&& removal_frame(pre, post)
}

/// Effect of unregistering an owner: its hooks leave both the registry and
/// the pending queue.
pub open spec fn remove_rel(pre: ManagerModel, num: u32, post: ManagerModel) -> bool {
    &&& post.hooks == without_plugin(pre.hooks, num)
    &&& post.pending == without_plugin(pre.pending, num)
    &&& removal_frame(pre, post)
}

/// A cached block is stale when some active hook targets an address inside
/// it that is not yet instrumented.
pub open spec fn needs_retranslation(hooks: Seq<Hook>, instr: Seq<u64>, b: TranslationBlock) -> bool {
    exists|i: int|
        0 <= i < hooks.len() && in_block((#[trigger] hooks[i]).pc, b) && !instr.contains(
            hooks[i].pc,
        )
}

/// Where the code generator must splice a dispatch-and-exit-check pair into
/// the block being compiled: at the instruction at `pc`, or at the block's
/// first instruction when the hook guarantees `pc` starts the block.
#[derive(Clone, Copy, PartialEq, Eq, Structural, Debug)]
pub struct SpliceTarget {
    pub pc: u64,
    pub at_block_start: bool,
}

/// A splice target is justified by an active, not-yet-instrumented hook at
/// its address inside the block, whose flag chose the boundary technique.
pub open spec fn splice_backed(
    hooks: Seq<Hook>,
    instr: Seq<u64>,
    b: TranslationBlock,
    t: SpliceTarget,
) -> bool {
    exists|i: int|
        0 <= i < hooks.len() && (#[trigger] hooks[i]).pc == t.pc && in_block(t.pc, b)
            && !instr.contains(t.pc) && hooks[i].always_starts_block == t.at_block_start
}

/// Some listed splice target names address `pc`.
pub open spec fn has_target_pc(ts: Seq<SpliceTarget>, pc: u64) -> bool {
    exists|k: int| 0 <= k < ts.len() && (#[trigger] ts[k]).pc == pc
}

/// Slot `s` of the direct-jump cache appears in the eviction list.
pub open spec fn slot_listed(out: Seq<usize>, s: int) -> bool {
    exists|k: int| 0 <= k < out.len() && (#[trigger] out[k]) as int == s
}

/// A direct-lookup eviction: the slot holds a block other than the one
/// being compiled, the block hashes to this very slot, and its start
/// address is an uninstrumented obligation of the `ls` list.
pub open spec fn start_hit(
    cache: Seq<Option<TranslationBlock>>,
    current: Option<u64>,
    instr: Seq<u64>,
    ls: Seq<u64>,
    slot: int,
) -> bool {
    match cache[slot] {
        Some(b) => current != Some(b.id) && jmp_cache_hash(b.pc) as int == slot && ls.contains(
            b.pc,
        ) && !instr.contains(b.pc),
        None => false,
    }
}

/// A full-scan eviction: the slot holds a block other than the one being
/// compiled and some uninstrumented obligation of the `lf` list falls in
/// the block's span.
pub open spec fn full_hit(
    cache: Seq<Option<TranslationBlock>>,
    current: Option<u64>,
    instr: Seq<u64>,
    lf: Seq<u64>,
    slot: int,
) -> bool {
    match cache[slot] {
        Some(b) => current != Some(b.id) && exists|j: int|
            0 <= j < lf.len() && !instr.contains(#[trigger] lf[j]) && in_block(lf[j], b),
        None => false,
    }
}

/// A slot stands in the eviction list exactly when the list contains it.
proof fn lemma_slot_listed_contains(out: Seq<usize>, x: usize)
    ensures
        slot_listed(out, x as int) == out.contains(x),
{
    if slot_listed(out, x as int) {
        let k = choose|k: int| 0 <= k < out.len() && (#[trigger] out[k]) as int == x as int;
        assert(out[k] == x);
        assert(out.contains(out[k]));
    }
    if out.contains(x) {
        let k = choose|k: int| 0 <= k < out.len() && out[k] == x;
        assert((out[k]) as int == x as int);
    }
}

/// The two invalidation work-lists, drained once per invalidation pass.
pub struct HookManagerState {
    pub clear_full_tb: Vec<u64>,
    pub clear_start_tb: Vec<u64>,
}

/// The hook manager: registry, pending queue, instrumented-address set,
/// invalidation obligations, pipeline signal and owner counter.
///
/// The engine drives it from safe points only; every entry point takes the
/// manager explicitly.
pub struct HookManager {
    pub add_hooks: Vec<Hook>,
    pub hooks: Vec<Hook>,
    pub instrumented_pcs: Vec<u64>,
    pub state: HookManagerState,
    pub enabled: bool,
    pub next_plugin: u32,
}

impl View for HookManager {
    type V = ManagerModel;

    open spec fn view(&self) -> ManagerModel {
        ManagerModel {
            pending: self.add_hooks@,
            hooks: self.hooks@,
            instrumented: self.instrumented_pcs@,
            clear_start: self.state.clear_start_tb@,
            clear_full: self.state.clear_full_tb@,
            enabled: self.enabled,
            next_plugin: self.next_plugin,
        }
    }
}

impl HookManager {
    /// A fresh manager: nothing registered, nothing pending, pipeline off,
    /// owner identifiers starting at 1.
    pub fn new() -> (r: Self)
        ensures
            wf(r@),
            r@.pending.len() == 0,
            r@.hooks.len() == 0,
            r@.instrumented.len() == 0,
            r@.clear_start.len() == 0,
            r@.clear_full.len() == 0,
            !r@.enabled,
            r@.next_plugin == 1,
    {
        HookManager {
            add_hooks: Vec::new(),
            hooks: Vec::new(),
            instrumented_pcs: Vec::new(),
            state: HookManagerState { clear_full_tb: Vec::new(), clear_start_tb: Vec::new() },
            enabled: false,
            next_plugin: 1,
        }
    }

    /// Whether any hook is active (merged into the registry).
    pub fn has_hooks(&self) -> (r: bool)
        ensures
            r == (self@.hooks.len() > 0),
    {
        self.hooks.len() > 0
    }

    /// Whether the instrumentation pipeline is currently signalled on.
    pub fn pipeline_enabled(&self) -> (r: bool)
        ensures
            r == self@.enabled,
    {
        self.enabled
    }

    /// Whether some compiled block already dispatches for address `pc`.
    pub fn pc_instrumented(&self, pc: u64) -> (r: bool)
        ensures
            r == self@.instrumented.contains(pc),
    {
        contains_pc(&self.instrumented_pcs, pc)
    }

    /// Enqueues `h` unless a hook with the same identity key is already
    /// registered or pending; signals pipeline-enable when the registry was
    /// empty.  Returns whether the hook was newly added.
    pub fn add(&mut self, h: &Hook) -> (r: bool)
        requires
            wf(old(self)@),
        ensures
            wf(final(self)@),
            add_rel(old(self)@, *h, final(self)@, r),
    {
        if self.hooks.len() == 0 {
            self.enabled = true;
        }
        if contains_hook_key(&self.hooks, h) {
            return false;
        }
        if contains_hook_key(&self.add_hooks, h) {
            return false;
        }
        proof {
            assert forall|i: int, j: int|
                0 <= i < j < self@.pending.push(*h).len() implies !key_eq(
                #[trigger] self@.pending.push(*h)[i],
                #[trigger] self@.pending.push(*h)[j],
            ) by {
                if j < self@.pending.len() {
                } else {
                    assert(!key_eq(self@.pending[i], *h));
                }
            }
        }
        self.add_hooks.push(*h);
        true
    }

    /// Records that dispatch code for `pc` was spliced into the block being
    /// compiled.  The caller names an address it found through
    /// `insert_on_matches`, so an active hook targets it.
    pub fn record_instrumented(&mut self, pc: u64)
        requires
            wf(old(self)@),
            has_pc(old(self)@.hooks, pc),
        ensures
            wf(final(self)@),
            final(self)@.hooks == old(self)@.hooks,
            final(self)@.pending == old(self)@.pending,
            final(self)@.clear_start == old(self)@.clear_start,
            final(self)@.clear_full == old(self)@.clear_full,
            final(self)@.enabled == old(self)@.enabled,
            final(self)@.next_plugin == old(self)@.next_plugin,
            forall|x: u64|
                final(self)@.instrumented.contains(x) <==> old(self)@.instrumented.contains(x) || x
                    == pc,
    {
        let ghost pre = self@.instrumented;
        if !contains_pc(&self.instrumented_pcs, pc) {
            self.instrumented_pcs.push(pc);
            proof {
                assert(self@.instrumented == pre.push(pc));
                assert forall|x: u64| self@.instrumented.contains(x) implies pre.contains(x) || x
                    == pc by {
                    let k = choose|k: int|
                        0 <= k < self@.instrumented.len() && self@.instrumented[k] == x;
                    if k < pre.len() {
                        assert(pre[k] == x);
                    }
                }
                assert forall|x: u64| pre.contains(x) || x == pc implies self@.instrumented.contains(
                    x,
                ) by {
                    if pre.contains(x) {
                        let k = choose|k: int| 0 <= k < pre.len() && pre[k] == x;
                        assert(self@.instrumented[k] == x);
                    } else {
                        assert(self@.instrumented[pre.len() as int] == x);
                    }
                }
                assert forall|i: int, j: int|
                    0 <= i < j < self@.instrumented.len() implies #[trigger] self@.instrumented[i]
                    != #[trigger] self@.instrumented[j] by {
                    if j == pre.len() {
                        assert(pre[i] == self@.instrumented[i]);
                        assert(pre.contains(pre[i]));
                    }
                }
            }
        }
    }

    /// Merges the pending queue into the registry at a safe point, recording
    /// for each drained hook the invalidation obligation its flag selects.
    pub fn new_hooks_add(&mut self)
        requires
            wf(old(self)@),
        ensures
            wf(final(self)@),
            merge_rel(old(self)@, final(self)@),
    {
        let ghost pre = self@;
        proof {
            assert(pre.pending.take(0) =~= Seq::<Hook>::empty());
            assert(pre.clear_start + start_pcs(pre.pending.take(0)) =~= pre.clear_start);
            assert(pre.clear_full + full_pcs(pre.pending.take(0)) =~= pre.clear_full);
        }
        let n = self.add_hooks.len();
        let mut i: usize = 0;
        while i < n
            invariant
                0 <= i <= n,
                n == pre.pending.len(),
                self@.pending == pre.pending,
                sorted(self@.hooks),
                keys_cover(self@.hooks, pre.hooks, pre.pending.take(i as int)),
                forall|h: Hook| pre.hooks.contains(h) ==> self@.hooks.contains(h),
                forall|x: Hook|
                    self@.hooks.contains(x) ==> pre.hooks.contains(x)
                        || pre.pending.take(i as int).contains(x),
                self@.clear_start == pre.clear_start + start_pcs(pre.pending.take(i as int)),
                self@.clear_full == pre.clear_full + full_pcs(pre.pending.take(i as int)),
                self@.instrumented == pre.instrumented,
                distinct_addrs(self@.instrumented),
                forall|k: int|
                    0 <= k < self@.instrumented.len() ==> has_pc(
                        self@.hooks,
                        #[trigger] self@.instrumented[k],
                    ),
                self@.enabled == pre.enabled,
                self@.next_plugin == pre.next_plugin,
            decreases n - i,
        {
            let h = self.add_hooks[i];
            let ghost t0 = pre.pending.take(i as int);
            let ghost t1 = pre.pending.take(i + 1);
            let ghost hooks_before = self@.hooks;
            proof {
                assert(t1 =~= t0.push(h));
                assert(t1.drop_last() =~= t0);
                assert(t1.last() == h);
                assert forall|g: Hook| has_key(t1, g) == (has_key(t0, g) || key_eq(h, g)) by {
                    if has_key(t1, g) {
                        let k = choose|k: int| 0 <= k < t1.len() && key_eq(t1[k], g);
                        if k < t0.len() {
                            assert(key_eq(t0[k], g));
                        }
                    }
                    if has_key(t0, g) {
                        let k = choose|k: int| 0 <= k < t0.len() && key_eq(t0[k], g);
                        assert(key_eq(t1[k], g));
                    }
                    if key_eq(h, g) {
                        assert(key_eq(t1[t1.len() - 1], g));
                    }
                }
            }
            insert_hook(&mut self.hooks, h);
            if h.always_starts_block {
                self.state.clear_start_tb.push(h.pc);
                proof {
                    assert(start_pcs(t1) == start_pcs(t0) + seq![h.pc]);
                    assert(full_pcs(t1) == full_pcs(t0));
                    assert(self@.clear_start =~= pre.clear_start + start_pcs(t1));
                    assert(self@.clear_full =~= pre.clear_full + full_pcs(t1));
                }
            } else {
                self.state.clear_full_tb.push(h.pc);
                proof {
                    assert(full_pcs(t1) == full_pcs(t0) + seq![h.pc]);
                    assert(start_pcs(t1) == start_pcs(t0));
                    assert(self@.clear_full =~= pre.clear_full + full_pcs(t1));
                    assert(self@.clear_start =~= pre.clear_start + start_pcs(t1));
                }
            }
            proof {
                assert(t1.contains(h)) by {
                    assert(t1[t1.len() - 1] == h);
                }
                assert forall|x: Hook| t0.contains(x) implies t1.contains(x) by {
                    let k = choose|k: int| 0 <= k < t0.len() && t0[k] == x;
                    assert(t1[k] == x);
                }
                assert forall|k: int|
                    0 <= k < self@.instrumented.len() implies has_pc(
                    self@.hooks,
                    #[trigger] self@.instrumented[k],
                ) by {
                    let pc = self@.instrumented[k];
                    let w = choose|w: int|
                        0 <= w < hooks_before.len() && (#[trigger] hooks_before[w]).pc == pc;
                    assert(hooks_before.contains(hooks_before[w]));
                    assert(self@.hooks.contains(hooks_before[w]));
                    let u = choose|u: int|
                        0 <= u < self@.hooks.len() && self@.hooks[u] == hooks_before[w];
                    assert((#[trigger] self@.hooks[u]).pc == pc);
                }
                assert forall|g: Hook| #[trigger]
                    has_key(self@.hooks, g) <==> has_key(pre.hooks, g) || has_key(t1, g) by {
                    assert(has_key(self@.hooks, g) <==> has_key(hooks_before, g) || key_eq(g, h));
                    assert(has_key(hooks_before, g) <==> has_key(pre.hooks, g) || has_key(t0, g));
                    assert(has_key(t1, g) <==> has_key(t0, g) || key_eq(h, g));
                    assert(key_eq(g, h) == key_eq(h, g));
                }
                assert(keys_cover(self@.hooks, pre.hooks, t1));
            }
            i += 1;
        }
        proof {
            assert(pre.pending.take(n as int) =~= pre.pending);
        }
        self.add_hooks.clear();
    }

    /// Drops recorded instrumented addresses that no active hook targets any
    /// more, so the record tracks hook liveness.
    fn purge_instrumented(&mut self)
        requires
            distinct_addrs(old(self)@.instrumented),
        ensures
            final(self)@.hooks == old(self)@.hooks,
            final(self)@.pending == old(self)@.pending,
            final(self)@.clear_start == old(self)@.clear_start,
            final(self)@.clear_full == old(self)@.clear_full,
            final(self)@.enabled == old(self)@.enabled,
            final(self)@.next_plugin == old(self)@.next_plugin,
            distinct_addrs(final(self)@.instrumented),
            pruned_addrs(final(self)@.instrumented, old(self)@.instrumented, final(self)@.hooks),
    {
        let ghost pre = self@.instrumented;
        let mut kept: Vec<u64> = Vec::new();
        let mut i: usize = 0;
        proof {
            assert(pre.take(0) =~= Seq::<u64>::empty());
        }
        while i < self.instrumented_pcs.len()
            invariant
                0 <= i <= pre.len(),
                self@.instrumented == pre,
                distinct_addrs(pre),
                distinct_addrs(kept@),
                pruned_addrs(kept@, pre.take(i as int), self@.hooks),
            decreases pre.len() - i,
        {
            let pc = self.instrumented_pcs[i];
            let ghost t0 = pre.take(i as int);
            let ghost t1 = pre.take(i + 1);
            proof {
                assert(t1 =~= t0.push(pc));
                assert forall|x: u64| t1.contains(x) == (t0.contains(x) || x == pc) by {
                    assert(t0.push(pc).contains(x) <==> t0.contains(x) || pc == x);
                }
                assert(!t0.contains(pc)) by {
                    if t0.contains(pc) {
                        let k = choose|k: int| 0 <= k < t0.len() && t0[k] == pc;
                        assert(pre[k] == pre[i as int]);
                    }
                }
            }
            if hook_at_pc(&self.hooks, pc) {
                let ghost kept0 = kept@;
                kept.push(pc);
                proof {
                    assert(!kept0.contains(pc));
                    assert forall|i2: int, j2: int|
                        0 <= i2 < j2 < kept@.len() implies #[trigger] kept@[i2]
                        != #[trigger] kept@[j2] by {
                        if j2 == kept0.len() {
                            assert(kept0[i2] == kept@[i2]);
                            assert(kept0.contains(kept0[i2]));
                        }
                    }
                }
            }
            i += 1;
        }
        proof {
            assert(pre.take(pre.len() as int) =~= pre);
        }
        self.instrumented_pcs = kept;
    }

    /// Removes every hook whose identity key appears in `matched` — the
    /// batch a dispatch pass collected — and signals pipeline-disable when
    /// the registry empties.
    pub fn clear_empty_hooks(&mut self, matched: &Vec<Hook>)
        requires
            wf(old(self)@),
        ensures
            wf(final(self)@),
            clear_rel(old(self)@, matched@, final(self)@),
    {
        let ghost pre = self@;
        let new_hooks = filter_without_keys(&self.hooks, matched);
        self.hooks = new_hooks;
        proof {
            lemma_without_keys_sorted(pre.hooks, matched@);
            lemma_filter_has_key(pre.hooks, |h: Hook| !has_key(matched@, h));
        }
        self.purge_instrumented();
        if self.hooks.len() == 0 {
            self.enabled = false;
        }
        proof {
            assert forall|k: int|
                0 <= k < self@.instrumented.len() implies has_pc(
                self@.hooks,
                #[trigger] self@.instrumented[k],
            ) by {
                assert(self@.instrumented.contains(self@.instrumented[k]));
            }
        }
    }

    /// Unregisters owner `num`: removes its hooks from the registry and from
    /// the pending queue, and signals pipeline-disable when the registry
    /// empties.  Unregistering an owner with no hooks is a no-op.
    pub fn remove_plugin(&mut self, num: u32)
        requires
            wf(old(self)@),
        ensures
            wf(final(self)@),
            remove_rel(old(self)@, num, final(self)@),
    {
        let ghost pre = self@;
        let new_hooks = filter_without_plugin(&self.hooks, num);
        self.hooks = new_hooks;
        let new_pending = filter_without_plugin(&self.add_hooks, num);
        self.add_hooks = new_pending;
        proof {
            lemma_without_plugin_sorted(pre.hooks, num);
            lemma_without_plugin_unique(pre.pending, num);
            lemma_filter_has_key(pre.hooks, |h: Hook| h.plugin_num != num);
            lemma_without_plugin_membership(pre.pending, num);
            assert forall|k: int|
                0 <= k < self@.pending.len() implies !has_key(
                self@.hooks,
                #[trigger] self@.pending[k],
            ) by {
                assert(self@.pending.contains(self@.pending[k]));
                let w = choose|w: int|
                    0 <= w < pre.pending.len() && pre.pending[w] == self@.pending[k];
                if has_key(self@.hooks, self@.pending[k]) {
                    assert(has_key(pre.hooks, self@.pending[k]));
                }
            }
        }
        self.purge_instrumented();
        if self.hooks.len() == 0 {
            self.enabled = false;
        }
        proof {
            assert forall|k: int|
                0 <= k < self@.instrumented.len() implies has_pc(
                self@.hooks,
                #[trigger] self@.instrumented[k],
            ) by {
                assert(self@.instrumented.contains(self@.instrumented[k]));
            }
        }
    }

    /// Dispatch decision for one executed block: merges pending hooks, then
    /// returns — in registry order — exactly the active hooks whose address
    /// lies in the block and whose address-space filter is unset or equals
    /// `asid`.  The caller invokes each returned hook's callback once and
    /// hands the ones that asked for removal to `clear_empty_hooks`.
    pub fn run_tb(&mut self, tb: &TranslationBlock, asid: u64) -> (r: Vec<Hook>)
        requires
            wf(old(self)@),
        ensures
            wf(final(self)@),
            merge_rel(old(self)@, final(self)@),
            r@ == matching(final(self)@.hooks, *tb, asid),
    {
        self.new_hooks_add();
        matching_hooks(&self.hooks, tb, asid)
    }

    /// Retranslation gate: merges pending hooks, then reports whether some
    /// active hook targets an address in the block that is not yet
    /// instrumented — in which case the cached block predates the hook and
    /// must be discarded and recompiled.
    pub fn tb_needs_retranslated(&mut self, tb: &TranslationBlock) -> (r: bool)
        requires
            wf(old(self)@),
        ensures
            wf(final(self)@),
            merge_rel(old(self)@, final(self)@),
            r == needs_retranslation(final(self)@.hooks, final(self)@.instrumented, *tb),
    {
        self.new_hooks_add();
        let mut i: usize = 0;
        while i < self.hooks.len()
            invariant
                wf(self@),
                merge_rel(old(self)@, self@),
                0 <= i <= self@.hooks.len(),
                forall|k: int|
                    0 <= k < i ==> !(in_block((#[trigger] self@.hooks[k]).pc, *tb)
                        && !self@.instrumented.contains(self@.hooks[k].pc)),
            decreases self@.hooks.len() - i,
        {
            let h = self.hooks[i];
            if pc_in_tb(h.pc, tb) && !contains_pc(&self.instrumented_pcs, h.pc) {
                return true;
            }
            i += 1;
        }
        false
    }

    /// Codegen decision for the block being compiled: the unique, not yet
    /// instrumented hook addresses inside the block, each with the boundary
    /// technique a hook at that address asks for.  The engine attempts the
    /// splice for each target and reports each success through
    /// `record_instrumented`; a target whose instruction boundary cannot be
    /// found is skipped for this pass.
    pub fn insert_on_matches(&self, tb: &TranslationBlock) -> (out: Vec<SpliceTarget>)
        requires
            wf(self@),
        ensures
            forall|k: int|
                0 <= k < out@.len() ==> splice_backed(
                    self@.hooks,
                    self@.instrumented,
                    *tb,
                    #[trigger] out@[k],
                ),
            forall|i: int|
                0 <= i < self@.hooks.len() && in_block((#[trigger] self@.hooks[i]).pc, *tb)
                    && !self@.instrumented.contains(self@.hooks[i].pc) ==> has_target_pc(
                    out@,
                    self@.hooks[i].pc,
                ),
            forall|k1: int, k2: int|
                0 <= k1 < k2 < out@.len() ==> (#[trigger] out@[k1]).pc < (#[trigger] out@[k2]).pc,
    {
        let mut out: Vec<SpliceTarget> = Vec::new();
        let mut i: usize = 0;
        while i < self.hooks.len()
            invariant
                wf(self@),
                0 <= i <= self@.hooks.len(),
                forall|k: int|
                    0 <= k < out@.len() ==> splice_backed(
                        self@.hooks,
                        self@.instrumented,
                        *tb,
                        #[trigger] out@[k],
                    ),
                forall|w: int|
                    0 <= w < i && in_block((#[trigger] self@.hooks[w]).pc, *tb)
                        && !self@.instrumented.contains(self@.hooks[w].pc) ==> has_target_pc(
                        out@,
                        self@.hooks[w].pc,
                    ),
                forall|k: int|
                    0 <= k < out@.len() ==> has_pc(
                        self@.hooks.take(i as int),
                        (#[trigger] out@[k]).pc,
                    ),
                forall|k1: int, k2: int|
                    0 <= k1 < k2 < out@.len() ==> (#[trigger] out@[k1]).pc < (
                    #[trigger] out@[k2]).pc,
            decreases self@.hooks.len() - i,
        {
            let h = self.hooks[i];
            if pc_in_tb(h.pc, tb) && !contains_pc(&self.instrumented_pcs, h.pc) {
                if !target_pc_present(&out, h.pc) {
                    let ghost out0 = out@;
                    out.push(SpliceTarget { pc: h.pc, at_block_start: h.always_starts_block });
                    proof {
                        assert forall|pc2: u64| has_target_pc(out0, pc2) implies has_target_pc(
                            out@,
                            pc2,
                        ) by {
                            let k = choose|k: int|
                                0 <= k < out0.len() && (#[trigger] out0[k]).pc == pc2;
                            assert((out@[k]).pc == pc2);
                        }
                        assert((out@[out0.len() as int]).pc == h.pc);
                        assert forall|k: int|
                            0 <= k < out@.len() implies splice_backed(
                            self@.hooks,
                            self@.instrumented,
                            *tb,
                            #[trigger] out@[k],
                        ) by {
                            if k < out0.len() {
                                assert(out@[k] == out0[k]);
                            } else {
                                assert(out@[k] == SpliceTarget {
                                    pc: h.pc,
                                    at_block_start: h.always_starts_block,
                                });
                                assert((#[trigger] self@.hooks[i as int]).pc == h.pc);
                            }
                        }
                        assert forall|k1: int, k2: int|
                            0 <= k1 < k2 < out@.len() implies (#[trigger] out@[k1]).pc < (
                        #[trigger] out@[k2]).pc by {
                            if k2 == out0.len() {
                                assert(out@[k1] == out0[k1]);
                                let t = self@.hooks.take(i as int);
                                assert(has_pc(t, out0[k1].pc));
                                let w = choose|w: int|
                                    0 <= w < t.len() && (#[trigger] t[w]).pc == out0[k1].pc;
                                assert(t[w] == self@.hooks[w]);
                                assert(key_lt(self@.hooks[w], self@.hooks[i as int]));
                                assert(!has_target_pc(out0, h.pc));
                                assert(out0[k1].pc != h.pc);
                            }
                        }
                        assert(self@.hooks.take(i + 1)[i as int] == self@.hooks[i as int]);
                    }
                }
            }
            proof {
                assert forall|pc2: u64| has_pc(self@.hooks.take(i as int), pc2) implies has_pc(
                    self@.hooks.take(i + 1),
                    pc2,
                ) by {
                    let t = self@.hooks.take(i as int);
                    let w = choose|w: int| 0 <= w < t.len() && (#[trigger] t[w]).pc == pc2;
                    assert((self@.hooks.take(i + 1)[w]).pc == pc2);
                }
                assert(self@.hooks.take(i + 1)[i as int] == self@.hooks[i as int]);
            }
            i += 1;
        }
        out
    }

    /// Cache-invalidation pass at a safe point: merges pending hooks, then
    /// computes from the drained obligation lists which direct-jump-cache
    /// slots hold stale blocks, skipping already-instrumented addresses and
    /// the block currently being compiled (named by `current`).  Returns
    /// the distinct slots to evict; both obligation lists are cleared.
    pub fn clear_tbs(
        &mut self,
        cache: &Vec<Option<TranslationBlock>>,
        current: Option<u64>,
    ) -> (out: Vec<usize>)
        requires
            wf(old(self)@),
            cache@.len() == 4096,
        ensures
            wf(final(self)@),
            final(self)@.pending.len() == 0,
            hooks_merged(old(self)@, final(self)@),
            final(self)@.instrumented == old(self)@.instrumented,
            final(self)@.enabled == old(self)@.enabled,
            final(self)@.next_plugin == old(self)@.next_plugin,
            final(self)@.clear_start.len() == 0,
            final(self)@.clear_full.len() == 0,
            forall|s: int|
                0 <= s < 4096 ==> (#[trigger] slot_listed(out@, s) <==> start_hit(
                    cache@,
                    current,
                    old(self)@.instrumented,
                    pending_start_list(old(self)@),
                    s,
                ) || full_hit(
                    cache@,
                    current,
                    old(self)@.instrumented,
                    pending_full_list(old(self)@),
                    s,
                )),
            forall|k1: int, k2: int|
                0 <= k1 < k2 < out@.len() ==> #[trigger] out@[k1] != #[trigger] out@[k2],
            forall|k: int| 0 <= k < out@.len() ==> (#[trigger] out@[k]) < 4096,
    {
        self.new_hooks_add();
        let ghost m1 = self@;
        let ghost ls = m1.clear_start;
        let ghost lf = m1.clear_full;
        proof {
            assert(ls.take(0) =~= Seq::<u64>::empty());
        }
        let mut out: Vec<usize> = Vec::new();
        let n = self.state.clear_start_tb.len();
        let mut j: usize = 0;
        while j < n
            invariant
                self@ == m1,
                cache@.len() == 4096,
                ls == m1.clear_start,
                n == ls.len(),
                0 <= j <= n,
                forall|s: int|
                    0 <= s < 4096 ==> (#[trigger] slot_listed(out@, s) <==> start_hit(
                        cache@,
                        current,
                        m1.instrumented,
                        ls.take(j as int),
                        s,
                    )),
                forall|k1: int, k2: int|
                    0 <= k1 < k2 < out@.len() ==> #[trigger] out@[k1] != #[trigger] out@[k2],
                forall|k: int| 0 <= k < out@.len() ==> (#[trigger] out@[k]) < 4096,
            decreases n - j,
        {
            let pc = self.state.clear_start_tb[j];
            let idx = rust_tb_jmp_cache_hash_func(pc) as usize;
            let ghost t0 = ls.take(j as int);
            let ghost t1 = ls.take(j + 1);
            let ghost out0 = out@;
            let ghost mut pushed = false;
            proof {
                assert(t1 =~= t0.push(pc));
                assert forall|x: u64| #[trigger] t1.contains(x) == (t0.contains(x) || x == pc) by {
                    assert(t0.push(pc).contains(x) <==> pc == x || t0.contains(x));
                }
            }
            if !contains_pc(&self.instrumented_pcs, pc) {
                let slot = cache[idx];
                if let Some(b) = slot {
                    let not_cur = match current {
                        Option::Some(c) => c != b.id,
                        Option::None => true,
                    };
                    if not_cur && b.pc == pc {
                        if !contains_slot(&out, idx) {
                            out.push(idx);
                            proof {
                                pushed = true;
                            }
                        }
                    }
                }
            }
            proof {
                assert(out@ == if pushed {
                    out0.push(idx)
                } else {
                    out0
                });
                if pushed {
                    assert(out@[out0.len() as int] == idx);
                    assert(slot_listed(out@, idx as int));
                }
                assert forall|s2: int|
                    slot_listed(out@, s2) implies slot_listed(out0, s2) || (pushed && s2
                    == idx as int) by {
                    let k = choose|k: int| 0 <= k < out@.len() && (#[trigger] out@[k]) as int == s2;
                    if k < out0.len() {
                        assert(out0[k] as int == s2);
                    }
                }
                assert forall|s2: int| slot_listed(out0, s2) implies slot_listed(out@, s2) by {
                    let k = choose|k: int| 0 <= k < out0.len() && (#[trigger] out0[k]) as int == s2;
                    assert(out@[k] as int == s2);
                }
                lemma_slot_listed_contains(out0, idx);
                assert forall|s: int|
                    0 <= s < 4096 implies (#[trigger] slot_listed(out@, s) <==> start_hit(
                    cache@,
                    current,
                    m1.instrumented,
                    t1,
                    s,
                )) by {
                    assert(slot_listed(out0, s) <==> start_hit(
                        cache@,
                        current,
                        m1.instrumented,
                        t0,
                        s,
                    ));
                    if cache@[s] is Some {
                        let b = cache@[s]->0;
                        if s == idx as int {
                            if slot_listed(out@, s) && !slot_listed(out0, s) {
                                assert(pushed);
                                assert(b.pc == pc);
                                assert(t1.contains(b.pc));
                                assert(start_hit(cache@, current, m1.instrumented, t1, s));
                            }
                            if start_hit(cache@, current, m1.instrumented, t0, s) {
                                assert(t1.contains(b.pc));
                                assert(start_hit(cache@, current, m1.instrumented, t1, s));
                            }
                            if start_hit(cache@, current, m1.instrumented, t1, s) && !start_hit(
                                cache@,
                                current,
                                m1.instrumented,
                                t0,
                                s,
                            ) {
                                assert(t1.contains(b.pc) && !t0.contains(b.pc));
                                assert(b.pc == pc);
                                assert(!m1.instrumented.contains(pc));
                                assert(current != Some(b.id));
                                assert(pushed || out0.contains(idx));
                                assert(slot_listed(out@, s));
                            }
                        } else {
                            if b.pc == pc {
                                assert(jmp_cache_hash(b.pc) as int == idx as int);
                                assert(!start_hit(cache@, current, m1.instrumented, t1, s));
                                assert(!start_hit(cache@, current, m1.instrumented, t0, s));
                            } else {
                                assert(t1.contains(b.pc) == t0.contains(b.pc));
                            }
                        }
                    } else {
                        assert(!start_hit(cache@, current, m1.instrumented, t1, s));
                        assert(!start_hit(cache@, current, m1.instrumented, t0, s));
                        if s == idx as int {
                            assert(!pushed);
                        }
                    }
                }
            }
            j += 1;
        }
        proof {
            assert(ls.take(n as int) =~= ls);
        }
        let cache_len = cache.len();
        let mut s: usize = 0;
        while s < cache_len
            invariant
                self@ == m1,
                cache@.len() == 4096,
                cache_len == 4096,
                lf == m1.clear_full,
                0 <= s <= 4096,
                forall|s2: int|
                    0 <= s2 < 4096 ==> (#[trigger] slot_listed(out@, s2) <==> start_hit(
                        cache@,
                        current,
                        m1.instrumented,
                        ls,
                        s2,
                    ) || (s2 < s && full_hit(cache@, current, m1.instrumented, lf, s2))),
                forall|k1: int, k2: int|
                    0 <= k1 < k2 < out@.len() ==> #[trigger] out@[k1] != #[trigger] out@[k2],
                forall|k: int| 0 <= k < out@.len() ==> (#[trigger] out@[k]) < 4096,
            decreases 4096 - s,
        {
            let ghost out0 = out@;
            let ghost mut pushed = false;
            let slot = cache[s];
            if let Some(b) = slot {
                let not_cur = match current {
                    Option::Some(c) => c != b.id,
                    Option::None => true,
                };
                if not_cur && any_pending_in_block(
                    &self.state.clear_full_tb,
                    &self.instrumented_pcs,
                    &b,
                ) {
                    if !contains_slot(&out, s) {
                        out.push(s);
                        proof {
                            pushed = true;
                        }
                    }
                }
            }
            proof {
                assert(out@ == if pushed {
                    out0.push(s)
                } else {
                    out0
                });
                if pushed {
                    assert(out@[out0.len() as int] == s);
                    assert(slot_listed(out@, s as int));
                }
                assert forall|s3: int|
                    slot_listed(out@, s3) implies slot_listed(out0, s3) || (pushed && s3
                    == s as int) by {
                    let k = choose|k: int| 0 <= k < out@.len() && (#[trigger] out@[k]) as int == s3;
                    if k < out0.len() {
                        assert(out0[k] as int == s3);
                    }
                }
                assert forall|s3: int| slot_listed(out0, s3) implies slot_listed(out@, s3) by {
                    let k = choose|k: int| 0 <= k < out0.len() && (#[trigger] out0[k]) as int == s3;
                    assert(out@[k] as int == s3);
                }
                lemma_slot_listed_contains(out0, s);
                assert forall|s2: int|
                    0 <= s2 < 4096 implies (#[trigger] slot_listed(out@, s2) <==> start_hit(
                    cache@,
                    current,
                    m1.instrumented,
                    ls,
                    s2,
                ) || (s2 < s + 1 && full_hit(cache@, current, m1.instrumented, lf, s2))) by {
                    assert(slot_listed(out0, s2) <==> start_hit(
                        cache@,
                        current,
                        m1.instrumented,
                        ls,
                        s2,
                    ) || (s2 < s && full_hit(cache@, current, m1.instrumented, lf, s2)));
                    if s2 == s as int {
                        if full_hit(cache@, current, m1.instrumented, lf, s2) {
                            assert(cache@[s2] is Some);
                            assert(pushed || out0.contains(s));
                            assert(slot_listed(out@, s2));
                        }
                        if slot_listed(out@, s2) && !slot_listed(out0, s2) {
                            assert(pushed);
                            assert(full_hit(cache@, current, m1.instrumented, lf, s2));
                        }
                    }
                }
            }
            s += 1;
        }
        self.state.clear_start_tb.clear();
        self.state.clear_full_tb.clear();
        out
    }
}

/// Whether a slot index already stands in the eviction list.
fn contains_slot(v: &Vec<usize>, x: usize) -> (r: bool)
    ensures
        r == v@.contains(x),
{
    let mut i: usize = 0;
    while i < v.len()
        invariant
            0 <= i <= v@.len(),
            forall|k: int| 0 <= k < i ==> v@[k] != x,
        decreases v@.len() - i,
    {
        if v[i] == x {
            return true;
        }
        i += 1;
    }
    false
}

/// Whether some uninstrumented obligation address of `lf` falls inside
/// block `b`.
fn any_pending_in_block(lf: &Vec<u64>, instr: &Vec<u64>, b: &TranslationBlock) -> (r: bool)
    ensures
        r == exists|j: int|
            0 <= j < lf@.len() && !instr@.contains(#[trigger] lf@[j]) && in_block(lf@[j], *b),
{
    let mut i: usize = 0;
    while i < lf.len()
        invariant
            0 <= i <= lf@.len(),
            forall|k: int|
                0 <= k < i ==> !(!instr@.contains(#[trigger] lf@[k]) && in_block(lf@[k], *b)),
        decreases lf@.len() - i,
    {
        let pc = lf[i];
        if !contains_pc(instr, pc) && pc_in_tb(pc, b) {
            return true;
        }
        i += 1;
    }
    false
}

/// Whether some listed splice target already names `pc`.
fn target_pc_present(v: &Vec<SpliceTarget>, pc: u64) -> (r: bool)
    ensures
        r == has_target_pc(v@, pc),
{
    let mut i: usize = 0;
    while i < v.len()
        invariant
            0 <= i <= v@.len(),
            forall|k: int| 0 <= k < i ==> (#[trigger] v@[k]).pc != pc,
        decreases v@.len() - i,
    {
        if v[i].pc == pc {
            return true;
        }
        i += 1;
    }
    false
}

} // verus!
