//! The registration surface plugins call: owner registration, hook
//! addition with the cross-thread protocol, and owner unregistration.

use vstd::prelude::*;

use crate::hook::Hook;
use crate::hook_manager::{add_rel, remove_rel, wf, HookManager};
use crate::registry::has_key;

verus! {

/// What the caller of `add_hook` must ask the engine to do next.
///
/// Registration may come from any thread while the engine runs; the change
/// itself only ever enters the manager through the pending queue, and this
/// action tells the caller how to make the running engine notice it.
#[derive(Clone, Copy, PartialEq, Eq, Structural, Debug)]
pub enum RegAction {
    /// Nothing further: the hook was a duplicate, its address is already
    /// instrumented, or the engine is idle and will merge at its next safe
    /// point.
    Nothing,
    /// The caller is the execution-owning thread in the middle of
    /// execution: request an engine exit so control reaches a safe point
    /// before the change takes effect.
    RequestExit,
    /// The caller is a foreign thread: try the engine's execution lock
    /// without blocking; on success invalidate the cached block covering
    /// the hook's address at once, on failure leave the change to the next
    /// natural merge point.
    TryFlush,
}

/// The hook the raw registration arguments describe; a zero address-space
/// argument means "no filter".
pub open spec fn hook_from_args(
    num: u32,
    pc: u64,
    asid: u64,
    always_starts_block: bool,
    cb: u64,
) -> Hook {
    Hook {
        pc,
        asid: if asid == 0 {
            None
        } else {
            Some(asid)
        },
        plugin_num: num,
        cb,
        always_starts_block,
    }
}

/// The two-path cross-thread protocol: engine work is asked for only when a
/// new hook was enqueued at a not-yet-instrumented address; the
/// execution-owning thread mid-execution requests an exit, a foreign thread
/// tries the lock.
pub open spec fn registration_action(
    added: bool,
    instrumented: bool,
    is_exec_thread: bool,
    engine_running: bool,
) -> RegAction {
    if !added || instrumented {
        RegAction::Nothing
    } else if is_exec_thread && engine_running {
        RegAction::RequestExit
    } else if !is_exec_thread {
        RegAction::TryFlush
    } else {
        RegAction::Nothing
    }
}

impl HookManager {
    /// Hands out the next owner identifier; identifiers increase
    /// monotonically and are never reused.
    pub fn register_plugin(&mut self) -> (r: u32)
        requires
            wf(old(self)@),
            old(self)@.next_plugin < u32::MAX,
        ensures
            wf(final(self)@),
            r == old(self)@.next_plugin,
            final(self)@.next_plugin == old(self)@.next_plugin + 1,
            final(self)@.pending == old(self)@.pending,
            final(self)@.hooks == old(self)@.hooks,
            final(self)@.instrumented == old(self)@.instrumented,
            final(self)@.clear_start == old(self)@.clear_start,
            final(self)@.clear_full == old(self)@.clear_full,
            final(self)@.enabled == old(self)@.enabled,
    {
        let r = self.next_plugin;
        self.next_plugin = self.next_plugin + 1;
        r
    }

    /// Unregisters an owner: every hook it registered — active or still
    /// pending — is removed.  Unregistering an owner with no hooks is a
    /// no-op.
    pub fn unregister_plugin(&mut self, num: u32)
        requires
            wf(old(self)@),
        ensures
            wf(final(self)@),
            remove_rel(old(self)@, num, final(self)@),
    {
        self.remove_plugin(num);
    }

    /// Registers a hook from any thread: enqueues it (idempotent on a
    /// duplicate identity key) and returns the engine action the two-path
    /// cross-thread protocol asks for.
    pub fn add_hook(
        &mut self,
        num: u32,
        pc: u64,
        asid: u64,
        always_starts_block: bool,
        cb: u64,
        is_exec_thread: bool,
        engine_running: bool,
    ) -> (r: RegAction)
        requires
            wf(old(self)@),
        ensures
            wf(final(self)@),
            add_rel(
                old(self)@,
                hook_from_args(num, pc, asid, always_starts_block, cb),
                final(self)@,
                !has_key(old(self)@.hooks, hook_from_args(num, pc, asid, always_starts_block, cb))
                    && !has_key(
                    old(self)@.pending,
                    hook_from_args(num, pc, asid, always_starts_block, cb),
                ),
            ),
            r == registration_action(
                !has_key(old(self)@.hooks, hook_from_args(num, pc, asid, always_starts_block, cb))
                    && !has_key(
                    old(self)@.pending,
                    hook_from_args(num, pc, asid, always_starts_block, cb),
                ),
                old(self)@.instrumented.contains(pc),
                is_exec_thread,
                engine_running,
            ),
    {
        let h = Hook {
            pc,
            asid: if asid == 0 {
                Option::None
            } else {
                Option::Some(asid)
            },
            plugin_num: num,
            cb,
            always_starts_block,
        };
        let added = self.add(&h);
        let instrumented = self.pc_instrumented(pc);
        if added && !instrumented {
            if is_exec_thread && engine_running {
                RegAction::RequestExit
            } else if !is_exec_thread {
                RegAction::TryFlush
            } else {
                RegAction::Nothing
            }
        } else {
            RegAction::Nothing
        }
    }
}

} // verus!
