// Unit tests for the pieces: hash function, span tests, address-space
// filtering, the registration protocol, and the splice decision.

use hooks3::api::RegAction;
use hooks3::hook::Hook;
use hooks3::hook_manager::HookManager;
use hooks3::tb::{pc_in_tb, rust_tb_jmp_cache_hash_func, TranslationBlock};

#[test]
fn jmp_cache_hash_values() {
    // tmp = pc ^ (pc >> 6); slot = ((tmp >> 6) & 4032) | (tmp & 63).
    assert_eq!(rust_tb_jmp_cache_hash_func(0), 0);
    assert_eq!(rust_tb_jmp_cache_hash_func(0x1000), 64);
    assert_eq!(rust_tb_jmp_cache_hash_func(0x40), 1);
    for pc in [0u64, 1, 0x3f, 0x1000, 0xdead_beef, u64::MAX] {
        assert!(rust_tb_jmp_cache_hash_func(pc) < 4096);
    }
}

#[test]
fn span_membership() {
    let tb = TranslationBlock { pc: 0x100, size: 0x10, id: 1 };
    assert!(pc_in_tb(0x100, &tb));
    assert!(pc_in_tb(0x10f, &tb));
    assert!(!pc_in_tb(0x110, &tb));
    assert!(!pc_in_tb(0xff, &tb));
    // A span at the top of the address space does not wrap.
    let top = TranslationBlock { pc: u64::MAX, size: 1, id: 2 };
    assert!(pc_in_tb(u64::MAX, &top));
    assert!(!pc_in_tb(0, &top));
}

#[test]
fn asid_filtering() {
    let mut m = HookManager::new();
    let owner = m.register_plugin();
    let wildcard = Hook {
        pc: 0x100,
        asid: None,
        plugin_num: owner,
        cb: 1,
        always_starts_block: false,
    };
    let only_five = Hook {
        pc: 0x104,
        asid: Some(5),
        plugin_num: owner,
        cb: 2,
        always_starts_block: false,
    };
    assert!(m.add(&wildcard));
    assert!(m.add(&only_five));
    let tb = TranslationBlock { pc: 0x100, size: 0x10, id: 1 };

    let in_five = m.run_tb(&tb, 5);
    assert_eq!(in_five.len(), 2);

    let in_six = m.run_tb(&tb, 6);
    assert_eq!(in_six.len(), 1);
    assert_eq!(in_six[0], wildcard);
}

#[test]
fn dispatch_respects_block_bounds() {
    let mut m = HookManager::new();
    let owner = m.register_plugin();
    for (pc, cb) in [(0xffu64, 1u64), (0x100, 2), (0x10f, 3), (0x110, 4)] {
        assert!(m.add(&Hook {
            pc,
            asid: None,
            plugin_num: owner,
            cb,
            always_starts_block: false,
        }));
    }
    let tb = TranslationBlock { pc: 0x100, size: 0x10, id: 1 };
    let fired = m.run_tb(&tb, 0);
    assert_eq!(fired.len(), 2);
    assert_eq!(fired[0].pc, 0x100);
    assert_eq!(fired[1].pc, 0x10f);
}

#[test]
fn add_hook_protocol_actions() {
    let mut m = HookManager::new();
    let owner = m.register_plugin();

    // Execution-owning thread, engine running: ask for an exit.
    let act = m.add_hook(owner, 0x100, 0, false, 1, true, true);
    assert_eq!(act, RegAction::RequestExit);

    // Duplicate identity key: nothing to do.
    let act = m.add_hook(owner, 0x100, 0, false, 1, true, true);
    assert_eq!(act, RegAction::Nothing);

    // Foreign thread: opportunistic try-lock path.
    let act = m.add_hook(owner, 0x200, 0, false, 2, false, true);
    assert_eq!(act, RegAction::TryFlush);

    // Execution-owning thread at a safe point: the next merge suffices.
    let act = m.add_hook(owner, 0x300, 0, false, 3, true, false);
    assert_eq!(act, RegAction::Nothing);

    // Already-instrumented address: cached code dispatches already.
    m.new_hooks_add();
    m.record_instrumented(0x200);
    let act = m.add_hook(owner, 0x200, 7, false, 4, false, true);
    assert_eq!(act, RegAction::Nothing);

    // A zero address-space argument means no filter.
    let tb = TranslationBlock { pc: 0x100, size: 4, id: 1 };
    let fired = m.run_tb(&tb, 1234);
    assert_eq!(fired.len(), 1);
    assert_eq!(fired[0].asid, None);
}

#[test]
fn splice_targets_unique_and_flagged() {
    let mut m = HookManager::new();
    let owner = m.register_plugin();
    // Two hooks at one address: one splice target for it.
    assert!(m.add(&Hook {
        pc: 0x100,
        asid: None,
        plugin_num: owner,
        cb: 1,
        always_starts_block: false,
    }));
    assert!(m.add(&Hook {
        pc: 0x100,
        asid: Some(1),
        plugin_num: owner,
        cb: 2,
        always_starts_block: false,
    }));
    // A block-start-guaranteed hook at another address.
    assert!(m.add(&Hook {
        pc: 0x108,
        asid: None,
        plugin_num: owner,
        cb: 3,
        always_starts_block: true,
    }));
    m.new_hooks_add();

    let tb = TranslationBlock { pc: 0x100, size: 0x10, id: 1 };
    let targets = m.insert_on_matches(&tb);
    assert_eq!(targets.len(), 2);
    assert_eq!(targets[0].pc, 0x100);
    assert!(!targets[0].at_block_start);
    assert_eq!(targets[1].pc, 0x108);
    assert!(targets[1].at_block_start);

    // Once an address is recorded, it is no longer a splice candidate.
    m.record_instrumented(0x100);
    let again = m.insert_on_matches(&tb);
    assert_eq!(again.len(), 1);
    assert_eq!(again[0].pc, 0x108);
}

#[test]
fn instrumented_set_tracks_hook_liveness() {
    // Removing the last hook at an address clears its instrumented record,
    // so a later hook there is spliced again.
    let mut m = HookManager::new();
    let a = m.register_plugin();
    let b = m.register_plugin();
    assert!(m.add(&Hook {
        pc: 0x100,
        asid: None,
        plugin_num: a,
        cb: 1,
        always_starts_block: false,
    }));
    m.new_hooks_add();
    m.record_instrumented(0x100);
    m.unregister_plugin(a);
    assert!(!m.pc_instrumented(0x100));

    assert!(m.add(&Hook {
        pc: 0x100,
        asid: None,
        plugin_num: b,
        cb: 2,
        always_starts_block: false,
    }));
    m.new_hooks_add();
    let tb = TranslationBlock { pc: 0x100, size: 4, id: 9 };
    let targets = m.insert_on_matches(&tb);
    assert_eq!(targets.len(), 1);
    assert_eq!(targets[0].pc, 0x100);
}

#[test]
fn owner_ids_are_monotonic() {
    let mut m = HookManager::new();
    let first = m.register_plugin();
    let second = m.register_plugin();
    let third = m.register_plugin();
    assert_eq!(first, 1);
    assert_eq!(second, 2);
    assert_eq!(third, 3);
}

#[test]
fn remove_missing_owner_is_noop() {
    let mut m = HookManager::new();
    let owner = m.register_plugin();
    assert!(m.add(&Hook {
        pc: 0x100,
        asid: None,
        plugin_num: owner,
        cb: 1,
        always_starts_block: false,
    }));
    m.new_hooks_add();
    m.unregister_plugin(owner + 7);
    assert!(m.has_hooks());
    assert!(m.pipeline_enabled());
}
