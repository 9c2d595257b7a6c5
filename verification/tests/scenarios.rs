// End-to-end scenarios driving the manager the way the engine does: merge at
// safe points, codegen splices, dispatch, and removal.

use hooks3::hook::Hook;
use hooks3::hook_manager::{HookManager, SpliceTarget};
use hooks3::tb::{rust_tb_jmp_cache_hash_func, TranslationBlock};

fn empty_cache() -> Vec<Option<TranslationBlock>> {
    vec![None; 4096]
}

#[test]
fn register_dispatch_remove() {
    // One hook at 0x1000, no asid filter, owner 1, not block-start-guaranteed.
    let mut m = HookManager::new();
    let owner = m.register_plugin();
    assert_eq!(owner, 1);
    let h = Hook {
        pc: 0x1000,
        asid: None,
        plugin_num: owner,
        cb: 77,
        always_starts_block: false,
    };
    assert!(m.add(&h));
    assert!(m.pipeline_enabled());

    // Compile a block spanning [0x1000, 0x1010): invalidation pass, then the
    // codegen splice decision.
    let tb = TranslationBlock { pc: 0x1000, size: 0x10, id: 1 };
    let cache = empty_cache();
    let evict = m.clear_tbs(&cache, Some(tb.id));
    assert!(evict.is_empty());
    let targets = m.insert_on_matches(&tb);
    assert_eq!(targets.len(), 1);
    assert_eq!(
        targets[0],
        SpliceTarget { pc: 0x1000, at_block_start: false }
    );
    m.record_instrumented(0x1000);
    assert!(m.pc_instrumented(0x1000));

    // Execute the block: the dispatch list holds the hook exactly once.
    let fired = m.run_tb(&tb, 5);
    assert_eq!(fired.len(), 1);
    assert_eq!(fired[0], h);

    // The callback answers "remove me": batch removal empties the registry
    // and fires the pipeline-disable signal.
    m.clear_empty_hooks(&fired);
    assert!(!m.has_hooks());
    assert!(!m.pipeline_enabled());
    assert!(!m.pc_instrumented(0x1000));

    // A block compiled afterwards carries no instrumentation.
    let tb2 = TranslationBlock { pc: 0x1000, size: 0x10, id: 2 };
    assert!(m.insert_on_matches(&tb2).is_empty());
    assert!(m.run_tb(&tb2, 5).is_empty());
}

#[test]
fn stale_cached_block_must_retranslate() {
    // A block was compiled and cached before the hook existed.
    let mut m = HookManager::new();
    let owner = m.register_plugin();
    let tb = TranslationBlock { pc: 0x2000, size: 0x10, id: 3 };
    let h = Hook {
        pc: 0x2004,
        asid: None,
        plugin_num: owner,
        cb: 5,
        always_starts_block: false,
    };
    assert!(m.add(&h));

    assert!(m.tb_needs_retranslated(&tb));
    assert!(m.tb_needs_retranslated(&tb));

    // A fresh compile of the block splices at 0x2004 and records it; the
    // gate then lets the block run.
    let targets = m.insert_on_matches(&tb);
    assert_eq!(targets.len(), 1);
    assert_eq!(targets[0].pc, 0x2004);
    m.record_instrumented(0x2004);
    assert!(!m.tb_needs_retranslated(&tb));
    let fired = m.run_tb(&tb, 9);
    assert_eq!(fired.len(), 1);
    assert_eq!(fired[0].pc, 0x2004);
}

#[test]
fn owner_isolation() {
    // Owners A and B hook different addresses of one block; removing A
    // leaves B's hook firing.
    let mut m = HookManager::new();
    let a = m.register_plugin();
    let b = m.register_plugin();
    assert_ne!(a, b);
    let ha = Hook {
        pc: 0x3000,
        asid: None,
        plugin_num: a,
        cb: 1,
        always_starts_block: false,
    };
    let hb = Hook {
        pc: 0x3008,
        asid: None,
        plugin_num: b,
        cb: 2,
        always_starts_block: false,
    };
    assert!(m.add(&ha));
    assert!(m.add(&hb));
    m.new_hooks_add();

    m.unregister_plugin(a);
    assert!(m.has_hooks());

    let tb = TranslationBlock { pc: 0x3000, size: 0x10, id: 4 };
    let fired = m.run_tb(&tb, 1);
    assert_eq!(fired.len(), 1);
    assert_eq!(fired[0], hb);
}

#[test]
fn unmerged_hook_round_trip() {
    // A hook enqueued and unregistered before any merge never appears and
    // never fires.
    let mut m = HookManager::new();
    let owner = m.register_plugin();
    let h = Hook {
        pc: 0x4000,
        asid: None,
        plugin_num: owner,
        cb: 11,
        always_starts_block: false,
    };
    assert!(m.add(&h));
    m.unregister_plugin(owner);

    m.new_hooks_add();
    assert!(!m.has_hooks());
    assert!(!m.pipeline_enabled());
    let tb = TranslationBlock { pc: 0x4000, size: 0x10, id: 5 };
    assert!(m.run_tb(&tb, 0).is_empty());
}

#[test]
fn duplicate_key_registers_once() {
    // Two adds of one identity key yield a single registry entry; a later
    // duplicate against the merged registry is also rejected.
    let mut m = HookManager::new();
    let owner = m.register_plugin();
    let h = Hook {
        pc: 0x5000,
        asid: Some(3),
        plugin_num: owner,
        cb: 21,
        always_starts_block: true,
    };
    assert!(m.add(&h));
    assert!(!m.add(&h));
    m.new_hooks_add();
    assert!(!m.add(&h));

    let tb = TranslationBlock { pc: 0x5000, size: 0x4, id: 6 };
    let fired = m.run_tb(&tb, 3);
    assert_eq!(fired.len(), 1);

    // A hook differing only in its flag shares the key and is rejected too.
    let mut h2 = h;
    h2.always_starts_block = false;
    assert!(!m.add(&h2));
}

#[test]
fn reentrant_add_lands_at_next_merge() {
    // A callback may register a new hook; it goes through the pending queue
    // and fires from the next merge on.
    let mut m = HookManager::new();
    let owner = m.register_plugin();
    let first = Hook {
        pc: 0x6000,
        asid: None,
        plugin_num: owner,
        cb: 1,
        always_starts_block: false,
    };
    assert!(m.add(&first));
    let tb = TranslationBlock { pc: 0x6000, size: 0x10, id: 7 };
    let fired = m.run_tb(&tb, 0);
    assert_eq!(fired.len(), 1);

    // The callback registers a second hook while the first stays.
    let second = Hook {
        pc: 0x6008,
        asid: None,
        plugin_num: owner,
        cb: 2,
        always_starts_block: false,
    };
    assert!(m.add(&second));
    m.clear_empty_hooks(&Vec::new());
    let fired2 = m.run_tb(&tb, 0);
    assert_eq!(fired2.len(), 2);
    assert_eq!(fired2[0].pc, 0x6000);
    assert_eq!(fired2[1].pc, 0x6008);
}

#[test]
fn invalidation_start_guaranteed() {
    // A start-guaranteed hook evicts the cached block found by direct
    // lookup when its recorded start matches.
    let mut m = HookManager::new();
    let owner = m.register_plugin();
    let pc: u64 = 0x7000;
    let h = Hook {
        pc,
        asid: None,
        plugin_num: owner,
        cb: 9,
        always_starts_block: true,
    };
    assert!(m.add(&h));

    let slot = rust_tb_jmp_cache_hash_func(pc) as usize;
    let mut cache = empty_cache();
    cache[slot] = Some(TranslationBlock { pc, size: 0x20, id: 41 });
    let evict = m.clear_tbs(&cache, None);
    assert_eq!(evict, vec![slot]);

    // Both work-lists were drained: a second pass evicts nothing.
    assert!(m.clear_tbs(&cache, None).is_empty());
}

#[test]
fn invalidation_anywhere_in_block() {
    // An anywhere-in-block hook needs the full scan: the cached block
    // covering its address is evicted wherever it sits, but the block
    // currently being compiled is spared.
    let mut m = HookManager::new();
    let owner = m.register_plugin();
    let h = Hook {
        pc: 0x8004,
        asid: None,
        plugin_num: owner,
        cb: 9,
        always_starts_block: false,
    };
    assert!(m.add(&h));

    let mut cache = empty_cache();
    cache[10] = Some(TranslationBlock { pc: 0x8000, size: 0x10, id: 50 });
    cache[20] = Some(TranslationBlock { pc: 0x9000, size: 0x10, id: 51 });
    let evict = m.clear_tbs(&cache, Some(51));
    assert_eq!(evict, vec![10]);
}

#[test]
fn invalidation_skips_instrumented_addresses() {
    // An address whose cached code already dispatches is not invalidated.
    let mut m = HookManager::new();
    let owner = m.register_plugin();
    let pc: u64 = 0xa000;
    let first = Hook {
        pc,
        asid: None,
        plugin_num: owner,
        cb: 1,
        always_starts_block: true,
    };
    assert!(m.add(&first));
    m.new_hooks_add();
    m.record_instrumented(pc);

    let slot = rust_tb_jmp_cache_hash_func(pc) as usize;
    let mut cache = empty_cache();
    cache[slot] = Some(TranslationBlock { pc, size: 0x10, id: 60 });
    let evict = m.clear_tbs(&cache, None);
    assert!(evict.is_empty());
}
