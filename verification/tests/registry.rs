use diamond::cut::{apply, apply_with_hooks, CutOutcome};
use diamond::dispatch::resolve;
use diamond::hooks::{fire_hooks, Hooks, NoopHooks};
use diamond::route_table::RouteTable;
use diamond::types::{DiamondError, DispatchError, FacetCut, HookEvent, InitCall, ModuleId, Selector};

fn sel(code: u32) -> Selector {
    Selector { code }
}

fn module(tag: u128) -> ModuleId {
    ModuleId { hi: tag, lo: !tag }
}

fn cut(m: ModuleId, selectors: &[u32]) -> FacetCut {
    FacetCut { module: m, selectors: selectors.iter().map(|&c| sel(c)).collect() }
}

fn sorted_codes(v: Option<Vec<Selector>>) -> Option<Vec<u32>> {
    v.map(|v| {
        let mut codes: Vec<u32> = v.iter().map(|s| s.code).collect();
        codes.sort();
        codes
    })
}

#[test]
fn scenario_bind_shrink_deregister() {
    let frozen = module(0);
    let m1 = module(1);
    let mut table = RouteTable::new(Some(frozen));

    let outcome = apply(&mut table, &vec![cut(m1, &[1, 2])], None).unwrap();
    assert_eq!(table.lookup(sel(1)), Some(m1));
    assert_eq!(table.lookup(sel(2)), Some(m1));
    assert_eq!(sorted_codes(table.selectors_of(m1)), Some(vec![1, 2]));
    assert_eq!(outcome.events, vec![HookEvent::ModuleAdded(m1)]);

    // dropping a selector from the module's list unbinds it, with no
    // module-removed event: the module still routes something
    let outcome = apply(&mut table, &vec![cut(m1, &[1])], None).unwrap();
    assert_eq!(table.lookup(sel(1)), Some(m1));
    assert_eq!(table.lookup(sel(2)), None);
    assert_eq!(sorted_codes(table.selectors_of(m1)), Some(vec![1]));
    assert_eq!(outcome.events, vec![]);

    // an empty selector list fully deregisters the module
    let outcome = apply(&mut table, &vec![cut(m1, &[])], None).unwrap();
    assert_eq!(table.lookup(sel(1)), None);
    assert!(table.selectors_of(m1).is_none());
    assert_eq!(outcome.events, vec![HookEvent::ModuleRemoved(m1)]);
}

#[test]
fn frozen_module_cut_always_fails() {
    let frozen = module(7);
    let m1 = module(1);
    let mut table = RouteTable::new(Some(frozen));
    apply(&mut table, &vec![cut(m1, &[5])], None).unwrap();

    for selectors in [&[][..], &[5][..], &[9, 10][..]] {
        let r = apply(&mut table, &vec![cut(frozen, selectors)], None);
        assert_eq!(r.err(), Some(DiamondError::ImmutableFunction));
        // nothing changed
        assert_eq!(table.lookup(sel(5)), Some(m1));
        assert_eq!(table.lookup(sel(9)), None);
        assert!(table.selectors_of(frozen).is_none());
    }
    assert!(table.is_frozen(frozen));
    assert!(!table.is_frozen(m1));
}

#[test]
fn conflicting_claim_names_the_holder() {
    let a = module(10);
    let b = module(11);
    let mut table = RouteTable::new(None);
    apply(&mut table, &vec![cut(a, &[1])], None).unwrap();

    let r = apply(&mut table, &vec![cut(b, &[1])], None);
    assert_eq!(r.err(), Some(DiamondError::ReplaceExisting(a)));
    // the selector stays bound to its holder
    assert_eq!(table.lookup(sel(1)), Some(a));
    assert!(table.selectors_of(b).is_none());
}

#[test]
fn failed_batch_is_all_or_nothing() {
    let a = module(1);
    let b = module(2);
    let mut table = RouteTable::new(None);
    apply(&mut table, &vec![cut(a, &[1])], None).unwrap();

    // the first cut of the batch would succeed; the second conflicts, so
    // nothing of the batch may remain
    let r = apply(&mut table, &vec![cut(b, &[2, 3]), cut(b, &[1])], None);
    assert_eq!(r.err(), Some(DiamondError::ReplaceExisting(a)));
    assert_eq!(table.lookup(sel(2)), None);
    assert_eq!(table.lookup(sel(3)), None);
    assert!(table.selectors_of(b).is_none());
    assert_eq!(table.lookup(sel(1)), Some(a));
}

#[test]
fn rebind_is_idempotent() {
    let m1 = module(3);
    let mut table = RouteTable::new(None);
    apply(&mut table, &vec![cut(m1, &[4])], None).unwrap();
    let once_lookup = table.lookup(sel(4));
    let once_set = sorted_codes(table.selectors_of(m1));

    let outcome = apply(&mut table, &vec![cut(m1, &[4])], None).unwrap();
    assert_eq!(table.lookup(sel(4)), once_lookup);
    assert_eq!(sorted_codes(table.selectors_of(m1)), once_set);
    // the repeat fires no hooks
    assert_eq!(outcome.events, vec![]);
}

#[test]
fn module_added_fires_once_for_three_selectors() {
    let m = module(21);
    let mut table = RouteTable::new(None);
    let outcome = apply(&mut table, &vec![cut(m, &[1, 2, 3])], None).unwrap();
    assert_eq!(outcome.events, vec![HookEvent::ModuleAdded(m)]);

    let outcome = apply(&mut table, &vec![cut(m, &[])], None).unwrap();
    assert_eq!(outcome.events, vec![HookEvent::ModuleRemoved(m)]);
}

struct CountingHooks {
    added: Vec<ModuleId>,
    removed: Vec<ModuleId>,
}

impl Hooks for CountingHooks {
    fn on_module_added(&mut self, module: ModuleId) {
        self.added.push(module);
    }

    fn on_module_removed(&mut self, module: ModuleId) {
        self.removed.push(module);
    }
}

#[test]
fn hooks_observe_committed_batches_only() {
    let a = module(31);
    let b = module(32);
    let mut hooks = CountingHooks { added: Vec::new(), removed: Vec::new() };
    let mut table = RouteTable::new(None);

    apply_with_hooks(&mut table, &vec![cut(a, &[1, 2, 3])], None, &mut hooks).unwrap();
    assert_eq!(hooks.added, vec![a]);
    assert_eq!(hooks.removed, vec![]);

    // a rejected batch delivers nothing, even though its first cut would
    // have added a module
    let r = apply_with_hooks(&mut table, &vec![cut(b, &[9]), cut(b, &[1])], None, &mut hooks);
    assert!(r.is_err());
    assert_eq!(hooks.added, vec![a]);

    apply_with_hooks(&mut table, &vec![cut(a, &[])], None, &mut hooks).unwrap();
    assert_eq!(hooks.added, vec![a]);
    assert_eq!(hooks.removed, vec![a]);
}

#[test]
fn noop_hooks_accept_any_events() {
    let mut hooks = NoopHooks;
    let events = vec![HookEvent::ModuleAdded(module(1)), HookEvent::ModuleRemoved(module(1))];
    fire_hooks(&mut hooks, &events);
}

#[test]
fn duplicate_selectors_in_one_cut_collapse() {
    let m = module(40);
    let mut table = RouteTable::new(None);
    let outcome = apply(&mut table, &vec![cut(m, &[6, 6, 7, 6])], None).unwrap();
    assert_eq!(outcome.events, vec![HookEvent::ModuleAdded(m)]);
    assert_eq!(sorted_codes(table.selectors_of(m)), Some(vec![6, 7]));
    assert_eq!(table.lookup(sel(6)), Some(m));
    assert_eq!(table.lookup(sel(7)), Some(m));
}

#[test]
fn deregistering_unrouted_module_changes_nothing() {
    let a = module(50);
    let ghostly = module(51);
    let mut table = RouteTable::new(None);
    apply(&mut table, &vec![cut(a, &[1])], None).unwrap();

    let outcome = apply(&mut table, &vec![cut(ghostly, &[])], None).unwrap();
    assert_eq!(outcome.events, vec![]);
    assert_eq!(table.lookup(sel(1)), Some(a));
}

#[test]
fn later_cuts_see_earlier_cuts_of_same_batch() {
    let a = module(60);
    let b = module(61);
    let mut table = RouteTable::new(None);
    apply(&mut table, &vec![cut(a, &[1, 2])], None).unwrap();

    // one batch: deregister `a`, then hand its selectors to `b`
    let outcome = apply(&mut table, &vec![cut(a, &[]), cut(b, &[1, 2])], None).unwrap();
    assert_eq!(
        outcome.events,
        vec![HookEvent::ModuleRemoved(a), HookEvent::ModuleAdded(b)]
    );
    assert_eq!(table.lookup(sel(1)), Some(b));
    assert_eq!(table.lookup(sel(2)), Some(b));
    assert!(table.selectors_of(a).is_none());
}

#[test]
fn empty_batch_commits_without_effect() {
    let m = module(90);
    let mut table = RouteTable::new(None);
    apply(&mut table, &vec![cut(m, &[1])], None).unwrap();

    let outcome = apply(&mut table, &vec![], None).unwrap();
    assert_eq!(outcome.events, vec![]);
    assert_eq!(table.lookup(sel(1)), Some(m));
}

#[test]
fn repeated_cut_within_one_batch_adds_module_once() {
    let m = module(91);
    let mut table = RouteTable::new(None);
    let outcome = apply(&mut table, &vec![cut(m, &[1]), cut(m, &[1])], None).unwrap();
    assert_eq!(outcome.events, vec![HookEvent::ModuleAdded(m)]);
    assert_eq!(table.lookup(sel(1)), Some(m));
}

#[test]
fn deregister_and_rebind_same_module_in_one_batch() {
    let m = module(92);
    let mut table = RouteTable::new(None);
    apply(&mut table, &vec![cut(m, &[1, 2])], None).unwrap();

    let outcome = apply(&mut table, &vec![cut(m, &[]), cut(m, &[3])], None).unwrap();
    assert_eq!(
        outcome.events,
        vec![HookEvent::ModuleRemoved(m), HookEvent::ModuleAdded(m)]
    );
    assert_eq!(table.lookup(sel(1)), None);
    assert_eq!(table.lookup(sel(2)), None);
    assert_eq!(table.lookup(sel(3)), Some(m));
    assert_eq!(sorted_codes(table.selectors_of(m)), Some(vec![3]));
}

#[test]
fn resolve_routes_or_reports_unregistered() {
    let m = module(70);
    let mut table = RouteTable::new(None);
    apply(&mut table, &vec![cut(m, &[8])], None).unwrap();

    assert_eq!(resolve(&table, sel(8)), Ok(m));
    assert_eq!(resolve(&table, sel(9)), Err(DispatchError::UnregisteredFunction));
}

#[test]
fn empty_registry_routes_nothing() {
    let table = RouteTable::new(None);
    assert_eq!(table.lookup(sel(0)), None);
    assert!(table.selectors_of(module(1)).is_none());
    assert_eq!(resolve(&table, sel(0)), Err(DispatchError::UnregisteredFunction));
}

#[test]
fn init_call_is_handed_back_after_commit() {
    let m = module(80);
    let mut table = RouteTable::new(None);
    let init = InitCall { module: m, entry: sel(1), payload: vec![0xde, 0xad] };
    let CutOutcome { events, init: handed } =
        apply(&mut table, &vec![cut(m, &[1])], Some(init)).unwrap();
    assert_eq!(events, vec![HookEvent::ModuleAdded(m)]);
    let handed = handed.expect("the committed batch must hand the init call back");
    assert_eq!(handed.module, m);
    assert_eq!(handed.entry, sel(1));
    assert_eq!(handed.payload, vec![0xde, 0xad]);

    // a rejected batch hands nothing back
    let init = InitCall { module: m, entry: sel(1), payload: vec![] };
    let r = apply(&mut table, &vec![cut(m, &[1]), cut(module(81), &[1])], Some(init));
    assert!(r.is_err());
}
