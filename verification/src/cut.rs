//! The cut engine: applies a batch of [`FacetCut`] operations to a
//! [`RouteTable`], all-or-nothing.
//!
//! The intended effect of a batch is pinned down by the functional model
//! [`apply_model`], a pure function from the table's abstract value and the
//! cut sequence to either the next abstract value plus the hook events fired,
//! or the error that rejects the whole batch.  The executable [`apply`] is
//! proved to return exactly what the model says, and to leave the table
//! untouched whenever it returns an error.

use vstd::prelude::*;
use crate::types::{DiamondError, FacetCut, HookEvent, InitCall, ModuleId, Selector};
use crate::route_table::{AbsState, RouteTable, bind_many, drop_module, sel_list_distinct};
use crate::hooks::{fire_hooks, Hooks};

verus! {

/// The forward mapping after module `m`'s selector set is replaced by
/// `new`: selectors in `new` are bound to `m`, selectors previously bound to
/// `m` but absent from `new` become unrouted, all other bindings stay.
pub open spec fn rebind_module(sel: Map<Selector, ModuleId>, m: ModuleId, new: Set<Selector>) -> Map<Selector, ModuleId> {
    Map::new(
        |s: Selector| (sel.dom().contains(s) && sel[s] != m) || new.contains(s),
        |s: Selector| if new.contains(s) { m } else { sel[s] },
    )
}

/// The first selector of `ss` (in order) that is already bound to a module
/// other than `m`, reported as that other module; `None` if there is none.
pub open spec fn first_conflict(sel: Map<Selector, ModuleId>, m: ModuleId, ss: Seq<Selector>) -> Option<ModuleId>
    decreases ss.len(),
{
    if ss.len() == 0 {
        None
    } else if sel.dom().contains(ss[0]) && sel[ss[0]] != m {
        Some(sel[ss[0]])
    } else {
        first_conflict(sel, m, ss.drop_first())
    }
}

/// What one cut does to the abstract state, and which hook events it fires.
///
///   - A cut that targets the frozen module fails with `ImmutableFunction`.
///   - An empty selector list fully deregisters the module: its bindings are
///     dropped, its backward entry removed, and `ModuleRemoved` fires — all
///     of it only if the module had routes at all.
///   - A non-empty selector list replaces the module's selector set, unless
///     some selector is held by a different module, which fails the cut with
///     `ReplaceExisting` naming the holder.  `ModuleAdded` fires exactly
///     when the module had no routes before the cut.
pub open spec fn apply_cut_model(st: AbsState, m: ModuleId, ss: Seq<Selector>) -> Result<(AbsState, Seq<HookEvent>), DiamondError> {
    if st.frozen == Some(m) {
        Err(DiamondError::ImmutableFunction)
    } else if ss.len() == 0 {
        if st.mods.dom().contains(m) {
            Ok((
                AbsState { sel: drop_module(st.sel, m), mods: st.mods.remove(m), frozen: st.frozen },
                seq![HookEvent::ModuleRemoved(m)],
            ))
        } else {
            Ok((st, Seq::empty()))
        }
    } else {
        match first_conflict(st.sel, m, ss) {
            Some(existing) => Err(DiamondError::ReplaceExisting(existing)),
            None => Ok((
                AbsState {
                    sel: rebind_module(st.sel, m, ss.to_set()),
                    mods: st.mods.insert(m, ss.to_set()),
                    frozen: st.frozen,
                },
                if st.mods.dom().contains(m) { Seq::empty() } else { seq![HookEvent::ModuleAdded(m)] },
            )),
        }
    }
}

/// What a whole batch does: the cuts are applied in the caller-supplied
/// order, each observing the effects of the earlier ones, and the events
/// accumulate in firing order; the first failing cut rejects the batch.
pub open spec fn apply_model(st: AbsState, cuts: Seq<FacetCut>) -> Result<(AbsState, Seq<HookEvent>), DiamondError>
    decreases cuts.len(),
{
    if cuts.len() == 0 {
        Ok((st, Seq::empty()))
    } else {
        match apply_cut_model(st, cuts[0].module, cuts[0].selectors@) {
            Err(e) => Err(e),
            Ok(p1) => match apply_model(p1.0, cuts.drop_first()) {
                Err(e) => Err(e),
                Ok(p2) => Ok((p2.0, p1.1 + p2.1)),
            },
        }
    }
}

/// When no conflict was found, every selector of `ss` is either unrouted or
/// already bound to `m`.
pub proof fn lemma_no_conflict(sel: Map<Selector, ModuleId>, m: ModuleId, ss: Seq<Selector>)
    requires
        first_conflict(sel, m, ss) is None,
    ensures
        forall|k: int| 0 <= k < ss.len() ==> !(sel.dom().contains(#[trigger] ss[k]) && sel[ss[k]] != m),
    decreases ss.len(),
{
    if ss.len() > 0 {
        lemma_no_conflict(sel, m, ss.drop_first());
        assert forall|k: int| 0 <= k < ss.len() implies
            !(sel.dom().contains(#[trigger] ss[k]) && sel[ss[k]] != m) by {
            if k > 0 {
                assert(ss.drop_first()[k - 1] == ss[k]);
            }
        }
    }
}

/// What a committed batch hands back to the host: the hook events to
/// deliver, and the initialization call to perform (if one was requested),
/// both only after the table changes are durable.
pub struct CutOutcome {
    pub events: Vec<HookEvent>,
    pub init: Option<InitCall>,
}

/// Whether `v` holds `s`.
fn contains_selector(v: &Vec<Selector>, s: Selector) -> (r: bool)
    ensures
        r == v@.contains(s),
{
    let n = v.len();
    let mut i: usize = 0;
    while i < n
        invariant
            n == v@.len(),
            0 <= i <= n,
            forall|j: int| 0 <= j < i ==> v@[j] != s,
        decreases n - i,
    {
        if v[i] == s {
            return true;
        }
        i += 1;
    }
    false
}

/// The selectors of `v` with later duplicates dropped: the same set, first
/// occurrences only, keeping their order.
fn dedup_selectors(v: &Vec<Selector>) -> (r: Vec<Selector>)
    ensures
        sel_list_distinct(r@),
        r@.to_set() == v@.to_set(),
        v@.len() > 0 ==> r@.len() > 0,
{
    let n = v.len();
    let mut r: Vec<Selector> = Vec::new();
    let mut i: usize = 0;
    proof {
        assert(r@.to_set() =~= v@.take(0).to_set());
    }
    while i < n
        invariant
            n == v@.len(),
            0 <= i <= n,
            sel_list_distinct(r@),
            r@.to_set() == v@.take(i as int).to_set(),
            i > 0 ==> r@.len() > 0,
        decreases n - i,
    {
        let s = v[i];
        let ghost r0 = r@;
        let dup = contains_selector(&r, s);
        if !dup {
            r.push(s);
            proof {
                assert(sel_list_distinct(r@)) by {
                    assert forall|a: int, b: int| 0 <= a < b < r@.len() implies r@[a] != r@[b] by {
                        if b == r@.len() - 1 {
                            if r0[a] == s {
                                assert(r0.contains(s));
                            }
                        }
                    }
                }
                r0.lemma_push_to_set_commute(s);
            }
        } else {
            proof {
                assert(r0.to_set().contains(s));
                assert(r0.to_set().insert(s) =~= r0.to_set());
            }
        }
        proof {
            v@.lemma_take_succ_push(i as int);
            v@.take(i as int).lemma_push_to_set_commute(v@[i as int]);
            assert(r@.to_set() == v@.take(i as int + 1).to_set());
        }
        i += 1;
    }
    proof {
        assert(v@.take(n as int) =~= v@);
    }
    r
}

/// Applies one cut to the working table, appending the hook events it
/// fires.  Returns exactly what [`apply_cut_model`] says; on an error the
/// table and the event list are untouched.
fn apply_one_cut(table: &mut RouteTable, cut: &FacetCut, events: &mut Vec<HookEvent>) -> (r: Result<(), DiamondError>)
    requires
        old(table).inv(),
    ensures
        final(table).inv(),
        final(table).frozen_module == old(table).frozen_module,
        match r {
            Ok(_) => apply_cut_model(old(table).abs(), cut.module, cut.selectors@) matches Ok(p)
                && final(table).abs() == p.0
                && final(events)@ == old(events)@ + p.1,
            Err(e) => {
                &&& apply_cut_model(old(table).abs(), cut.module, cut.selectors@)
                    == Err::<(AbsState, Seq<HookEvent>), DiamondError>(e)
                &&& *final(table) == *old(table)
                &&& *final(events) == *old(events)
            },
        },
{
    let ghost st0 = table.abs();
    if table.is_frozen(cut.module) {
        return Err(DiamondError::ImmutableFunction);
    }
    if cut.selectors.len() == 0 {
        if table.has_facet(cut.module) {
            table.unbind_module(cut.module);
            events.push(HookEvent::ModuleRemoved(cut.module));
            proof {
                let p = (
                    AbsState { sel: drop_module(st0.sel, cut.module), mods: st0.mods.remove(cut.module), frozen: st0.frozen },
                    seq![HookEvent::ModuleRemoved(cut.module)],
                );
                assert(apply_cut_model(st0, cut.module, cut.selectors@) == Ok::<_, DiamondError>(p));
                assert(table.abs() =~= p.0);
                assert(events@ =~= old(events)@ + p.1);
            }
        } else {
            proof {
                assert(apply_cut_model(st0, cut.module, cut.selectors@) == Ok::<_, DiamondError>((st0, Seq::<HookEvent>::empty())));
                assert(events@ =~= old(events)@ + Seq::<HookEvent>::empty());
            }
        }
        return Ok(());
    }
    let ghost ss = cut.selectors@;
    let n = cut.selectors.len();
    let mut i: usize = 0;
    proof {
        assert(ss.skip(0) =~= ss);
    }
    while i < n
        invariant
            n == ss.len(),
            0 <= i <= n,
            cut.selectors@ == ss,
            *table == *old(table),
            *events == *old(events),
            table.inv(),
            table.abs() == st0,
            st0.frozen != Some(cut.module),
            first_conflict(st0.sel, cut.module, ss) == first_conflict(st0.sel, cut.module, ss.skip(i as int)),
        decreases n - i,
    {
        let s = cut.selectors[i];
        let found = table.lookup(s);
        proof {
            assert(ss.skip(i as int)[0] == ss[i as int]);
            assert(ss.skip(i as int).drop_first() =~= ss.skip(i as int + 1));
        }
        match found {
            Some(existing) => {
                if existing != cut.module {
                    proof {
                        assert(first_conflict(st0.sel, cut.module, ss.skip(i as int)) == Some(existing));
                    }
                    return Err(DiamondError::ReplaceExisting(existing));
                }
            },
            None => {},
        }
        i += 1;
    }
    proof {
        assert(ss.skip(n as int) =~= Seq::<Selector>::empty());
        assert(first_conflict(st0.sel, cut.module, ss) is None);
    }
    let had = table.has_facet(cut.module);
    let list = dedup_selectors(&cut.selectors);
    proof {
        lemma_no_conflict(st0.sel, cut.module, ss);
        assert forall|k: int| 0 <= k < list@.len() implies
            !drop_module(st0.sel, cut.module).dom().contains(#[trigger] list@[k]) by {
            assert(list@.to_set().contains(list@[k]));
            assert(ss.contains(list@[k]));
            let w = choose|w: int| 0 <= w < ss.len() && ss[w] == list@[k];
            assert(!(st0.sel.dom().contains(ss[w]) && st0.sel[ss[w]] != cut.module));
        }
    }
    table.unbind_module(cut.module);
    table.bind_all(cut.module, list);
    if !had {
        events.push(HookEvent::ModuleAdded(cut.module));
    }
    proof {
        let newset = ss.to_set();
        let p = (
            AbsState { sel: rebind_module(st0.sel, cut.module, newset), mods: st0.mods.insert(cut.module, newset), frozen: st0.frozen },
            if st0.mods.dom().contains(cut.module) { Seq::<HookEvent>::empty() } else { seq![HookEvent::ModuleAdded(cut.module)] },
        );
        assert(apply_cut_model(st0, cut.module, cut.selectors@) == Ok::<_, DiamondError>(p));
        assert(table.sel_map() =~= rebind_module(st0.sel, cut.module, newset)) by {
            assert(table.sel_map() =~= bind_many(drop_module(st0.sel, cut.module), cut.module, newset));
        }
        assert(table.mod_map() =~= st0.mods.insert(cut.module, newset));
        assert(table.abs() =~= p.0);
        if had {
            assert(events@ =~= old(events)@ + p.1);
        } else {
            assert(events@ =~= old(events)@ + p.1);
        }
    }
    Ok(())
}

/// Applies a batch of cuts to the table, all-or-nothing, in the given
/// order.
///
/// On success the table's new contents and the returned hook events are
/// exactly what [`apply_model`] prescribes, and the outcome carries `init`
/// through for the host to perform.  On an error — the model's error — the
/// table is exactly as it was before the call: no partial application.
///
/// Authorization is the host's duty: it must check its administrator
/// capability before invoking this, and reject the whole operation without
/// state change when the check fails.
pub fn apply(table: &mut RouteTable, cuts: &Vec<FacetCut>, init: Option<InitCall>) -> (r: Result<CutOutcome, DiamondError>)
    requires
        old(table).inv(),
    ensures
        final(table).inv(),
        final(table).frozen_module == old(table).frozen_module,
        match r {
            Ok(outcome) => apply_model(old(table).abs(), cuts@) matches Ok(p)
                && final(table).abs() == p.0
                && outcome.events@ == p.1
                && outcome.init == init,
            Err(e) => {
                &&& apply_model(old(table).abs(), cuts@)
                    == Err::<(AbsState, Seq<HookEvent>), DiamondError>(e)
                &&& *final(table) == *old(table)
            },
        },
{
    let mut work = table.snapshot();
    let mut events: Vec<HookEvent> = Vec::new();
    let n = cuts.len();
    let mut i: usize = 0;
    proof {
        assert(cuts@.skip(0) =~= cuts@);
        assert(work.abs() == old(table).abs());
        assert(events@ =~= Seq::<HookEvent>::empty());
        match apply_model(work.abs(), cuts@.skip(0)) {
            Ok(p) => {
                assert(events@ + p.1 =~= p.1);
            },
            Err(_) => {},
        }
    }
    while i < n
        invariant
            n == cuts@.len(),
            0 <= i <= n,
            *table == *old(table),
            table.inv(),
            work.inv(),
            work.frozen_module == old(table).frozen_module,
            ({
                let rest = apply_model(work.abs(), cuts@.skip(i as int));
                let whole = apply_model(old(table).abs(), cuts@);
                match rest {
                    Ok(p) => whole matches Ok(q) && q.0 == p.0 && q.1 == events@ + p.1,
                    Err(e) => whole == Err::<(AbsState, Seq<HookEvent>), DiamondError>(e),
                }
            }),
        decreases n - i,
    {
        let ghost work0 = work;
        let ghost events0 = events@;
        let r1 = apply_one_cut(&mut work, &cuts[i], &mut events);
        proof {
            assert(cuts@.skip(i as int)[0] == cuts@[i as int]);
            assert(cuts@.skip(i as int).drop_first() =~= cuts@.skip(i as int + 1));
        }
        match r1 {
            Ok(_) => {
                proof {
                    let pc = choose|pc: (AbsState, Seq<HookEvent>)|
                        apply_cut_model(work0.abs(), cuts@[i as int].module, cuts@[i as int].selectors@)
                            == Ok::<_, DiamondError>(pc);
                    assert(work.abs() == pc.0 && events@ == events0 + pc.1);
                    match apply_model(work.abs(), cuts@.skip(i as int + 1)) {
                        Ok(p2) => {
                            assert(apply_model(work0.abs(), cuts@.skip(i as int))
                                == Ok::<_, DiamondError>((p2.0, pc.1 + p2.1)));
                            assert(events0 + (pc.1 + p2.1) =~= (events0 + pc.1) + p2.1);
                        },
                        Err(_) => {},
                    }
                }
            },
            Err(e) => {
                proof {
                    assert(apply_model(work0.abs(), cuts@.skip(i as int))
                        == Err::<(AbsState, Seq<HookEvent>), DiamondError>(e));
                }
                return Err(e);
            },
        }
        i += 1;
    }
    proof {
        assert(cuts@.skip(n as int) =~= Seq::<FacetCut>::empty());
        assert(apply_model(work.abs(), cuts@.skip(n as int)) == Ok::<_, DiamondError>((work.abs(), Seq::<HookEvent>::empty())));
        match apply_model(old(table).abs(), cuts@) {
            Ok(q) => {
                assert(events@ + Seq::<HookEvent>::empty() =~= events@);
            },
            Err(_) => {},
        }
    }
    *table = work;
    Ok(CutOutcome { events, init })
}

/// Applies a batch of cuts and, if the batch committed, delivers the
/// resulting events to the given observer before handing the outcome back.
/// The contract on the table is that of [`apply`]; a rejected batch
/// delivers nothing.
pub fn apply_with_hooks<H: Hooks>(table: &mut RouteTable, cuts: &Vec<FacetCut>, init: Option<InitCall>, hooks: &mut H) -> (r: Result<CutOutcome, DiamondError>)
    requires
        old(table).inv(),
    ensures
        final(table).inv(),
        final(table).frozen_module == old(table).frozen_module,
        match r {
            Ok(outcome) => apply_model(old(table).abs(), cuts@) matches Ok(p)
                && final(table).abs() == p.0
                && outcome.events@ == p.1
                && outcome.init == init,
            Err(e) => {
                &&& apply_model(old(table).abs(), cuts@)
                    == Err::<(AbsState, Seq<HookEvent>), DiamondError>(e)
                &&& *final(table) == *old(table)
            },
        },
{
    let r = apply(table, cuts, init);
    match &r {
        Ok(outcome) => fire_hooks(hooks, &outcome.events),
        Err(_) => {},
    }
    r
}

} // verus!
