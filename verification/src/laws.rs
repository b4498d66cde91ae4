//! The registry's laws: properties that relate several operations, stated
//! over the same spec functions the public contracts use and proved once
//! and for all.
//!
//! Atomicity of a failed batch — the table equals its pre-call state — is
//! not repeated here: it is an `ensures` of [`crate::cut::apply`] itself.

use vstd::prelude::*;
use crate::types::{DiamondError, FacetCut, HookEvent, ModuleId, Selector};
use crate::route_table::{lemma_facet_witness, lemma_route_witness, AbsState, RouteTable};
use crate::cut::{apply_cut_model, apply_model, first_conflict, rebind_module};

verus! {

/// Bijection invariant: in a well-formed table a selector is routed to a
/// module exactly when that module's recorded selector set holds it, and
/// every module with a backward entry routes at least one selector.
pub proof fn lemma_bijection(t: RouteTable)
    requires
        t.inv(),
    ensures
        forall|s: Selector| #[trigger] t.sel_map().dom().contains(s) ==>
            t.mod_map().dom().contains(t.sel_map()[s]) && t.mod_map()[t.sel_map()[s]].contains(s),
        forall|m: ModuleId, s: Selector| t.mod_map().dom().contains(m) && #[trigger] t.mod_map()[m].contains(s) ==>
            t.sel_map().dom().contains(s) && t.sel_map()[s] == m,
        forall|m: ModuleId| #[trigger] t.mod_map().dom().contains(m) ==> exists|s: Selector| t.mod_map()[m].contains(s),
{
    let fwd = t.fwd();
    let bwd = t.bwd();
    assert forall|s: Selector| #[trigger] t.sel_map().dom().contains(s) implies
        t.mod_map().dom().contains(t.sel_map()[s]) && t.mod_map()[t.sel_map()[s]].contains(s) by {
        let i = choose|i: int| 0 <= i < fwd.len() && (#[trigger] fwd[i]).selector == s;
        lemma_route_witness(fwd, i);
        assert(crate::route_table::has_module(bwd, fwd[i].module));
        assert(crate::route_table::sels_of(bwd, fwd[i].module).contains(s));
    }
    assert forall|m: ModuleId, s: Selector| t.mod_map().dom().contains(m) && #[trigger] t.mod_map()[m].contains(s) implies
        t.sel_map().dom().contains(s) && t.sel_map()[s] == m by {
        let j = choose|j: int| 0 <= j < bwd.len() && (#[trigger] bwd[j]).0 == m;
        lemma_facet_witness(bwd, j);
        assert(bwd[j].1.contains(s));
        let k = choose|k: int| 0 <= k < bwd[j].1.len() && bwd[j].1[k] == s;
        assert(crate::route_table::has_selector(fwd, bwd[j].1[k]));
        assert(crate::route_table::module_of(fwd, bwd[j].1[k]) == bwd[j].0);
    }
    assert forall|m: ModuleId| #[trigger] t.mod_map().dom().contains(m) implies
        exists|s: Selector| t.mod_map()[m].contains(s) by {
        let j = choose|j: int| 0 <= j < bwd.len() && (#[trigger] bwd[j]).0 == m;
        lemma_facet_witness(bwd, j);
        assert(bwd[j].1.contains(bwd[j].1[0]));
        assert(t.mod_map()[m].contains(bwd[j].1[0]));
    }
}

/// When every selector of `ss` is already bound to `m`, a scan of `ss`
/// finds no conflict.
proof fn lemma_no_conflict_when_bound(sel: Map<Selector, ModuleId>, m: ModuleId, ss: Seq<Selector>)
    requires
        forall|k: int| 0 <= k < ss.len() ==> sel.dom().contains(#[trigger] ss[k]) && sel[ss[k]] == m,
    ensures
        first_conflict(sel, m, ss) is None,
    decreases ss.len(),
{
    if ss.len() > 0 {
        assert(forall|k: int| 0 <= k < ss.drop_first().len() ==> #[trigger] ss.drop_first()[k] == ss[k + 1]);
        lemma_no_conflict_when_bound(sel, m, ss.drop_first());
    }
}

/// Idempotent rebind: a batch of one cut that a table accepts, applied
/// twice in immediate succession, leaves the same table as applying it
/// once, and the second application fires no hook events.
pub proof fn lemma_idempotent_rebind(st: AbsState, c: FacetCut)
    requires
        apply_model(st, seq![c]) is Ok,
    ensures
        apply_model(st, seq![c]) matches Ok(p1)
            && apply_model(p1.0, seq![c]) matches Ok(p2)
            && p2.0 == p1.0
            && p2.1 == Seq::<HookEvent>::empty(),
{
    let batch = seq![c];
    assert(batch[0] == c);
    assert(batch.drop_first() =~= Seq::<FacetCut>::empty());
    let m = c.module;
    let ss = c.selectors@;
    let newset = ss.to_set();
    let q1 = apply_cut_model(st, m, ss);
    match q1 {
        Err(e) => {
            assert(apply_model(st, batch) == Err::<(AbsState, Seq<HookEvent>), DiamondError>(e));
            assert(false);
        },
        Ok(pc1) => {
            let st1 = pc1.0;
            assert(apply_model(st1, Seq::<FacetCut>::empty()) == Ok::<_, DiamondError>((st1, Seq::<HookEvent>::empty())));
            assert(apply_model(st, batch) == Ok::<_, DiamondError>((st1, pc1.1 + Seq::<HookEvent>::empty())));
            if ss.len() == 0 {
                if st.mods.dom().contains(m) {
                    assert(!st1.mods.dom().contains(m));
                } else {
                    assert(st1 == st);
                }
            } else {
                assert(first_conflict(st.sel, m, ss) is None);
                assert(st1.sel == rebind_module(st.sel, m, newset));
                assert(st1.mods == st.mods.insert(m, newset));
                assert forall|k: int| 0 <= k < ss.len() implies
                    st1.sel.dom().contains(#[trigger] ss[k]) && st1.sel[ss[k]] == m by {
                    assert(newset.contains(ss[k]));
                }
                lemma_no_conflict_when_bound(st1.sel, m, ss);
                assert(rebind_module(st1.sel, m, newset) =~= st1.sel);
                assert(st1.mods.insert(m, newset) =~= st1.mods);
                assert(st1.mods.dom().contains(m));
            }
            let q2 = apply_cut_model(st1, m, ss);
            match q2 {
                Ok(pc2) => {
                    assert(pc2.0 == st1 && pc2.1 == Seq::<HookEvent>::empty());
                    assert(apply_model(pc2.0, Seq::<FacetCut>::empty())
                        == Ok::<_, DiamondError>((pc2.0, Seq::<HookEvent>::empty())));
                    assert(apply_model(st1, batch) == Ok::<_, DiamondError>((pc2.0, pc2.1 + Seq::<HookEvent>::empty())));
                    assert(pc2.1 + Seq::<HookEvent>::empty() =~= Seq::<HookEvent>::empty());
                },
                Err(_) => {
                    assert(false);
                },
            }
        },
    }
}

/// Immutable protection: a cut that targets the frozen module always fails
/// the batch with `ImmutableFunction`, whatever its selectors hold.  That
/// the table is then left unchanged is the error case of
/// [`crate::cut::apply`]'s contract.
pub proof fn lemma_immutable_protection(st: AbsState, c: FacetCut)
    requires
        st.frozen == Some(c.module),
    ensures
        apply_cut_model(st, c.module, c.selectors@)
            == Err::<(AbsState, Seq<HookEvent>), DiamondError>(DiamondError::ImmutableFunction),
        apply_model(st, seq![c])
            == Err::<(AbsState, Seq<HookEvent>), DiamondError>(DiamondError::ImmutableFunction),
{
    assert(seq![c][0] == c);
}

/// Conflict detection: a cut that claims, for one module, a selector held
/// by a different module fails the batch with `ReplaceExisting` naming the
/// holder.  That the selector then stays bound to the holder is the error
/// case of [`crate::cut::apply`]'s contract.
pub proof fn lemma_conflict_detection(st: AbsState, holder: ModuleId, claimant: ModuleId, s: Selector)
    requires
        st.sel.dom().contains(s),
        st.sel[s] == holder,
        holder != claimant,
        st.frozen != Some(claimant),
    ensures
        apply_cut_model(st, claimant, seq![s])
            == Err::<(AbsState, Seq<HookEvent>), DiamondError>(DiamondError::ReplaceExisting(holder)),
{
    assert(seq![s][0] == s);
    assert(first_conflict(st.sel, claimant, seq![s]) == Some(holder));
}

/// A cut that introduces a module fires `ModuleAdded` exactly once, however
/// many selectors the cut carries.
pub proof fn lemma_module_added_fires_once(st: AbsState, c: FacetCut)
    requires
        c.selectors@.len() > 0,
        !st.mods.dom().contains(c.module),
        apply_cut_model(st, c.module, c.selectors@) is Ok,
    ensures
        apply_cut_model(st, c.module, c.selectors@) matches Ok(p)
            && p.1 == seq![HookEvent::ModuleAdded(c.module)],
{
}

/// Fully deregistering a module that has routes fires `ModuleRemoved`
/// exactly once, however many selectors it routed.
pub proof fn lemma_module_removed_fires_once(st: AbsState, m: ModuleId)
    requires
        st.mods.dom().contains(m),
        st.frozen != Some(m),
    ensures
        apply_cut_model(st, m, Seq::empty()) matches Ok(p)
            && p.1 == seq![HookEvent::ModuleRemoved(m)],
{
}

} // verus!
