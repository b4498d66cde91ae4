//! The registry's persistent state: a bidirectional mapping from function
//! selectors to module identifiers, together with the frozen module whose
//! routes may never be changed by a cut.
//!
//! The forward direction (`selector_to_module`) and the backward direction
//! (`module_to_selectors`) are stored as association vectors with distinct
//! keys; their abstract contents are the maps [`RouteTable::sel_map`] and
//! [`RouteTable::mod_map`].  The well-formedness predicate
//! [`RouteTable::inv`] states that the two directions are exact inverses of
//! each other and that every registered module routes at least one selector.

use vstd::prelude::*;
use crate::types::{ModuleId, Selector};

verus! {

/// One forward entry: `selector` is routed to `module`.
#[derive(Clone, Copy, PartialEq, Eq, Structural, Debug)]
pub struct Route {
    pub selector: Selector,
    pub module: ModuleId,
}

/// One backward entry: `module` currently serves exactly `selectors`.
#[derive(Debug)]
pub struct ModuleRoutes {
    pub module: ModuleId,
    pub selectors: Vec<Selector>,
}

/// The registry's entire persistent state.
///
/// All mutation funnels through the cut engine (`crate::cut`); the public
/// read API is [`RouteTable::lookup`] and [`RouteTable::selectors_of`].
#[derive(Debug)]
pub struct RouteTable {
    /// Forward mapping, selector to module, at most one module per selector.
    pub selector_to_module: Vec<Route>,
    /// Backward mapping, module to the set of selectors routed to it.
    pub module_to_selectors: Vec<ModuleRoutes>,
    /// The module whose routes can never be reassigned or removed by a cut,
    /// or `None` if no module is protected.
    pub frozen_module: Option<ModuleId>,
}

/// The abstract value of a [`RouteTable`]: the two mappings as mathematical
/// maps, plus the frozen module.  The cut engine's functional model
/// (`crate::cut::apply_cut_model`) is stated over this type.
#[verifier::ext_equal]
pub struct AbsState {
    pub sel: Map<Selector, ModuleId>,
    pub mods: Map<ModuleId, Set<Selector>>,
    pub frozen: Option<ModuleId>,
}

/// The forward mapping with every binding to `m` dropped.
pub open spec fn drop_module(sel: Map<Selector, ModuleId>, m: ModuleId) -> Map<Selector, ModuleId> {
    Map::new(
        |s: Selector| sel.dom().contains(s) && sel[s] != m,
        |s: Selector| sel[s],
    )
}

/// The forward mapping with every selector of `new` bound to `m`; bindings
/// of other selectors stay (meant for `new` disjoint from the mapping's
/// domain).
pub open spec fn bind_many(sel: Map<Selector, ModuleId>, m: ModuleId, new: Set<Selector>) -> Map<Selector, ModuleId> {
    Map::new(
        |s: Selector| sel.dom().contains(s) || new.contains(s),
        |s: Selector| if new.contains(s) { m } else { sel[s] },
    )
}

/// Whether some forward entry routes `s`.
pub open spec fn has_selector(rs: Seq<Route>, s: Selector) -> bool {
    exists|i: int| 0 <= i < rs.len() && (#[trigger] rs[i]).selector == s
}

/// The module that `s` is routed to (meaningful only when `has_selector`
/// holds and the forward keys are distinct).
pub open spec fn module_of(rs: Seq<Route>, s: Selector) -> ModuleId {
    rs[choose|i: int| 0 <= i < rs.len() && (#[trigger] rs[i]).selector == s].module
}

/// The forward keys are pairwise distinct: at most one module per selector.
pub open spec fn routes_distinct(rs: Seq<Route>) -> bool {
    forall|i: int, j: int| 0 <= i < j < rs.len() ==> (#[trigger] rs[i]).selector != (#[trigger] rs[j]).selector
}

/// Whether some backward entry belongs to `m`.  Backward entries are viewed
/// as pairs of a module and the sequence of selectors stored for it.
pub open spec fn has_module(bw: Seq<(ModuleId, Seq<Selector>)>, m: ModuleId) -> bool {
    exists|i: int| 0 <= i < bw.len() && (#[trigger] bw[i]).0 == m
}

/// The selector sequence stored for `m` (meaningful only when `has_module`
/// holds and the backward keys are distinct).
pub open spec fn sels_of(bw: Seq<(ModuleId, Seq<Selector>)>, m: ModuleId) -> Seq<Selector> {
    bw[choose|i: int| 0 <= i < bw.len() && (#[trigger] bw[i]).0 == m].1
}

/// The backward keys are pairwise distinct: one entry per module.
pub open spec fn facets_distinct(bw: Seq<(ModuleId, Seq<Selector>)>) -> bool {
    forall|i: int, j: int| 0 <= i < j < bw.len() ==> (#[trigger] bw[i]).0 != (#[trigger] bw[j]).0
}

/// A selector list with no repeated element.
pub open spec fn sel_list_distinct(ss: Seq<Selector>) -> bool {
    forall|i: int, j: int| 0 <= i < j < ss.len() ==> ss[i] != ss[j]
}

/// Every backward entry stores a non-empty, duplicate-free selector list.
pub open spec fn facet_entries_ok(bw: Seq<(ModuleId, Seq<Selector>)>) -> bool {
    forall|i: int| 0 <= i < bw.len() ==> (#[trigger] bw[i]).1.len() > 0 && sel_list_distinct(bw[i].1)
}

/// Every forward entry is recorded in its module's backward entry.
pub open spec fn forward_in_backward(rs: Seq<Route>, bw: Seq<(ModuleId, Seq<Selector>)>) -> bool {
    forall|i: int| 0 <= i < rs.len() ==>
        has_module(bw, (#[trigger] rs[i]).module)
        && sels_of(bw, rs[i].module).contains(rs[i].selector)
}

/// Every selector recorded in a backward entry is routed, forward, to that
/// entry's module.
pub open spec fn backward_in_forward(rs: Seq<Route>, bw: Seq<(ModuleId, Seq<Selector>)>) -> bool {
    forall|j: int, k: int| 0 <= j < bw.len() && 0 <= k < bw[j].1.len() ==>
        has_selector(rs, #[trigger] bw[j].1[k]) && module_of(rs, bw[j].1[k]) == bw[j].0
}

impl RouteTable {
    /// The forward association vector, as a sequence.
    pub open spec fn fwd(self) -> Seq<Route> {
        self.selector_to_module@
    }

    /// The backward association vector, as a sequence of (module, selectors)
    /// pairs.
    pub open spec fn bwd(self) -> Seq<(ModuleId, Seq<Selector>)> {
        Seq::new(self.module_to_selectors@.len(), |i: int| (self.module_to_selectors@[i].module, self.module_to_selectors@[i].selectors@))
    }

    /// The forward mapping as a map: selector to its routed module.
    pub open spec fn sel_map(self) -> Map<Selector, ModuleId> {
        Map::new(|s: Selector| has_selector(self.fwd(), s), |s: Selector| module_of(self.fwd(), s))
    }

    /// The backward mapping as a map: module to the set of selectors routed
    /// to it.
    pub open spec fn mod_map(self) -> Map<ModuleId, Set<Selector>> {
        Map::new(|m: ModuleId| has_module(self.bwd(), m), |m: ModuleId| sels_of(self.bwd(), m).to_set())
    }

    /// The table's abstract value.
    pub open spec fn abs(self) -> AbsState {
        AbsState { sel: self.sel_map(), mods: self.mod_map(), frozen: self.frozen_module }
    }

    /// Well-formedness: distinct keys in both directions, non-empty
    /// duplicate-free backward entries, and the two directions exact
    /// inverses of each other.  Established by [`RouteTable::new`] and
    /// preserved by every mutation of the cut engine.
    pub open spec fn inv(self) -> bool {
        &&& routes_distinct(self.fwd())
        &&& facets_distinct(self.bwd())
        &&& facet_entries_ok(self.bwd())
        &&& forward_in_backward(self.fwd(), self.bwd())
        &&& backward_in_forward(self.fwd(), self.bwd())
    }

    /// Creates an empty registry, optionally designating the frozen module.
    pub fn new(frozen_module: Option<ModuleId>) -> (t: RouteTable)
        ensures
            t.inv(),
            t.sel_map() =~= Map::<Selector, ModuleId>::empty(),
            t.mod_map() =~= Map::<ModuleId, Set<Selector>>::empty(),
            t.frozen_module == frozen_module,
    {
        RouteTable {
            selector_to_module: Vec::new(),
            module_to_selectors: Vec::new(),
            frozen_module,
        }
    }

    /// Returns the module that `selector` is routed to, or `None` if the
    /// selector is unrouted.  Read-only.
    pub fn lookup(&self, selector: Selector) -> (r: Option<ModuleId>)
        requires
            self.inv(),
        ensures
            self.sel_map().dom().contains(selector) ==> r == Some(self.sel_map()[selector]),
            !self.sel_map().dom().contains(selector) ==> r == None::<ModuleId>,
    {
        let n = self.selector_to_module.len();
        let mut i: usize = 0;
        while i < n
            invariant
                n == self.fwd().len(),
                0 <= i <= n,
                self.inv(),
                forall|j: int| 0 <= j < i ==> (#[trigger] self.fwd()[j]).selector != selector,
            decreases n - i,
        {
            let r = self.selector_to_module[i];
            if r.selector == selector {
                proof {
                    lemma_route_witness(self.fwd(), i as int);
                }
                return Some(r.module);
            }
            i += 1;
        }
        None
    }

    /// Returns the set of selectors currently routed to `module` (as a
    /// duplicate-free vector), or `None` if the module has no routes.
    /// Read-only.
    pub fn selectors_of(&self, module: ModuleId) -> (r: Option<Vec<Selector>>)
        requires
            self.inv(),
        ensures
            match r {
                Some(v) => {
                    &&& self.mod_map().dom().contains(module)
                    &&& v@.to_set() == self.mod_map()[module]
                    &&& sel_list_distinct(v@)
                },
                None => !self.mod_map().dom().contains(module),
            },
    {
        match self.facet_index(module) {
            Some(i) => {
                proof {
                    lemma_facet_witness(self.bwd(), i as int);
                }
                Some(copy_selectors(&self.module_to_selectors[i].selectors))
            },
            None => None,
        }
    }

    /// Whether `module` is the frozen module, the one whose routes no cut
    /// may touch.
    pub fn is_frozen(&self, module: ModuleId) -> (r: bool)
        ensures
            r == (self.frozen_module == Some(module)),
    {
        match self.frozen_module {
            Some(f) => f == module,
            None => false,
        }
    }

    /// Whether `module` currently routes at least one selector.
    pub fn has_facet(&self, module: ModuleId) -> (r: bool)
        ensures
            r == self.mod_map().dom().contains(module),
    {
        self.facet_index(module).is_some()
    }

    /// The position of `module`'s backward entry, if it has one.
    fn facet_index(&self, module: ModuleId) -> (r: Option<usize>)
        ensures
            match r {
                Some(i) => i < self.bwd().len() && self.bwd()[i as int].0 == module,
                None => !has_module(self.bwd(), module),
            },
    {
        let n = self.module_to_selectors.len();
        let mut i: usize = 0;
        while i < n
            invariant
                n == self.bwd().len(),
                0 <= i <= n,
                forall|j: int| 0 <= j < i ==> (#[trigger] self.bwd()[j]).0 != module,
            decreases n - i,
        {
            if self.module_to_selectors[i].module == module {
                return Some(i);
            }
            i += 1;
        }
        None
    }

    /// Removes every route of `module`: its selectors become unrouted and
    /// its backward entry disappears.  A module without routes is left
    /// alone.  Used only by the cut engine.
    pub(crate) fn unbind_module(&mut self, module: ModuleId)
        requires
            old(self).inv(),
        ensures
            final(self).inv(),
            final(self).frozen_module == old(self).frozen_module,
            final(self).sel_map() =~= drop_module(old(self).sel_map(), module),
            final(self).mod_map() =~= old(self).mod_map().remove(module),
    {
        let ghost fwd0 = self.fwd();
        let ghost bwd0 = self.bwd();
        let idx = self.facet_index(module);
        match idx {
            None => {
                proof {
                    assert forall|s: Selector| #[trigger] old(self).sel_map().dom().contains(s) implies
                        old(self).sel_map()[s] != module by {
                        let i = choose|i: int| 0 <= i < fwd0.len() && (#[trigger] fwd0[i]).selector == s;
                        lemma_route_witness(fwd0, i);
                        assert(has_module(bwd0, fwd0[i].module));
                    }
                    assert(self.sel_map() =~= drop_module(old(self).sel_map(), module));
                    assert(self.mod_map() =~= old(self).mod_map().remove(module));
                }
            },
            Some(j) => {
                let ghost ms0 = self.module_to_selectors@;
                let n = self.selector_to_module.len();
                let mut kept: Vec<Route> = Vec::new();
                let mut i: usize = 0;
                proof {
                    assert(fwd0.take(0) =~= Seq::<Route>::empty());
                }
                while i < n
                    invariant
                        n == self.fwd().len(),
                        0 <= i <= n,
                        self.fwd() == fwd0,
                        self.module_to_selectors@ == ms0,
                        kept@ == routes_without(fwd0.take(i as int), module),
                    decreases n - i,
                {
                    let r = self.selector_to_module[i];
                    proof {
                        assert(fwd0.take(i as int + 1).drop_last() =~= fwd0.take(i as int));
                        assert(fwd0.take(i as int + 1).last() == fwd0[i as int]);
                    }
                    if r.module != module {
                        kept.push(r);
                    }
                    i += 1;
                }
                proof {
                    assert(fwd0.take(n as int) =~= fwd0);
                }
                self.selector_to_module = kept;
                self.module_to_selectors.remove(j);
                proof {
                    let fwd1 = self.fwd();
                    let bwd1 = self.bwd();
                    assert(bwd1 =~= bwd0.remove(j as int)) by {
                        assert(self.module_to_selectors@ == ms0.remove(j as int));
                        assert(forall|k: int| 0 <= k < j ==> ms0.remove(j as int)[k] == ms0[k]);
                        assert(forall|k: int| j <= k < ms0.remove(j as int).len() ==> ms0.remove(j as int)[k] == ms0[k + 1]);
                        assert(forall|k: int| 0 <= k < j ==> bwd0.remove(j as int)[k] == bwd0[k]);
                        assert(forall|k: int| j <= k < bwd0.remove(j as int).len() ==> bwd0.remove(j as int)[k] == bwd0[k + 1]);
                    }
                    lemma_routes_without(fwd0, module);
                    lemma_facets_remove(bwd0, j as int);
                    assert(bwd0[j as int].0 == module);
                    // the abstract mappings change as stated
                    assert(self.sel_map() =~= drop_module(old(self).sel_map(), module));
                    assert(self.mod_map() =~= old(self).mod_map().remove(module)) by {
                        assert forall|x: ModuleId| #[trigger] has_module(bwd1, x) implies
                            sels_of(bwd1, x).to_set() == sels_of(bwd0, x).to_set() by {
                            assert(sels_of(bwd1, x) == sels_of(bwd0, x));
                        }
                    }
                    // the invariant is preserved
                    assert forall|i2: int| 0 <= i2 < fwd1.len() implies
                        has_module(bwd1, (#[trigger] fwd1[i2]).module) by {
                        let s = fwd1[i2].selector;
                        lemma_route_witness(fwd1, i2);
                        let k = choose|k: int| 0 <= k < fwd0.len() && (#[trigger] fwd0[k]).selector == s;
                        lemma_route_witness(fwd0, k);
                        assert(fwd0[k].module == fwd1[i2].module);
                        assert(has_module(bwd0, fwd0[k].module));
                        assert(fwd1[i2].module != module);
                    }
                    assert forall|i2: int| 0 <= i2 < fwd1.len() implies
                        sels_of(bwd1, (#[trigger] fwd1[i2]).module).contains(fwd1[i2].selector) by {
                        let s = fwd1[i2].selector;
                        lemma_route_witness(fwd1, i2);
                        let k = choose|k: int| 0 <= k < fwd0.len() && (#[trigger] fwd0[k]).selector == s;
                        lemma_route_witness(fwd0, k);
                        assert(fwd0[k].module == fwd1[i2].module);
                        assert(has_module(bwd0, fwd0[k].module));
                        assert(sels_of(bwd0, fwd0[k].module).contains(s));
                        assert(fwd1[i2].module != module);
                        assert(sels_of(bwd1, fwd1[i2].module) == sels_of(bwd0, fwd0[k].module));
                    }
                    assert(forward_in_backward(fwd1, bwd1));
                    assert(backward_in_forward(fwd1, bwd1)) by {
                        assert forall|j2: int, k: int| 0 <= j2 < bwd1.len() && 0 <= k < bwd1[j2].1.len() implies
                            has_selector(fwd1, #[trigger] bwd1[j2].1[k]) && module_of(fwd1, bwd1[j2].1[k]) == bwd1[j2].0 by {
                            let j2o: int = if j2 < j { j2 } else { j2 + 1 };
                            assert(bwd1[j2] == bwd0[j2o]);
                            let s = bwd0[j2o].1[k];
                            assert(has_selector(fwd0, s) && module_of(fwd0, s) == bwd0[j2o].0);
                            if j2o < j {
                                assert(bwd0[j2o].0 != bwd0[j as int].0);
                            } else {
                                assert(bwd0[j as int].0 != bwd0[j2o].0);
                            }
                        }
                    }
                }
            },
        }
    }

    /// Binds every selector of `selectors` to `module` and records
    /// `selectors` as its backward entry.  The module must have no routes
    /// yet and the selectors must be unrouted and duplicate-free; the cut
    /// engine establishes both before calling.
    #[verifier::rlimit(50)]
    pub(crate) fn bind_all(&mut self, module: ModuleId, selectors: Vec<Selector>)
        requires
            old(self).inv(),
            !old(self).mod_map().dom().contains(module),
            selectors@.len() > 0,
            sel_list_distinct(selectors@),
            forall|k: int| 0 <= k < selectors@.len() ==> !old(self).sel_map().dom().contains(#[trigger] selectors@[k]),
        ensures
            final(self).inv(),
            final(self).frozen_module == old(self).frozen_module,
            final(self).sel_map() =~= bind_many(old(self).sel_map(), module, selectors@.to_set()),
            final(self).mod_map() =~= old(self).mod_map().insert(module, selectors@.to_set()),
    {
        let ghost fwd0 = self.fwd();
        let ghost bwd0 = self.bwd();
        let ghost ms0 = self.module_to_selectors@;
        let ghost ss = selectors@;
        let n = selectors.len();
        let mut i: usize = 0;
        proof {
            assert(self.fwd() =~= fwd0 + Seq::new(0, |k: int| Route { selector: ss[k], module: module }));
        }
        while i < n
            invariant
                n == ss.len(),
                0 <= i <= n,
                selectors@ == ss,
                self.module_to_selectors@ == ms0,
                self.frozen_module == old(self).frozen_module,
                self.fwd() == fwd0 + Seq::new(i as nat, |k: int| Route { selector: ss[k], module: module }),
            decreases n - i,
        {
            self.selector_to_module.push(Route { selector: selectors[i], module });
            proof {
                assert(self.fwd() =~= fwd0 + Seq::new((i + 1) as nat, |k: int| Route { selector: ss[k], module: module }));
            }
            i += 1;
        }
        self.module_to_selectors.push(ModuleRoutes { module, selectors });
        proof {
            let fwd1 = self.fwd();
            let bwd1 = self.bwd();
            let newpart = Seq::new(n as nat, |k: int| Route { selector: ss[k], module: module });
            let len0 = fwd0.len() as int;
            assert(fwd1 == fwd0 + newpart);
            assert(bwd1 =~= bwd0.push((module, ss)));
            assert(!has_module(bwd0, module));
            assert(forall|k: int| 0 <= k < ss.len() ==> !has_selector(fwd0, #[trigger] ss[k]));
            assert(routes_distinct(fwd1)) by {
                assert forall|a: int, b: int| 0 <= a < b < fwd1.len() implies
                    (#[trigger] fwd1[a]).selector != (#[trigger] fwd1[b]).selector by {
                    if b < len0 {
                        assert(fwd1[a] == fwd0[a] && fwd1[b] == fwd0[b]);
                    } else if a >= len0 {
                        assert(fwd1[a] == newpart[a - len0] && fwd1[b] == newpart[b - len0]);
                        assert(ss[a - len0] != ss[b - len0]);
                    } else {
                        assert(fwd1[a] == fwd0[a] && fwd1[b] == newpart[b - len0]);
                        if fwd0[a].selector == ss[b - len0] {
                            assert(has_selector(fwd0, ss[b - len0]));
                        }
                    }
                }
            }
            assert(facets_distinct(bwd1)) by {
                assert forall|a: int, b: int| 0 <= a < b < bwd1.len() implies
                    (#[trigger] bwd1[a]).0 != (#[trigger] bwd1[b]).0 by {
                    if b < bwd0.len() {
                        assert(bwd1[a] == bwd0[a] && bwd1[b] == bwd0[b]);
                    } else {
                        assert(bwd1[b].0 == module && bwd1[a] == bwd0[a]);
                        if bwd0[a].0 == module {
                            assert(has_module(bwd0, module));
                        }
                    }
                }
            }
            assert(facet_entries_ok(bwd1)) by {
                assert forall|i2: int| 0 <= i2 < bwd1.len() implies
                    (#[trigger] bwd1[i2]).1.len() > 0 && sel_list_distinct(bwd1[i2].1) by {
                    if i2 < bwd0.len() {
                        assert(bwd1[i2] == bwd0[i2]);
                    } else {
                        assert(bwd1[i2].1 == ss);
                    }
                }
            }
            lemma_facet_witness(bwd1, bwd1.len() - 1);
            assert(sels_of(bwd1, module) == ss);
            assert forall|x: ModuleId| #[trigger] has_module(bwd0, x) implies
                has_module(bwd1, x) && sels_of(bwd1, x) == sels_of(bwd0, x) by {
                let i2 = choose|i2: int| 0 <= i2 < bwd0.len() && (#[trigger] bwd0[i2]).0 == x;
                assert(bwd1[i2] == bwd0[i2]);
                lemma_facet_witness(bwd0, i2);
                lemma_facet_witness(bwd1, i2);
            }
            assert forall|s: Selector| #[trigger] has_selector(fwd0, s) implies
                has_selector(fwd1, s) && module_of(fwd1, s) == module_of(fwd0, s) by {
                let i2 = choose|i2: int| 0 <= i2 < fwd0.len() && (#[trigger] fwd0[i2]).selector == s;
                assert(fwd1[i2] == fwd0[i2]);
                lemma_route_witness(fwd0, i2);
                lemma_route_witness(fwd1, i2);
            }
            assert forall|k: int| 0 <= k < ss.len() implies
                has_selector(fwd1, #[trigger] ss[k]) && module_of(fwd1, ss[k]) == module by {
                assert(fwd1[len0 + k] == newpart[k]);
                lemma_route_witness(fwd1, len0 + k);
            }
            assert forall|s: Selector| #[trigger] has_selector(fwd1, s) implies
                has_selector(fwd0, s) || ss.contains(s) by {
                let i2 = choose|i2: int| 0 <= i2 < fwd1.len() && (#[trigger] fwd1[i2]).selector == s;
                if i2 < len0 {
                    assert(fwd0[i2].selector == s);
                } else {
                    assert(ss[i2 - len0] == s);
                }
            }
            assert forall|s: Selector| #[trigger] ss.contains(s) implies
                has_selector(fwd1, s) && module_of(fwd1, s) == module by {
                let k = choose|k: int| 0 <= k < ss.len() && ss[k] == s;
                assert(has_selector(fwd1, ss[k]) && module_of(fwd1, ss[k]) == module);
            }
            assert(self.sel_map() =~= bind_many(old(self).sel_map(), module, ss.to_set()));
            assert forall|x: ModuleId| #[trigger] has_module(bwd1, x) implies
                x == module || has_module(bwd0, x) by {
                let i2 = choose|i2: int| 0 <= i2 < bwd1.len() && (#[trigger] bwd1[i2]).0 == x;
                if i2 < bwd0.len() {
                    assert(bwd0[i2].0 == x);
                }
            }
            assert(self.mod_map() =~= old(self).mod_map().insert(module, ss.to_set()));
            assert forall|i2: int| 0 <= i2 < fwd1.len() implies
                has_module(bwd1, (#[trigger] fwd1[i2]).module) by {
                if i2 < len0 {
                    assert(fwd1[i2] == fwd0[i2]);
                    assert(has_module(bwd0, fwd0[i2].module));
                } else {
                    assert(fwd1[i2] == newpart[i2 - len0]);
                    assert(fwd1[i2].module == module);
                }
            }
            assert forall|i2: int| 0 <= i2 < fwd1.len() implies
                sels_of(bwd1, (#[trigger] fwd1[i2]).module).contains(fwd1[i2].selector) by {
                if i2 < len0 {
                    assert(fwd1[i2] == fwd0[i2]);
                    assert(has_module(bwd0, fwd0[i2].module));
                    assert(sels_of(bwd0, fwd0[i2].module).contains(fwd0[i2].selector));
                    assert(sels_of(bwd1, fwd1[i2].module) == sels_of(bwd0, fwd0[i2].module));
                } else {
                    let k = i2 - len0;
                    assert(fwd1[i2] == newpart[k]);
                    assert(fwd1[i2].module == module);
                    assert(sels_of(bwd1, module) == ss);
                    assert(ss[k] == fwd1[i2].selector);
                    assert(ss.contains(fwd1[i2].selector));
                }
            }
            assert(forward_in_backward(fwd1, bwd1));
            assert(backward_in_forward(fwd1, bwd1)) by {
                assert forall|j2: int, k: int| 0 <= j2 < bwd1.len() && 0 <= k < bwd1[j2].1.len() implies
                    has_selector(fwd1, #[trigger] bwd1[j2].1[k]) && module_of(fwd1, bwd1[j2].1[k]) == bwd1[j2].0 by {
                    if j2 < bwd0.len() {
                        assert(bwd1[j2] == bwd0[j2]);
                        assert(has_selector(fwd0, bwd0[j2].1[k]));
                    } else {
                        assert(bwd1[j2].1 == ss && bwd1[j2].0 == module);
                        assert(has_selector(fwd1, ss[k]) && module_of(fwd1, ss[k]) == module);
                    }
                }
            }
        }
    }

    /// An independent copy of the table, equal to it in every field.
    pub(crate) fn snapshot(&self) -> (t: RouteTable)
        ensures
            t.fwd() == self.fwd(),
            t.bwd() =~~= self.bwd(),
            t.frozen_module == self.frozen_module,
            t.sel_map() == self.sel_map(),
            t.mod_map() == self.mod_map(),
            self.inv() ==> t.inv(),
    {
        let n = self.selector_to_module.len();
        let mut routes: Vec<Route> = Vec::new();
        let mut i: usize = 0;
        while i < n
            invariant
                n == self.fwd().len(),
                0 <= i <= n,
                routes@ == self.fwd().take(i as int),
            decreases n - i,
        {
            routes.push(self.selector_to_module[i]);
            proof {
                assert(routes@ =~= self.fwd().take(i + 1 as int));
            }
            i += 1;
        }
        proof {
            assert(self.fwd().take(n as int) =~= self.fwd());
        }
        let m = self.module_to_selectors.len();
        let mut facets: Vec<ModuleRoutes> = Vec::new();
        let mut j: usize = 0;
        while j < m
            invariant
                m == self.module_to_selectors@.len(),
                0 <= j <= m,
                facets@.len() == j,
                forall|k: int| 0 <= k < j ==>
                    (#[trigger] facets@[k]).module == self.module_to_selectors@[k].module
                    && facets@[k].selectors@ == self.module_to_selectors@[k].selectors@,
            decreases m - j,
        {
            let entry = &self.module_to_selectors[j];
            facets.push(ModuleRoutes { module: entry.module, selectors: copy_selectors(&entry.selectors) });
            j += 1;
        }
        let t = RouteTable {
            selector_to_module: routes,
            module_to_selectors: facets,
            frozen_module: self.frozen_module,
        };
        proof {
            assert(t.bwd() =~~= self.bwd());
            assert(t.sel_map() =~= self.sel_map());
            assert(t.mod_map() =~= self.mod_map());
        }
        t
    }
}

/// Copies a selector vector element by element.
fn copy_selectors(v: &Vec<Selector>) -> (r: Vec<Selector>)
    ensures
        r@ == v@,
{
    let n = v.len();
    let mut r: Vec<Selector> = Vec::new();
    let mut i: usize = 0;
    while i < n
        invariant
            n == v@.len(),
            0 <= i <= n,
            r@ == v@.take(i as int),
        decreases n - i,
    {
        r.push(v[i]);
        proof {
            assert(r@ =~= v@.take(i + 1 as int));
        }
        i += 1;
    }
    proof {
        assert(v@.take(n as int) =~= v@);
    }
    r
}

/// If the forward keys are distinct, the entry at index `i` determines the
/// abstract mapping of its selector.
pub proof fn lemma_route_witness(rs: Seq<Route>, i: int)
    requires
        routes_distinct(rs),
        0 <= i < rs.len(),
    ensures
        has_selector(rs, rs[i].selector),
        module_of(rs, rs[i].selector) == rs[i].module,
{
    assert(has_selector(rs, rs[i].selector));
    let k = choose|k: int| 0 <= k < rs.len() && (#[trigger] rs[k]).selector == rs[i].selector;
    if k != i {
        if k < i {
            assert(rs[k].selector != rs[i].selector);
        } else {
            assert(rs[i].selector != rs[k].selector);
        }
    }
}

/// The forward entries whose module is not `m`, in order.
pub open spec fn routes_without(rs: Seq<Route>, m: ModuleId) -> Seq<Route>
    decreases rs.len(),
{
    if rs.len() == 0 {
        Seq::empty()
    } else if rs.last().module == m {
        routes_without(rs.drop_last(), m)
    } else {
        routes_without(rs.drop_last(), m).push(rs.last())
    }
}

/// Dropping module `m`'s forward entries keeps the keys distinct, removes
/// exactly the selectors routed to `m`, and keeps every other binding.
pub proof fn lemma_routes_without(rs: Seq<Route>, m: ModuleId)
    requires
        routes_distinct(rs),
    ensures
        routes_distinct(routes_without(rs, m)),
        forall|s: Selector| #[trigger] has_selector(routes_without(rs, m), s) <==>
            has_selector(rs, s) && module_of(rs, s) != m,
        forall|s: Selector| has_selector(routes_without(rs, m), s) ==>
            module_of(routes_without(rs, m), s) == module_of(rs, s),
    decreases rs.len(),
{
    let out = routes_without(rs, m);
    if rs.len() == 0 {
        assert(forall|s: Selector| !has_selector(rs, s));
        assert(forall|s: Selector| !has_selector(out, s));
    } else {
        let butlast = rs.drop_last();
        let r = rs.last();
        lemma_routes_without(butlast, m);
        let sub = routes_without(butlast, m);
        lemma_route_witness(rs, rs.len() - 1);
        assert(!has_selector(butlast, r.selector)) by {
            if has_selector(butlast, r.selector) {
                let i = choose|i: int| 0 <= i < butlast.len() && (#[trigger] butlast[i]).selector == r.selector;
                assert(rs[i].selector == rs[rs.len() - 1].selector);
            }
        }
        assert forall|s: Selector| #[trigger] has_selector(rs, s) && s != r.selector implies
            has_selector(butlast, s) && module_of(butlast, s) == module_of(rs, s) by {
            let i = choose|i: int| 0 <= i < rs.len() && (#[trigger] rs[i]).selector == s;
            assert(i < rs.len() - 1);
            assert(butlast[i] == rs[i]);
            lemma_route_witness(butlast, i);
            lemma_route_witness(rs, i);
        }
        assert forall|s: Selector| #[trigger] has_selector(butlast, s) implies
            has_selector(rs, s) && module_of(rs, s) == module_of(butlast, s) by {
            let i = choose|i: int| 0 <= i < butlast.len() && (#[trigger] butlast[i]).selector == s;
            assert(rs[i] == butlast[i]);
            lemma_route_witness(butlast, i);
            lemma_route_witness(rs, i);
        }
        if r.module == m {
            assert(out == sub);
            assert forall|s: Selector| #[trigger] has_selector(out, s) implies
                has_selector(rs, s) && module_of(rs, s) != m && module_of(out, s) == module_of(rs, s) by {
                assert(has_selector(butlast, s) && module_of(butlast, s) != m);
                assert(s != r.selector);
            }
            assert forall|s: Selector| has_selector(rs, s) && module_of(rs, s) != m implies
                #[trigger] has_selector(out, s) by {
                assert(s != r.selector);
            }
        } else {
            assert(out == sub.push(r));
            assert(!has_selector(sub, r.selector));
            assert(routes_distinct(out)) by {
                assert forall|i: int, j: int| 0 <= i < j < out.len() implies
                    (#[trigger] out[i]).selector != (#[trigger] out[j]).selector by {
                    if j < out.len() - 1 {
                        assert(out[i] == sub[i] && out[j] == sub[j]);
                    } else {
                        assert(out[j] == r);
                        assert(out[i] == sub[i]);
                        if out[i].selector == r.selector {
                            assert(has_selector(sub, r.selector));
                        }
                    }
                }
            }
            assert forall|s: Selector| #[trigger] has_selector(out, s) implies
                has_selector(rs, s) && module_of(rs, s) != m && module_of(out, s) == module_of(rs, s) by {
                let i = choose|i: int| 0 <= i < out.len() && (#[trigger] out[i]).selector == s;
                lemma_route_witness(out, i);
                if i < out.len() - 1 {
                    assert(out[i] == sub[i]);
                    lemma_route_witness(sub, i);
                    assert(has_selector(butlast, s) && module_of(butlast, s) != m);
                    assert(s != r.selector);
                } else {
                    assert(out[i] == r);
                }
            }
            assert forall|s: Selector| has_selector(rs, s) && module_of(rs, s) != m implies
                #[trigger] has_selector(out, s) by {
                if s == r.selector {
                    assert(out[out.len() - 1].selector == s);
                } else {
                    assert(has_selector(sub, s));
                    let i = choose|i: int| 0 <= i < sub.len() && (#[trigger] sub[i]).selector == s;
                    assert(out[i].selector == s);
                }
            }
        }
    }
}

/// Removing the backward entry at index `j` keeps the keys distinct and
/// removes exactly that entry's module, leaving every other entry intact.
pub proof fn lemma_facets_remove(bw: Seq<(ModuleId, Seq<Selector>)>, j: int)
    requires
        facets_distinct(bw),
        0 <= j < bw.len(),
    ensures
        facets_distinct(bw.remove(j)),
        facet_entries_ok(bw) ==> facet_entries_ok(bw.remove(j)),
        forall|x: ModuleId| #[trigger] has_module(bw.remove(j), x) <==> has_module(bw, x) && x != bw[j].0,
        forall|x: ModuleId| #[trigger] has_module(bw.remove(j), x) ==> sels_of(bw.remove(j), x) == sels_of(bw, x),
{
    let out = bw.remove(j);
    assert(forall|i: int| 0 <= i < j ==> out[i] == bw[i]);
    assert(forall|i: int| j <= i < out.len() ==> out[i] == bw[i + 1]);
    assert(facets_distinct(out)) by {
        assert forall|a: int, b: int| 0 <= a < b < out.len() implies
            (#[trigger] out[a]).0 != (#[trigger] out[b]).0 by {
            let a2: int = if a < j { a } else { a + 1 };
            let b2: int = if b < j { b } else { b + 1 };
            assert(out[a] == bw[a2] && out[b] == bw[b2] && a2 < b2);
        }
    }
    if facet_entries_ok(bw) {
        assert forall|i: int| 0 <= i < out.len() implies
            (#[trigger] out[i]).1.len() > 0 && sel_list_distinct(out[i].1) by {
            let i2: int = if i < j { i } else { i + 1 };
            assert(out[i] == bw[i2]);
        }
    }
    assert forall|x: ModuleId| #[trigger] has_module(out, x) implies
        has_module(bw, x) && x != bw[j].0 && sels_of(out, x) == sels_of(bw, x) by {
        let i = choose|i: int| 0 <= i < out.len() && (#[trigger] out[i]).0 == x;
        let i2: int = if i < j { i } else { i + 1 };
        assert(bw[i2].0 == x);
        lemma_facet_witness(bw, i2);
        lemma_facet_witness(out, i);
        if x == bw[j].0 {
            if i2 < j {
                assert(bw[i2].0 != bw[j].0);
            } else {
                assert(bw[j].0 != bw[i2].0);
            }
        }
    }
    assert forall|x: ModuleId| has_module(bw, x) && x != bw[j].0 implies
        #[trigger] has_module(out, x) by {
        let i2 = choose|i: int| 0 <= i < bw.len() && (#[trigger] bw[i]).0 == x;
        assert(i2 != j);
        let i: int = if i2 < j { i2 } else { i2 - 1 };
        assert(out[i].0 == x);
    }
}

/// If the backward keys are distinct, the entry at index `i` determines the
/// selector list stored for its module.
pub proof fn lemma_facet_witness(bw: Seq<(ModuleId, Seq<Selector>)>, i: int)
    requires
        facets_distinct(bw),
        0 <= i < bw.len(),
    ensures
        has_module(bw, bw[i].0),
        sels_of(bw, bw[i].0) == bw[i].1,
{
    assert(has_module(bw, bw[i].0));
    let k = choose|k: int| 0 <= k < bw.len() && (#[trigger] bw[k]).0 == bw[i].0;
    if k != i {
        if k < i {
            assert(bw[k].0 != bw[i].0);
        } else {
            assert(bw[i].0 != bw[k].0);
        }
    }
}

} // verus!
