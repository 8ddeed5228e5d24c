//! What holds of the propagation as a whole: facts are never lost, the state
//! in which it comes to rest is one, and where the propagation makes no cell,
//! that state does not depend on the order in which the waiting facts are
//! taken up.

use vstd::prelude::*;
use crate::analysis::{analysed, AnalysisContext, CellKey, ExpandState, FlowState, PointsToSetView};
use crate::cfg::FunctionInfo;
use crate::ids::{CtxtSenCallId, DropObjectId, GlobalLocalId, GlobalProjectionId, LocalId};
use crate::ir::PlaceElem;
use crate::pfg::{PfgView, ProjectionNodeView};
use crate::propagate::{lemma_prefix_of_itself, lemma_prefix_of_longer, without};
use crate::reach::is_walk;

verus! {

/// What `without` gives: objects of `incoming` that `held` does not hold,
/// each once if `incoming` holds each once, and all of them.
pub proof fn lemma_without(incoming: Seq<DropObjectId>, held: Seq<DropObjectId>, n: int)
    requires
        0 <= n <= incoming.len(),
    ensures
        forall|k: int|
            0 <= k < without(incoming, held, n).len() ==> !held.contains(
                #[trigger] without(incoming, held, n)[k],
            ) && exists|m: int| 0 <= m < n && incoming[m] == without(incoming, held, n)[k],
        incoming.no_duplicates() ==> without(incoming, held, n).no_duplicates(),
        forall|m: int|
            0 <= m < n && !held.contains(#[trigger] incoming[m]) ==> without(
                incoming,
                held,
                n,
            ).contains(incoming[m]),
    decreases n,
{
    if n > 0 {
        lemma_without(incoming, held, n - 1);
        let before = without(incoming, held, n - 1);
        let now = without(incoming, held, n);
        assert forall|k: int| 0 <= k < now.len() implies !held.contains(#[trigger] now[k])
            && exists|m: int| 0 <= m < n && incoming[m] == now[k] by {
            if k < before.len() {
                let m = choose|m: int| 0 <= m < n - 1 && incoming[m] == before[k];
                assert(incoming[m] == now[k]);
            } else {
                assert(incoming[n - 1] == now[k]);
            }
        }
        if incoming.no_duplicates() {
            assert forall|a: int, b: int|
                0 <= a < now.len() && 0 <= b < now.len() && a != b implies now[a] != now[b] by {
                if a < before.len() && b < before.len() {
                } else if a < before.len() {
                    let m = choose|m: int| 0 <= m < n - 1 && incoming[m] == before[a];
                } else if b < before.len() {
                    let m = choose|m: int| 0 <= m < n - 1 && incoming[m] == before[b];
                }
            }
        }
        assert forall|m: int| 0 <= m < n && !held.contains(#[trigger] incoming[m]) implies now.contains(
            incoming[m],
        ) by {
            if m < n - 1 {
                let k = choose|k: int| 0 <= k < before.len() && before[k] == incoming[m];
                assert(now[k] == incoming[m]);
            } else {
                assert(now[now.len() - 1] == incoming[m]);
            }
        }
    }
}

impl PfgView {
    /// `other` has at least as many slots as `self`, each with at least as many cells.
    pub open spec fn sized_below(self, other: PfgView) -> bool {
        &&& self.nodes.len() <= other.nodes.len()
        &&& forall|i: int|
            0 <= i < self.nodes.len() ==> (#[trigger] self.nodes[i]).projection_nodes.len()
                <= other.nodes[i].projection_nodes.len()
    }

    /// Finding or making a cell takes no cell away.
    pub proof fn lemma_with_cell_sizes(
        self,
        call_id: CtxtSenCallId,
        local_id: LocalId,
        projection: Seq<PlaceElem>,
    )
        ensures
            self.sized_below(self.with_cell(call_id, local_id, projection)),
            self.with_cell(call_id, local_id, projection).fits() ==> self.fits(),
    {
        let gid = GlobalLocalId { def_id: call_id.def_id, local_id };
        let g = self.with_slot(gid);
        let after = self.with_cell(call_id, local_id, projection);
        if !self.has_slot(gid) {
            assert(g.nodes[self.nodes.len() as int].gid == gid);
        }
        assert(g.has_slot(gid));
        let at = g.slot_index(gid);
        assert(0 <= at < g.nodes.len());
        assert forall|i: int| 0 <= i < self.nodes.len() implies (
        #[trigger] self.nodes[i]).projection_nodes.len() <= after.nodes[i].projection_nodes.len() by {
            assert(g.nodes[i] == self.nodes[i]);
        }
        if after.fits() {
            assert forall|i: int| 0 <= i < self.nodes.len() implies (
            #[trigger] self.nodes[i]).projection_nodes.len() <= usize::MAX by {
                assert(after.nodes[i].projection_nodes.len() <= usize::MAX);
            }
        }
    }
}

impl FlowState {
    /// Sending objects leaves the graph as it is.
    pub proof fn lemma_send_same_graph(
        self,
        targets: Seq<GlobalProjectionId>,
        objects: Seq<DropObjectId>,
        n: int,
    )
        ensures
            self.send(targets, objects, n).pfg == self.pfg,
        decreases n,
    {
        if n > 0 {
            self.lemma_send_same_graph(targets, objects, n - 1);
        }
    }

    /// Finding or making cells takes no cell away.
    pub proof fn lemma_deliver_sizes(self, keys: Seq<CellKey>, objects: Seq<DropObjectId>, n: int)
        ensures
            self.pfg.sized_below(self.deliver(keys, objects, n).pfg),
            self.deliver(keys, objects, n).pfg.fits() ==> self.pfg.fits(),
        decreases n,
    {
        if n > 0 {
            let sent = self.deliver(keys, objects, n - 1);
            let key = keys[n - 1];
            self.lemma_deliver_sizes(keys, objects, n - 1);
            sent.pfg.lemma_with_cell_sizes(key.call_id, key.local_id, key.projection);
            let after = self.deliver(keys, objects, n);
            assert forall|i: int| 0 <= i < self.pfg.nodes.len() implies (
            #[trigger] self.pfg.nodes[i]).projection_nodes.len()
                <= after.pfg.nodes[i].projection_nodes.len() by {
                assert(sent.pfg.nodes[i].projection_nodes.len()
                    <= after.pfg.nodes[i].projection_nodes.len());
            }
        }
    }

    /// Sending objects to cells of the graph keeps the state sound and
    /// leaves the graph as it is.
    pub proof fn lemma_send(self, targets: Seq<GlobalProjectionId>, objects: Seq<DropObjectId>, n: int)
        requires
            self.wf(),
            0 <= n <= targets.len(),
            objects.no_duplicates(),
            forall|k: int| 0 <= k < targets.len() ==> self.pfg.contains(#[trigger] targets[k]),
            forall|m: int| 0 <= m < objects.len() ==> self.pfg.contains((#[trigger] objects[m]).id),
        ensures
            self.send(targets, objects, n).wf(),
            self.send(targets, objects, n).pfg == self.pfg,
            self.send(targets, objects, n).worklist.len() == self.worklist.len() + n,
            forall|k: int|
                0 <= k < self.worklist.len() ==> (#[trigger] self.send(targets, objects, n).worklist[k])
                    == self.worklist[k],
            forall|k: int|
                0 <= k < n ==> (#[trigger] self.send(targets, objects, n).worklist[self.worklist.len()
                    + k]) == (PointsToSetView { g_proj_id: targets[k], points_to: objects }),
        decreases n,
    {
        if n > 0 {
            self.lemma_send(targets, objects, n - 1);
            let sent = self.send(targets, objects, n - 1);
            sent.lemma_wf_with_item(PointsToSetView { g_proj_id: targets[n - 1], points_to: objects });
        }
    }

    /// Finding or making cells and sending objects to them keeps the state
    /// sound and the cells that were there as they are.
    pub proof fn lemma_deliver(self, keys: Seq<CellKey>, objects: Seq<DropObjectId>, n: int)
        requires
            self.wf(),
            0 <= n <= keys.len(),
            objects.no_duplicates(),
            forall|m: int| 0 <= m < objects.len() ==> self.pfg.contains((#[trigger] objects[m]).id),
            self.deliver(keys, objects, n).pfg.fits(),
        ensures
            self.deliver(keys, objects, n).wf(),
            self.pfg.sized_below(self.deliver(keys, objects, n).pfg),
            self.deliver(keys, objects, n).pfg.deref_edges == self.pfg.deref_edges,
            self.deliver(keys, objects, n).pfg.multi_drop_objects == self.pfg.multi_drop_objects,
            forall|id: GlobalProjectionId| #![trigger self.pfg.contains(id)]
                self.pfg.contains(id) ==> self.deliver(keys, objects, n).pfg.contains(id)
                    && self.deliver(keys, objects, n).pfg.node(id) == self.pfg.node(id),
            self.deliver(keys, objects, n).worklist.len() == self.worklist.len() + n,
            forall|k: int|
                0 <= k < self.worklist.len() ==> (
                #[trigger] self.deliver(keys, objects, n).worklist[k]) == self.worklist[k],
            forall|k: int|
                0 <= k < n ==> (#[trigger] self.deliver(keys, objects, n).worklist[self.worklist.len()
                    + k]).points_to == objects,
        decreases n,
    {
        if n > 0 {
            let sent = self.deliver(keys, objects, n - 1);
            let key = keys[n - 1];
            let after = self.deliver(keys, objects, n);
            sent.pfg.lemma_with_cell_sizes(key.call_id, key.local_id, key.projection);
            self.lemma_deliver(keys, objects, n - 1);
            sent.pfg.lemma_with_cell(key.call_id, key.local_id, key.projection);
            let grown = FlowState { pfg: after.pfg, worklist: sent.worklist };
            sent.lemma_wf_in_grown_graph(after.pfg);
            assert forall|m: int| 0 <= m < objects.len() implies grown.pfg.contains(
                (#[trigger] objects[m]).id,
            ) by {
                assert(self.pfg.contains(objects[m].id));
                assert(sent.pfg.contains(objects[m].id));
            }
            grown.lemma_wf_with_item(
                PointsToSetView { g_proj_id: sent.cell_id(key), points_to: objects },
            );
            assert forall|id: GlobalProjectionId| #![trigger self.pfg.contains(id)]
                self.pfg.contains(id) implies after.pfg.contains(id) && after.pfg.node(id)
                == self.pfg.node(id) by {
                assert(sent.pfg.contains(id) && sent.pfg.node(id) == self.pfg.node(id));
                assert(after.pfg.node(id) == sent.pfg.node(id));
            }
            assert forall|i: int| 0 <= i < self.pfg.nodes.len() implies (
            #[trigger] self.pfg.nodes[i]).projection_nodes.len()
                <= after.pfg.nodes[i].projection_nodes.len() by {
                assert(sent.pfg.nodes[i].projection_nodes.len()
                    <= after.pfg.nodes[i].projection_nodes.len());
            }
        }
    }

    /// What one propagation does to a sound state: the state stays sound, the
    /// cell takes the objects in behind what it held, every other cell that was
    /// there holds what it held, and no cell is lost.
    pub proof fn lemma_propagate(self, cur: GlobalProjectionId, objects: Seq<DropObjectId>)
        requires
            self.wf(),
            self.pfg.contains(cur),
            objects.no_duplicates(),
            forall|k: int|
                0 <= k < objects.len() ==> !self.pfg.node(cur).points_to.contains(
                    #[trigger] objects[k],
                ) && self.pfg.contains(objects[k].id),
            self.propagate(cur, objects).pfg.fits(),
        ensures
            self.propagate(cur, objects).wf(),
            forall|id: GlobalProjectionId| #![trigger self.pfg.contains(id)]
                self.pfg.contains(id) ==> self.propagate(cur, objects).pfg.contains(id),
            self.propagate(cur, objects).pfg.node(cur).points_to == self.pfg.node(cur).points_to
                + objects,
            forall|id: GlobalProjectionId| #![trigger self.pfg.contains(id)]
                self.pfg.contains(id) && id != cur ==> self.propagate(cur, objects).pfg.node(
                    id,
                ).points_to == self.pfg.node(id).points_to,
    {
        if objects.len() == 0 {
            assert(self.pfg.node(cur).points_to + objects =~= self.pfg.node(cur).points_to);
        } else {
            let added = self.pfg.with_points_to(cur, objects);
            let pfg = self.absorb(cur, objects);
            self.pfg.lemma_with_points_to(cur, objects);
            if pfg != added {
                added.lemma_with_multi_drop(DropObjectId { id: cur });
            }
            assert(pfg.nodes == added.nodes);
            assert forall|id: GlobalProjectionId| #![trigger self.pfg.contains(id)]
                self.pfg.contains(id) implies pfg.contains(id) && pfg.node(id) == added.node(id) by {
                assert(added.contains(id));
            }
            self.lemma_wf_in_grown_graph(pfg);
            let absorbed = FlowState { pfg, worklist: self.worklist };
            let n = pfg.siblings(cur).len() as int;
            let below = pfg.sub_level(cur, n);
            let keys = pfg.same_level(cur, n);
            absorbed.lemma_send_same_graph(below, objects, below.len() as int);
            absorbed.send(below, objects, below.len() as int).lemma_deliver_sizes(
                keys,
                objects,
                keys.len() as int,
            );
            lemma_sub_level_contained(pfg, cur, n);
            assert forall|m: int| 0 <= m < objects.len() implies pfg.contains(
                (#[trigger] objects[m]).id,
            ) by {
                assert(self.pfg.contains(objects[m].id));
            }
            absorbed.lemma_send(below, objects, below.len() as int);
            let sent = absorbed.send(below, objects, below.len() as int);
            sent.lemma_deliver(keys, objects, keys.len() as int);
            let after = self.propagate(cur, objects);
            assert forall|id: GlobalProjectionId| #![trigger self.pfg.contains(id)]
                self.pfg.contains(id) implies after.pfg.contains(id) && after.pfg.node(id)
                == added.node(id) by {
                assert(pfg.contains(id));
                assert(sent.pfg.contains(id));
            }
            assert(self.pfg.contains(cur));
        }
    }
}

/// The cells below a cell are cells of the graph.
pub proof fn lemma_sub_level_contained(pfg: PfgView, cur: GlobalProjectionId, n: int)
    requires
        pfg.contains(cur),
        0 <= n <= pfg.siblings(cur).len(),
        pfg.fits(),
    ensures
        forall|k: int| 0 <= k < pfg.sub_level(cur, n).len() ==> pfg.contains(#[trigger] pfg.sub_level(cur, n)[k]),
    decreases n,
{
    if n > 0 {
        lemma_sub_level_contained(pfg, cur, n - 1);
        let before = pfg.sub_level(cur, n - 1);
        let now = pfg.sub_level(cur, n);
        assert forall|k: int| 0 <= k < now.len() implies pfg.contains(#[trigger] now[k]) by {
            if k < before.len() {
                assert(now[k] == before[k]);
            } else {
                let at = pfg.slot_index(cur.g_local_id);
                assert(pfg.nodes[at].projection_nodes.len() <= usize::MAX);
                assert(now[k] == GlobalProjectionId {
                    g_local_id: cur.g_local_id,
                    projection_id: (n - 1) as usize,
                });
            }
        }
    }
}


impl FlowState {
    /// Whether every cell of `self` is a cell of `later` that holds what it
    /// held, in the same order, and maybe more behind it.
    pub open spec fn grows_into(self, later: FlowState) -> bool {
        forall|id: GlobalProjectionId| #![trigger self.pfg.contains(id)]
            self.pfg.contains(id) ==> later.pfg.contains(id) && self.pfg.node(
                id,
            ).points_to.is_prefix_of(later.pfg.node(id).points_to)
    }

    /// Facts are never lost: taking up a waiting item leaves every cell with
    /// what it held, and maybe more. So the size of no points-to set goes down.
    pub proof fn lemma_step_grows(self)
        requires
            self.wf(),
            self.step().pfg.fits(),
        ensures
            self.step().wf(),
            self.grows_into(self.step()),
            forall|id: GlobalProjectionId| #![trigger self.pfg.contains(id)]
                self.pfg.contains(id) ==> self.pfg.node(id).points_to.len() <= self.step().pfg.node(
                    id,
                ).points_to.len(),
    {
        if self.worklist.len() == 0 {
            assert forall|id: GlobalProjectionId| #![trigger self.pfg.contains(id)]
                self.pfg.contains(id) implies self.pfg.node(id).points_to.is_prefix_of(
                self.pfg.node(id).points_to,
            ) by {
                lemma_prefix_of_itself(self.pfg.node(id).points_to);
            }
        } else {
            let item = self.worklist[0];
            let rest = FlowState { worklist: self.worklist.skip(1), ..self };
            let news = self.news(item.g_proj_id, item.points_to);
            self.lemma_rest_wf();
            lemma_without(
                item.points_to,
                self.pfg.node(item.g_proj_id).points_to,
                item.points_to.len() as int,
            );
            assert forall|k: int| 0 <= k < news.len() implies !rest.pfg.node(
                item.g_proj_id,
            ).points_to.contains(#[trigger] news[k]) && rest.pfg.contains(news[k].id) by {
                let m = choose|m: int| 0 <= m < item.points_to.len() && item.points_to[m] == news[k];
                assert(self.pfg.contains(self.worklist[0].points_to[m].id));
            }
            rest.lemma_propagate(item.g_proj_id, news);
            let after = self.step();
            assert forall|id: GlobalProjectionId| #![trigger self.pfg.contains(id)]
                self.pfg.contains(id) implies after.pfg.contains(id) && self.pfg.node(
                id,
            ).points_to.is_prefix_of(after.pfg.node(id).points_to) by {
                assert(rest.pfg.contains(id));
                if id == item.g_proj_id {
                    lemma_prefix_of_longer(self.pfg.node(id).points_to, news);
                } else {
                    lemma_prefix_of_itself(self.pfg.node(id).points_to);
                }
            }
        }
    }

    /// A sound state without its oldest waiting item is sound.
    pub proof fn lemma_rest_wf(self)
        requires
            self.wf(),
            self.worklist.len() > 0,
        ensures
            (FlowState { worklist: self.worklist.skip(1), ..self }).wf(),
            self.pfg.contains(self.worklist[0].g_proj_id),
            self.worklist[0].points_to.no_duplicates(),
    {
        let rest = FlowState { worklist: self.worklist.skip(1), ..self };
        assert forall|k: int| 0 <= k < rest.worklist.len() implies rest.pfg.contains(
            (#[trigger] rest.worklist[k]).g_proj_id,
        ) && rest.worklist[k].points_to.no_duplicates() by {
            assert(rest.worklist[k] == self.worklist[k + 1]);
        }
        assert forall|k: int, m: int|
            0 <= k < rest.worklist.len() && 0 <= m < rest.worklist[k].points_to.len() implies rest.pfg.contains(
            (#[trigger] rest.worklist[k].points_to[m]).id,
        ) by {
            assert(rest.worklist[k] == self.worklist[k + 1]);
            assert(self.pfg.contains(self.worklist[k + 1].points_to[m].id));
        }
    }

    /// Whether every graph of the first `n` steps has room for the numbers of its cells.
    pub open spec fn run_fits(self, n: nat) -> bool {
        forall|k: nat| k <= n ==> (#[trigger] self.run(k)).pfg.fits()
    }

    /// Facts are never lost along the run: a cell of an earlier state is a
    /// cell of every later state and holds there what it held, and maybe more.
    pub proof fn lemma_run_grows(self, k: nat, n: nat)
        requires
            self.wf(),
            self.run_fits(n),
            k <= n,
        ensures
            self.run(k).wf(),
            self.run(n).wf(),
            self.run(k).grows_into(self.run(n)),
        decreases n,
    {
        if n == 0 {
            assert forall|id: GlobalProjectionId| #![trigger self.pfg.contains(id)]
                self.pfg.contains(id) implies self.pfg.node(id).points_to.is_prefix_of(
                self.pfg.node(id).points_to,
            ) by {
                lemma_prefix_of_itself(self.pfg.node(id).points_to);
            }
        } else {
            let before = self.run((n - 1) as nat);
            let after = self.run(n);
            assert(self.run_fits((n - 1) as nat)) by {
                assert forall|j: nat| j <= (n - 1) as nat implies (#[trigger] self.run(j)).pfg.fits() by {
                    assert(j <= n);
                }
            }
            assert(after.pfg.fits());
            if k == n {
                self.lemma_run_grows((n - 1) as nat, (n - 1) as nat);
                before.lemma_step_grows();
                assert forall|id: GlobalProjectionId| #![trigger after.pfg.contains(id)]
                    after.pfg.contains(id) implies after.pfg.node(id).points_to.is_prefix_of(
                    after.pfg.node(id).points_to,
                ) by {
                    lemma_prefix_of_itself(after.pfg.node(id).points_to);
                }
            } else {
                self.lemma_run_grows(k, (n - 1) as nat);
                before.lemma_step_grows();
                let early = self.run(k);
                assert forall|id: GlobalProjectionId| #![trigger early.pfg.contains(id)]
                    early.pfg.contains(id) implies after.pfg.contains(id) && early.pfg.node(
                    id,
                ).points_to.is_prefix_of(after.pfg.node(id).points_to) by {
                    assert(before.pfg.contains(id));
                    lemma_prefix_chain(
                        early.pfg.node(id).points_to,
                        before.pfg.node(id).points_to,
                        after.pfg.node(id).points_to,
                    );
                }
            }
        }
    }

    /// Once nothing waits, the run is at rest.
    pub proof fn lemma_run_rests(self, n: nat, m: nat)
        requires
            self.run(n).worklist.len() == 0,
            n <= m,
        ensures
            self.run(m) == self.run(n),
        decreases m,
    {
        if m > n {
            self.lemma_run_rests(n, (m - 1) as nat);
        }
    }

    /// The state in which the run comes to rest is one: whichever numbers of
    /// steps lead to a state in which nothing waits, the state is the same.
    pub proof fn lemma_rest_is_unique(self, n: nat, m: nat)
        requires
            self.run(n).worklist.len() == 0,
            self.run(m).worklist.len() == 0,
        ensures
            self.run(n) == self.run(m),
    {
        if n <= m {
            self.lemma_run_rests(n, m);
        } else {
            self.lemma_run_rests(m, n);
        }
    }
}

/// Every cell holds what it holds.
pub proof fn lemma_grows_into_itself(state: FlowState)
    ensures
        state.grows_into(state),
{
    assert forall|id: GlobalProjectionId| #![trigger state.pfg.contains(id)]
        state.pfg.contains(id) implies state.pfg.node(id).points_to.is_prefix_of(
        state.pfg.node(id).points_to,
    ) by {
        lemma_prefix_of_itself(state.pfg.node(id).points_to);
    }
}

/// What has grown and grows on has grown.
pub proof fn lemma_grows_on(first: FlowState, then: FlowState, last: FlowState)
    requires
        first.grows_into(then),
        then.grows_into(last),
    ensures
        first.grows_into(last),
{
    assert forall|id: GlobalProjectionId| #![trigger first.pfg.contains(id)]
        first.pfg.contains(id) implies last.pfg.contains(id) && first.pfg.node(
        id,
    ).points_to.is_prefix_of(last.pfg.node(id).points_to) by {
        assert(then.pfg.contains(id));
        lemma_prefix_chain(
            first.pfg.node(id).points_to,
            then.pfg.node(id).points_to,
            last.pfg.node(id).points_to,
        );
    }
}

/// An initial part of an initial part is an initial part.
pub proof fn lemma_prefix_chain<A>(a: Seq<A>, b: Seq<A>, c: Seq<A>)
    requires
        a.is_prefix_of(b),
        b.is_prefix_of(c),
    ensures
        a.is_prefix_of(c),
{
    assert(c.subrange(0, a.len() as int) =~= b.subrange(0, a.len() as int)) by {
        assert forall|i: int| 0 <= i < a.len() implies c.subrange(0, a.len() as int)[i]
            == b.subrange(0, a.len() as int)[i] by {
            assert(c.subrange(0, b.len() as int)[i] == b[i]);
        }
    }
}


/// A cell without what it holds.
pub open spec fn shape_of(node: ProjectionNodeView) -> ProjectionNodeView {
    ProjectionNodeView { points_to: Seq::empty(), ..node }
}

impl PfgView {
    /// Whether the two graphs have the same cells with the same access paths,
    /// contexts, destructor sites and edges, and the same dereferencing edges:
    /// they differ at most in what the cells hold and in which objects are
    /// listed as multiply dropped.
    pub open spec fn same_shape(self, other: PfgView) -> bool {
        &&& self.nodes.len() == other.nodes.len()
        &&& self.deref_edges == other.deref_edges
        &&& forall|i: int|
            0 <= i < self.nodes.len() ==> (#[trigger] other.nodes[i]).gid == self.nodes[i].gid
                && other.nodes[i].projection_nodes.len() == self.nodes[i].projection_nodes.len()
        &&& forall|i: int, j: int|
            0 <= i < self.nodes.len() && 0 <= j < self.nodes[i].projection_nodes.len() ==> shape_of(
                #[trigger] other.nodes[i].projection_nodes[j],
            ) == shape_of(self.nodes[i].projection_nodes[j])
    }

    /// Graphs of the same shape have the same cells under the same names.
    pub proof fn lemma_same_shape(self, other: PfgView)
        requires
            self.wf(),
            other.wf(),
            self.same_shape(other),
        ensures
            forall|slot: GlobalLocalId| #![trigger self.has_slot(slot)]
                self.has_slot(slot) == other.has_slot(slot) && (self.has_slot(slot)
                    ==> self.slot_index(slot) == other.slot_index(slot)),
            forall|id: GlobalProjectionId| #![trigger self.contains(id)]
                self.contains(id) == other.contains(id) && (self.contains(id) ==> shape_of(
                    other.node(id),
                ) == shape_of(self.node(id))),
    {
        assert forall|slot: GlobalLocalId| #![trigger self.has_slot(slot)]
            self.has_slot(slot) == other.has_slot(slot) && (self.has_slot(slot) ==> self.slot_index(
                slot,
            ) == other.slot_index(slot)) by {
            if self.has_slot(slot) {
                let i = self.slot_index(slot);
                assert(other.nodes[i].gid == slot);
                other.lemma_slot_index(i);
            }
            if other.has_slot(slot) {
                let i = other.slot_index(slot);
                assert(other.nodes[i].gid == self.nodes[i].gid);
                self.lemma_slot_index(i);
            }
        }
        assert forall|id: GlobalProjectionId| #![trigger self.contains(id)]
            self.contains(id) == other.contains(id) && (self.contains(id) ==> shape_of(
                other.node(id),
            ) == shape_of(self.node(id))) by {
            assert(self.has_slot(id.g_local_id) == other.has_slot(id.g_local_id));
            if self.contains(id) {
                let i = self.slot_index(id.g_local_id);
                assert(other.nodes[i].projection_nodes.len() == self.nodes[i].projection_nodes.len());
                assert(shape_of(other.nodes[i].projection_nodes[id.projection_id as int])
                    == shape_of(self.nodes[i].projection_nodes[id.projection_id as int]));
            }
            if other.contains(id) {
                let i = other.slot_index(id.g_local_id);
                assert(other.nodes[i].projection_nodes.len() == self.nodes[i].projection_nodes.len());
            }
        }
    }

    /// In graphs of the same shape, facts of a cell flow to the same cells.
    pub proof fn lemma_same_shape_targets(self, other: PfgView, cur: GlobalProjectionId, n: int)
        requires
            self.wf(),
            other.wf(),
            self.closed(),
            self.same_shape(other),
            self.contains(cur),
            0 <= n <= self.siblings(cur).len(),
        ensures
            other.sub_level(cur, n) == self.sub_level(cur, n),
            other.same_level(cur, n) == self.same_level(cur, n),
        decreases n,
    {
        self.lemma_same_shape(other);
        if n > 0 {
            self.lemma_same_shape_targets(other, cur, n - 1);
            let at = self.slot_index(cur.g_local_id);
            assert(shape_of(other.nodes[at].projection_nodes[n - 1]) == shape_of(
                self.nodes[at].projection_nodes[n - 1],
            ));
            assert(shape_of(other.node(cur)) == shape_of(self.node(cur)));
            assert(other.is_below(cur, n - 1) == self.is_below(cur, n - 1));
            assert(other.is_above(cur, n - 1) == self.is_above(cur, n - 1));
            if self.is_above(cur, n - 1) {
                let above = self.siblings(cur)[n - 1];
                let suffix = self.node(cur).projection.skip(above.projection.len() as int);
                assert(other.siblings(cur)[n - 1].neighbors == above.neighbors);
                assert(other.node(cur).projection == self.node(cur).projection);
                assert forall|m: int| 0 <= m < above.neighbors.len() implies self.contains(
                    (#[trigger] above.neighbors[m]).neighbor_id,
                ) by {
                    assert(self.contains(
                        self.nodes[at].projection_nodes[n - 1].neighbors[m].neighbor_id,
                    ));
                }
                self.lemma_same_shape_derived(
                    other,
                    above.neighbors,
                    suffix,
                    above.neighbors.len() as int,
                );
            }
        }
    }

    /// In graphs of the same shape, the same cells lie behind the targets of edges.
    pub proof fn lemma_same_shape_derived(
        self,
        other: PfgView,
        edges: Seq<crate::pfg::ProjectionNeighborInfo>,
        suffix: Seq<PlaceElem>,
        m: int,
    )
        requires
            self.wf(),
            other.wf(),
            self.same_shape(other),
            0 <= m <= edges.len(),
            forall|k: int| 0 <= k < edges.len() ==> self.contains((#[trigger] edges[k]).neighbor_id),
        ensures
            other.derived_keys(edges, suffix, m) == self.derived_keys(edges, suffix, m),
        decreases m,
    {
        self.lemma_same_shape(other);
        if m > 0 {
            self.lemma_same_shape_derived(other, edges, suffix, m - 1);
            let target = edges[m - 1].neighbor_id;
            assert(self.contains(target));
            assert(shape_of(other.node(target)) == shape_of(self.node(target)));
            assert(other.derived_key(edges[m - 1], suffix) == self.derived_key(edges[m - 1], suffix));
        }
    }

    /// In graphs of the same shape, a cell that one has the other has, under
    /// the same name.
    pub proof fn lemma_same_shape_cell(self, other: PfgView, key: CellKey)
        requires
            self.wf(),
            other.wf(),
            self.closed(),
            other.closed(),
            self.fits(),
            other.fits(),
            self.same_shape(other),
            self.has_cell(key.call_id, key.local_id, key.projection),
        ensures
            other.has_cell(key.call_id, key.local_id, key.projection),
            other.cell_id(key.call_id, key.local_id, key.projection) == self.cell_id(
                key.call_id,
                key.local_id,
                key.projection,
            ),
            self.contains(self.cell_id(key.call_id, key.local_id, key.projection)),
            self.with_cell(key.call_id, key.local_id, key.projection) == self,
    {
        self.lemma_same_shape(other);
        let gid = GlobalLocalId { def_id: key.call_id.def_id, local_id: key.local_id };
        let at = self.slot_index(gid);
        let ctx = key.call_id.caller_context;
        let j = self.nodes[at].index_of(key.projection, ctx);
        assert(self.has_slot(gid));
        assert(0 <= at < self.nodes.len());
        assert(self.nodes[at].wf());
        assert(other.nodes[at].wf());
        assert(shape_of(other.nodes[at].projection_nodes[j]) == shape_of(
            self.nodes[at].projection_nodes[j],
        ));
        assert(other.nodes[at].projection_nodes[j].matches(key.projection, ctx));
        other.nodes[at].lemma_index_of(key.projection, ctx, j);
        assert(self.with_slot(gid) == self);
        assert(other.with_slot(gid) == other);
        assert(self.with_cell(key.call_id, key.local_id, key.projection) == self);
        assert(other.with_cell(key.call_id, key.local_id, key.projection) == other);
        self.lemma_with_cell(key.call_id, key.local_id, key.projection);
    }
}


/// The item that sends `objects` to the cell `to`.
pub open spec fn item_for(to: GlobalProjectionId, objects: Seq<DropObjectId>) -> PointsToSetView {
    PointsToSetView { g_proj_id: to, points_to: objects }
}

impl PfgView {
    /// The cells below `cur`.
    pub open spec fn below(self, cur: GlobalProjectionId) -> Seq<GlobalProjectionId> {
        self.sub_level(cur, self.siblings(cur).len() as int)
    }

    /// The names of the cells that facts of `cur` flow to along edges.
    pub open spec fn beside(self, cur: GlobalProjectionId) -> Seq<CellKey> {
        self.same_level(cur, self.siblings(cur).len() as int)
    }

    /// Whether the graph has every cell that facts of `cur` flow to along
    /// edges, so that no cell is made when `cur` takes facts in.
    pub open spec fn has_targets(self, cur: GlobalProjectionId) -> bool {
        forall|k: int|
            0 <= k < self.beside(cur).len() ==> self.has_cell(
                (#[trigger] self.beside(cur)[k]).call_id,
                self.beside(cur)[k].local_id,
                self.beside(cur)[k].projection,
            )
    }

    /// Whether the graph has every cell that facts can flow to along edges,
    /// so that no propagation on it makes a cell, whatever waits.
    pub open spec fn saturated(self) -> bool {
        forall|cur: GlobalProjectionId| self.contains(cur) ==> #[trigger] self.has_targets(cur)
    }

    /// The cells that facts of `cur` flow to: the cells below it, then the
    /// cells along edges.
    pub open spec fn flows_to(self, cur: GlobalProjectionId) -> Seq<GlobalProjectionId> {
        self.below(cur) + self.beside(cur).map_values(
            |key: CellKey| self.cell_id(key.call_id, key.local_id, key.projection),
        )
    }
}

impl FlowState {
    /// Where the graph has the cells, `deliver` makes none and sends the
    /// objects to those it finds.
    pub proof fn lemma_deliver_found(self, keys: Seq<CellKey>, objects: Seq<DropObjectId>, n: int)
        requires
            0 <= n <= keys.len(),
            forall|k: int|
                0 <= k < keys.len() ==> self.pfg.has_cell(
                    (#[trigger] keys[k]).call_id,
                    keys[k].local_id,
                    keys[k].projection,
                ),
        ensures
            self.deliver(keys, objects, n).pfg == self.pfg,
            self.deliver(keys, objects, n).worklist == self.worklist + keys.take(n).map_values(
                |key: CellKey|
                    item_for(self.pfg.cell_id(key.call_id, key.local_id, key.projection), objects),
            ),
        decreases n,
    {
        let found = |key: CellKey|
            item_for(self.pfg.cell_id(key.call_id, key.local_id, key.projection), objects);
        if n > 0 {
            self.lemma_deliver_found(keys, objects, n - 1);
            let key = keys[n - 1];
            assert(self.pfg.has_cell(key.call_id, key.local_id, key.projection));
            assert(self.pfg.with_cell(key.call_id, key.local_id, key.projection) == self.pfg);
            assert(self.deliver(keys, objects, n).worklist =~= self.worklist + keys.take(
                n,
            ).map_values(found));
        } else {
            assert(self.worklist + keys.take(0).map_values(found) =~= self.worklist);
        }
    }

    /// Sending objects puts one item for each cell behind the waiting items.
    pub proof fn lemma_send_items(self, targets: Seq<GlobalProjectionId>, objects: Seq<DropObjectId>, n: int)
        requires
            0 <= n <= targets.len(),
        ensures
            self.send(targets, objects, n).pfg == self.pfg,
            self.send(targets, objects, n).worklist == self.worklist + targets.take(n).map_values(
                |to: GlobalProjectionId| item_for(to, objects),
            ),
        decreases n,
    {
        let f = |to: GlobalProjectionId| item_for(to, objects);
        if n > 0 {
            self.lemma_send_items(targets, objects, n - 1);
            assert(self.send(targets, objects, n).worklist =~= self.worklist + targets.take(
                n,
            ).map_values(f));
        } else {
            assert(self.worklist + targets.take(0).map_values(f) =~= self.worklist);
        }
    }

    /// What one propagation does where the cell has the cells that its facts
    /// flow to along edges: the cell absorbs the objects, one item for each
    /// cell that its facts flow to is put behind the waiting items, and the
    /// graph keeps its shape.
    pub proof fn lemma_propagate_makes_no_cell(self, cur: GlobalProjectionId, objects: Seq<DropObjectId>)
        requires
            self.wf(),
            self.pfg.fits(),
            self.pfg.has_targets(cur),
            self.pfg.contains(cur),
            objects.len() > 0,
            objects.no_duplicates(),
            forall|k: int|
                0 <= k < objects.len() ==> !self.pfg.node(cur).points_to.contains(
                    #[trigger] objects[k],
                ) && self.pfg.contains(objects[k].id),
        ensures
            ({
                let after = self.propagate(cur, objects);
                &&& after.wf()
                &&& after.pfg == self.absorb(cur, objects)
                &&& after.pfg.fits()
                &&& self.pfg.same_shape(after.pfg)
                &&& after.worklist == self.worklist + self.pfg.flows_to(cur).map_values(
                    |to: GlobalProjectionId| item_for(to, objects),
                )
                &&& after.pfg.node(cur).points_to == self.pfg.node(cur).points_to + objects
                &&& forall|id: GlobalProjectionId| #![trigger self.pfg.contains(id)]
                    self.pfg.contains(id) == after.pfg.contains(id) && (self.pfg.contains(id) && id
                        != cur ==> after.pfg.node(id).points_to == self.pfg.node(id).points_to)
            }),
    {
        let added = self.pfg.with_points_to(cur, objects);
        let pfg = self.absorb(cur, objects);
        let at = self.pfg.slot_index(cur.g_local_id);
        self.pfg.lemma_with_points_to(cur, objects);
        if pfg != added {
            added.lemma_with_multi_drop(DropObjectId { id: cur });
        }
        assert(pfg.nodes == added.nodes);
        assert(self.pfg.same_shape(pfg)) by {
            assert forall|i: int, j: int|
                0 <= i < self.pfg.nodes.len() && 0 <= j
                    < self.pfg.nodes[i].projection_nodes.len() implies shape_of(
                #[trigger] pfg.nodes[i].projection_nodes[j],
            ) == shape_of(self.pfg.nodes[i].projection_nodes[j]) by {
                if i == at && j == cur.projection_id {
                    assert(pfg.nodes[i].projection_nodes[j] == self.pfg.node(cur).with_points_to(
                        objects,
                    ));
                }
            }
        }
        assert(pfg.fits()) by {
            assert forall|i: int| 0 <= i < pfg.nodes.len() implies (
            #[trigger] pfg.nodes[i]).projection_nodes.len() <= usize::MAX by {
                assert(self.pfg.nodes[i].projection_nodes.len() <= usize::MAX);
            }
        }
        self.pfg.lemma_same_shape(pfg);
        self.lemma_wf_in_grown_graph(pfg);
        let absorbed = FlowState { pfg, worklist: self.worklist };
        let below = pfg.below(cur);
        let keys = pfg.beside(cur);
        lemma_same_shape_flows(self.pfg, pfg, cur);
        absorbed.lemma_send_items(below, objects, below.len() as int);
        let sent = absorbed.send(below, objects, below.len() as int);
        sent.lemma_deliver_found(keys, objects, keys.len() as int);
        let after = self.propagate(cur, objects);
        assert(below.take(below.len() as int) =~= below);
        assert(keys.take(keys.len() as int) =~= keys);
        assert(after.worklist =~= self.worklist + self.pfg.flows_to(cur).map_values(
            |to: GlobalProjectionId| item_for(to, objects),
        )) by {
            assert forall|k: int| 0 <= k < keys.len() implies pfg.cell_id(
                (#[trigger] keys[k]).call_id,
                keys[k].local_id,
                keys[k].projection,
            ) == self.pfg.cell_id(keys[k].call_id, keys[k].local_id, keys[k].projection) by {
                let key = self.pfg.beside(cur)[k];
                assert(self.pfg.has_cell(key.call_id, key.local_id, key.projection));
                self.pfg.lemma_same_shape_cell(pfg, key);
            }
        }
        assert(after.wf()) by {
            lemma_sub_level_contained(pfg, cur, pfg.siblings(cur).len() as int);
            assert forall|m: int| 0 <= m < objects.len() implies pfg.contains(
                (#[trigger] objects[m]).id,
            ) by {
                assert(self.pfg.contains(objects[m].id));
            }
            absorbed.lemma_send(below, objects, below.len() as int);
            sent.lemma_deliver(keys, objects, keys.len() as int);
        }
    }
}

/// In graphs of the same shape, facts of a cell flow to the same cells.
pub proof fn lemma_same_shape_flows(a: PfgView, b: PfgView, cur: GlobalProjectionId)
    requires
        a.wf(),
        b.wf(),
        a.closed(),
        b.closed(),
        a.fits(),
        b.fits(),
        a.has_targets(cur),
        a.same_shape(b),
        a.contains(cur),
    ensures
        b.below(cur) == a.below(cur),
        b.beside(cur) == a.beside(cur),
        b.flows_to(cur) == a.flows_to(cur),
        b.has_targets(cur),
{
    a.lemma_same_shape(b);
    let at = a.slot_index(cur.g_local_id);
    assert(b.siblings(cur).len() == a.siblings(cur).len());
    a.lemma_same_shape_targets(b, cur, a.siblings(cur).len() as int);
    let keys = a.beside(cur);
    assert forall|k: int| 0 <= k < keys.len() implies b.cell_id(
        (#[trigger] keys[k]).call_id,
        keys[k].local_id,
        keys[k].projection,
    ) == a.cell_id(keys[k].call_id, keys[k].local_id, keys[k].projection) by {
        let key = a.beside(cur)[k];
        assert(a.has_cell(key.call_id, key.local_id, key.projection));
        a.lemma_same_shape_cell(b, key);
    }
    assert(b.flows_to(cur) =~= a.flows_to(cur));
    assert forall|k: int| 0 <= k < b.beside(cur).len() implies b.has_cell(
        (#[trigger] b.beside(cur)[k]).call_id,
        b.beside(cur)[k].local_id,
        b.beside(cur)[k].projection,
    ) by {
        let key = a.beside(cur)[k];
        assert(a.has_cell(key.call_id, key.local_id, key.projection));
        a.lemma_same_shape_cell(b, key);
    }
}


/// The steps of facts through a graph: from a cell to the cells that its
/// facts flow to.
pub open spec fn flow_edge(pfg: PfgView) -> spec_fn(GlobalProjectionId, GlobalProjectionId) -> bool {
    |from: GlobalProjectionId, to: GlobalProjectionId|
        pfg.contains(from) && pfg.flows_to(from).contains(to)
}

impl FlowState {
    /// Whether the cell holds the object.
    pub open spec fn holds(self, cell: GlobalProjectionId, object: DropObjectId) -> bool {
        self.pfg.node(cell).points_to.contains(object)
    }

    /// Whether the object waits to be added to the cell.
    pub open spec fn pending(self, cell: GlobalProjectionId, object: DropObjectId) -> bool {
        exists|k: int|
            0 <= k < self.worklist.len() && (#[trigger] self.worklist[k]).g_proj_id == cell
                && self.worklist[k].points_to.contains(object)
    }

    /// Whether `walk` is a way for the object through the graph: its cells
    /// follow each other as facts flow, and none of them holds the object.
    pub open spec fn carries(self, object: DropObjectId, walk: Seq<GlobalProjectionId>) -> bool {
        &&& is_walk(flow_edge(self.pfg), walk)
        &&& forall|i: int|
            0 <= i < walk.len() ==> self.pfg.contains(#[trigger] walk[i]) && !self.holds(
                walk[i],
                object,
            )
    }

    /// Whether a waiting item brings the object to the cell: the item holds
    /// the object, and a way for the object leads from the cell of the item
    /// to the cell.
    pub open spec fn brought(self, cell: GlobalProjectionId, object: DropObjectId) -> bool {
        exists|k: int, walk: Seq<GlobalProjectionId>|
            #![trigger self.worklist[k], self.carries(object, walk)]
            0 <= k < self.worklist.len() && self.worklist[k].points_to.contains(object)
                && self.carries(object, walk) && walk[0] == self.worklist[k].g_proj_id
                && walk.last() == cell
    }

    /// Whether the cell holds the object or a waiting item brings it.
    pub open spec fn due(self, cell: GlobalProjectionId, object: DropObjectId) -> bool {
        self.holds(cell, object) || self.brought(cell, object)
    }

    /// Whether the propagation from `self` makes no cell: every cell to which
    /// a waiting item brings an object has the cells that its facts flow to
    /// along edges. A cell to which nothing is brought may lack them.
    pub open spec fn settled(self) -> bool {
        forall|cell: GlobalProjectionId, object: DropObjectId|
            self.pfg.contains(cell) && #[trigger] self.brought(cell, object)
                ==> self.pfg.has_targets(cell)
    }

    /// What holds of every state `now` on the run from `self`: the graph has
    /// kept its shape; a cell holds what it held and, besides, only what is
    /// due to it; what waits is due to its cell; and every object that a first
    /// item held, or that a cell has taken in, is held or waits wherever it is
    /// to go next.
    pub open spec fn leads_to(self, now: FlowState) -> bool {
        &&& now.wf()
        &&& now.pfg.fits()
        &&& self.pfg.same_shape(now.pfg)
        &&& forall|c: GlobalProjectionId, o: DropObjectId|
            self.pfg.contains(c) && #[trigger] self.holds(c, o) ==> now.holds(c, o)
        &&& forall|c: GlobalProjectionId, o: DropObjectId|
            now.pfg.contains(c) && #[trigger] now.holds(c, o) ==> self.due(c, o)
        &&& forall|k: int, o: DropObjectId|
            0 <= k < now.worklist.len() && #[trigger] now.worklist[k].points_to.contains(o)
                ==> self.due(now.worklist[k].g_proj_id, o)
        &&& forall|k: int, o: DropObjectId|
            0 <= k < self.worklist.len() && #[trigger] self.worklist[k].points_to.contains(o)
                ==> now.holds(self.worklist[k].g_proj_id, o) || now.pending(
                self.worklist[k].g_proj_id,
                o,
            )
        &&& forall|c: GlobalProjectionId, d: GlobalProjectionId, o: DropObjectId|
            #![trigger now.holds(c, o), self.pfg.flows_to(c).contains(d)]
            now.pfg.contains(c) && now.holds(c, o) && !self.holds(c, o) && self.pfg.flows_to(
                c,
            ).contains(d) ==> now.holds(d, o) || now.pending(d, o)
    }

    /// A state leads to itself.
    pub proof fn lemma_leads_to_itself(self)
        requires
            self.wf(),
            self.pfg.fits(),
        ensures
            self.leads_to(self),
    {
        assert forall|k: int, o: DropObjectId|
            0 <= k < self.worklist.len() && #[trigger] self.worklist[k].points_to.contains(
                o,
            ) implies self.due(self.worklist[k].g_proj_id, o) by {
            let cell = self.worklist[k].g_proj_id;
            if !self.holds(cell, o) {
                let walk = seq![cell];
                assert(self.carries(o, walk));
                assert(walk[0] == cell && walk.last() == cell);
            }
        }
        assert forall|k: int, o: DropObjectId|
            0 <= k < self.worklist.len() && #[trigger] self.worklist[k].points_to.contains(
                o,
            ) implies self.holds(self.worklist[k].g_proj_id, o) || self.pending(
            self.worklist[k].g_proj_id,
            o,
        ) by {
            assert(self.worklist[k].g_proj_id == self.worklist[k].g_proj_id);
        }
    }
}

/// The cells that facts of a cell flow to are cells of the graph, where the
/// graph has the cells that they flow to along edges.
pub proof fn lemma_flows_to_contained(pfg: PfgView, cur: GlobalProjectionId, k: int)
    requires
        pfg.wf(),
        pfg.closed(),
        pfg.fits(),
        pfg.has_targets(cur),
        pfg.contains(cur),
        0 <= k < pfg.flows_to(cur).len(),
    ensures
        pfg.contains(pfg.flows_to(cur)[k]),
{
    lemma_sub_level_contained(pfg, cur, pfg.siblings(cur).len() as int);
    if k >= pfg.below(cur).len() {
        let key = pfg.beside(cur)[k - pfg.below(cur).len()];
        assert(pfg.has_cell(key.call_id, key.local_id, key.projection));
        pfg.lemma_same_shape_cell(pfg, key);
    }
}


impl PfgView {
    /// Having the same shape carries over.
    pub proof fn lemma_same_shape_chain(self, middle: PfgView, other: PfgView)
        requires
            self.same_shape(middle),
            middle.same_shape(other),
        ensures
            self.same_shape(other),
    {
        assert forall|i: int| 0 <= i < self.nodes.len() implies (#[trigger] other.nodes[i]).gid
            == self.nodes[i].gid && other.nodes[i].projection_nodes.len()
            == self.nodes[i].projection_nodes.len() by {
            assert(middle.nodes[i].gid == self.nodes[i].gid);
        }
        assert forall|i: int, j: int|
            0 <= i < self.nodes.len() && 0 <= j < self.nodes[i].projection_nodes.len() implies shape_of(
            #[trigger] other.nodes[i].projection_nodes[j],
        ) == shape_of(self.nodes[i].projection_nodes[j]) by {
            assert(middle.nodes[i].gid == self.nodes[i].gid);
            assert(shape_of(middle.nodes[i].projection_nodes[j]) == shape_of(
                self.nodes[i].projection_nodes[j],
            ));
        }
    }
}

impl FlowState {
    /// The cell of the oldest waiting item.
    pub open spec fn next_cell(self) -> GlobalProjectionId {
        self.worklist[0].g_proj_id
    }

    /// What the oldest waiting item brings that is new to its cell.
    pub open spec fn next_news(self) -> Seq<DropObjectId> {
        self.news(self.worklist[0].g_proj_id, self.worklist[0].points_to)
    }

    /// Whether `item` is one of the items that the step from `self` sends: what
    /// is new to the cell of the oldest item, for a cell that its facts flow to.
    pub open spec fn sends(self, start: FlowState, item: PointsToSetView) -> bool {
        exists|j: int|
            0 <= j < start.pfg.flows_to(self.next_cell()).len() && item == item_for(
                #[trigger] start.pfg.flows_to(self.next_cell())[j],
                self.next_news(),
            )
    }

    /// What one step does that makes no cell, said of cells and objects: a
    /// cell holds what it held, and the cell of the item also what is new to it;
    /// what waited still waits, but for the item; and what is new to the cell
    /// of the item waits for every cell that facts of it flow to.
    pub proof fn lemma_step_makes_no_cell(self, start: FlowState)
        requires
            start.wf(),
            start.pfg.fits(),
            self.wf(),
            self.pfg.fits(),
            start.pfg.same_shape(self.pfg),
            self.worklist.len() > 0,
            self.next_news().len() > 0 ==> start.pfg.has_targets(self.next_cell()),
        ensures
            self.step().wf(),
            self.step().pfg.fits(),
            start.pfg.same_shape(self.step().pfg),
            self.pfg.contains(self.next_cell()),
            forall|x: GlobalProjectionId| #![trigger self.pfg.contains(x)]
                self.pfg.contains(x) == self.step().pfg.contains(x),
            forall|x: GlobalProjectionId, o: DropObjectId| #![trigger self.step().holds(x, o)]
                self.pfg.contains(x) ==> (self.step().holds(x, o) <==> self.holds(x, o) || (x
                    == self.next_cell() && self.next_news().contains(o))),
            forall|o: DropObjectId| #![trigger self.next_news().contains(o)]
                self.next_news().contains(o) ==> self.worklist[0].points_to.contains(o)
                    && !self.holds(self.next_cell(), o),
            forall|o: DropObjectId| #![trigger self.worklist[0].points_to.contains(o)]
                self.worklist[0].points_to.contains(o) ==> self.holds(self.next_cell(), o)
                    || self.next_news().contains(o),
            forall|d: GlobalProjectionId, o: DropObjectId| #![trigger self.pending(d, o)]
                self.pending(d, o) ==> self.step().pending(d, o) || (d == self.next_cell()
                    && self.worklist[0].points_to.contains(o)),
            forall|j: int, o: DropObjectId|
                #![trigger start.pfg.flows_to(self.next_cell())[j], self.next_news().contains(o)]
                0 <= j < start.pfg.flows_to(self.next_cell()).len() && self.next_news().contains(o)
                    ==> self.step().pending(start.pfg.flows_to(self.next_cell())[j], o),
            forall|k: int| #![trigger self.step().worklist[k]]
                0 <= k < self.step().worklist.len() ==> (k + 1 < self.worklist.len()
                    && self.step().worklist[k] == self.worklist[k + 1]) || self.sends(
                    start,
                    self.step().worklist[k],
                ),
    {
        let item = self.worklist[0];
        let c = item.g_proj_id;
        let held = self.pfg.node(c).points_to;
        let delta = self.next_news();
        let rest = FlowState { worklist: self.worklist.skip(1), ..self };
        let after = self.step();
        self.lemma_rest_wf();
        lemma_without(item.points_to, held, item.points_to.len() as int);
        assert forall|o: DropObjectId| #![trigger delta.contains(o)]
            delta.contains(o) implies item.points_to.contains(o) && !self.holds(c, o) by {
            let k = choose|k: int| 0 <= k < delta.len() && delta[k] == o;
            let m = choose|m: int| 0 <= m < item.points_to.len() && item.points_to[m] == delta[k];
        }
        assert forall|o: DropObjectId| #![trigger item.points_to.contains(o)]
            item.points_to.contains(o) implies self.holds(c, o) || delta.contains(o) by {
            let m = choose|m: int| 0 <= m < item.points_to.len() && item.points_to[m] == o;
            if !held.contains(item.points_to[m]) {
                assert(delta.contains(item.points_to[m]));
            }
        }
        start.pfg.lemma_same_shape(self.pfg);
        assert(start.pfg.contains(c));
        let targets = start.pfg.flows_to(c);
        if delta.len() > 0 {
            lemma_same_shape_flows(start.pfg, self.pfg, c);
        }
        if delta.len() == 0 {
            assert(after == rest);
            assert forall|d: GlobalProjectionId, o: DropObjectId| #![trigger self.pending(d, o)]
                self.pending(d, o) implies after.pending(d, o) || (d == c
                && item.points_to.contains(o)) by {
                let k = choose|k: int|
                    0 <= k < self.worklist.len() && (#[trigger] self.worklist[k]).g_proj_id == d
                        && self.worklist[k].points_to.contains(o);
                if k > 0 {
                    assert(after.worklist[k - 1] == self.worklist[k]);
                }
            }
        } else {
            assert forall|k: int| 0 <= k < delta.len() implies !rest.pfg.node(c).points_to.contains(
                #[trigger] delta[k],
            ) && rest.pfg.contains(delta[k].id) by {
                assert(delta.contains(delta[k]));
                let m = choose|m: int| 0 <= m < item.points_to.len() && item.points_to[m] == delta[k];
                assert(self.pfg.contains(self.worklist[0].points_to[m].id));
            }
            rest.lemma_propagate_makes_no_cell(c, delta);
            start.pfg.lemma_same_shape_chain(self.pfg, after.pfg);
            let sent = targets.map_values(|to: GlobalProjectionId| item_for(to, delta));
            assert(after.worklist == rest.worklist + sent);
            assert forall|x: GlobalProjectionId, o: DropObjectId| #![trigger after.holds(x, o)]
                self.pfg.contains(x) implies (after.holds(x, o) <==> self.holds(x, o) || (x == c
                && delta.contains(o))) by {
                if x == c {
                    let old_pts = self.pfg.node(c).points_to;
                    let new_pts = after.pfg.node(c).points_to;
                    assert(new_pts == old_pts + delta);
                    if old_pts.contains(o) {
                        let i = choose|i: int| 0 <= i < old_pts.len() && old_pts[i] == o;
                        assert(new_pts[i] == o);
                    }
                    if delta.contains(o) {
                        let i = choose|i: int| 0 <= i < delta.len() && delta[i] == o;
                        assert(new_pts[old_pts.len() + i] == o);
                    }
                    if new_pts.contains(o) {
                        let i = choose|i: int| 0 <= i < new_pts.len() && new_pts[i] == o;
                        if i < old_pts.len() {
                            assert(old_pts[i] == o);
                        } else {
                            assert(delta[i - old_pts.len()] == o);
                        }
                    }
                } else {
                    assert(after.pfg.node(x).points_to == self.pfg.node(x).points_to);
                }
            }
            assert forall|d: GlobalProjectionId, o: DropObjectId| #![trigger self.pending(d, o)]
                self.pending(d, o) implies after.pending(d, o) || (d == c
                && item.points_to.contains(o)) by {
                let k = choose|k: int|
                    0 <= k < self.worklist.len() && (#[trigger] self.worklist[k]).g_proj_id == d
                        && self.worklist[k].points_to.contains(o);
                if k > 0 {
                    assert(after.worklist[k - 1] == self.worklist[k]);
                }
            }
            assert forall|j: int, o: DropObjectId|
                #![trigger targets[j], delta.contains(o)]
                0 <= j < targets.len() && delta.contains(o) implies after.pending(targets[j], o) by {
                let at = rest.worklist.len() + j;
                assert(after.worklist[at] == sent[j]);
                assert(after.worklist[at].g_proj_id == targets[j]);
            }
        }
        assert forall|k: int| #![trigger after.worklist[k]]
            0 <= k < after.worklist.len() implies (k + 1 < self.worklist.len() && after.worklist[k]
            == self.worklist[k + 1]) || self.sends(start, after.worklist[k]) by {
            if delta.len() == 0 {
                assert(rest.worklist[k] == self.worklist[k + 1]);
            } else {
                let sent = targets.map_values(|to: GlobalProjectionId| item_for(to, delta));
                assert(after.worklist == rest.worklist + sent);
                if k >= rest.worklist.len() {
                    let j = k - rest.worklist.len();
                    assert(after.worklist[k] == sent[j]);
                    assert(0 <= j < start.pfg.flows_to(self.next_cell()).len());
                    assert(after.worklist[k] == item_for(
                        start.pfg.flows_to(self.next_cell())[j],
                        self.next_news(),
                    ));
                } else {
                    assert(after.worklist[k] == rest.worklist[k]);
                    assert(rest.worklist[k] == self.worklist[k + 1]);
                }
            }
        }
    }
}


impl FlowState {
    /// A way for an object, with one more cell behind it that does not hold
    /// the object and that facts of the last cell flow to, is a way.
    pub proof fn lemma_longer_way(
        self,
        object: DropObjectId,
        walk: Seq<GlobalProjectionId>,
        next: GlobalProjectionId,
    )
        requires
            self.carries(object, walk),
            self.pfg.contains(next),
            !self.holds(next, object),
            self.pfg.flows_to(walk.last()).contains(next),
        ensures
            self.carries(object, walk.push(next)),
            walk.push(next)[0] == walk[0],
            walk.push(next).last() == next,
    {
        let longer = walk.push(next);
        let edge = flow_edge(self.pfg);
        assert forall|i: int| 0 <= i < longer.len() - 1 implies edge(#[trigger] longer[i], longer[i + 1]) by {
            if i < walk.len() - 1 {
                assert(edge(walk[i], walk[i + 1]));
            } else {
                assert(self.pfg.contains(walk[i]));
            }
        }
        assert forall|i: int| 0 <= i < longer.len() implies self.pfg.contains(#[trigger] longer[i])
            && !self.holds(longer[i], object) by {
            if i < walk.len() {
                assert(self.pfg.contains(walk[i]));
            }
        }
    }

    /// What is due to a cell and new to it is due to every cell that its
    /// facts flow to.
    pub proof fn lemma_due_moves_on(
        self,
        cell: GlobalProjectionId,
        next: GlobalProjectionId,
        object: DropObjectId,
    )
        requires
            self.wf(),
            self.pfg.fits(),
            self.settled(),
            self.pfg.contains(cell),
            self.brought(cell, object),
            self.pfg.flows_to(cell).contains(next),
        ensures
            self.due(next, object),
    {
        let j = choose|j: int| 0 <= j < self.pfg.flows_to(cell).len() && self.pfg.flows_to(cell)[j] == next;
        lemma_flows_to_contained(self.pfg, cell, j);
        if !self.holds(next, object) {
            let (k, walk) = choose|k: int, walk: Seq<GlobalProjectionId>|
                #![trigger self.worklist[k], self.carries(object, walk)]
                0 <= k < self.worklist.len() && self.worklist[k].points_to.contains(object)
                    && self.carries(object, walk) && walk[0] == self.worklist[k].g_proj_id
                    && walk.last() == cell;
            self.lemma_longer_way(object, walk, next);
            assert(self.carries(object, walk.push(next)));
            assert(self.worklist[k].points_to.contains(object));
        }
    }

    /// What is new to the cell of the oldest waiting item of a state on the
    /// run, a waiting item of the start brings to that cell; so the cell has
    /// the cells that its facts flow to.
    pub proof fn lemma_news_are_brought(self, now: FlowState)
        requires
            self.wf(),
            self.pfg.fits(),
            self.settled(),
            self.leads_to(now),
            now.worklist.len() > 0,
        ensures
            self.pfg.contains(now.next_cell()),
            forall|o: DropObjectId| #![trigger now.next_news().contains(o)]
                now.next_news().contains(o) ==> self.brought(now.next_cell(), o),
            now.next_news().len() > 0 ==> self.pfg.has_targets(now.next_cell()),
    {
        let c = now.next_cell();
        let news = now.next_news();
        let item = now.worklist[0];
        self.pfg.lemma_same_shape(now.pfg);
        assert(now.pfg.contains(c));
        lemma_without(item.points_to, now.pfg.node(c).points_to, item.points_to.len() as int);
        assert forall|o: DropObjectId| #![trigger news.contains(o)]
            news.contains(o) implies self.brought(c, o) by {
            let k = choose|k: int| 0 <= k < news.len() && news[k] == o;
            let m = choose|m: int| 0 <= m < item.points_to.len() && item.points_to[m] == news[k];
            assert(now.worklist[0].points_to.contains(o));
            assert(!now.holds(c, o));
            assert(self.due(now.worklist[0].g_proj_id, o));
            if self.holds(c, o) {
                assert(now.holds(c, o));
            }
        }
        if news.len() > 0 {
            assert(news.contains(news[0]));
            assert(self.brought(c, news[0]));
        }
    }

    /// One more step leads on.
    pub proof fn lemma_step_leads_on(self, now: FlowState)
        requires
            self.wf(),
            self.pfg.fits(),
            self.settled(),
            self.leads_to(now),
        ensures
            self.leads_to(now.step()),
    {
        if now.worklist.len() > 0 {
            let after = now.step();
            let c = now.next_cell();
            let news = now.next_news();
            let targets = self.pfg.flows_to(c);
            self.pfg.lemma_same_shape(now.pfg);
            self.lemma_news_are_brought(now);
            now.lemma_step_makes_no_cell(self);
            assert forall|x: GlobalProjectionId, o: DropObjectId|
                self.pfg.contains(x) && #[trigger] self.holds(x, o) implies after.holds(x, o) by {
                assert(now.holds(x, o));
                assert(after.holds(x, o) <==> now.holds(x, o) || (x == c && news.contains(o)));
            }
            assert forall|o: DropObjectId| #![trigger news.contains(o)]
                news.contains(o) implies self.brought(c, o) by {
                assert(now.worklist[0].points_to.contains(o) && !now.holds(c, o));
                assert(self.due(now.worklist[0].g_proj_id, o));
                if self.holds(c, o) {
                    assert(now.holds(c, o));
                }
            }
            assert forall|x: GlobalProjectionId, o: DropObjectId|
                after.pfg.contains(x) && #[trigger] after.holds(x, o) implies self.due(x, o) by {
                assert(now.pfg.contains(x));
                assert(after.holds(x, o) <==> now.holds(x, o) || (x == c && news.contains(o)));
                if now.holds(x, o) {
                } else {
                    assert(news.contains(o));
                }
            }
            assert forall|k: int, o: DropObjectId|
                0 <= k < after.worklist.len() && #[trigger] after.worklist[k].points_to.contains(
                    o,
                ) implies self.due(after.worklist[k].g_proj_id, o) by {
                if k + 1 < now.worklist.len() && after.worklist[k] == now.worklist[k + 1] {
                    assert(now.worklist[k + 1].points_to.contains(o));
                } else {
                    assert(now.sends(self, after.worklist[k]));
                    let j = choose|j: int|
                        0 <= j < targets.len() && after.worklist[k] == item_for(
                            #[trigger] targets[j],
                            news,
                        );
                    assert(news.contains(o));
                    assert(self.brought(c, o));
                    assert(self.pfg.flows_to(c)[j] == targets[j]);
                    self.lemma_due_moves_on(c, targets[j], o);
                }
            }
            assert forall|k: int, o: DropObjectId|
                0 <= k < self.worklist.len() && #[trigger] self.worklist[k].points_to.contains(
                    o,
                ) implies after.holds(self.worklist[k].g_proj_id, o) || after.pending(
                self.worklist[k].g_proj_id,
                o,
            ) by {
                let x = self.worklist[k].g_proj_id;
                assert(self.pfg.contains(x));
                assert(now.pfg.contains(x));
                assert(after.holds(x, o) <==> now.holds(x, o) || (x == c && news.contains(o)));
                if !now.holds(x, o) {
                    assert(now.pending(x, o));
                    if !after.pending(x, o) {
                        assert(x == c && now.worklist[0].points_to.contains(o));
                        assert(now.holds(c, o) || news.contains(o));
                    }
                }
            }
            assert forall|x: GlobalProjectionId, d: GlobalProjectionId, o: DropObjectId|
                #![trigger after.holds(x, o), self.pfg.flows_to(x).contains(d)]
                after.pfg.contains(x) && after.holds(x, o) && !self.holds(x, o)
                    && self.pfg.flows_to(x).contains(d) implies after.holds(d, o) || after.pending(
                d,
                o,
            ) by {
                assert(now.pfg.contains(x));
                assert(after.holds(x, o) <==> now.holds(x, o) || (x == c && news.contains(o)));
                let j = choose|j: int|
                    0 <= j < self.pfg.flows_to(x).len() && self.pfg.flows_to(x)[j] == d;
                assert(self.pfg.contains(x));
                assert(self.due(x, o));
                assert(self.brought(x, o));
                lemma_flows_to_contained(self.pfg, x, j);
                assert(now.pfg.contains(d));
                assert(after.holds(d, o) <==> now.holds(d, o) || (d == c && news.contains(o)));
                if now.holds(x, o) {
                    assert(now.holds(d, o) || now.pending(d, o));
                    if !now.holds(d, o) && !after.pending(d, o) {
                        assert(d == c && now.worklist[0].points_to.contains(o));
                        assert(now.holds(c, o) || news.contains(o));
                    }
                } else {
                    assert(x == c && news.contains(o));
                    assert(after.pending(targets[j], o));
                }
            }
        }
    }

    /// Every state of a run that makes no cell is one that the first state
    /// leads to.
    pub proof fn lemma_run_leads_on(self, n: nat)
        requires
            self.wf(),
            self.pfg.fits(),
            self.settled(),
        ensures
            self.leads_to(self.run(n)),
        decreases n,
    {
        if n == 0 {
            self.lemma_leads_to_itself();
        } else {
            self.lemma_run_leads_on((n - 1) as nat);
            self.lemma_step_leads_on(self.run((n - 1) as nat));
        }
    }

    /// Where nothing waits any more, an object has come to every cell of a way for it.
    pub proof fn lemma_way_is_gone(
        self,
        now: FlowState,
        object: DropObjectId,
        walk: Seq<GlobalProjectionId>,
        k: int,
        i: int,
    )
        requires
            self.leads_to(now),
            now.worklist.len() == 0,
            0 <= k < self.worklist.len(),
            self.worklist[k].points_to.contains(object),
            self.carries(object, walk),
            walk[0] == self.worklist[k].g_proj_id,
            self.wf(),
            self.pfg.fits(),
            0 <= i < walk.len(),
        ensures
            now.holds(walk[i], object),
        decreases i,
    {
        self.pfg.lemma_same_shape(now.pfg);
        if i == 0 {
            assert(now.holds(self.worklist[k].g_proj_id, object) || now.pending(
                self.worklist[k].g_proj_id,
                object,
            ));
        } else {
            self.lemma_way_is_gone(now, object, walk, k, i - 1);
            let x = walk[i - 1];
            let d = walk[i];
            assert(flow_edge(self.pfg)(walk[i - 1], walk[i]));
            assert(self.pfg.contains(x) && !self.holds(x, object));
            assert(now.pfg.contains(x));
            assert(now.holds(x, object) && self.pfg.flows_to(x).contains(d));
            assert(now.holds(d, object) || now.pending(d, object));
        }
    }

    /// What the cells hold when a propagation that makes no cell has come to
    /// rest: a cell holds an object if and only if it held it at the start
    /// or an item that waited at the start brings it.
    pub proof fn lemma_rest_holds_what_is_due(self, n: nat, cell: GlobalProjectionId, object: DropObjectId)
        requires
            self.wf(),
            self.pfg.fits(),
            self.settled(),
            self.run(n).worklist.len() == 0,
            self.pfg.contains(cell),
        ensures
            self.run(n).pfg.contains(cell),
            self.run(n).holds(cell, object) <==> self.due(cell, object),
    {
        let now = self.run(n);
        self.lemma_run_leads_on(n);
        self.pfg.lemma_same_shape(now.pfg);
        if self.due(cell, object) {
            if self.holds(cell, object) {
                assert(now.holds(cell, object));
            } else {
                let (k, walk) = choose|k: int, walk: Seq<GlobalProjectionId>|
                    #![trigger self.worklist[k], self.carries(object, walk)]
                    0 <= k < self.worklist.len() && self.worklist[k].points_to.contains(object)
                        && self.carries(object, walk) && walk[0] == self.worklist[k].g_proj_id
                        && walk.last() == cell;
                self.lemma_way_is_gone(now, object, walk, k, walk.len() - 1);
            }
        }
        if now.holds(cell, object) {
            assert(now.pfg.contains(cell));
            assert(self.due(cell, object));
        }
    }
}

/// The order in which the waiting facts are taken up does not matter where
/// the propagation makes no cell: two runs whose first worklists hold the
/// same items, in whatever order, come to rest with the same cells, each
/// holding the same objects. Where a cell is made on the way, it is made
/// without what the cells above it hold by then, and the order can matter.
pub proof fn lemma_confluence(
    pfg: PfgView,
    first: Seq<PointsToSetView>,
    second: Seq<PointsToSetView>,
    n: nat,
    m: nat,
    cell: GlobalProjectionId,
)
    requires
        (FlowState { pfg, worklist: first }).wf(),
        (FlowState { pfg, worklist: second }).wf(),
        pfg.fits(),
        (FlowState { pfg, worklist: first }).settled(),
        first.to_multiset() == second.to_multiset(),
        (FlowState { pfg, worklist: first }).run(n).worklist.len() == 0,
        (FlowState { pfg, worklist: second }).run(m).worklist.len() == 0,
        pfg.contains(cell),
    ensures
        (FlowState { pfg, worklist: first }).run(n).pfg.contains(cell),
        (FlowState { pfg, worklist: second }).run(m).pfg.contains(cell),
        (FlowState { pfg, worklist: first }).run(n).pfg.node(cell).points_to.to_set() == (FlowState {
            pfg,
            worklist: second,
        }).run(m).pfg.node(cell).points_to.to_set(),
{
    let a = FlowState { pfg, worklist: first };
    let b = FlowState { pfg, worklist: second };
    let left = a.run(n).pfg.node(cell).points_to;
    let right = b.run(m).pfg.node(cell).points_to;
    lemma_same_items_settle_the_same(a, b);
    assert forall|object: DropObjectId| left.contains(object) == right.contains(object) by {
        a.lemma_rest_holds_what_is_due(n, cell, object);
        b.lemma_rest_holds_what_is_due(m, cell, object);
        if a.brought(cell, object) {
            lemma_same_items_bring_the_same(a, b, cell, object);
        }
        if b.brought(cell, object) {
            lemma_same_items_bring_the_same(b, a, cell, object);
        }
    }
    a.lemma_rest_holds_what_is_due(n, cell, arbitrary());
    b.lemma_rest_holds_what_is_due(m, cell, arbitrary());
    assert(left.to_set() =~= right.to_set());
}

/// Where the propagation from the items of one worklist makes no cell, that
/// from the same items in another order makes none.
pub proof fn lemma_same_items_settle_the_same(a: FlowState, b: FlowState)
    requires
        a.pfg == b.pfg,
        a.worklist.to_multiset() == b.worklist.to_multiset(),
        a.settled(),
    ensures
        b.settled(),
{
    assert forall|cell: GlobalProjectionId, object: DropObjectId|
        b.pfg.contains(cell) && #[trigger] b.brought(cell, object) implies b.pfg.has_targets(
        cell,
    ) by {
        lemma_same_items_bring_the_same(b, a, cell, object);
    }
}

/// A propagation that makes no cell is bounded by its first graph: every
/// state of the run has the cells of the first, with their access paths,
/// destructor sites and edges, so that only what the cells hold can grow.
pub proof fn lemma_settled_run_keeps_its_cells(state: FlowState, n: nat)
    requires
        state.wf(),
        state.pfg.fits(),
        state.settled(),
    ensures
        state.pfg.same_shape(state.run(n).pfg),
        forall|id: GlobalProjectionId| #![trigger state.run(n).pfg.contains(id)]
            state.run(n).pfg.contains(id) == state.pfg.contains(id),
{
    state.lemma_run_leads_on(n);
    state.pfg.lemma_same_shape(state.run(n).pfg);
}

/// A propagation on a saturated graph makes no cell, whatever waits.
pub proof fn lemma_saturated_is_settled(state: FlowState)
    requires
        state.pfg.saturated(),
    ensures
        state.settled(),
{
}

/// What the items of one worklist bring, the same items in another order bring.
proof fn lemma_same_items_bring_the_same(
    a: FlowState,
    b: FlowState,
    cell: GlobalProjectionId,
    object: DropObjectId,
)
    requires
        a.pfg == b.pfg,
        a.worklist.to_multiset() == b.worklist.to_multiset(),
        a.brought(cell, object),
    ensures
        b.brought(cell, object),
{
    let (k, walk) = choose|k: int, walk: Seq<GlobalProjectionId>|
        #![trigger a.worklist[k], a.carries(object, walk)]
        0 <= k < a.worklist.len() && a.worklist[k].points_to.contains(object) && a.carries(
            object,
            walk,
        ) && walk[0] == a.worklist[k].g_proj_id && walk.last() == cell;
    let item = a.worklist[k];
    a.worklist.to_multiset_ensures();
    b.worklist.to_multiset_ensures();
    assert(a.worklist.contains(item));
    assert(a.worklist.to_multiset().count(item) > 0);
    assert(b.worklist.to_multiset().count(item) > 0);
    assert(b.worklist.contains(item));
    let j = choose|j: int| 0 <= j < b.worklist.len() && b.worklist[j] == item;
    assert(b.carries(object, walk));
    assert(b.worklist[j].points_to.contains(object));
}


impl ExpandState {
    /// Once no call waits, the expansion is at rest.
    pub proof fn lemma_run_rests(self, functions: Seq<FunctionInfo>, n: nat, m: nat)
        requires
            self.run(functions, n).queue.len() == 0,
            n <= m,
        ensures
            self.run(functions, m) == self.run(functions, n),
        decreases m,
    {
        if m > n {
            self.lemma_run_rests(functions, n, (m - 1) as nat);
        }
    }
}

/// The result of the analysis is one: whichever numbers of steps bring the
/// expansion and the propagation to rest, the state is the same.
pub proof fn lemma_analysis_is_unique(
    ctxt: &AnalysisContext,
    entry: CtxtSenCallId,
    n: nat,
    m: nat,
    n2: nat,
    m2: nat,
)
    requires
        analysed(ctxt, entry, n, m).queue.len() == 0,
        analysed(ctxt, entry, n, m).flow.worklist.len() == 0,
        analysed(ctxt, entry, n2, m2).queue.len() == 0,
        analysed(ctxt, entry, n2, m2).flow.worklist.len() == 0,
    ensures
        analysed(ctxt, entry, n, m) == analysed(ctxt, entry, n2, m2),
{
    let start = ctxt.expand_state(seq![entry]);
    let functions = ctxt.cfgs.functions@;
    if n <= n2 {
        start.lemma_run_rests(functions, n, n2);
    } else {
        start.lemma_run_rests(functions, n2, n);
    }
    let expanded = start.run(functions, n);
    expanded.flow.lemma_rest_is_unique(m, m2);
}

} // verus!
