//! One step of the propagation: the objects that are new to a cell are added
//! to its points-to set and sent on to the cells that they flow to.

use vstd::prelude::*;
use std::collections::VecDeque;
use crate::analysis::{
    copy_objects, flow_of, push_item, CellKey, FlowState, PointsToSet, PointsToSetView,
};
use crate::ids::{CtxtSenCallId, DropObjectId, GlobalLocalId, GlobalProjectionId, LocalId};
use crate::ir::PlaceElem;
use crate::pfg::{Demands, PfgView, PointerFlowGraph, ProjectionNeighborInfo, ProjectionNodeView};

verus! {

impl PfgView {
    /// The cells of the slot of `cur`.
    pub open spec fn siblings(self, cur: GlobalProjectionId) -> Seq<ProjectionNodeView> {
        self.nodes[self.slot_index(cur.g_local_id)].projection_nodes
    }

    /// Whether the cell at position `k` of the slot of `cur` stands for a longer
    /// access path of the same slot in the same context.
    pub open spec fn is_below(self, cur: GlobalProjectionId, k: int) -> bool {
        let me = self.node(cur);
        let other = self.siblings(cur)[k];
        &&& k != cur.projection_id
        &&& me.caller_context == other.caller_context
        &&& me.projection.is_prefix_of(other.projection)
    }

    /// Whether the cell at position `k` of the slot of `cur` stands for an
    /// initial part of the access path of `cur`, or for that path itself, in the
    /// same context.
    pub open spec fn is_above(self, cur: GlobalProjectionId, k: int) -> bool {
        let me = self.node(cur);
        let other = self.siblings(cur)[k];
        me.caller_context == other.caller_context && other.projection.is_prefix_of(me.projection)
    }

    /// The cells below `cur` among the first `n` cells of its slot.
    pub open spec fn sub_level(self, cur: GlobalProjectionId, n: int) -> Seq<GlobalProjectionId>
        decreases n,
    {
        if n <= 0 {
            Seq::empty()
        } else if self.is_below(cur, n - 1) {
            self.sub_level(cur, n - 1).push(
                GlobalProjectionId { g_local_id: cur.g_local_id, projection_id: (n - 1) as usize },
            )
        } else {
            self.sub_level(cur, n - 1)
        }
    }

    /// The name of the cell that lies as far behind the target of `edge` as
    /// `suffix` says.
    pub open spec fn derived_key(self, edge: ProjectionNeighborInfo, suffix: Seq<PlaceElem>) -> CellKey {
        let target = edge.neighbor_id;
        CellKey {
            call_id: CtxtSenCallId {
                def_id: target.g_local_id.def_id,
                caller_context: self.node(target).caller_context,
            },
            local_id: target.g_local_id.local_id,
            projection: self.node(target).projection + suffix,
        }
    }

    /// The names derived from the first `m` of the edges.
    pub open spec fn derived_keys(
        self,
        edges: Seq<ProjectionNeighborInfo>,
        suffix: Seq<PlaceElem>,
        m: int,
    ) -> Seq<CellKey>
        decreases m,
    {
        if m <= 0 {
            Seq::empty()
        } else {
            self.derived_keys(edges, suffix, m - 1).push(self.derived_key(edges[m - 1], suffix))
        }
    }

    /// The names of the cells that facts of `cur` flow to along the edges of
    /// the first `n` cells of its slot: for every cell above `cur`, and for
    /// every edge of that cell, the cell that lies behind the target of the
    /// edge as `cur` lies behind the cell.
    pub open spec fn same_level(self, cur: GlobalProjectionId, n: int) -> Seq<CellKey>
        decreases n,
    {
        if n <= 0 {
            Seq::empty()
        } else if self.is_above(cur, n - 1) {
            let above = self.siblings(cur)[n - 1];
            self.same_level(cur, n - 1) + self.derived_keys(
                above.neighbors,
                self.node(cur).projection.skip(above.projection.len() as int),
                above.neighbors.len() as int,
            )
        } else {
            self.same_level(cur, n - 1)
        }
    }
}

/// The first `n` objects of `incoming` without those that `held` holds.
pub open spec fn without(incoming: Seq<DropObjectId>, held: Seq<DropObjectId>, n: int) -> Seq<
    DropObjectId,
>
    decreases n,
{
    if n <= 0 {
        Seq::empty()
    } else if held.contains(incoming[n - 1]) {
        without(incoming, held, n - 1)
    } else {
        without(incoming, held, n - 1).push(incoming[n - 1])
    }
}

impl FlowState {
    /// The state in which `objects` wait to be added to the first `n` of the cells.
    pub open spec fn send(self, targets: Seq<GlobalProjectionId>, objects: Seq<DropObjectId>, n: int) -> Self
        decreases n,
    {
        if n <= 0 {
            self
        } else {
            let sent = self.send(targets, objects, n - 1);
            FlowState {
                worklist: sent.worklist.push(
                    PointsToSetView { g_proj_id: targets[n - 1], points_to: objects },
                ),
                ..sent
            }
        }
    }

    /// The state in which the cells of the first `n` names were found or
    /// made, one after the other, and `objects` wait to be added to each.
    pub open spec fn deliver(self, keys: Seq<CellKey>, objects: Seq<DropObjectId>, n: int) -> Self
        decreases n,
    {
        if n <= 0 {
            self
        } else {
            let sent = self.deliver(keys, objects, n - 1);
            FlowState {
                pfg: sent.pfg.with_cell(
                    keys[n - 1].call_id,
                    keys[n - 1].local_id,
                    keys[n - 1].projection,
                ),
                worklist: sent.worklist.push(
                    PointsToSetView { g_proj_id: sent.cell_id(keys[n - 1]), points_to: objects },
                ),
            }
        }
    }

    /// The graph after `objects` were added to the points-to set of `cur`: the
    /// cell holds them behind what it held, and where it has destructor sites
    /// and now holds more than one object, the object that it names is listed
    /// as multiply dropped.
    pub open spec fn absorb(self, cur: GlobalProjectionId, objects: Seq<DropObjectId>) -> PfgView {
        let added = self.pfg.with_points_to(cur, objects);
        if added.node(cur).cs_drop_spans.len() > 0 && added.node(cur).points_to.len() > 1 {
            added.with_multi_drop(DropObjectId { id: cur })
        } else {
            added
        }
    }

    /// The state after `objects`, all new to `cur`, were propagated: the state
    /// itself where there are none. Else the cell absorbs them, and they wait to
    /// be added, first to the cells below `cur`, then to the cells that the
    /// edges of the cells above `cur` lead to, those being made where the graph
    /// does not have them.
    pub open spec fn propagate(self, cur: GlobalProjectionId, objects: Seq<DropObjectId>) -> Self {
        if objects.len() == 0 {
            self
        } else {
            let pfg = self.absorb(cur, objects);
            let n = pfg.siblings(cur).len() as int;
            let below = pfg.sub_level(cur, n);
            let keys = pfg.same_level(cur, n);
            (FlowState { pfg, worklist: self.worklist }).send(
                below,
                objects,
                below.len() as int,
            ).deliver(keys, objects, keys.len() as int)
        }
    }

    /// The objects of `incoming` that the cell `cur` does not hold.
    pub open spec fn news(self, cur: GlobalProjectionId, incoming: Seq<DropObjectId>) -> Seq<
        DropObjectId,
    > {
        without(incoming, self.pfg.node(cur).points_to, incoming.len() as int)
    }

    /// The state after the oldest waiting item was taken up: what it brings
    /// that is new to its cell is propagated.
    pub open spec fn step(self) -> Self {
        if self.worklist.len() == 0 {
            self
        } else {
            let item = self.worklist[0];
            let rest = FlowState { worklist: self.worklist.skip(1), ..self };
            rest.propagate(item.g_proj_id, self.news(item.g_proj_id, item.points_to))
        }
    }

    /// The state after `n` steps.
    pub open spec fn run(self, n: nat) -> Self
        decreases n,
    {
        if n == 0 {
            self
        } else {
            self.run((n - 1) as nat).step()
        }
    }
}


/// A cell to find or make, as the propagation keeps it.
pub struct CellRequest {
    pub call_id: CtxtSenCallId,
    pub local_id: LocalId,
    pub projection: Vec<PlaceElem>,
}

impl View for CellRequest {
    type V = CellKey;

    open spec fn view(&self) -> CellKey {
        CellKey { call_id: self.call_id, local_id: self.local_id, projection: self.projection@ }
    }
}

/// The requests as mathematical values.
pub open spec fn keys_view(requests: Seq<CellRequest>) -> Seq<CellKey> {
    requests.map_values(|request: CellRequest| request@)
}

/// The access path `path` followed by what `whole` holds from position `from` on.
fn extended_path(path: &Vec<PlaceElem>, whole: &Vec<PlaceElem>, from: usize) -> (longer: Vec<PlaceElem>)
    requires
        from <= whole@.len(),
    ensures
        longer@ == path@ + whole@.skip(from as int),
{
    let mut longer: Vec<PlaceElem> = Vec::new();
    let mut i: usize = 0;
    while i < path.len()
        invariant
            i <= path.len(),
            longer@ == path@.take(i as int),
        decreases path.len() - i,
    {
        longer.push(path[i]);
        i = i + 1;
    }
    assert(path@.take(path@.len() as int) =~= path@);
    let mut j: usize = from;
    while j < whole.len()
        invariant
            from <= j <= whole.len(),
            longer@ == path@ + whole@.subrange(from as int, j as int),
        decreases whole.len() - j,
    {
        longer.push(whole[j]);
        assert(whole@.subrange(from as int, j + 1) =~= whole@.subrange(from as int, j as int).push(
            whole@[j as int],
        ));
        j = j + 1;
    }
    assert(whole@.subrange(from as int, whole@.len() as int) =~= whole@.skip(from as int));
    longer
}

/// The cells below `cur` in its slot, which stands at position `at`.
fn cells_below(pfg: &PointerFlowGraph, cur: GlobalProjectionId, at: usize) -> (below: Vec<
    GlobalProjectionId,
>)
    requires
        pfg@.wf(),
        pfg@.contains(cur),
        at == pfg@.slot_index(cur.g_local_id),
    ensures
        below@ == pfg@.sub_level(cur, pfg@.siblings(cur).len() as int),
        forall|k: int| 0 <= k < below@.len() ==> pfg@.contains(#[trigger] below@[k]),
{
    let me = &pfg.nodes[at].projection_nodes[cur.projection_id];
    let mut below: Vec<GlobalProjectionId> = Vec::new();
    let mut k: usize = 0;
    while k < pfg.nodes[at].projection_nodes.len()
        invariant
            k <= pfg.nodes@[at as int].projection_nodes@.len(),
            pfg@.contains(cur),
            at == pfg@.slot_index(cur.g_local_id),
            0 <= at < pfg.nodes@.len(),
            *me == pfg.nodes@[at as int].projection_nodes@[cur.projection_id as int],
            below@ == pfg@.sub_level(cur, k as int),
            forall|j: int| 0 <= j < below@.len() ==> pfg@.contains(#[trigger] below@[j]),
        decreases pfg.nodes@[at as int].projection_nodes@.len() - k,
    {
        let other = &pfg.nodes[at].projection_nodes[k];
        assert(other@ == pfg@.siblings(cur)[k as int]);
        assert(me@ == pfg@.node(cur));
        if k != cur.projection_id && me.caller_context.is_same(&other.caller_context)
            && me.is_prefix_of(&other.projection) {
            below.push(GlobalProjectionId::new(cur.g_local_id, k));
        }
        k = k + 1;
    }
    below
}

/// The names of the cells that facts of `cur` flow to along edges; the slot of
/// `cur` stands at position `at`.
fn cells_beside(pfg: &PointerFlowGraph, cur: GlobalProjectionId, at: usize) -> (beside: Vec<
    CellRequest,
>)
    requires
        pfg@.wf(),
        pfg@.closed(),
        pfg@.contains(cur),
        at == pfg@.slot_index(cur.g_local_id),
    ensures
        keys_view(beside@) == pfg@.same_level(cur, pfg@.siblings(cur).len() as int),
        forall|k: int|
            0 <= k < beside@.len() ==> pfg@.has_slot(
                GlobalLocalId {
                    def_id: (#[trigger] beside@[k]).call_id.def_id,
                    local_id: beside@[k].local_id,
                },
            ),
{
    let me = &pfg.nodes[at].projection_nodes[cur.projection_id];
    let mut beside: Vec<CellRequest> = Vec::new();
    assert(keys_view(beside@) =~= Seq::<CellKey>::empty());
    let mut k: usize = 0;
    while k < pfg.nodes[at].projection_nodes.len()
        invariant
            k <= pfg.nodes@[at as int].projection_nodes@.len(),
            pfg@.wf(),
            pfg@.closed(),
            pfg@.contains(cur),
            at == pfg@.slot_index(cur.g_local_id),
            0 <= at < pfg.nodes@.len(),
            *me == pfg.nodes@[at as int].projection_nodes@[cur.projection_id as int],
            keys_view(beside@) == pfg@.same_level(cur, k as int),
            forall|j: int|
                0 <= j < beside@.len() ==> pfg@.has_slot(
                    GlobalLocalId {
                        def_id: (#[trigger] beside@[j]).call_id.def_id,
                        local_id: beside@[j].local_id,
                    },
                ),
        decreases pfg.nodes@[at as int].projection_nodes@.len() - k,
    {
        let above = &pfg.nodes[at].projection_nodes[k];
        assert(above@ == pfg@.siblings(cur)[k as int]);
        assert(me@ == pfg@.node(cur));
        if me.caller_context.is_same(&above.caller_context) && above.is_prefix_of(&me.projection) {
            let ghost found = keys_view(beside@);
            let ghost suffix = me.projection@.skip(above.projection@.len() as int);
            let mut m: usize = 0;
            while m < above.neighbors.len()
                invariant
                    m <= above.neighbors.len(),
                    pfg@.wf(),
                    pfg@.closed(),
                    0 <= at < pfg.nodes@.len(),
                    k < pfg.nodes@[at as int].projection_nodes@.len(),
                    *above == pfg.nodes@[at as int].projection_nodes@[k as int],
                    above.projection@.len() <= me.projection@.len(),
                    suffix == me.projection@.skip(above.projection@.len() as int),
                    keys_view(beside@) == found + pfg@.derived_keys(
                        above.neighbors@,
                        suffix,
                        m as int,
                    ),
                    forall|j: int|
                        0 <= j < beside@.len() ==> pfg@.has_slot(
                            GlobalLocalId {
                                def_id: (#[trigger] beside@[j]).call_id.def_id,
                                local_id: beside@[j].local_id,
                            },
                        ),
                decreases above.neighbors.len() - m,
            {
                let target = above.neighbors[m].neighbor_id;
                assert(pfg@.contains(target)) by {
                    assert(pfg@.contains(
                        pfg@.nodes[at as int].projection_nodes[k as int].neighbors[m as int].neighbor_id,
                    ));
                }
                let node = pfg.get_projection_node(target);
                let request = CellRequest {
                    call_id: CtxtSenCallId::new(target.g_local_id.def_id, node.caller_context),
                    local_id: target.g_local_id.local_id,
                    projection: extended_path(&node.projection, &me.projection, above.projection.len()),
                };
                let ghost before = keys_view(beside@);
                assert(request@ == pfg@.derived_key(above.neighbors@[m as int], suffix));
                beside.push(request);
                assert(keys_view(beside@) =~= before.push(request@));
                assert(found + pfg@.derived_keys(above.neighbors@, suffix, m + 1) =~= (found
                    + pfg@.derived_keys(above.neighbors@, suffix, m as int)).push(request@));
                m = m + 1;
            }
        }
        k = k + 1;
    }
    beside
}


/// Adds `points_to`, all new to `cur`, to the points-to set of `cur` and sends
/// them on.
pub(crate) fn propagate(
    pfg: &mut PointerFlowGraph,
    worklist: &mut VecDeque<PointsToSet>,
    cur: GlobalProjectionId,
    points_to: &Vec<DropObjectId>,
    Ghost(demands): Ghost<Demands>,
)
    requires
        flow_of(old(pfg), old(worklist)).wf(),
        old(pfg)@.meets(demands),
        old(pfg)@.contains(cur),
        points_to@.no_duplicates(),
        forall|k: int|
            0 <= k < points_to@.len() ==> !old(pfg)@.node(cur).points_to.contains(
                #[trigger] points_to@[k],
            ) && old(pfg)@.contains(points_to@[k].id),
    ensures
        flow_of(final(pfg), final(worklist)) == flow_of(old(pfg), old(worklist)).propagate(
            cur,
            points_to@,
        ),
        flow_of(final(pfg), final(worklist)).wf(),
        forall|id: GlobalProjectionId| #![trigger final(pfg)@.node(id)]
            old(pfg)@.contains(id) ==> final(pfg)@.contains(id) && old(pfg)@.node(
                id,
            ).points_to.is_prefix_of(final(pfg)@.node(id).points_to),
        final(pfg)@.node(cur).points_to == old(pfg)@.node(cur).points_to + points_to@,
        forall|slot: GlobalLocalId| final(pfg)@.has_slot(slot) == old(pfg)@.has_slot(slot),
        final(pfg)@.meets(demands),
{
    let ghost s0 = flow_of(pfg, worklist);
    let ghost objects = points_to@;
    if points_to.len() == 0 {
        assert(s0.pfg.node(cur).points_to + objects =~= s0.pfg.node(cur).points_to);
        assert forall|id: GlobalProjectionId| s0.pfg.contains(id) implies s0.pfg.node(
            id,
        ).points_to.is_prefix_of(s0.pfg.node(id).points_to) by {
            lemma_prefix_of_itself(s0.pfg.node(id).points_to);
        }
        return ;
    }
    let at = pfg.find_node(cur.g_local_id).unwrap();
    let ghost before = *pfg;
    pfg.nodes[at].projection_nodes[cur.projection_id].extend_points_to(points_to);
    proof {
        crate::pfg::lemma_view_of_replaced_node(before, *pfg, cur, at as int);
        s0.pfg.lemma_with_points_to(cur, objects);
        s0.pfg.lemma_same_cells_keep(pfg@, demands.slot_ok, demands.site_ok);
    }
    let node = &pfg.nodes[at].projection_nodes[cur.projection_id];
    assert(node@ == pfg@.node(cur));
    if node.cs_drop_spans.len() > 0 && node.points_to.len() > 1 {
        proof {
            pfg@.lemma_with_multi_drop(DropObjectId { id: cur });
            pfg@.lemma_same_nodes_keep(
                pfg@.with_multi_drop(DropObjectId { id: cur }),
                demands.slot_ok,
                demands.site_ok,
            );
        }
        pfg.insert_multi_drop_object(DropObjectId::from(cur));
    }
    let ghost g1 = pfg@;
    assert(g1 == s0.absorb(cur, objects));
    proof {
        assert forall|id: GlobalProjectionId| g1.contains(id) == s0.pfg.contains(id) by {}
        assert forall|slot: GlobalLocalId| g1.has_slot(slot) == s0.pfg.has_slot(slot) by {
            lemma_same_slots(s0.pfg, g1, slot);
        }
        assert(g1.slot_index(cur.g_local_id) == at);
        s0.lemma_wf_in_grown_graph(g1);
        assert forall|id: GlobalProjectionId| #![trigger g1.node(id)]
            s0.pfg.contains(id) implies s0.pfg.node(id).points_to.is_prefix_of(
            g1.node(id).points_to,
        ) by {
            if id == cur {
                lemma_prefix_of_longer(s0.pfg.node(id).points_to, objects);
            } else {
                lemma_prefix_of_itself(s0.pfg.node(id).points_to);
            }
        }
    }
    let below = cells_below(pfg, cur, at);
    let beside = cells_beside(pfg, cur, at);
    let ghost absorbed = FlowState { pfg: g1, worklist: s0.worklist };
    let mut i: usize = 0;
    while i < below.len()
        invariant
            i <= below.len(),
            pfg@ == g1,
            objects == points_to@,
            objects.no_duplicates(),
            forall|k: int| 0 <= k < objects.len() ==> g1.contains((#[trigger] objects[k]).id),
            forall|k: int| 0 <= k < below@.len() ==> g1.contains(#[trigger] below@[k]),
            flow_of(pfg, worklist) == absorbed.send(below@, objects, i as int),
            flow_of(pfg, worklist).wf(),
        decreases below.len() - i,
    {
        let item = PointsToSet::new(below[i], copy_objects(points_to));
        proof {
            flow_of(pfg, worklist).lemma_wf_with_item(item@);
        }
        push_item(worklist, item);
        i = i + 1;
    }
    let ghost sent = flow_of(pfg, worklist);
    let ghost keys = keys_view(beside@);
    let mut j: usize = 0;
    while j < beside.len()
        invariant
            j <= beside.len(),
            objects == points_to@,
            objects.no_duplicates(),
            keys == keys_view(beside@),
            forall|k: int| 0 <= k < objects.len() ==> g1.contains((#[trigger] objects[k]).id),
            forall|k: int|
                0 <= k < beside@.len() ==> g1.has_slot(
                    GlobalLocalId {
                        def_id: (#[trigger] beside@[k]).call_id.def_id,
                        local_id: beside@[k].local_id,
                    },
                ),
            flow_of(pfg, worklist) == sent.deliver(keys, objects, j as int),
            flow_of(pfg, worklist).wf(),
            pfg@.meets(demands),
            forall|id: GlobalProjectionId| #![trigger g1.contains(id)]
                g1.contains(id) ==> pfg@.contains(id) && pfg@.node(id) == g1.node(id),
            forall|slot: GlobalLocalId| #![trigger g1.has_slot(slot)]
                pfg@.has_slot(slot) == g1.has_slot(slot),
        decreases beside.len() - j,
    {
        let request = &beside[j];
        let ghost here = flow_of(pfg, worklist);
        assert(request@ == keys[j as int]);
        let id = pfg.add_or_update_virtual_node(
            &request.call_id,
            request.local_id,
            &request.projection,
            None,
        );
        proof {
            let slot_of_request = GlobalLocalId {
                def_id: beside@[j as int].call_id.def_id,
                local_id: beside@[j as int].local_id,
            };
            here.pfg.lemma_with_cell(request.call_id, request.local_id, request.projection@);
            here.lemma_wf_in_grown_graph(pfg@);
            assert(g1.has_slot(slot_of_request));
            assert(here.pfg.has_slot(slot_of_request));
            here.pfg.lemma_with_cell_keeps(
                request.call_id,
                request.local_id,
                request.projection@,
                demands.slot_ok,
                demands.site_ok,
            );
            assert(id.g_local_id == slot_of_request);
            assert forall|other: GlobalProjectionId| #![trigger g1.contains(other)]
                g1.contains(other) implies pfg@.contains(other) && pfg@.node(other) == g1.node(
                other,
            ) by {
                assert(here.pfg.contains(other));
                assert(pfg@.node(other) == here.pfg.node(other));
            }
            assert forall|slot: GlobalLocalId| #![trigger g1.has_slot(slot)]
                pfg@.has_slot(slot) == g1.has_slot(slot) by {
                assert(pfg@.has_slot(slot) <==> (here.pfg.has_slot(slot) || slot
                    == id.g_local_id));
                assert(here.pfg.has_slot(slot) == g1.has_slot(slot));
            }
        }
        let item = PointsToSet::new(id, copy_objects(points_to));
        proof {
            assert forall|m: int| 0 <= m < objects.len() implies pfg@.contains(
                (#[trigger] objects[m]).id,
            ) by {
                assert(g1.contains(objects[m].id));
            }
            flow_of(pfg, worklist).lemma_wf_with_item(item@);
        }
        push_item(worklist, item);
        j = j + 1;
    }
    proof {
        assert forall|id: GlobalProjectionId| #![trigger pfg@.node(id)]
            s0.pfg.contains(id) implies pfg@.contains(id) && s0.pfg.node(id).points_to.is_prefix_of(
            pfg@.node(id).points_to,
        ) by {
            assert(g1.contains(id));
            assert(pfg@.node(id) == g1.node(id));
            assert(s0.pfg.node(id).points_to.is_prefix_of(g1.node(id).points_to));
        }
        assert(g1.contains(cur));
        assert(pfg@.node(cur) == g1.node(cur));
        assert forall|slot: GlobalLocalId| pfg@.has_slot(slot) == s0.pfg.has_slot(slot) by {
            assert(pfg@.has_slot(slot) == g1.has_slot(slot));
            assert(g1.has_slot(slot) == s0.pfg.has_slot(slot));
        }
    }
}

/// A sequence is an initial part of itself.
pub proof fn lemma_prefix_of_itself<A>(s: Seq<A>)
    ensures
        s.is_prefix_of(s),
{
    assert(s.subrange(0, s.len() as int) =~= s);
}

/// A sequence is an initial part of itself with more behind it.
pub proof fn lemma_prefix_of_longer<A>(s: Seq<A>, more: Seq<A>)
    ensures
        s.is_prefix_of(s + more),
{
    assert((s + more).subrange(0, s.len() as int) =~= s);
}

/// Two graphs with the same slots at the same places have the same slots.
pub proof fn lemma_same_slots(a: PfgView, b: PfgView, slot: GlobalLocalId)
    requires
        a.grows_to(b),
        b.grows_to(a),
    ensures
        a.has_slot(slot) == b.has_slot(slot),
{
    if a.has_slot(slot) {
        let i = a.slot_index(slot);
        assert(b.nodes[i].gid == slot);
    }
    if b.has_slot(slot) {
        let i = b.slot_index(slot);
        assert(a.nodes[i].gid == slot);
    }
}


/// Whether `object` is among `objects`.
pub fn holds_object(objects: &Vec<DropObjectId>, object: DropObjectId) -> (found: bool)
    ensures
        found == objects@.contains(object),
{
    let mut i: usize = 0;
    while i < objects.len()
        invariant
            i <= objects.len(),
            forall|j: int| 0 <= j < i ==> objects@[j] != object,
        decreases objects.len() - i,
    {
        if objects[i] == object {
            return true;
        }
        i = i + 1;
    }
    false
}

/// The objects of `incoming` that `held` does not hold, in their order.
pub fn new_objects(incoming: &Vec<DropObjectId>, held: &Vec<DropObjectId>) -> (news: Vec<
    DropObjectId,
>)
    ensures
        news@ == without(incoming@, held@, incoming@.len() as int),
        forall|k: int|
            0 <= k < news@.len() ==> !held@.contains(#[trigger] news@[k]) && incoming@.contains(
                news@[k],
            ),
        incoming@.no_duplicates() ==> news@.no_duplicates(),
{
    let mut news: Vec<DropObjectId> = Vec::new();
    let mut i: usize = 0;
    while i < incoming.len()
        invariant
            i <= incoming.len(),
            news@ == without(incoming@, held@, i as int),
            forall|k: int|
                0 <= k < news@.len() ==> !held@.contains(#[trigger] news@[k]) && exists|m: int|
                    0 <= m < i && incoming@[m] == news@[k],
            incoming@.no_duplicates() ==> news@.no_duplicates(),
        decreases incoming.len() - i,
    {
        if !holds_object(held, incoming[i]) {
            news.push(incoming[i]);
        }
        i = i + 1;
    }
    news
}


/// The facts of a graph: which cell holds which object.
pub open spec fn facts(pfg: PfgView) -> Set<(GlobalProjectionId, DropObjectId)> {
    Set::new(
        |fact: (GlobalProjectionId, DropObjectId)|
            pfg.contains(fact.0) && pfg.node(fact.0).points_to.contains(fact.1),
    )
}

/// The facts that a graph can come to hold without a new slot: a cell of one
/// of its slots holds an object that a cell of one of its slots names.
pub open spec fn fact_space(pfg: PfgView) -> Set<(GlobalProjectionId, DropObjectId)> {
    Set::new(
        |fact: (GlobalProjectionId, DropObjectId)|
            pfg.has_slot(fact.0.g_local_id) && pfg.has_slot(fact.1.id.g_local_id),
    )
}

/// The cells that the slots in `slots` can have.
spec fn cells_of(slots: Set<GlobalLocalId>) -> Set<GlobalProjectionId> {
    slots.map_flatten_by(
        |slot: GlobalLocalId|
            Set::<usize>::full().map_by(
                |at: usize| GlobalProjectionId { g_local_id: slot, projection_id: at },
                |id: GlobalProjectionId| id.projection_id,
            ),
        |id: GlobalProjectionId| id.g_local_id,
    )
}

/// Finitely many slots can have finitely many cells.
proof fn lemma_cells_of_finite(slots: Set<GlobalLocalId>)
    requires
        slots.finite(),
    ensures
        cells_of(slots).finite(),
        forall|id: GlobalProjectionId| slots.contains(id.g_local_id) ==> cells_of(slots).contains(id),
{
    let fwd = |slot: GlobalLocalId|
        Set::<usize>::full().map_by(
            |at: usize| GlobalProjectionId { g_local_id: slot, projection_id: at },
            |id: GlobalProjectionId| id.projection_id,
        );
    let rev = |id: GlobalProjectionId| id.g_local_id;
    <usize as vstd::set_lib::FiniteFull>::full_properties();
    assert forall|slot: GlobalLocalId| slots.contains(slot) implies (#[trigger] fwd(slot)).finite() by {
        Set::<usize>::full().lemma_map_by_finite(
            |at: usize| GlobalProjectionId { g_local_id: slot, projection_id: at },
            |id: GlobalProjectionId| id.projection_id,
        );
    }
    slots.lemma_map_flatten_by_finite(fwd, rev);
    assert forall|id: GlobalProjectionId| slots.contains(id.g_local_id) implies cells_of(
        slots,
    ).contains(id) by {
        assert(Set::<usize>::full().contains(id.projection_id));
        assert(fwd(rev(id)).contains(id));
    }
}

/// A graph can come to hold finitely many facts without a new slot.
pub proof fn lemma_fact_space_finite(pfg: PfgView)
    ensures
        fact_space(pfg).finite(),
{
    let gids = pfg.nodes.map_values(|slot: crate::pfg::PfgNodeView| slot.gid);
    let slots = gids.to_set();
    vstd::seq_lib::seq_to_set_is_finite(gids);
    lemma_cells_of_finite(slots);
    let cells = cells_of(slots);
    let fwd = |id: GlobalProjectionId|
        cells.map_by(
            |other: GlobalProjectionId| (id, DropObjectId { id: other }),
            |fact: (GlobalProjectionId, DropObjectId)| fact.1.id,
        );
    let rev = |fact: (GlobalProjectionId, DropObjectId)| fact.0;
    assert forall|id: GlobalProjectionId| cells.contains(id) implies (#[trigger] fwd(id)).finite() by {
        cells.lemma_map_by_finite(
            |other: GlobalProjectionId| (id, DropObjectId { id: other }),
            |fact: (GlobalProjectionId, DropObjectId)| fact.1.id,
        );
    }
    cells.lemma_map_flatten_by_finite(fwd, rev);
    let all = cells.map_flatten_by(fwd, rev);
    assert forall|fact: (GlobalProjectionId, DropObjectId)| fact_space(pfg).contains(
        fact,
    ) implies all.contains(fact) by {
        let i = pfg.slot_index(fact.0.g_local_id);
        assert(gids[i] == fact.0.g_local_id);
        let j = pfg.slot_index(fact.1.id.g_local_id);
        assert(gids[j] == fact.1.id.g_local_id);
        assert(cells.contains(fact.0));
        assert(cells.contains(fact.1.id));
        assert(fwd(rev(fact)).contains(fact));
    }
    vstd::set_lib::lemma_set_subset_finite(all, fact_space(pfg));
}

/// What an initial part of a sequence holds, the sequence holds.
pub proof fn lemma_prefix_contains<A>(part: Seq<A>, whole: Seq<A>, x: A)
    requires
        part.is_prefix_of(whole),
        part.contains(x),
    ensures
        whole.contains(x),
{
    let k = choose|k: int| 0 <= k < part.len() && part[k] == x;
    assert(whole.subrange(0, part.len() as int)[k] == whole[k]);
}

/// A step that adds a fact and loses none leaves fewer facts to find.
pub proof fn lemma_fewer_facts_left(
    before: PfgView,
    after: PfgView,
    cur: GlobalProjectionId,
    object: DropObjectId,
)
    requires
        before.wf(),
        before.closed(),
        after.wf(),
        after.closed(),
        before.contains(cur),
        before.contains(object.id),
        !before.node(cur).points_to.contains(object),
        after.node(cur).points_to.contains(object),
        forall|id: GlobalProjectionId| #![trigger after.node(id)]
            before.contains(id) ==> after.contains(id) && before.node(id).points_to.is_prefix_of(
                after.node(id).points_to,
            ),
        forall|slot: GlobalLocalId| after.has_slot(slot) == before.has_slot(slot),
    ensures
        fact_space(after) == fact_space(before),
        fact_space(before).difference(facts(after)).len() < fact_space(before).difference(
            facts(before),
        ).len(),
{
    let space = fact_space(before);
    assert(fact_space(after) =~= space);
    lemma_fact_space_finite(before);
    let fact = (cur, object);
    assert(space.contains(fact));
    assert(facts(after).contains(fact));
    assert(!facts(before).contains(fact));
    assert forall|f: (GlobalProjectionId, DropObjectId)| facts(before).contains(f) implies facts(
        after,
    ).contains(f) by {
        assert(before.node(f.0).points_to.is_prefix_of(after.node(f.0).points_to));
        lemma_prefix_contains(before.node(f.0).points_to, after.node(f.0).points_to, f.1);
    }
    let left_after = space.difference(facts(after));
    let left_before = space.difference(facts(before));
    assert(left_after.subset_of(left_before));
    vstd::set_lib::lemma_set_subset_finite(space, left_before);
    left_after.lemma_subset_not_in_lt(left_before, fact);
}

} // verus!
