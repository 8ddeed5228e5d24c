//! The order in which the waiting facts are taken up does not matter for
//! what is found where the propagation makes no cell: two runs from the same
//! items come to rest with the same multiply dropped objects, the same uses
//! after free and the same double frees.

use vstd::prelude::*;
use crate::analysis::{FlowState, PointsToSetView};
use crate::cfg::CfgTable;
use crate::check::{df_of_all, uaf_at_edges, DfInfo, UafInfo};
use crate::findings::{
    df_between, df_from, is_df, is_uaf, lemma_found_df, lemma_found_uaf, other_of, uaf_on_edge,
};
use crate::fixpoint::{lemma_confluence, lemma_without, shape_of};
use crate::ids::{DropObjectId, GlobalProjectionId};
use crate::pfg::PfgView;

verus! {

impl FlowState {
    /// Whether the cell `id`, which has a destructor site, holds more in `now`
    /// than it held in `self`, and more than one object.
    pub open spec fn grown(self, now: FlowState, id: GlobalProjectionId) -> bool {
        &&& self.pfg.contains(id)
        &&& self.pfg.node(id).cs_drop_spans.len() > 0
        &&& now.pfg.node(id).points_to.len() > 1
        &&& now.pfg.node(id).points_to.len() > self.pfg.node(id).points_to.len()
    }

    /// What holds of the multiply dropped objects of every state `now` on the
    /// run from `self`: no cell holds less than it held, and an object is
    /// listed if and only if it was listed at the start or its cell has grown.
    pub open spec fn lists(self, now: FlowState) -> bool {
        &&& forall|id: GlobalProjectionId| #![trigger now.pfg.node(id)]
            self.pfg.contains(id) ==> self.pfg.node(id).points_to.len() <= now.pfg.node(
                id,
            ).points_to.len()
        &&& forall|id: GlobalProjectionId|
            #![trigger now.pfg.multi_drop_objects.contains(DropObjectId { id })]
            now.pfg.multi_drop_objects.contains(DropObjectId { id })
                <==> self.pfg.multi_drop_objects.contains(DropObjectId { id }) || self.grown(now, id)
    }

    /// What one step that makes no cell does to the graph: nothing where the
    /// oldest item brings nothing new; else the cell of the item absorbs what
    /// is new to it.
    pub proof fn lemma_step_graph(self)
        requires
            self.wf(),
            self.pfg.fits(),
            self.worklist.len() > 0,
            self.next_news().len() > 0 ==> self.pfg.has_targets(self.next_cell()),
        ensures
            self.pfg.contains(self.next_cell()),
            self.next_news().len() == 0 ==> self.step().pfg == self.pfg,
            self.next_news().len() > 0 ==> self.step().pfg == self.absorb(
                self.next_cell(),
                self.next_news(),
            ) && self.pfg.with_points_to(self.next_cell(), self.next_news()).node(
                self.next_cell(),
            ).points_to == self.pfg.node(self.next_cell()).points_to + self.next_news(),
            forall|id: GlobalProjectionId| #![trigger self.step().pfg.node(id)]
                self.pfg.contains(id) && id != self.next_cell() ==> self.step().pfg.node(
                    id,
                ).points_to == self.pfg.node(id).points_to,
            self.step().pfg.node(self.next_cell()).points_to == self.pfg.node(
                self.next_cell(),
            ).points_to + self.next_news(),
    {
        let item = self.worklist[0];
        let c = item.g_proj_id;
        let held = self.pfg.node(c).points_to;
        let delta = self.next_news();
        let rest = FlowState { worklist: self.worklist.skip(1), ..self };
        self.lemma_rest_wf();
        lemma_without(item.points_to, held, item.points_to.len() as int);
        if delta.len() == 0 {
            assert(self.step() == rest);
            assert(held + delta =~= held);
        } else {
            assert forall|k: int| 0 <= k < delta.len() implies !rest.pfg.node(c).points_to.contains(
                #[trigger] delta[k],
            ) && rest.pfg.contains(delta[k].id) by {
                let m = choose|m: int| 0 <= m < item.points_to.len() && item.points_to[m] == delta[k];
                assert(self.pfg.contains(self.worklist[0].points_to[m].id));
            }
            rest.lemma_propagate_makes_no_cell(c, delta);
            self.pfg.lemma_with_points_to(c, delta);
            assert(rest.absorb(c, delta) == self.absorb(c, delta));
        }
    }

    /// A step that makes no cell keeps the account of the multiply dropped
    /// objects.
    pub proof fn lemma_step_lists(self, now: FlowState)
        requires
            self.wf(),
            self.pfg.fits(),
            self.settled(),
            self.leads_to(now),
            self.lists(now),
        ensures
            self.lists(now.step()),
    {
        if now.worklist.len() > 0 {
            let c = now.next_cell();
            let delta = now.next_news();
            let after = now.step();
            self.pfg.lemma_same_shape(now.pfg);
            self.lemma_news_are_brought(now);
            if delta.len() > 0 {
                crate::fixpoint::lemma_same_shape_flows(self.pfg, now.pfg, c);
            }
            now.lemma_step_graph();
            if delta.len() > 0 {
                let added = now.pfg.with_points_to(c, delta);
                now.lemma_rest_wf();
                lemma_without(
                    now.worklist[0].points_to,
                    now.pfg.node(c).points_to,
                    now.worklist[0].points_to.len() as int,
                );
                assert forall|k: int| 0 <= k < delta.len() implies !now.pfg.node(
                    c,
                ).points_to.contains(#[trigger] delta[k]) && now.pfg.contains(delta[k].id) by {
                    let m = choose|m: int|
                        0 <= m < now.worklist[0].points_to.len() && now.worklist[0].points_to[m]
                            == delta[k];
                    assert(now.pfg.contains(now.worklist[0].points_to[m].id));
                }
                now.pfg.lemma_with_points_to(c, delta);
                assert(added.multi_drop_objects == now.pfg.multi_drop_objects);
                assert(shape_of(now.pfg.node(c)) == shape_of(self.pfg.node(c)));
                assert(added.node(c).cs_drop_spans == self.pfg.node(c).cs_drop_spans);
                assert forall|id: GlobalProjectionId|
                    #![trigger after.pfg.multi_drop_objects.contains(DropObjectId { id })]
                    after.pfg.multi_drop_objects.contains(DropObjectId { id })
                        <==> self.pfg.multi_drop_objects.contains(DropObjectId { id }) || self.grown(
                        after,
                        id,
                    ) by {
                    let object = DropObjectId { id };
                    let listed = now.pfg.multi_drop_objects;
                    assert(listed.contains(object) <==> self.pfg.multi_drop_objects.contains(object)
                        || self.grown(now, id));
                    if added.node(c).cs_drop_spans.len() > 0 && added.node(c).points_to.len() > 1 {
                        let one = DropObjectId { id: c };
                        if listed.contains(one) {
                            assert(after.pfg.multi_drop_objects == listed);
                        } else {
                            assert(after.pfg.multi_drop_objects == listed.push(one));
                            assert(listed.push(one) =~= listed + seq![one]);
                            crate::findings::lemma_concat_contains(listed, seq![one], object);
                            assert(seq![one].contains(object) <==> object == one) by {
                                if object == one {
                                    assert(seq![one][0] == object);
                                }
                            }
                        }
                    } else {
                        assert(after.pfg.multi_drop_objects == listed);
                    }
                    if id != c && self.pfg.contains(id) {
                        assert(after.pfg.node(id).points_to == now.pfg.node(id).points_to);
                    }
                }
            }
        }
    }

    /// The account of the multiply dropped objects holds along a run that
    /// makes no cell.
    pub proof fn lemma_run_lists(self, n: nat)
        requires
            self.wf(),
            self.pfg.fits(),
            self.settled(),
        ensures
            self.lists(self.run(n)),
        decreases n,
    {
        if n > 0 {
            self.lemma_run_lists((n - 1) as nat);
            self.lemma_run_leads_on((n - 1) as nat);
            self.lemma_step_lists(self.run((n - 1) as nat));
        }
    }
}

/// Whether the graphs `left` and `right` have the shape of `start`, hold the
/// same objects in every cell, as sets, and list the same objects as multiply
/// dropped.
pub open spec fn alike(start: PfgView, left: PfgView, right: PfgView) -> bool {
    &&& start.wf() && start.closed()
    &&& left.wf() && left.closed()
    &&& right.wf() && right.closed()
    &&& start.same_shape(left)
    &&& start.same_shape(right)
    &&& forall|id: GlobalProjectionId| #![trigger left.node(id)]
        start.contains(id) ==> left.node(id).points_to.to_set() == right.node(id).points_to.to_set()
    &&& forall|object: DropObjectId| #![trigger left.multi_drop_objects.contains(object)]
        left.multi_drop_objects.contains(object) <==> right.multi_drop_objects.contains(object)
}

/// What graphs that are alike agree on, cell by cell: which cells there are,
/// their destructor sites and edges, which objects they hold and how many.
proof fn lemma_alike_cells(start: PfgView, left: PfgView, right: PfgView, id: GlobalProjectionId)
    requires
        alike(start, left, right),
        left.contains(id),
    ensures
        start.contains(id),
        right.contains(id),
        left.node(id).cs_drop_spans == right.node(id).cs_drop_spans,
        left.node(id).neighbors == right.node(id).neighbors,
        left.node(id).points_to.len() == right.node(id).points_to.len(),
        forall|object: DropObjectId| #![trigger left.node(id).points_to.contains(object)]
            left.node(id).points_to.contains(object) ==> right.node(id).points_to.contains(object)
                && left.contains(object.id),
{
    start.lemma_same_shape(left);
    start.lemma_same_shape(right);
    assert(shape_of(left.node(id)) == shape_of(start.node(id)));
    assert(shape_of(right.node(id)) == shape_of(start.node(id)));
    assert(shape_of(left.node(id)).cs_drop_spans == left.node(id).cs_drop_spans);
    assert(shape_of(right.node(id)).cs_drop_spans == right.node(id).cs_drop_spans);
    assert(shape_of(left.node(id)).neighbors == left.node(id).neighbors);
    assert(shape_of(right.node(id)).neighbors == right.node(id).neighbors);
    left.lemma_closed_node(id);
    right.lemma_closed_node(id);
    let held = left.node(id).points_to;
    let other = right.node(id).points_to;
    assert(held.to_set() == other.to_set());
    held.unique_seq_to_set();
    other.unique_seq_to_set();
    assert forall|object: DropObjectId| #![trigger held.contains(object)]
        held.contains(object) implies other.contains(object) && left.contains(object.id) by {
        assert(held.to_set().contains(object));
        assert(other.to_set().contains(object));
        let k = choose|k: int| 0 <= k < held.len() && held[k] == object;
        assert(left.contains(held[k].id));
    }
}

/// A use after free of one of two graphs that are alike is one of the other.
proof fn lemma_uaf_carries_over(
    cfgs: &CfgTable,
    start: PfgView,
    left: PfgView,
    right: PfgView,
    info: UafInfo,
)
    requires
        alike(start, left, right),
        is_uaf(cfgs, left, info),
    ensures
        is_uaf(cfgs, right, info),
{
    let k = choose|k: int|
        0 <= k < left.deref_edges.len() && uaf_on_edge(cfgs, left, #[trigger] left.deref_edges[k], info);
    let edge = left.deref_edges[k];
    assert(right.deref_edges[k] == edge);
    assert(left.contains(edge.from) && left.contains(edge.to));
    lemma_alike_cells(start, left, right, edge.from);
    lemma_alike_cells(start, left, right, edge.to);
    lemma_alike_cells(start, left, right, info.deref_proj_id);
    assert(left.contains(info.drop_obj_id.id));
    lemma_alike_cells(start, left, right, info.drop_obj_id.id);
    assert(uaf_on_edge(cfgs, right, right.deref_edges[k], info));
}

/// A double free of one of two graphs that are alike is one of the other.
proof fn lemma_df_carries_over(
    cfgs: &CfgTable,
    start: PfgView,
    left: PfgView,
    right: PfgView,
    info: DfInfo,
)
    requires
        alike(start, left, right),
        is_df(cfgs, left, info),
    ensures
        is_df(cfgs, right, info),
{
    let k = choose|k: int|
        0 <= k < left.multi_drop_objects.len() && df_from(
            cfgs,
            left,
            #[trigger] left.multi_drop_objects[k],
            info,
        );
    let first = left.multi_drop_objects[k];
    let other = other_of(first, info);
    assert(left.multi_drop_objects.contains(first));
    assert(right.multi_drop_objects.contains(first));
    let j = choose|j: int| 0 <= j < right.multi_drop_objects.len() && right.multi_drop_objects[j] == first;
    assert(left.contains(first.id));
    lemma_alike_cells(start, left, right, first.id);
    assert(left.contains(other.id));
    lemma_alike_cells(start, left, right, other.id);
    assert(df_between(cfgs, right, first, other, info));
    assert(df_from(cfgs, right, right.multi_drop_objects[j], info));
}

/// Graphs that are alike in the one order are alike in the other.
proof fn lemma_alike_turned(start: PfgView, left: PfgView, right: PfgView)
    requires
        alike(start, left, right),
    ensures
        alike(start, right, left),
{
    assert forall|id: GlobalProjectionId| #![trigger right.node(id)]
        start.contains(id) implies right.node(id).points_to.to_set() == left.node(
        id,
    ).points_to.to_set() by {
        assert(left.node(id).points_to.to_set() == right.node(id).points_to.to_set());
    }
    assert forall|object: DropObjectId| #![trigger right.multi_drop_objects.contains(object)]
        right.multi_drop_objects.contains(object) <==> left.multi_drop_objects.contains(object) by {
        assert(left.multi_drop_objects.contains(object) <==> right.multi_drop_objects.contains(
            object,
        ));
    }
}

/// The order in which the waiting facts are taken up does not matter for
/// what is found where the propagation makes no cell: two runs whose first
/// worklists hold the same items, in whatever order, come to rest with the
/// same objects listed as multiply dropped, the same uses after free and the
/// same double frees, in whatever order the detectors find them.
pub proof fn lemma_confluence_of_findings(
    cfgs: &CfgTable,
    pfg: PfgView,
    first: Seq<PointsToSetView>,
    second: Seq<PointsToSetView>,
    n: nat,
    m: nat,
)
    requires
        (FlowState { pfg, worklist: first }).wf(),
        (FlowState { pfg, worklist: second }).wf(),
        pfg.fits(),
        (FlowState { pfg, worklist: first }).settled(),
        first.to_multiset() == second.to_multiset(),
        (FlowState { pfg, worklist: first }).run(n).worklist.len() == 0,
        (FlowState { pfg, worklist: second }).run(m).worklist.len() == 0,
    ensures
        ({
            let left = (FlowState { pfg, worklist: first }).run(n).pfg;
            let right = (FlowState { pfg, worklist: second }).run(m).pfg;
            &&& left.multi_drop_objects.to_set() == right.multi_drop_objects.to_set()
            &&& forall|info: UafInfo| is_uaf(cfgs, left, info) <==> is_uaf(cfgs, right, info)
            &&& forall|info: DfInfo| is_df(cfgs, left, info) <==> is_df(cfgs, right, info)
            &&& uaf_at_edges(cfgs, left, left.deref_edges, left.deref_edges.len() as int).to_set()
                == uaf_at_edges(
                cfgs,
                right,
                right.deref_edges,
                right.deref_edges.len() as int,
            ).to_set()
            &&& df_of_all(
                cfgs,
                left,
                left.multi_drop_objects,
                left.multi_drop_objects.len() as int,
            ).to_set() == df_of_all(
                cfgs,
                right,
                right.multi_drop_objects,
                right.multi_drop_objects.len() as int,
            ).to_set()
        }),
{
    let a = FlowState { pfg, worklist: first };
    let b = FlowState { pfg, worklist: second };
    let left = a.run(n).pfg;
    let right = b.run(m).pfg;
    crate::fixpoint::lemma_same_items_settle_the_same(a, b);
    a.lemma_run_leads_on(n);
    b.lemma_run_leads_on(m);
    a.lemma_run_lists(n);
    b.lemma_run_lists(m);
    pfg.lemma_same_shape(left);
    pfg.lemma_same_shape(right);
    assert forall|id: GlobalProjectionId| #![trigger left.node(id)]
        pfg.contains(id) implies left.node(id).points_to.to_set() == right.node(
        id,
    ).points_to.to_set() by {
        lemma_confluence(pfg, first, second, n, m, id);
    }
    assert forall|object: DropObjectId| #![trigger left.multi_drop_objects.contains(object)]
        left.multi_drop_objects.contains(object) <==> right.multi_drop_objects.contains(object) by {
        let id = object.id;
        assert(object == DropObjectId { id });
        if pfg.contains(id) {
            left.lemma_closed_node(id);
            right.lemma_closed_node(id);
            left.node(id).points_to.unique_seq_to_set();
            right.node(id).points_to.unique_seq_to_set();
        }
        assert(a.grown(a.run(n), id) <==> b.grown(b.run(m), id));
    }
    assert(alike(pfg, left, right));
    lemma_alike_turned(pfg, left, right);
    assert(left.multi_drop_objects.to_set() =~= right.multi_drop_objects.to_set());
    assert forall|info: UafInfo| is_uaf(cfgs, left, info) <==> is_uaf(cfgs, right, info) by {
        if is_uaf(cfgs, left, info) {
            lemma_uaf_carries_over(cfgs, pfg, left, right, info);
        }
        if is_uaf(cfgs, right, info) {
            lemma_uaf_carries_over(cfgs, pfg, right, left, info);
        }
    }
    assert forall|info: DfInfo| is_df(cfgs, left, info) <==> is_df(cfgs, right, info) by {
        if is_df(cfgs, left, info) {
            lemma_df_carries_over(cfgs, pfg, left, right, info);
        }
        if is_df(cfgs, right, info) {
            lemma_df_carries_over(cfgs, pfg, right, left, info);
        }
    }
    let left_uaf = uaf_at_edges(cfgs, left, left.deref_edges, left.deref_edges.len() as int);
    let right_uaf = uaf_at_edges(cfgs, right, right.deref_edges, right.deref_edges.len() as int);
    assert forall|info: UafInfo| left_uaf.to_set().contains(info) <==> right_uaf.to_set().contains(
        info,
    ) by {
        lemma_found_uaf(cfgs, left, info);
        lemma_found_uaf(cfgs, right, info);
    }
    assert(left_uaf.to_set() =~= right_uaf.to_set());
    let left_df = df_of_all(
        cfgs,
        left,
        left.multi_drop_objects,
        left.multi_drop_objects.len() as int,
    );
    let right_df = df_of_all(
        cfgs,
        right,
        right.multi_drop_objects,
        right.multi_drop_objects.len() as int,
    );
    assert forall|info: DfInfo| left_df.to_set().contains(info) <==> right_df.to_set().contains(
        info,
    ) by {
        lemma_found_df(cfgs, left, info);
        lemma_found_df(cfgs, right, info);
    }
    assert(left_df.to_set() =~= right_df.to_set());
}

} // verus!
