//! The points-to analysis: the expansion of the call graph from an entry
//! function, which builds the pointer flow graph, and the propagation of
//! points-to facts along it until nothing new is found.

use vstd::prelude::*;
use std::collections::VecDeque;
use crate::cfg::{
    call_target_ok, functions_wf, has_cfg, CfgTable, ControlFlowGraph, FunctionInfo,
};
use crate::ids::{
    CallerContext, CtxtSenCallId, CtxtSenSpanInfo, DefId, DropObjectId, GlobalBasicBlockId,
    GlobalLocalId, GlobalProjectionId, LocalId,
};
use crate::ir::{
    path_has_deref, AnalysisOptions, AssignmentInfo, BasicBlockInfo, CallInfo, OpKind, Operand,
    Place, PlaceElem, RvalKind, TerminatorKind,
};
use crate::pfg::{Demands, DerefEdgeInfo, PfgView, PointerFlowGraph};
use crate::text::{ends_with, join, starts_with};

verus! {

/// Facts on their way to a cell: the objects in `points_to` are to be added to
/// the points-to set of `g_proj_id`.
#[derive(Debug)]
pub struct PointsToSet {
    pub g_proj_id: GlobalProjectionId,
    /// The objects, each once.
    pub points_to: Vec<DropObjectId>,
}

/// A `PointsToSet` as a mathematical value.
pub struct PointsToSetView {
    pub g_proj_id: GlobalProjectionId,
    pub points_to: Seq<DropObjectId>,
}

impl View for PointsToSet {
    type V = PointsToSetView;

    open spec fn view(&self) -> PointsToSetView {
        PointsToSetView { g_proj_id: self.g_proj_id, points_to: self.points_to@ }
    }
}

impl PointsToSet {
    pub fn new(g_proj_id: GlobalProjectionId, points_to: Vec<DropObjectId>) -> (item: Self)
        ensures
            item == (PointsToSet { g_proj_id, points_to }),
    {
        PointsToSet { g_proj_id, points_to }
    }
}

/// The pointer flow graph together with the facts that wait to be added to it.
pub struct FlowState {
    pub pfg: PfgView,
    pub worklist: Seq<PointsToSetView>,
}

/// The name of a cell to find or make.
pub struct CellKey {
    pub call_id: CtxtSenCallId,
    pub local_id: LocalId,
    pub projection: Seq<PlaceElem>,
}

impl FlowState {
    /// The graph is sound and closed, and every waiting item names a cell of
    /// the graph and holds objects of the graph, each once.
    pub open spec fn wf(self) -> bool {
        &&& self.pfg.wf()
        &&& self.pfg.closed()
        &&& forall|k: int|
            0 <= k < self.worklist.len() ==> self.pfg.contains((#[trigger] self.worklist[k]).g_proj_id)
                && self.worklist[k].points_to.no_duplicates()
        &&& forall|k: int, m: int|
            0 <= k < self.worklist.len() && 0 <= m < self.worklist[k].points_to.len()
                ==> self.pfg.contains((#[trigger] self.worklist[k].points_to[m]).id)
    }

    /// Whether nothing waits, no cell holds an object, and no object is
    /// listed as multiply dropped.
    pub open spec fn calm(self) -> bool {
        self.worklist.len() == 0 && self.pfg.no_facts() && self.pfg.multi_drop_objects.len() == 0
    }

    /// The state after the cell of `key` was found or made.
    pub open spec fn with_cell(self, key: CellKey) -> Self {
        FlowState { pfg: self.pfg.with_cell(key.call_id, key.local_id, key.projection), ..self }
    }

    /// The name of the cell of `key`.
    pub open spec fn cell_id(self, key: CellKey) -> GlobalProjectionId {
        self.pfg.cell_id(key.call_id, key.local_id, key.projection)
    }

    /// The state after the flow edge from `from` to `to` was asked for: the
    /// state itself where the graph has the edge; else the graph has it now,
    /// and where `from` holds objects, they wait to be added to `to`.
    pub open spec fn add_edge(
        self,
        from: GlobalProjectionId,
        to: GlobalProjectionId,
        span_info: CtxtSenSpanInfo,
    ) -> Self {
        if self.pfg.has_edge(from, to) {
            self
        } else {
            let objects = self.pfg.node(from).points_to;
            FlowState {
                pfg: self.pfg.with_edge(from, to, span_info),
                worklist: if objects.len() > 0 {
                    self.worklist.push(PointsToSetView { g_proj_id: to, points_to: objects })
                } else {
                    self.worklist
                },
            }
        }
    }

    /// The state after the cells of `first` and `second` were found or made, in
    /// this order, and an edge between them was asked for: from the first to
    /// the second if `forward`, else from the second to the first. Where
    /// `marks` are given, the edge is also listed as a dereferencing edge,
    /// with `marks` saying which of its ends is read through.
    pub open spec fn link(
        self,
        first: CellKey,
        second: CellKey,
        forward: bool,
        span_info: CtxtSenSpanInfo,
        marks: Option<(bool, bool)>,
    ) -> Self {
        let one = self.cell_id(first);
        let with_one = self.with_cell(first);
        let two = with_one.cell_id(second);
        let with_two = with_one.with_cell(second);
        let from = if forward { one } else { two };
        let to = if forward { two } else { one };
        let linked = with_two.add_edge(from, to, span_info);
        match marks {
            Some(is_deref) => FlowState {
                pfg: linked.pfg.with_deref_edge(DerefEdgeInfo { from, to, is_deref }),
                ..linked
            },
            None => linked,
        }
    }
}

/// The name under which a place is found or made in the function and context
/// of `call_id`.
pub open spec fn key_of(call_id: CtxtSenCallId, place: &Place) -> CellKey {
    CellKey { call_id, local_id: place.local, projection: place.projection@ }
}

/// The name of the cell of a whole storage slot.
pub open spec fn key_of_local(call_id: CtxtSenCallId, local_id: LocalId) -> CellKey {
    CellKey { call_id, local_id, projection: Seq::empty() }
}

/// Whether copying from `place` copies a pointer: its type is a reference or a
/// raw pointer, or its access path reads through a dereference.
pub open spec fn copies_pointer(place: &Place) -> bool {
    place.ty.is_pointer() || place.has_deref()
}

/// Whether an assignment of kind `op` from `place` makes a flow edge.
pub open spec fn assignment_flows(op: OpKind, place: &Place) -> bool {
    match op {
        OpKind::Move | OpKind::Ref | OpKind::AddressOf => true,
        OpKind::Copy => copies_pointer(place),
    }
}

/// The place whose value the operand hands on, if it makes a flow edge.
pub open spec fn flowing_place(operand: &Operand) -> Option<Place> {
    match operand {
        Operand::Move(place) => Some(*place),
        Operand::Copy(place) => if copies_pointer(place) {
            Some(*place)
        } else {
            None
        },
        Operand::Constant => None,
    }
}


/// The waiting items as mathematical values.
pub open spec fn worklist_view(items: Seq<PointsToSet>) -> Seq<PointsToSetView> {
    items.map_values(|item: PointsToSet| item@)
}

/// The state that a graph and a worklist in memory stand for.
pub open spec fn flow_of(pfg: &PointerFlowGraph, worklist: &VecDeque<PointsToSet>) -> FlowState {
    FlowState { pfg: pfg@, worklist: worklist_view(worklist@) }
}

impl FlowState {
    /// A sound state stays sound when its graph is replaced by a sound and
    /// closed one that has every cell of the old graph.
    pub proof fn lemma_wf_in_grown_graph(self, pfg: PfgView)
        requires
            self.wf(),
            pfg.wf(),
            pfg.closed(),
            forall|id: GlobalProjectionId| self.pfg.contains(id) ==> pfg.contains(id),
        ensures
            (FlowState { pfg, ..self }).wf(),
    {
    }

    /// A sound state stays sound when an item is put behind the others that
    /// names a cell of the graph and holds objects of the graph, each once.
    pub proof fn lemma_wf_with_item(self, item: PointsToSetView)
        requires
            self.wf(),
            self.pfg.contains(item.g_proj_id),
            item.points_to.no_duplicates(),
            forall|m: int|
                0 <= m < item.points_to.len() ==> self.pfg.contains((#[trigger] item.points_to[m]).id),
        ensures
            (FlowState { worklist: self.worklist.push(item), ..self }).wf(),
    {
    }
}

/// A copy of a list of objects.
pub fn copy_objects(objects: &Vec<DropObjectId>) -> (copy: Vec<DropObjectId>)
    ensures
        copy@ == objects@,
{
    let mut copy: Vec<DropObjectId> = Vec::new();
    let mut i: usize = 0;
    while i < objects.len()
        invariant
            i <= objects.len(),
            copy@ == objects@.take(i as int),
        decreases objects.len() - i,
    {
        copy.push(objects[i]);
        i = i + 1;
    }
    copy
}

/// Puts `item` behind the waiting items.
pub fn push_item(worklist: &mut VecDeque<PointsToSet>, item: PointsToSet)
    ensures
        worklist_view(final(worklist)@) == worklist_view(old(worklist)@).push(item@),
{
    worklist.push_back(item);
    assert(worklist_view(worklist@) =~= worklist_view(old(worklist)@).push(item@));
}

/// Asks for the flow edge from `from` to `to`. The span is that of the
/// instruction, without a context.
fn add_edge(
    pfg: &mut PointerFlowGraph,
    worklist: &mut VecDeque<PointsToSet>,
    from: GlobalProjectionId,
    to: GlobalProjectionId,
    span_info: CtxtSenSpanInfo,
)
    requires
        flow_of(old(pfg), old(worklist)).wf(),
        old(pfg)@.contains(from),
        old(pfg)@.contains(to),
        span_info.caller_context.g_bb_id is None,
    ensures
        flow_of(final(pfg), final(worklist)) == flow_of(old(pfg), old(worklist)).add_edge(
            from,
            to,
            span_info,
        ),
        flow_of(final(pfg), final(worklist)).wf(),
        old(pfg)@.same_cells_as(final(pfg)@),
        final(pfg)@.has_edge(from, to),
        flow_of(old(pfg), old(worklist)).calm() ==> flow_of(final(pfg), final(worklist)).calm(),
{
    let ghost before = flow_of(pfg, worklist);
    if pfg.has_edge(from, to) {
        return ;
    }
    proof {
        before.pfg.lemma_with_edge(from, to, span_info);
        before.pfg.lemma_closed_node(from);
        if before.calm() {
            before.pfg.lemma_with_edge_no_facts(from, to, span_info);
        }
    }
    pfg.add_edge(from, to, span_info);
    proof {
        before.lemma_wf_in_grown_graph(pfg@);
    }
    let from_node = pfg.get_projection_node(from);
    if from_node.points_to.len() > 0 {
        let objects = copy_objects(&from_node.points_to);
        let ghost middle = flow_of(pfg, worklist);
        proof {
            pfg@.lemma_closed_node(from);
            middle.lemma_wf_with_item(PointsToSetView { g_proj_id: to, points_to: objects@ });
        }
        push_item(worklist, PointsToSet::new(to, objects));
    }
}

/// Finds or makes two cells, the first before the second, and asks for an
/// edge between them: from the first to the second if `forward`, else from
/// the second to the first. Where `marks` are given, the edge is also listed
/// as a dereferencing edge, with `marks` saying which of its ends is read
/// through.
fn link(
    pfg: &mut PointerFlowGraph,
    worklist: &mut VecDeque<PointsToSet>,
    first: (&CtxtSenCallId, LocalId, &Vec<PlaceElem>),
    second: (&CtxtSenCallId, LocalId, &Vec<PlaceElem>),
    forward: bool,
    span_info: CtxtSenSpanInfo,
    marks: Option<(bool, bool)>,
    Ghost(demands): Ghost<Demands>,
)
    requires
        flow_of(old(pfg), old(worklist)).wf(),
        span_info.caller_context.g_bb_id is None,
        old(pfg)@.meets(demands),
        (demands.slot_ok)(GlobalLocalId { def_id: first.0.def_id, local_id: first.1 }),
        (demands.slot_ok)(GlobalLocalId { def_id: second.0.def_id, local_id: second.1 }),
    ensures
        flow_of(final(pfg), final(worklist)) == flow_of(old(pfg), old(worklist)).link(
            CellKey { call_id: *first.0, local_id: first.1, projection: first.2@ },
            CellKey { call_id: *second.0, local_id: second.1, projection: second.2@ },
            forward,
            span_info,
            marks,
        ),
        flow_of(final(pfg), final(worklist)).wf(),
        final(pfg)@.meets(demands),
        flow_of(old(pfg), old(worklist)).calm() ==> flow_of(final(pfg), final(worklist)).calm(),
{
    let ghost s0 = flow_of(pfg, worklist);
    let one = pfg.add_or_update_virtual_node(first.0, first.1, first.2, None);
    proof {
        if s0.calm() {
            s0.pfg.lemma_with_cell_no_facts(*first.0, first.1, first.2@);
        }
        s0.pfg.lemma_with_cell(*first.0, first.1, first.2@);
        s0.pfg.lemma_with_cell_keeps(
            *first.0,
            first.1,
            first.2@,
            demands.slot_ok,
            demands.site_ok,
        );
        s0.lemma_wf_in_grown_graph(pfg@);
    }
    let ghost s1 = flow_of(pfg, worklist);
    let two = pfg.add_or_update_virtual_node(second.0, second.1, second.2, None);
    proof {
        if s1.calm() {
            s1.pfg.lemma_with_cell_no_facts(*second.0, second.1, second.2@);
        }
        s1.pfg.lemma_with_cell(*second.0, second.1, second.2@);
        s1.pfg.lemma_with_cell_keeps(
            *second.0,
            second.1,
            second.2@,
            demands.slot_ok,
            demands.site_ok,
        );
        s1.lemma_wf_in_grown_graph(pfg@);
    }
    let ghost s2 = flow_of(pfg, worklist);
    let from = if forward { one } else { two };
    let to = if forward { two } else { one };
    add_edge(pfg, worklist, from, to, span_info);
    proof {
        s2.pfg.lemma_same_cells_keep(pfg@, demands.slot_ok, demands.site_ok);
    }
    if let Some(is_deref) = marks {
        let ghost s3 = flow_of(pfg, worklist);
        proof {
            let edge = DerefEdgeInfo { from, to, is_deref };
            s3.pfg.lemma_with_deref_edge(edge);
            assert forall|id: GlobalProjectionId|
                s3.pfg.contains(id) implies s3.pfg.with_deref_edge(edge).contains(id) by {}
            s3.lemma_wf_in_grown_graph(s3.pfg.with_deref_edge(edge));
            if s3.calm() {
                s3.pfg.lemma_same_nodes_no_facts(s3.pfg.with_deref_edge(edge));
            }
            s3.pfg.lemma_same_nodes_keep(
                s3.pfg.with_deref_edge(edge),
                demands.slot_ok,
                demands.site_ok,
            );
        }
        pfg.insert_deref_edge(DerefEdgeInfo::new(from, to, is_deref));
    }
}

/// The span of an instruction of block `bb_id` of function `def_id`, without a context.
pub open spec fn plain_span(def_id: DefId, bb_id: usize, span: u64) -> CtxtSenSpanInfo {
    CtxtSenSpanInfo {
        def_id,
        basic_block_id: bb_id,
        span,
        caller_context: CallerContext { g_bb_id: None },
    }
}

impl FlowState {
    /// The state after a destructor invocation on `place` was read in block
    /// `bb_id` of the call `call_id`: the cell of the place records the site,
    /// and if this is its first site, the cell is to hold the object that the
    /// cell names.
    pub open spec fn drop_at(self, call_id: CtxtSenCallId, bb_id: usize, place: &Place, span: u64) -> Self {
        let id = self.cell_id(key_of(call_id, place));
        let site = CtxtSenSpanInfo {
            def_id: call_id.def_id,
            basic_block_id: bb_id,
            span,
            caller_context: call_id.caller_context,
        };
        let pfg = self.with_cell(key_of(call_id, place)).pfg.with_drop_span(id, Some(site));
        FlowState {
            pfg,
            worklist: if pfg.node(id).cs_drop_spans.len() == 1 {
                self.worklist.push(
                    PointsToSetView { g_proj_id: id, points_to: seq![DropObjectId { id }] },
                )
            } else {
                self.worklist
            },
        }
    }

    /// The state after an assignment of block `bb_id` of the call `call_id` was
    /// read: where it flows, the cells of its left and of its right side are
    /// found or made, in this order, and an edge from the right to the left is
    /// asked for.
    pub open spec fn assign(self, call_id: CtxtSenCallId, bb_id: usize, assignment: &AssignmentInfo) -> Self {
        match assignment.rvalue {
            RvalKind::Addressed(place) => if assignment_flows(assignment.op, &place) {
                self.link(
                    key_of(call_id, &assignment.lvalue),
                    key_of(call_id, &place),
                    false,
                    plain_span(call_id.def_id, bb_id, assignment.stat_span),
                    None,
                )
            } else {
                self
            },
            RvalKind::Constant => self,
        }
    }

    /// The state after the first `n` of the assignments were read.
    pub open spec fn assign_all(
        self,
        call_id: CtxtSenCallId,
        bb_id: usize,
        assignments: Seq<AssignmentInfo>,
        n: int,
    ) -> Self
        decreases n,
    {
        if n <= 0 {
            self
        } else {
            self.assign_all(call_id, bb_id, assignments, n - 1).assign(
                call_id,
                bb_id,
                &assignments[n - 1],
            )
        }
    }

    /// The state after block `bb_id` was read: its destructor invocation, if it
    /// ends in one, then its assignments in their order.
    pub open spec fn reach_block(self, call_id: CtxtSenCallId, bb_id: usize, block: &BasicBlockInfo) -> Self {
        let dropped = match block.terminator.kind {
            TerminatorKind::Drop { place, .. } => self.drop_at(
                call_id,
                bb_id,
                &place,
                block.terminator.span,
            ),
            _ => self,
        };
        dropped.assign_all(
            call_id,
            bb_id,
            block.assignment_infos@,
            block.assignment_infos@.len() as int,
        )
    }

    /// The state after the first `n` of the blocks were read.
    pub open spec fn reach_blocks(self, call_id: CtxtSenCallId, blocks: Seq<BasicBlockInfo>, n: int) -> Self
        decreases n,
    {
        if n <= 0 {
            self
        } else {
            self.reach_blocks(call_id, blocks, n - 1).reach_block(
                call_id,
                (n - 1) as usize,
                &blocks[n - 1],
            )
        }
    }
}

/// Whether copying from `place` copies a pointer.
pub fn is_ptr_copy(place: &Place) -> (pointer: bool)
    ensures
        pointer == copies_pointer(place),
{
    if place.ty.is_unsafe_ptr() || place.ty.is_ref() {
        true
    } else if path_has_deref(&place.projection) {
        true
    } else {
        false
    }
}

/// Reads a destructor invocation on `place` in block `bb_id` of the call `call_id`.
fn add_drop(
    pfg: &mut PointerFlowGraph,
    worklist: &mut VecDeque<PointsToSet>,
    call_id: &CtxtSenCallId,
    bb_id: usize,
    place: &Place,
    span: u64,
    Ghost(demands): Ghost<Demands>,
)
    requires
        flow_of(old(pfg), old(worklist)).wf(),
        old(pfg)@.meets(demands),
        (demands.slot_ok)(GlobalLocalId { def_id: call_id.def_id, local_id: place.local }),
        (demands.site_ok)(
            CtxtSenSpanInfo {
                def_id: call_id.def_id,
                basic_block_id: bb_id,
                span,
                caller_context: call_id.caller_context,
            },
        ),
    ensures
        flow_of(final(pfg), final(worklist)) == flow_of(old(pfg), old(worklist)).drop_at(
            *call_id,
            bb_id,
            place,
            span,
        ),
        flow_of(final(pfg), final(worklist)).wf(),
        final(pfg)@.meets(demands),
{
    let ghost s0 = flow_of(pfg, worklist);
    let site = CtxtSenSpanInfo::new(call_id.def_id, bb_id, span, call_id.caller_context);
    let id = pfg.add_or_update_node(call_id, place, Some(site));
    proof {
        let grown = s0.pfg.with_cell(*call_id, place.local, place.projection@);
        s0.pfg.lemma_with_cell(*call_id, place.local, place.projection@);
        s0.pfg.lemma_with_cell_keeps(
            *call_id,
            place.local,
            place.projection@,
            demands.slot_ok,
            demands.site_ok,
        );
        grown.lemma_with_drop_span(id, Some(site));
        grown.lemma_with_drop_span_keeps(id, Some(site), demands.slot_ok, demands.site_ok);
        s0.lemma_wf_in_grown_graph(pfg@);
    }
    if pfg.get_projection_node(id).cs_drop_spans.len() == 1 {
        let mut objects: Vec<DropObjectId> = Vec::new();
        objects.push(DropObjectId::from(id));
        assert(objects@ =~= seq![DropObjectId { id }]);
        proof {
            flow_of(pfg, worklist).lemma_wf_with_item(
                PointsToSetView { g_proj_id: id, points_to: objects@ },
            );
        }
        push_item(worklist, PointsToSet::new(id, objects));
    }
}

/// Reads an assignment of block `bb_id` of the call `call_id`.
fn add_assignment(
    pfg: &mut PointerFlowGraph,
    worklist: &mut VecDeque<PointsToSet>,
    call_id: &CtxtSenCallId,
    bb_id: usize,
    assignment: &AssignmentInfo,
    Ghost(demands): Ghost<Demands>,
)
    requires
        flow_of(old(pfg), old(worklist)).wf(),
        old(pfg)@.meets(demands),
        (demands.slot_ok)(
            GlobalLocalId { def_id: call_id.def_id, local_id: assignment.lvalue.local },
        ),
        assignment.rvalue matches RvalKind::Addressed(place) ==> (demands.slot_ok)(
            GlobalLocalId { def_id: call_id.def_id, local_id: place.local },
        ),
    ensures
        flow_of(final(pfg), final(worklist)) == flow_of(old(pfg), old(worklist)).assign(
            *call_id,
            bb_id,
            assignment,
        ),
        flow_of(final(pfg), final(worklist)).wf(),
        final(pfg)@.meets(demands),
        flow_of(old(pfg), old(worklist)).calm() ==> flow_of(final(pfg), final(worklist)).calm(),
{
    if let RvalKind::Addressed(place) = &assignment.rvalue {
        let need_add_edge = match assignment.op {
            OpKind::Move | OpKind::Ref | OpKind::AddressOf => true,
            OpKind::Copy => is_ptr_copy(place),
        };
        if need_add_edge {
            link(
                pfg,
                worklist,
                (call_id, assignment.lvalue.local, &assignment.lvalue.projection),
                (call_id, place.local, &place.projection),
                false,
                CtxtSenSpanInfo::new(
                    call_id.def_id,
                    bb_id,
                    assignment.stat_span,
                    CallerContext::new(None),
                ),
                None,
                Ghost(demands),
            );
        }
    }
}

/// Takes the call `call_id` into the analysis. A call that was read before is
/// left alone: nothing changes, and no destructor site is recorded again.
/// Else the call counts as read, and the destructor invocations and the
/// assignments of its function are read into the graph, block by block.
fn add_reachable(
    pfg: &mut PointerFlowGraph,
    worklist: &mut VecDeque<PointsToSet>,
    reachable: &mut Vec<CtxtSenCallId>,
    call_id: &CtxtSenCallId,
    cfg: &ControlFlowGraph,
    Ghost(demands): Ghost<Demands>,
)
    requires
        flow_of(old(pfg), old(worklist)).wf(),
        cfg.wf(),
        old(pfg)@.meets(demands),
        forall|local: LocalId|
            cfg.has_local(local) ==> #[trigger] (demands.slot_ok)(
                GlobalLocalId { def_id: call_id.def_id, local_id: local },
            ),
        forall|site: CtxtSenSpanInfo|
            site.def_id == call_id.def_id && site.basic_block_id < cfg.basic_block_infos@.len()
                ==> #[trigger] (demands.site_ok)(site),
    ensures
        old(reachable)@.contains(*call_id) ==> {
            &&& final(pfg)@ == old(pfg)@
            &&& final(worklist)@ == old(worklist)@
            &&& final(reachable)@ == old(reachable)@
        },
        !old(reachable)@.contains(*call_id) ==> {
            &&& final(reachable)@ == old(reachable)@.push(*call_id)
            &&& flow_of(final(pfg), final(worklist)) == flow_of(
                old(pfg),
                old(worklist),
            ).reach_blocks(*call_id, cfg.basic_block_infos@, cfg.basic_block_infos@.len() as int)
        },
        flow_of(final(pfg), final(worklist)).wf(),
        final(pfg)@.meets(demands),
        cfg.has_no_destructor() && flow_of(old(pfg), old(worklist)).calm() ==> flow_of(
            final(pfg),
            final(worklist),
        ).calm(),
{
    if contains_call(reachable, call_id) {
        return ;
    }
    reachable.push(*call_id);
    let ghost s0 = flow_of(pfg, worklist);
    let mut b: usize = 0;
    while b < cfg.basic_block_infos.len()
        invariant
            b <= cfg.basic_block_infos.len(),
            cfg.wf(),
            cfg.has_no_destructor() && s0.calm() ==> flow_of(pfg, worklist).calm(),
            forall|local: LocalId|
                cfg.has_local(local) ==> #[trigger] (demands.slot_ok)(
                    GlobalLocalId { def_id: call_id.def_id, local_id: local },
                ),
            forall|site: CtxtSenSpanInfo|
                site.def_id == call_id.def_id && site.basic_block_id < cfg.basic_block_infos@.len()
                    ==> #[trigger] (demands.site_ok)(site),
            flow_of(pfg, worklist) == s0.reach_blocks(*call_id, cfg.basic_block_infos@, b as int),
            flow_of(pfg, worklist).wf(),
            pfg@.meets(demands),
        decreases cfg.basic_block_infos.len() - b,
    {
        let block = &cfg.basic_block_infos[b];
        let ghost s1 = flow_of(pfg, worklist);
        assert(cfg.block_ok(&cfg.basic_block_infos@[b as int]));
        assert(cfg.has_no_destructor() ==> !(cfg.basic_block_infos@[b as int].terminator.kind is Drop));
        if let TerminatorKind::Drop { place, .. } = &block.terminator.kind {
            assert((demands.slot_ok)(
                GlobalLocalId { def_id: call_id.def_id, local_id: place.local },
            ));
            assert((demands.site_ok)(
                CtxtSenSpanInfo {
                    def_id: call_id.def_id,
                    basic_block_id: b,
                    span: block.terminator.span,
                    caller_context: call_id.caller_context,
                },
            ));
            add_drop(pfg, worklist, call_id, b, place, block.terminator.span, Ghost(demands));
        }
        let ghost s2 = flow_of(pfg, worklist);
        let mut a: usize = 0;
        while a < block.assignment_infos.len()
            invariant
                a <= block.assignment_infos.len(),
                cfg.block_ok(block),
                forall|local: LocalId|
                    cfg.has_local(local) ==> #[trigger] (demands.slot_ok)(
                        GlobalLocalId { def_id: call_id.def_id, local_id: local },
                    ),
                flow_of(pfg, worklist) == s2.assign_all(
                    *call_id,
                    b,
                    block.assignment_infos@,
                    a as int,
                ),
                flow_of(pfg, worklist).wf(),
                pfg@.meets(demands),
                s2.calm() ==> flow_of(pfg, worklist).calm(),
            decreases block.assignment_infos.len() - a,
        {
            let assignment = &block.assignment_infos[a];
            proof {
                assert(cfg.assignment_ok(&block.assignment_infos@[a as int]));
                assert((demands.slot_ok)(
                    GlobalLocalId { def_id: call_id.def_id, local_id: assignment.lvalue.local },
                ));
                if assignment.rvalue is Addressed {
                    assert((demands.slot_ok)(
                        GlobalLocalId { def_id: call_id.def_id, local_id: assignment.rvalue->0.local },
                    ));
                }
            }
            add_assignment(pfg, worklist, call_id, b, assignment, Ghost(demands));
            a = a + 1;
        }
        assert(flow_of(pfg, worklist) == s1.reach_block(*call_id, b, block));
        b = b + 1;
    }
}

impl FlowState {
    /// The state after the argument at position `i` of a call was bound to the
    /// parameter of the callee: where the argument flows, the cell of its
    /// place in the caller and the cell of slot `i + 1` of the callee are found
    /// or made, in this order, and an edge from the first to the second is
    /// asked for and listed as a dereferencing edge that is read through at
    /// both of its ends.
    pub open spec fn bind_arg(
        self,
        caller: CtxtSenCallId,
        callee: CtxtSenCallId,
        i: int,
        arg: &Operand,
        span_info: CtxtSenSpanInfo,
    ) -> Self {
        match flowing_place(arg) {
            Some(place) => self.link(
                key_of(caller, &place),
                key_of_local(callee, (i + 1) as usize),
                true,
                span_info,
                Some((true, true)),
            ),
            None => self,
        }
    }

    /// An argument that flows is bound by an edge that is listed as read
    /// through at both of its ends: at the argument and at the parameter.
    pub proof fn lemma_bound_argument_is_marked(
        self,
        caller: CtxtSenCallId,
        callee: CtxtSenCallId,
        i: int,
        arg: &Operand,
        span_info: CtxtSenSpanInfo,
    )
        requires
            flowing_place(arg) is Some,
        ensures
            ({
                let place = flowing_place(arg)->0;
                let argument = self.cell_id(key_of(caller, &place));
                let parameter = self.with_cell(key_of(caller, &place)).cell_id(
                    key_of_local(callee, (i + 1) as usize),
                );
                self.bind_arg(caller, callee, i, arg, span_info).pfg.deref_edges.contains(
                    DerefEdgeInfo { from: argument, to: parameter, is_deref: (true, true) },
                )
            }),
    {
        let place = flowing_place(arg)->0;
        let first = key_of(caller, &place);
        let second = key_of_local(callee, (i + 1) as usize);
        let argument = self.cell_id(first);
        let parameter = self.with_cell(first).cell_id(second);
        let linked = self.with_cell(first).with_cell(second).add_edge(argument, parameter, span_info);
        let edge = DerefEdgeInfo { from: argument, to: parameter, is_deref: (true, true) };
        let listed = linked.pfg.deref_edges;
        if !listed.contains(edge) {
            assert(listed.push(edge)[listed.len() as int] == edge);
        }
    }

    /// The state after the first `n` arguments were bound.
    pub open spec fn bind_args(
        self,
        caller: CtxtSenCallId,
        callee: CtxtSenCallId,
        args: Seq<Operand>,
        span_info: CtxtSenSpanInfo,
        n: int,
    ) -> Self
        decreases n,
    {
        if n <= 0 {
            self
        } else {
            self.bind_args(caller, callee, args, span_info, n - 1).bind_arg(
                caller,
                callee,
                n - 1,
                &args[n - 1],
                span_info,
            )
        }
    }

    /// The state after a call to a function with a graph was read: the
    /// arguments are bound in their order; then, unless the slot that takes
    /// the result has the unit type, the cell of slot 0 of the callee and the
    /// cell of the destination are found or made, in this order, and an edge
    /// from the first to the second is asked for.
    pub open spec fn args_and_ret(
        self,
        caller_cfg: &ControlFlowGraph,
        caller: CtxtSenCallId,
        call_info: &CallInfo,
        target_context: CallerContext,
    ) -> Self {
        let span_info = plain_span(caller.def_id, call_info.caller_bb_id, call_info.span);
        let callee = CtxtSenCallId {
            def_id: call_info.callee_def_id,
            caller_context: target_context,
        };
        let bound = self.bind_args(
            caller,
            callee,
            call_info.args@,
            span_info,
            call_info.args@.len() as int,
        );
        if caller_cfg.local_infos@[call_info.destination.local as int].ty != crate::ir::TyKind::Unit {
            bound.link(
                key_of_local(callee, 0),
                key_of(caller, &call_info.destination),
                true,
                span_info,
                None,
            )
        } else {
            bound
        }
    }

    /// The state after the argument of a call to a function without a graph
    /// was read: where the argument flows, the cell of its place is found or
    /// made, and an edge from it to the cell of the destination is asked for
    /// and listed as reading its source through a dereference.
    pub open spec fn pass_arg(
        self,
        caller: CtxtSenCallId,
        destination: &Place,
        arg: &Operand,
        span_info: CtxtSenSpanInfo,
    ) -> Self {
        match flowing_place(arg) {
            Some(place) => self.link(
                key_of(caller, destination),
                key_of(caller, &place),
                false,
                span_info,
                Some((true, false)),
            ),
            None => self,
        }
    }

    /// The state after the first `n` arguments were read.
    pub open spec fn pass_args(
        self,
        caller: CtxtSenCallId,
        destination: &Place,
        args: Seq<Operand>,
        span_info: CtxtSenSpanInfo,
        n: int,
    ) -> Self
        decreases n,
    {
        if n <= 0 {
            self
        } else {
            self.pass_args(caller, destination, args, span_info, n - 1).pass_arg(
                caller,
                destination,
                &args[n - 1],
                span_info,
            )
        }
    }

    /// The state after a call to a function without a graph was read, on the
    /// assumption that the call may hand back any of its arguments: unless the
    /// slot that takes the result has the unit type, the cell of the
    /// destination is found or made and the arguments are read in their order.
    pub open spec fn args_to_ret(
        self,
        caller_cfg: &ControlFlowGraph,
        caller: CtxtSenCallId,
        call_info: &CallInfo,
    ) -> Self {
        let span_info = plain_span(caller.def_id, call_info.caller_bb_id, call_info.span);
        if caller_cfg.local_infos@[call_info.destination.local as int].ty != crate::ir::TyKind::Unit {
            self.with_cell(key_of(caller, &call_info.destination)).pass_args(
                caller,
                &call_info.destination,
                call_info.args@,
                span_info,
                call_info.args@.len() as int,
            )
        } else {
            self
        }
    }
}

/// The place whose value the operand hands on, if it makes a flow edge.
fn flowing_place_of(operand: &Operand) -> (place: Option<&Place>)
    ensures
        match place {
            Some(place) => flowing_place(operand) == Some(*place),
            None => flowing_place(operand) is None,
        },
{
    match operand {
        Operand::Move(place) => Some(place),
        Operand::Copy(place) => if is_ptr_copy(place) {
            Some(place)
        } else {
            None
        },
        Operand::Constant => None,
    }
}

/// Reads a call to a function with a graph: binds the arguments to the
/// parameters and the result to the destination.
fn add_args_and_ret_edge(
    pfg: &mut PointerFlowGraph,
    worklist: &mut VecDeque<PointsToSet>,
    caller_cfg: &ControlFlowGraph,
    caller: &CtxtSenCallId,
    call_info: &CallInfo,
    target_context: &CallerContext,
    Ghost(demands): Ghost<Demands>,
)
    requires
        flow_of(old(pfg), old(worklist)).wf(),
        caller_cfg.call_ok(call_info),
        old(pfg)@.meets(demands),
        forall|local: LocalId|
            caller_cfg.has_local(local) ==> #[trigger] (demands.slot_ok)(
                GlobalLocalId { def_id: caller.def_id, local_id: local },
            ),
        forall|local: LocalId|
            local <= call_info.args@.len() ==> #[trigger] (demands.slot_ok)(
                GlobalLocalId { def_id: call_info.callee_def_id, local_id: local },
            ),
    ensures
        flow_of(final(pfg), final(worklist)) == flow_of(old(pfg), old(worklist)).args_and_ret(
            caller_cfg,
            *caller,
            call_info,
            *target_context,
        ),
        flow_of(final(pfg), final(worklist)).wf(),
        final(pfg)@.meets(demands),
        flow_of(old(pfg), old(worklist)).calm() ==> flow_of(final(pfg), final(worklist)).calm(),
{
    let ghost s0 = flow_of(pfg, worklist);
    let span_info = CtxtSenSpanInfo::new(
        caller.def_id,
        call_info.caller_bb_id,
        call_info.span,
        CallerContext::new(None),
    );
    let callee_id = CtxtSenCallId::new(call_info.callee_def_id, *target_context);
    let no_path: Vec<PlaceElem> = Vec::new();
    let mut i: usize = 0;
    while i < call_info.args.len()
        invariant
            i <= call_info.args.len(),
            caller_cfg.call_ok(call_info),
            forall|local: LocalId|
                caller_cfg.has_local(local) ==> #[trigger] (demands.slot_ok)(
                    GlobalLocalId { def_id: caller.def_id, local_id: local },
                ),
            forall|local: LocalId|
                local <= call_info.args@.len() ==> #[trigger] (demands.slot_ok)(
                    GlobalLocalId { def_id: call_info.callee_def_id, local_id: local },
                ),
            no_path@ == Seq::<PlaceElem>::empty(),
            span_info == plain_span(caller.def_id, call_info.caller_bb_id, call_info.span),
            callee_id == (CtxtSenCallId {
                def_id: call_info.callee_def_id,
                caller_context: *target_context,
            }),
            flow_of(pfg, worklist) == s0.bind_args(
                *caller,
                callee_id,
                call_info.args@,
                span_info,
                i as int,
            ),
            flow_of(pfg, worklist).wf(),
            pfg@.meets(demands),
            s0.calm() ==> flow_of(pfg, worklist).calm(),
        decreases call_info.args.len() - i,
    {
        if let Some(arg_place) = flowing_place_of(&call_info.args[i]) {
            proof {
                assert(caller_cfg.operand_ok(&call_info.args@[i as int]));
                assert((demands.slot_ok)(
                    GlobalLocalId { def_id: caller.def_id, local_id: arg_place.local },
                ));
                assert((demands.slot_ok)(
                    GlobalLocalId { def_id: call_info.callee_def_id, local_id: (i + 1) as usize },
                ));
            }
            link(
                pfg,
                worklist,
                (caller, arg_place.local, &arg_place.projection),
                (&callee_id, i + 1, &no_path),
                true,
                span_info,
                Some((true, true)),
                Ghost(demands),
            );
        }
        i = i + 1;
    }
    if !caller_cfg.local_infos[call_info.destination.local].ty.is_unit() {
        proof {
            assert((demands.slot_ok)(
                GlobalLocalId { def_id: caller.def_id, local_id: call_info.destination.local },
            ));
            assert((demands.slot_ok)(
                GlobalLocalId { def_id: call_info.callee_def_id, local_id: 0 },
            ));
        }
        link(
            pfg,
            worklist,
            (&callee_id, 0, &no_path),
            (caller, call_info.destination.local, &call_info.destination.projection),
            true,
            span_info,
            None,
            Ghost(demands),
        );
    }
}

/// Reads a call to a function without a graph, on the assumption that the
/// call may hand back any of its arguments.
fn add_args_to_ret_edge(
    pfg: &mut PointerFlowGraph,
    worklist: &mut VecDeque<PointsToSet>,
    caller_cfg: &ControlFlowGraph,
    caller: &CtxtSenCallId,
    call_info: &CallInfo,
    Ghost(demands): Ghost<Demands>,
)
    requires
        flow_of(old(pfg), old(worklist)).wf(),
        caller_cfg.call_ok(call_info),
        old(pfg)@.meets(demands),
        forall|local: LocalId|
            caller_cfg.has_local(local) ==> #[trigger] (demands.slot_ok)(
                GlobalLocalId { def_id: caller.def_id, local_id: local },
            ),
    ensures
        flow_of(final(pfg), final(worklist)) == flow_of(old(pfg), old(worklist)).args_to_ret(
            caller_cfg,
            *caller,
            call_info,
        ),
        flow_of(final(pfg), final(worklist)).wf(),
        final(pfg)@.meets(demands),
        flow_of(old(pfg), old(worklist)).calm() ==> flow_of(final(pfg), final(worklist)).calm(),
{
    let ghost s0 = flow_of(pfg, worklist);
    let span_info = CtxtSenSpanInfo::new(
        caller.def_id,
        call_info.caller_bb_id,
        call_info.span,
        CallerContext::new(None),
    );
    if !caller_cfg.local_infos[call_info.destination.local].ty.is_unit() {
        assert((demands.slot_ok)(
            GlobalLocalId { def_id: caller.def_id, local_id: call_info.destination.local },
        ));
        let _ = pfg.add_or_update_node(caller, &call_info.destination, None);
        proof {
            s0.pfg.lemma_with_cell(
                *caller,
                call_info.destination.local,
                call_info.destination.projection@,
            );
            s0.pfg.lemma_with_cell_keeps(
                *caller,
                call_info.destination.local,
                call_info.destination.projection@,
                demands.slot_ok,
                demands.site_ok,
            );
            if s0.calm() {
                s0.pfg.lemma_with_cell_no_facts(
                    *caller,
                    call_info.destination.local,
                    call_info.destination.projection@,
                );
            }
            s0.lemma_wf_in_grown_graph(pfg@);
        }
        let ghost s1 = flow_of(pfg, worklist);
        let mut i: usize = 0;
        while i < call_info.args.len()
            invariant
                i <= call_info.args.len(),
                caller_cfg.call_ok(call_info),
                forall|local: LocalId|
                    caller_cfg.has_local(local) ==> #[trigger] (demands.slot_ok)(
                        GlobalLocalId { def_id: caller.def_id, local_id: local },
                    ),
                span_info == plain_span(caller.def_id, call_info.caller_bb_id, call_info.span),
                flow_of(pfg, worklist) == s1.pass_args(
                    *caller,
                    &call_info.destination,
                    call_info.args@,
                    span_info,
                    i as int,
                ),
                flow_of(pfg, worklist).wf(),
                pfg@.meets(demands),
                s1.calm() ==> flow_of(pfg, worklist).calm(),
            decreases call_info.args.len() - i,
        {
            if let Some(arg_place) = flowing_place_of(&call_info.args[i]) {
                proof {
                    assert(caller_cfg.operand_ok(&call_info.args@[i as int]));
                    assert((demands.slot_ok)(
                        GlobalLocalId { def_id: caller.def_id, local_id: arg_place.local },
                    ));
                }
                link(
                    pfg,
                    worklist,
                    (caller, call_info.destination.local, &call_info.destination.projection),
                    (caller, arg_place.local, &arg_place.projection),
                    false,
                    span_info,
                    Some((true, false)),
                    Ghost(demands),
                );
            }
            i = i + 1;
        }
    }
}

/// Whether a function of this name hands one of its arguments on unchanged: a
/// conversion between a box and a raw pointer, or an accessor that returns a
/// reference or a raw pointer into its argument.
pub open spec fn is_pass_through_name(name: Seq<char>) -> bool {
    ||| ends_with(name, "from_raw"@)
    ||| ends_with(name, "into_raw"@)
    ||| ends_with(name, "as_ref"@)
    ||| ends_with(name, "as_mut"@)
    ||| ends_with(name, "borrow"@)
    ||| ends_with(name, "borrow_mut"@)
    ||| ends_with(name, "deref"@)
    ||| ends_with(name, "deref_mut"@)
    ||| ends_with(name, "as_ptr"@)
    ||| ends_with(name, "as_mut_ptr"@)
    ||| ends_with(name, "from_raw_parts"@)
    ||| ends_with(name, "as_mut_slice"@)
    ||| ends_with(name, "as_slice"@)
    ||| ends_with(name, "get"@)
    ||| ends_with(name, "get_mut"@)
    ||| ends_with(name, "as_bytes"@)
    ||| ends_with(name, "as_mut_str"@)
    ||| ends_with(name, "as_mut_vec"@)
    ||| ends_with(name, "as_str"@)
    ||| ends_with(name, "as_bytes_mut"@)
}

/// Whether a function of this name makes a copy that shares nothing with its argument.
pub open spec fn is_ignored_name(name: Seq<char>) -> bool {
    ends_with(name, "clone"@)
}

/// Whether a function of this name belongs to the standard library.
pub open spec fn is_library_name(name: Seq<char>) -> bool {
    starts_with(name, "std::"@) || starts_with(name, "core::"@) || starts_with(name, "alloc::"@)
}

/// The full name of a function: the segments of its path with `::` between them.
pub open spec fn def_name(functions: Seq<FunctionInfo>, def_id: DefId) -> Seq<char> {
    join(functions[def_id as int].def_path.deep_view(), "::"@)
}

/// Whether a call to `def_id` brings the graph of the function into the
/// analysis: the front end has a graph for it, and its name is none of the
/// three kinds above.
pub open spec fn can_register(functions: Seq<FunctionInfo>, def_id: DefId) -> bool {
    let name = def_name(functions, def_id);
    &&& functions[def_id as int].cfg is Some
    &&& !is_pass_through_name(name)
    &&& !is_ignored_name(name)
    &&& !is_library_name(name)
}

/// The registered functions after the callees of the first `n` calls were looked at.
pub open spec fn register_callees(
    functions: Seq<FunctionInfo>,
    registered: Seq<bool>,
    calls: Seq<CallInfo>,
    n: int,
) -> Seq<bool>
    decreases n,
{
    if n <= 0 {
        registered
    } else {
        let before = register_callees(functions, registered, calls, n - 1);
        let callee = calls[n - 1].callee_def_id;
        if can_register(functions, callee) {
            before.update(callee as int, true)
        } else {
            before
        }
    }
}

/// Whether no function ends a block in a destructor invocation.
pub open spec fn no_destructors(functions: Seq<FunctionInfo>) -> bool {
    forall|d: int|
        0 <= d < functions.len() && (#[trigger] functions[d]).cfg is Some
            ==> functions[d].cfg->0.has_no_destructor()
}

/// Whether none of the calls is to a function that ends a block in a
/// destructor invocation.
pub open spec fn reads_no_destructor(functions: Seq<FunctionInfo>, calls: Seq<CtxtSenCallId>) -> bool {
    forall|k: int|
        0 <= k < calls.len() && (#[trigger] calls[k]).def_id < functions.len()
            && functions[calls[k].def_id as int].cfg is Some
            ==> functions[calls[k].def_id as int].cfg->0.has_no_destructor()
}

/// Whether no storage slot of any function is flagged as in need of a
/// destructor.
pub open spec fn no_destructor_flags(functions: Seq<FunctionInfo>) -> bool {
    forall|d: int|
        0 <= d < functions.len() && (#[trigger] functions[d]).cfg is Some
            ==> functions[d].cfg->0.has_no_destructor_flag()
}

/// Whether every destructor invocation is on a place of a flagged storage
/// slot, as a front end leaves it.
pub open spec fn destructors_are_flagged(functions: Seq<FunctionInfo>) -> bool {
    forall|d: int|
        0 <= d < functions.len() && (#[trigger] functions[d]).cfg is Some
            ==> functions[d].cfg->0.destructs_flagged_slots()
}

/// Functions without a flagged storage slot destruct nothing.
pub proof fn lemma_no_flags_no_destructors(functions: Seq<FunctionInfo>)
    requires
        no_destructor_flags(functions),
        destructors_are_flagged(functions),
    ensures
        no_destructors(functions),
{
    assert forall|d: int|
        0 <= d < functions.len() && (#[trigger] functions[d]).cfg is Some implies functions[d].cfg->0.has_no_destructor() by {
        functions[d].cfg->0.lemma_no_flag_no_destructor();
    }
}

/// What the analysis asks of its graph: every slot is a storage slot, and
/// every destructor site a block, of a function whose graph takes part.
pub open spec fn demands_of(functions: Seq<FunctionInfo>, registered: Seq<bool>) -> Demands {
    Demands {
        slot_ok: |slot: GlobalLocalId|
            has_cfg(functions, registered, slot.def_id) && functions[slot.def_id as int].cfg->0.has_local(
                slot.local_id,
            ),
        site_ok: |site: CtxtSenSpanInfo|
            has_cfg(functions, registered, site.def_id) && site.basic_block_id
                < functions[site.def_id as int].cfg->0.basic_block_infos@.len(),
    }
}

/// The state of the expansion of the call graph.
pub struct ExpandState {
    pub flow: FlowState,
    /// The calls that were read, each once, in the order in which they were read.
    pub reachable: Seq<CtxtSenCallId>,
    /// For every function, whether its graph takes part in the analysis.
    pub registered: Seq<bool>,
    /// The calls that wait to be read.
    pub queue: Seq<CtxtSenCallId>,
}

/// The context of a callee that is entered from the call of `call_info` in `caller`.
pub open spec fn context_of(caller: CtxtSenCallId, call_info: &CallInfo) -> CallerContext {
    CallerContext {
        g_bb_id: Some(GlobalBasicBlockId { def_id: caller.def_id, bb_id: call_info.caller_bb_id }),
    }
}

impl ExpandState {
    /// The flow state is sound, the graph names storage slots and blocks of
    /// functions whose graphs take part, every function is registered or not,
    /// every waiting call is of a function whose graph takes part, and no call
    /// was read twice.
    pub open spec fn wf(self, functions: Seq<FunctionInfo>) -> bool {
        &&& self.flow.wf()
        &&& self.flow.pfg.meets(demands_of(functions, self.registered))
        &&& self.registered.len() == functions.len()
        &&& self.reachable.no_duplicates()
        &&& forall|k: int|
            0 <= k < self.queue.len() ==> has_cfg(
                functions,
                self.registered,
                (#[trigger] self.queue[k]).def_id,
            )
    }

    /// The state after one call of `caller` was read. Where the graph of the
    /// callee takes part in the analysis, the callee waits to be read in the
    /// context of this call, and its parameters and result are bound. Where it
    /// does not, nothing happens if the callee only copies or hands an
    /// argument on; else any argument may come back as the result.
    pub open spec fn bind_call(
        self,
        functions: Seq<FunctionInfo>,
        caller: CtxtSenCallId,
        call_info: &CallInfo,
    ) -> Self {
        let caller_cfg = functions[caller.def_id as int].cfg->0;
        let name = def_name(functions, call_info.callee_def_id);
        if has_cfg(functions, self.registered, call_info.callee_def_id) {
            let target = context_of(caller, call_info);
            ExpandState {
                flow: self.flow.args_and_ret(&caller_cfg, caller, call_info, target),
                queue: self.queue.push(
                    CtxtSenCallId { def_id: call_info.callee_def_id, caller_context: target },
                ),
                ..self
            }
        } else if is_ignored_name(name) || is_pass_through_name(name) {
            self
        } else {
            ExpandState { flow: self.flow.args_to_ret(&caller_cfg, caller, call_info), ..self }
        }
    }

    /// The state after the first `n` calls of `caller` were read.
    pub open spec fn bind_calls(
        self,
        functions: Seq<FunctionInfo>,
        caller: CtxtSenCallId,
        calls: Seq<CallInfo>,
        n: int,
    ) -> Self
        decreases n,
    {
        if n <= 0 {
            self
        } else {
            self.bind_calls(functions, caller, calls, n - 1).bind_call(
                functions,
                caller,
                &calls[n - 1],
            )
        }
    }

    /// The state after `caller` was read for the first time: its blocks are
    /// read, it counts as reachable, the callees of its calls are registered
    /// where they can be, and its calls are read.
    pub open spec fn reach(self, functions: Seq<FunctionInfo>, caller: CtxtSenCallId) -> Self {
        let cfg = functions[caller.def_id as int].cfg->0;
        let read = ExpandState {
            flow: self.flow.reach_blocks(
                caller,
                cfg.basic_block_infos@,
                cfg.basic_block_infos@.len() as int,
            ),
            reachable: self.reachable.push(caller),
            registered: register_callees(
                functions,
                self.registered,
                cfg.call_infos@,
                cfg.call_infos@.len() as int,
            ),
            queue: self.queue,
        };
        read.bind_calls(functions, caller, cfg.call_infos@, cfg.call_infos@.len() as int)
    }

    /// The state after the first waiting call was taken up: read, unless it
    /// was read before.
    pub open spec fn step(self, functions: Seq<FunctionInfo>) -> Self {
        if self.queue.len() == 0 {
            self
        } else {
            let caller = self.queue[0];
            let rest = ExpandState { queue: self.queue.skip(1), ..self };
            if self.reachable.contains(caller) {
                rest
            } else {
                rest.reach(functions, caller)
            }
        }
    }

    /// The state after `n` steps.
    pub open spec fn run(self, functions: Seq<FunctionInfo>, n: nat) -> Self
        decreases n,
    {
        if n == 0 {
            self
        } else {
            self.run(functions, (n - 1) as nat).step(functions)
        }
    }
}

/// Whether `name` ends with `suffix`.
fn name_ends_with(name: &Vec<char>, suffix: &str) -> (found: bool)
    ensures
        found == ends_with(name@, suffix@),
{
    let chars = crate::text::to_chars(suffix);
    crate::text::chars_end_with(name, &chars)
}

/// Whether `name` starts with `prefix`.
fn name_starts_with(name: &Vec<char>, prefix: &str) -> (found: bool)
    ensures
        found == starts_with(name@, prefix@),
{
    let chars = crate::text::to_chars(prefix);
    crate::text::chars_start_with(name, &chars)
}

/// Whether a function of this name hands one of its arguments on unchanged.
pub fn is_pass_through(name: &Vec<char>) -> (found: bool)
    ensures
        found == is_pass_through_name(name@),
{
    name_ends_with(name, "from_raw") || name_ends_with(name, "into_raw") || name_ends_with(
        name,
        "as_ref",
    ) || name_ends_with(name, "as_mut") || name_ends_with(name, "borrow") || name_ends_with(
        name,
        "borrow_mut",
    ) || name_ends_with(name, "deref") || name_ends_with(name, "deref_mut") || name_ends_with(
        name,
        "as_ptr",
    ) || name_ends_with(name, "as_mut_ptr") || name_ends_with(name, "from_raw_parts")
        || name_ends_with(name, "as_mut_slice") || name_ends_with(name, "as_slice")
        || name_ends_with(name, "get") || name_ends_with(name, "get_mut") || name_ends_with(
        name,
        "as_bytes",
    ) || name_ends_with(name, "as_mut_str") || name_ends_with(name, "as_mut_vec")
        || name_ends_with(name, "as_str") || name_ends_with(name, "as_bytes_mut")
}

/// Whether a function of this name makes a copy that shares nothing with its argument.
pub fn is_ignored(name: &Vec<char>) -> (found: bool)
    ensures
        found == is_ignored_name(name@),
{
    name_ends_with(name, "clone")
}

/// Whether a function of this name belongs to the standard library.
pub fn is_library(name: &Vec<char>) -> (found: bool)
    ensures
        found == is_library_name(name@),
{
    name_starts_with(name, "std::") || name_starts_with(name, "core::") || name_starts_with(
        name,
        "alloc::",
    )
}

/// Whether a call to a function of this name can bring the graph of the
/// function into the analysis: the name is of none of the three kinds.
pub fn can_register_name(name: &Vec<char>) -> (can: bool)
    ensures
        can == (!is_pass_through_name(name@) && !is_ignored_name(name@) && !is_library_name(name@)),
{
    !is_pass_through(name) && !is_ignored(name) && !is_library(name)
}

/// The full name of the function `def_id`.
fn def_name_of(functions: &Vec<FunctionInfo>, def_id: DefId) -> (name: Vec<char>)
    requires
        def_id < functions@.len(),
    ensures
        name@ == def_name(functions@, def_id),
{
    crate::text::join_chars(&functions[def_id].def_path, "::")
}

/// Registers the callees of `calls` where they can be.
fn register_all(functions: &Vec<FunctionInfo>, registered: &mut Vec<bool>, calls: &Vec<CallInfo>)
    requires
        old(registered)@.len() == functions@.len(),
        forall|c: int|
            0 <= c < calls@.len() ==> (#[trigger] calls@[c]).callee_def_id < functions@.len(),
    ensures
        final(registered)@ == register_callees(
            functions@,
            old(registered)@,
            calls@,
            calls@.len() as int,
        ),
        final(registered)@.len() == functions@.len(),
        forall|d: int|
            0 <= d < functions@.len() && old(registered)@[d] ==> final(registered)@[d],
{
    let mut c: usize = 0;
    while c < calls.len()
        invariant
            c <= calls.len(),
            registered@.len() == functions@.len(),
            forall|k: int|
                0 <= k < calls@.len() ==> (#[trigger] calls@[k]).callee_def_id < functions@.len(),
            registered@ == register_callees(functions@, old(registered)@, calls@, c as int),
            forall|d: int| 0 <= d < functions@.len() && old(registered)@[d] ==> registered@[d],
        decreases calls.len() - c,
    {
        let callee = calls[c].callee_def_id;
        let ghost before = registered@;
        if !(registered[callee] && functions[callee].cfg.is_some()) {
            let name = def_name_of(functions, callee);
            if !is_pass_through(&name) && !is_ignored(&name) && !is_library(&name)
                && functions[callee].cfg.is_some() {
                registered.set(callee, true);
            }
        }
        assert(registered@ =~= if can_register(functions@, callee) {
            before.update(callee as int, true)
        } else {
            before
        });
        c = c + 1;
    }
}


/// What an analysis run works on.
#[derive(Debug)]
pub struct AnalysisContext {
    pub options: AnalysisOptions,
    pub cfgs: CfgTable,
    pub pfg: PointerFlowGraph,
    /// The calls that were read, each once, in the order in which they were read.
    pub cs_reachable_calls: Vec<CtxtSenCallId>,
    /// The facts that wait to be added to the graph, oldest first.
    pub worklist: VecDeque<PointsToSet>,
}

impl AnalysisContext {
    /// The graph and the waiting facts.
    pub open spec fn flow(&self) -> FlowState {
        flow_of(&self.pfg, &self.worklist)
    }

    /// The state of the expansion, with `queue` for the waiting calls.
    pub open spec fn expand_state(&self, queue: Seq<CtxtSenCallId>) -> ExpandState {
        ExpandState {
            flow: self.flow(),
            reachable: self.cs_reachable_calls@,
            registered: self.cfgs.registered@,
            queue,
        }
    }

    /// The table of functions and the flow state are sound, the graph names
    /// storage slots and blocks of functions whose graphs take part, and no
    /// call is listed twice as read.
    pub open spec fn wf(&self) -> bool {
        &&& self.cfgs.wf()
        &&& self.flow().wf()
        &&& self.pfg@.meets(demands_of(self.cfgs.functions@, self.cfgs.registered@))
        &&& self.cs_reachable_calls@.no_duplicates()
    }
}

/// The calls that the call sites of a function lead to.
pub open spec fn call_sites_of(def_id: DefId, calls: Seq<CallInfo>) -> Seq<CtxtSenCallId> {
    calls.map_values(
        |call_info: CallInfo|
            CtxtSenCallId {
                def_id: call_info.callee_def_id,
                caller_context: CallerContext {
                    g_bb_id: Some(GlobalBasicBlockId { def_id, bb_id: call_info.caller_bb_id }),
                },
            },
    )
}

/// The calls that the call sites of the first `n` functions lead to.
pub open spec fn all_call_sites(functions: Seq<FunctionInfo>, n: int) -> Seq<CtxtSenCallId>
    decreases n,
{
    if n <= 0 {
        Seq::empty()
    } else {
        all_call_sites(functions, n - 1) + match functions[n - 1].cfg {
            Some(cfg) => call_sites_of((n - 1) as usize, cfg.call_infos@),
            None => Seq::empty(),
        }
    }
}

/// The call that a call site leads to is among the calls of all call sites.
proof fn lemma_call_site_listed(functions: Seq<FunctionInfo>, n: int, d: int, k: int)
    requires
        0 <= d < n <= functions.len(),
        d <= usize::MAX,
        functions[d].cfg is Some,
        0 <= k < functions[d].cfg->0.call_infos@.len(),
    ensures
        all_call_sites(functions, n).contains(
            call_sites_of(d as usize, functions[d].cfg->0.call_infos@)[k],
        ),
    decreases n,
{
    let wanted = call_sites_of(d as usize, functions[d].cfg->0.call_infos@)[k];
    let before = all_call_sites(functions, n - 1);
    if d == n - 1 {
        let last = call_sites_of(d as usize, functions[d].cfg->0.call_infos@);
        assert((before + last)[before.len() + k] == wanted);
    } else {
        lemma_call_site_listed(functions, n - 1, d, k);
        let at = choose|at: int| 0 <= at < before.len() && before[at] == wanted;
        assert(all_call_sites(functions, n)[at] == wanted);
    }
}

/// Reads the calls of `caller`.
fn add_calls(
    functions: &Vec<FunctionInfo>,
    registered: &Vec<bool>,
    pfg: &mut PointerFlowGraph,
    worklist: &mut VecDeque<PointsToSet>,
    queue: &mut VecDeque<CtxtSenCallId>,
    caller: &CtxtSenCallId,
    Ghost(reachable): Ghost<Seq<CtxtSenCallId>>,
)
    requires
        functions_wf(functions@),
        has_cfg(functions@, registered@, caller.def_id),
        (ExpandState {
            flow: flow_of(old(pfg), old(worklist)),
            reachable,
            registered: registered@,
            queue: old(queue)@,
        }).wf(functions@),
    ensures
        (ExpandState {
            flow: flow_of(final(pfg), final(worklist)),
            reachable,
            registered: registered@,
            queue: final(queue)@,
        }) == (ExpandState {
            flow: flow_of(old(pfg), old(worklist)),
            reachable,
            registered: registered@,
            queue: old(queue)@,
        }).bind_calls(
            functions@,
            *caller,
            functions@[caller.def_id as int].cfg->0.call_infos@,
            functions@[caller.def_id as int].cfg->0.call_infos@.len() as int,
        ),
        (ExpandState {
            flow: flow_of(final(pfg), final(worklist)),
            reachable,
            registered: registered@,
            queue: final(queue)@,
        }).wf(functions@),
        forall|k: int|
            0 <= k < final(queue)@.len() ==> old(queue)@.contains(#[trigger] final(queue)@[k])
                || all_call_sites(functions@, functions@.len() as int).contains(final(queue)@[k]),
        flow_of(old(pfg), old(worklist)).calm() ==> flow_of(final(pfg), final(worklist)).calm(),
{
    let cfg = functions[caller.def_id].cfg.as_ref().unwrap();
    let ghost start = ExpandState {
        flow: flow_of(pfg, worklist),
        reachable,
        registered: registered@,
        queue: queue@,
    };
    let mut c: usize = 0;
    while c < cfg.call_infos.len()
        invariant
            c <= cfg.call_infos.len(),
            functions_wf(functions@),
            has_cfg(functions@, registered@, caller.def_id),
            *cfg == functions@[caller.def_id as int].cfg->0,
            (ExpandState {
                flow: flow_of(pfg, worklist),
                reachable,
                registered: registered@,
                queue: queue@,
            }) == start.bind_calls(functions@, *caller, cfg.call_infos@, c as int),
            (ExpandState {
                flow: flow_of(pfg, worklist),
                reachable,
                registered: registered@,
                queue: queue@,
            }).wf(functions@),
            forall|k: int|
                0 <= k < queue@.len() ==> start.queue.contains(#[trigger] queue@[k])
                    || all_call_sites(functions@, functions@.len() as int).contains(queue@[k]),
            start.flow.calm() ==> flow_of(pfg, worklist).calm(),
        decreases cfg.call_infos.len() - c,
    {
        let call_info = &cfg.call_infos[c];
        let callee = call_info.callee_def_id;
        let ghost before = queue@;
        let ghost demands = demands_of(functions@, registered@);
        assert(functions@[caller.def_id as int].cfg is Some);
        assert(cfg.wf());
        assert(cfg.call_ok(&cfg.call_infos@[c as int]));
        assert(call_target_ok(functions@, &cfg.call_infos@[c as int]));
        assert forall|local: LocalId| cfg.has_local(local) implies #[trigger] (demands.slot_ok)(
            GlobalLocalId { def_id: caller.def_id, local_id: local },
        ) by {}
        if registered[callee] && functions[callee].cfg.is_some() {
            let target_context = CallerContext::new(
                Some(GlobalBasicBlockId::new(caller.def_id, call_info.caller_bb_id)),
            );
            let callee_id = CtxtSenCallId::new(callee, target_context);
            queue.push_back(callee_id);
            assert forall|local: LocalId| local <= call_info.args@.len() implies #[trigger] (
            demands.slot_ok)(GlobalLocalId { def_id: call_info.callee_def_id, local_id: local }) by {}
            add_args_and_ret_edge(
                pfg,
                worklist,
                cfg,
                caller,
                call_info,
                &target_context,
                Ghost(demands),
            );
            proof {
                lemma_call_site_listed(
                    functions@,
                    functions@.len() as int,
                    caller.def_id as int,
                    c as int,
                );
                assert forall|k: int| 0 <= k < queue@.len() implies start.queue.contains(
                    #[trigger] queue@[k],
                ) || all_call_sites(functions@, functions@.len() as int).contains(queue@[k]) by {
                    if k < before.len() {
                        assert(queue@[k] == before[k]);
                    }
                }
            }
        } else {
            let name = def_name_of(functions, callee);
            if !(is_ignored(&name) || is_pass_through(&name)) {
                add_args_to_ret_edge(pfg, worklist, cfg, caller, call_info, Ghost(demands));
            }
        }
        c = c + 1;
    }
}


/// Whether `call_id` is among `calls`.
fn contains_call(calls: &Vec<CtxtSenCallId>, call_id: &CtxtSenCallId) -> (found: bool)
    ensures
        found == calls@.contains(*call_id),
{
    let mut i: usize = 0;
    while i < calls.len()
        invariant
            i <= calls.len(),
            forall|j: int| 0 <= j < i ==> calls@[j] != *call_id,
        decreases calls.len() - i,
    {
        if calls[i] == *call_id {
            return true;
        }
        i = i + 1;
    }
    false
}

/// The calls that can ever wait to be read: the entry and what the call sites lead to.
pub open spec fn expansion_domain(functions: Seq<FunctionInfo>, entry: CtxtSenCallId) -> Set<
    CtxtSenCallId,
> {
    all_call_sites(functions, functions.len() as int).to_set().insert(entry)
}

/// One more call was read: fewer calls of the domain are left to read.
proof fn lemma_fewer_left(domain: Set<CtxtSenCallId>, reachable: Seq<CtxtSenCallId>, caller: CtxtSenCallId)
    requires
        domain.finite(),
        domain.contains(caller),
        !reachable.contains(caller),
    ensures
        domain.difference(reachable.push(caller).to_set()).len() < domain.difference(
            reachable.to_set(),
        ).len(),
{
    assert(reachable.push(caller).to_set() =~= reachable.to_set().insert(caller)) by {
        assert forall|c: CtxtSenCallId|
            reachable.push(caller).to_set().contains(c) <==> reachable.to_set().insert(
                caller,
            ).contains(c) by {
            if reachable.push(caller).contains(c) {
                let k = choose|k: int|
                    0 <= k < reachable.push(caller).len() && reachable.push(caller)[k] == c;
                if k < reachable.len() {
                    assert(reachable[k] == c);
                }
            }
            if reachable.contains(c) {
                let k = choose|k: int| 0 <= k < reachable.len() && reachable[k] == c;
                assert(reachable.push(caller)[k] == c);
            }
            if c == caller {
                assert(reachable.push(caller)[reachable.len() as int] == c);
            }
        }
    }
    domain.lemma_set_insert_diff_decreases(reachable.to_set(), caller);
}

/// Expands the call graph from `entry`: reads every call that can be reached
/// from it, each once, and builds the flow graph of what it reads.
pub fn process_calls(ctxt: AnalysisContext, entry: CtxtSenCallId) -> (result: AnalysisContext)
    requires
        ctxt.wf(),
        ctxt.cfgs.has(entry.def_id),
    ensures
        result.wf(),
        result.options == ctxt.options,
        result.cfgs.functions == ctxt.cfgs.functions,
        exists|n: nat| #[trigger]
            ctxt.expand_state(seq![entry]).run(ctxt.cfgs.functions@, n) == result.expand_state(
                Seq::empty(),
            ),
        no_destructors(ctxt.cfgs.functions@) && ctxt.flow().calm() ==> result.flow().calm(),
        reads_no_destructor(ctxt.cfgs.functions@, result.cs_reachable_calls@)
            && ctxt.flow().calm() ==> result.flow().calm(),
        forall|d: DefId| ctxt.cfgs.has(d) ==> #[trigger] result.cfgs.has(d),
{
    let ghost start = ctxt.expand_state(seq![entry]);
    let AnalysisContext { options, cfgs, mut pfg, mut cs_reachable_calls, mut worklist } = ctxt;
    let CfgTable { functions, mut registered } = cfgs;
    let mut queue: VecDeque<CtxtSenCallId> = VecDeque::new();
    queue.push_back(entry);
    assert(queue@ =~= seq![entry]);
    let ghost domain = expansion_domain(functions@, entry);
    let ghost mut steps: nat = 0;
    proof {
        vstd::seq_lib::seq_to_set_is_finite(all_call_sites(functions@, functions@.len() as int));
    }
    while queue.len() > 0
        invariant
            functions_wf(functions@),
            domain == expansion_domain(functions@, entry),
            domain.finite(),
            (ExpandState {
                flow: flow_of(&pfg, &worklist),
                reachable: cs_reachable_calls@,
                registered: registered@,
                queue: queue@,
            }) == start.run(functions@, steps),
            (ExpandState {
                flow: flow_of(&pfg, &worklist),
                reachable: cs_reachable_calls@,
                registered: registered@,
                queue: queue@,
            }).wf(functions@),
            forall|k: int| 0 <= k < queue@.len() ==> domain.contains(#[trigger] queue@[k]),
            no_destructors(functions@) && start.flow.calm() ==> flow_of(&pfg, &worklist).calm(),
            reads_no_destructor(functions@, cs_reachable_calls@) && start.flow.calm() ==> flow_of(
                &pfg,
                &worklist,
            ).calm(),
            forall|d: int|
                0 <= d < functions@.len() && start.registered[d] ==> #[trigger] registered@[d],
        decreases domain.difference(cs_reachable_calls@.to_set()).len(), queue@.len(),
    {
        let ghost before = ExpandState {
            flow: flow_of(&pfg, &worklist),
            reachable: cs_reachable_calls@,
            registered: registered@,
            queue: queue@,
        };
        let caller = queue.pop_front().unwrap();
        assert(queue@ =~= before.queue.skip(1));
        assert(caller == before.queue[0]);
        assert(forall|k: int| 0 <= k < queue@.len() ==> queue@[k] == before.queue[k + 1]);
        if !contains_call(&cs_reachable_calls, &caller) {
            let cfg = functions[caller.def_id].cfg.as_ref().unwrap();
            assert(cfg.wf() && forall|c: int|
                0 <= c < cfg.call_infos@.len() ==> (#[trigger] cfg.call_infos@[c]).callee_def_id
                    < functions@.len()) by {
                assert(functions@[caller.def_id as int].cfg is Some);
                assert forall|c: int| 0 <= c < cfg.call_infos@.len() implies (
                #[trigger] cfg.call_infos@[c]).callee_def_id < functions@.len() by {
                    assert(call_target_ok(functions@, &cfg.call_infos@[c]));
                }
            }
            let ghost demands = demands_of(functions@, registered@);
            proof {
                assert(no_destructors(functions@) ==> cfg.has_no_destructor());
                assert forall|local: LocalId| cfg.has_local(local) implies #[trigger] (
                demands.slot_ok)(GlobalLocalId { def_id: caller.def_id, local_id: local }) by {}
                assert forall|site: CtxtSenSpanInfo|
                    site.def_id == caller.def_id && site.basic_block_id
                        < cfg.basic_block_infos@.len() implies #[trigger] (demands.site_ok)(site) by {}
            }
            proof {
                lemma_fewer_left(domain, cs_reachable_calls@, caller);
            }
            let ghost read = cs_reachable_calls@;
            let ghost calm_so_far = flow_of(&pfg, &worklist).calm();
            add_reachable(
                &mut pfg,
                &mut worklist,
                &mut cs_reachable_calls,
                &caller,
                cfg,
                Ghost(demands),
            );
            proof {
                if reads_no_destructor(functions@, cs_reachable_calls@) && start.flow.calm() {
                    assert forall|k: int|
                        0 <= k < read.len() && (#[trigger] read[k]).def_id < functions@.len()
                            && functions@[read[k].def_id as int].cfg is Some implies functions@[read[k].def_id as int].cfg->0.has_no_destructor() by {
                        assert(cs_reachable_calls@[k] == read[k]);
                    }
                    assert(cs_reachable_calls@[read.len() as int] == caller);
                    assert(cfg.has_no_destructor());
                    assert(calm_so_far);
                }
            }
            register_all(&functions, &mut registered, &cfg.call_infos);
            proof {
                let weaker = demands_of(functions@, registered@);
                assert forall|slot: GlobalLocalId| (demands.slot_ok)(slot) implies #[trigger] (
                weaker.slot_ok)(slot) by {}
                assert forall|site: CtxtSenSpanInfo| (demands.site_ok)(site) implies #[trigger] (
                weaker.site_ok)(site) by {}
                pfg@.lemma_meets_weaker(demands, weaker);
            }
            let ghost middle = queue@;
            add_calls(
                &functions,
                &registered,
                &mut pfg,
                &mut worklist,
                &mut queue,
                &caller,
                Ghost(cs_reachable_calls@),
            );
            proof {
                assert forall|k: int| 0 <= k < queue@.len() implies domain.contains(
                    #[trigger] queue@[k],
                ) by {
                    if middle.contains(queue@[k]) {
                        let m = choose|m: int| 0 <= m < middle.len() && middle[m] == queue@[k];
                        assert(middle[m] == before.queue[m + 1]);
                    }
                }
            }
        }
        proof {
            steps = steps + 1;
        }
    }
    assert(queue@ =~= Seq::empty());
    AnalysisContext {
        options,
        cfgs: CfgTable { functions, registered },
        pfg,
        cs_reachable_calls,
        worklist,
    }
}


/// Takes up the oldest waiting item: what it brings that is new to its cell
/// is added to the cell and sent on. No cell loses an object: every cell
/// holds afterwards what it held, in the same order, and maybe more behind
/// it. Either a fact was added, or the graph is as it was and one item less
/// waits.
pub fn propagate_next(ctxt: &mut AnalysisContext)
    requires
        old(ctxt).wf(),
        old(ctxt).worklist@.len() > 0,
    ensures
        final(ctxt).wf(),
        final(ctxt).flow() == old(ctxt).flow().step(),
        old(ctxt).flow().grows_into(final(ctxt).flow()),
        final(ctxt).options == old(ctxt).options,
        final(ctxt).cfgs == old(ctxt).cfgs,
        final(ctxt).cs_reachable_calls == old(ctxt).cs_reachable_calls,
        forall|slot: GlobalLocalId|
            final(ctxt).pfg@.has_slot(slot) == old(ctxt).pfg@.has_slot(slot),
        crate::propagate::fact_space(final(ctxt).pfg@) == crate::propagate::fact_space(
            old(ctxt).pfg@,
        ),
        (final(ctxt).pfg@ == old(ctxt).pfg@ && final(ctxt).worklist@.len() < old(
            ctxt,
        ).worklist@.len()) || crate::propagate::fact_space(old(ctxt).pfg@).difference(
            crate::propagate::facts(final(ctxt).pfg@),
        ).len() < crate::propagate::fact_space(old(ctxt).pfg@).difference(
            crate::propagate::facts(old(ctxt).pfg@),
        ).len(),
{
    let ghost before = ctxt.flow();
    let item = ctxt.worklist.pop_front().unwrap();
    proof {
        assert(worklist_view(ctxt.worklist@) =~= before.worklist.skip(1));
        assert(item@ == before.worklist[0]);
        assert(before.pfg.contains(item.g_proj_id));
        assert(item.points_to@.no_duplicates());
        assert forall|k: int, j: int|
            0 <= k < ctxt.flow().worklist.len() && 0 <= j
                < ctxt.flow().worklist[k].points_to.len() implies ctxt.pfg@.contains(
            (#[trigger] ctxt.flow().worklist[k].points_to[j]).id,
        ) by {
            assert(ctxt.flow().worklist[k] == before.worklist[k + 1]);
            assert(before.pfg.contains(before.worklist[k + 1].points_to[j].id));
        }
        assert forall|k: int| 0 <= k < ctxt.flow().worklist.len() implies ctxt.pfg@.contains(
            (#[trigger] ctxt.flow().worklist[k]).g_proj_id,
        ) && ctxt.flow().worklist[k].points_to.no_duplicates() by {
            assert(ctxt.flow().worklist[k] == before.worklist[k + 1]);
        }
    }
    let node = ctxt.pfg.get_projection_node(item.g_proj_id);
    let delta = crate::propagate::new_objects(&item.points_to, &node.points_to);
    proof {
        assert forall|k: int| 0 <= k < delta@.len() implies !ctxt.pfg@.node(
            item.g_proj_id,
        ).points_to.contains(#[trigger] delta@[k]) && ctxt.pfg@.contains(delta@[k].id) by {
            let j = choose|j: int| 0 <= j < item.points_to@.len() && item.points_to@[j] == delta@[k];
            assert(before.pfg.contains(before.worklist[0].points_to[j].id));
        }
    }
    let ghost middle = ctxt.pfg@;
    crate::propagate::propagate(
        &mut ctxt.pfg,
        &mut ctxt.worklist,
        item.g_proj_id,
        &delta,
        Ghost(demands_of(ctxt.cfgs.functions@, ctxt.cfgs.registered@)),
    );
    proof {
        assert(ctxt.flow() == before.step());
        assert forall|id: GlobalProjectionId| #![trigger before.pfg.contains(id)]
            before.pfg.contains(id) implies ctxt.pfg@.contains(id) && before.pfg.node(
            id,
        ).points_to.is_prefix_of(ctxt.pfg@.node(id).points_to) by {
            assert(middle.node(id).points_to.is_prefix_of(ctxt.pfg@.node(id).points_to));
        }
        if delta@.len() > 0 {
            assert(ctxt.pfg@.node(item.g_proj_id).points_to[middle.node(
                item.g_proj_id,
            ).points_to.len() as int] == delta@[0]);
            crate::propagate::lemma_fewer_facts_left(
                middle,
                ctxt.pfg@,
                item.g_proj_id,
                delta@[0],
            );
        } else {
            assert(ctxt.pfg@ == middle);
        }
    }
}

/// The state after the call graph was expanded from `entry` for `n` steps and
/// the facts were then propagated for `m` steps.
pub open spec fn analysed(ctxt: &AnalysisContext, entry: CtxtSenCallId, n: nat, m: nat) -> ExpandState {
    let expanded = ctxt.expand_state(seq![entry]).run(ctxt.cfgs.functions@, n);
    ExpandState { flow: expanded.flow.run(m), ..expanded }
}

/// Runs the points-to analysis from `entry`: expands the call graph until no
/// call waits to be read, then propagates the facts until none waits to be
/// added. The result is the state in which both have come to rest. No cell
/// loses an object on the way. Where none of the functions that are read
/// invokes a destructor, no cell holds an object at the end and no object is
/// listed as multiply dropped. The propagation always ends, as a storage slot
/// has no more cells than the machine can number; where it makes no cell
/// (`FlowState::settled`), its cells are those that the expansion left.
pub fn alias_analysis(ctxt: AnalysisContext, entry: CtxtSenCallId) -> (result: AnalysisContext)
    requires
        ctxt.wf(),
        ctxt.cfgs.has(entry.def_id),
    ensures
        result.wf(),
        result.worklist@.len() == 0,
        result.options == ctxt.options,
        result.cfgs.functions == ctxt.cfgs.functions,
        exists|n: nat, m: nat| #[trigger]
            analysed(&ctxt, entry, n, m) == result.expand_state(Seq::empty()),
        no_destructors(ctxt.cfgs.functions@) && ctxt.flow().calm() ==> result.flow().calm(),
        reads_no_destructor(ctxt.cfgs.functions@, result.cs_reachable_calls@)
            && ctxt.flow().calm() ==> result.flow().calm(),
        forall|d: DefId| ctxt.cfgs.has(d) ==> #[trigger] result.cfgs.has(d),
        exists|n: nat| #[trigger]
            ctxt.expand_state(seq![entry]).run(ctxt.cfgs.functions@, n).flow.grows_into(
                result.flow(),
            ),
{
    let ghost initial = ctxt;
    let ghost functions = ctxt.cfgs.functions@;
    let ghost start = ctxt.expand_state(seq![entry]);
    let mut state = process_calls(ctxt, entry);
    let ghost n = choose|n: nat| #[trigger]
        start.run(functions, n) == state.expand_state(Seq::empty());
    let ghost expanded = state.flow();
    let ghost space = crate::propagate::fact_space(state.pfg@);
    let ghost first = state.pfg@;
    let ghost mut m: nat = 0;
    proof {
        crate::propagate::lemma_fact_space_finite(first);
        crate::fixpoint::lemma_grows_into_itself(expanded);
    }
    while state.worklist.len() > 0
        invariant
            state.wf(),
            state.options == initial.options,
            state.cfgs.functions == initial.cfgs.functions,
            functions == initial.cfgs.functions@,
            no_destructors(functions) && initial.flow().calm() ==> state.flow().calm(),
            reads_no_destructor(functions, state.cs_reachable_calls@) && initial.flow().calm()
                ==> state.flow().calm(),
            forall|d: DefId| initial.cfgs.has(d) ==> #[trigger] state.cfgs.has(d),
            start.run(functions, n) == (ExpandState {
                flow: expanded,
                reachable: state.cs_reachable_calls@,
                registered: state.cfgs.registered@,
                queue: Seq::empty(),
            }),
            state.flow() == expanded.run(m),
            expanded.grows_into(state.flow()),
            space == crate::propagate::fact_space(state.pfg@),
            space.finite(),
        decreases
                space.difference(crate::propagate::facts(state.pfg@)).len(),
                state.worklist@.len(),
    {
        let ghost before = state.flow();
        let ghost calm_before = before.calm();
        propagate_next(&mut state);
        proof {
            m = m + 1;
            assert(!calm_before);
            crate::fixpoint::lemma_grows_on(expanded, before, state.flow());
        }
    }
    proof {
        assert(state.expand_state(Seq::empty()).flow == expanded.run(m));
        assert(analysed(&initial, entry, n, m) == state.expand_state(Seq::empty()));
    }
    state
}

} // verus!
