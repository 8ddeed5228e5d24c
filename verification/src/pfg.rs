//! The pointer flow graph: for every storage slot the access paths seen so far,
//! each with its points-to set, its destructor sites and its flow edges.

use vstd::prelude::*;
use crate::ids::{
    CallerContext, CtxtSenCallId, CtxtSenSpanInfo, DropObjectId, GlobalLocalId,
    GlobalProjectionId, LocalId, ProjectionId,
};
use crate::ir::{copy_path, path_has_deref, Place, PlaceElem};

verus! {

/// A flow edge as its source cell keeps it: the target and where the flow happens.
#[derive(Clone, Copy, Debug, PartialEq, Eq, Hash, Structural)]
pub struct ProjectionNeighborInfo {
    pub neighbor_id: GlobalProjectionId,
    pub span_info: CtxtSenSpanInfo,
}

impl ProjectionNeighborInfo {
    pub fn new(neighbor_id: GlobalProjectionId, span_info: CtxtSenSpanInfo) -> (info: Self)
        ensures
            info == (ProjectionNeighborInfo { neighbor_id, span_info }),
    {
        ProjectionNeighborInfo { neighbor_id, span_info }
    }
}

/// A flow edge one of whose ends is read through a dereference; `is_deref`
/// says which: the source, the target, or both.
#[derive(Clone, Copy, Debug, PartialEq, Eq, Hash)]
pub struct DerefEdgeInfo {
    pub from: GlobalProjectionId,
    pub to: GlobalProjectionId,
    pub is_deref: (bool, bool),
}

impl DerefEdgeInfo {
    pub fn new(from: GlobalProjectionId, to: GlobalProjectionId, is_deref: (bool, bool)) -> (info:
        Self)
        ensures
            info == (DerefEdgeInfo { from, to, is_deref }),
    {
        DerefEdgeInfo { from, to, is_deref }
    }

    pub fn is_same(&self, other: &DerefEdgeInfo) -> (same: bool)
        ensures
            same == (*self == *other),
    {
        self.from == other.from && self.to == other.to && self.is_deref.0 == other.is_deref.0
            && self.is_deref.1 == other.is_deref.1
    }
}

/// One cell of the analysis: an access path of a storage slot in one context.
#[derive(Debug)]
pub struct ProjectionNode {
    pub id: ProjectionId,
    pub caller_context: CallerContext,
    pub projection: Vec<PlaceElem>,
    /// The abstract objects the cell may refer to, each once, oldest first.
    pub points_to: Vec<DropObjectId>,
    /// The destructor invocations recorded on this cell.
    pub cs_drop_spans: Vec<CtxtSenSpanInfo>,
    /// The outgoing flow edges, one for each target, oldest first.
    pub neighbors: Vec<ProjectionNeighborInfo>,
}

/// A `ProjectionNode` as a mathematical value.
pub struct ProjectionNodeView {
    pub id: ProjectionId,
    pub caller_context: CallerContext,
    pub projection: Seq<PlaceElem>,
    pub points_to: Seq<DropObjectId>,
    pub cs_drop_spans: Seq<CtxtSenSpanInfo>,
    pub neighbors: Seq<ProjectionNeighborInfo>,
}

impl View for ProjectionNode {
    type V = ProjectionNodeView;

    open spec fn view(&self) -> ProjectionNodeView {
        ProjectionNodeView {
            id: self.id,
            caller_context: self.caller_context,
            projection: self.projection@,
            points_to: self.points_to@,
            cs_drop_spans: self.cs_drop_spans@,
            neighbors: self.neighbors@,
        }
    }
}

impl ProjectionNodeView {
    /// A cell without facts, sites or edges.
    pub open spec fn fresh(id: ProjectionId, projection: Seq<PlaceElem>, ctx: CallerContext) -> Self {
        ProjectionNodeView {
            id,
            caller_context: ctx,
            projection,
            points_to: Seq::empty(),
            cs_drop_spans: Seq::empty(),
            neighbors: Seq::empty(),
        }
    }

    /// Whether this is the cell of the given access path in the given context.
    pub open spec fn matches(self, projection: Seq<PlaceElem>, ctx: CallerContext) -> bool {
        self.projection == projection && self.caller_context == ctx
    }

    pub open spec fn has_neighbor(self, to: GlobalProjectionId) -> bool {
        exists|i: int| 0 <= i < self.neighbors.len() && (#[trigger] self.neighbors[i]).neighbor_id == to
    }

    /// The position of the edge to `to`, where there is one.
    pub open spec fn neighbor_index(self, to: GlobalProjectionId) -> int {
        choose|i: int| 0 <= i < self.neighbors.len() && (#[trigger] self.neighbors[i]).neighbor_id == to
    }

    /// The cell with the edge `info` recorded: in place of an edge to the same
    /// target where there is one, behind the others where there is none.
    pub open spec fn with_neighbor(self, info: ProjectionNeighborInfo) -> Self {
        ProjectionNodeView {
            neighbors: if self.has_neighbor(info.neighbor_id) {
                self.neighbors.update(self.neighbor_index(info.neighbor_id), info)
            } else {
                self.neighbors.push(info)
            },
            ..self
        }
    }

    pub open spec fn with_drop_span(self, span: CtxtSenSpanInfo) -> Self {
        ProjectionNodeView { cs_drop_spans: self.cs_drop_spans.push(span), ..self }
    }

    pub open spec fn with_points_to(self, extra: Seq<DropObjectId>) -> Self {
        ProjectionNodeView { points_to: self.points_to + extra, ..self }
    }

    /// No object and no edge target is held twice.
    pub open spec fn wf(self) -> bool {
        &&& self.points_to.no_duplicates()
        &&& forall|i: int, j: int|
            0 <= i < j < self.neighbors.len() ==> (#[trigger] self.neighbors[i]).neighbor_id != (
            #[trigger] self.neighbors[j]).neighbor_id
    }
}

impl ProjectionNode {
    pub fn new(
        id: ProjectionId,
        projection: Vec<PlaceElem>,
        drop_spans: Vec<CtxtSenSpanInfo>,
        caller_context: CallerContext,
    ) -> (node: Self)
        ensures
            node@ == (ProjectionNodeView {
                cs_drop_spans: drop_spans@,
                ..ProjectionNodeView::fresh(id, projection@, caller_context)
            }),
    {
        ProjectionNode {
            id,
            caller_context,
            projection,
            cs_drop_spans: drop_spans,
            points_to: Vec::new(),
            neighbors: Vec::new(),
        }
    }

    /// The position of the edge to `to`, if there is one.
    pub fn find_neighbor(&self, to: GlobalProjectionId) -> (found: Option<usize>)
        ensures
            found is Some <==> self@.has_neighbor(to),
            found matches Some(i) ==> i < self.neighbors@.len() && self.neighbors@[i as int].neighbor_id
                == to,
            found matches Some(i) ==> self@.wf() ==> i == self@.neighbor_index(to),
    {
        let mut i: usize = 0;
        while i < self.neighbors.len()
            invariant
                i <= self.neighbors.len(),
                forall|j: int| 0 <= j < i ==> self.neighbors@[j].neighbor_id != to,
            decreases self.neighbors.len() - i,
        {
            if self.neighbors[i].neighbor_id == to {
                return Some(i);
            }
            i = i + 1;
        }
        None
    }

    pub fn add_neighbor(&mut self, neighbor: ProjectionNeighborInfo)
        requires
            old(self)@.wf(),
        ensures
            final(self)@ == old(self)@.with_neighbor(neighbor),
            final(self)@.wf(),
    {
        match self.find_neighbor(neighbor.neighbor_id) {
            Some(i) => {
                self.neighbors[i] = neighbor;
            },
            None => {
                self.neighbors.push(neighbor);
            },
        }
    }

    pub fn is_prefix_of(&self, proj: &Vec<PlaceElem>) -> (prefix: bool)
        ensures
            prefix == self.projection@.is_prefix_of(proj@),
    {
        path_is_prefix_of(&self.projection, proj)
    }

    pub fn is_same_projection(&self, proj: &Vec<PlaceElem>) -> (same: bool)
        ensures
            same == (self.projection@ == proj@),
    {
        if self.projection.len() != proj.len() {
            return false;
        }
        let same = path_is_prefix_of(&self.projection, proj);
        assert(proj@.subrange(0, proj@.len() as int) =~= proj@);
        same
    }

    pub fn add_drop_span(&mut self, drop_span: CtxtSenSpanInfo)
        ensures
            final(self)@ == old(self)@.with_drop_span(drop_span),
    {
        self.cs_drop_spans.push(drop_span);
    }

    /// Puts the objects `extra` behind those that the cell holds.
    pub fn extend_points_to(&mut self, extra: &Vec<DropObjectId>)
        ensures
            final(self)@ == old(self)@.with_points_to(extra@),
    {
        let ghost before = self@;
        let mut i: usize = 0;
        while i < extra.len()
            invariant
                i <= extra.len(),
                self@ == before.with_points_to(extra@.take(i as int)),
            decreases extra.len() - i,
        {
            self.points_to.push(extra[i]);
            assert(self.points_to@ =~= before.points_to + extra@.take(i + 1));
            i = i + 1;
        }
        assert(extra@.take(extra@.len() as int) =~= extra@);
    }
}

/// Whether the access path `path` is an initial segment of `of`.
pub fn path_is_prefix_of(path: &Vec<PlaceElem>, of: &Vec<PlaceElem>) -> (prefix: bool)
    ensures
        prefix == path@.is_prefix_of(of@),
{
    if path.len() > of.len() {
        return false;
    }
    let mut i: usize = 0;
    while i < path.len()
        invariant
            i <= path.len() <= of.len(),
            forall|j: int| 0 <= j < i ==> path@[j] == of@[j],
        decreases path.len() - i,
    {
        if path[i] != of[i] {
            assert(of@.subrange(0, path@.len() as int)[i as int] == of@[i as int]);
            return false;
        }
        i = i + 1;
    }
    assert(path@ =~= of@.subrange(0, path@.len() as int));
    true
}


/// The cells of one storage slot.
#[derive(Debug)]
pub struct PfgNode {
    pub gid: GlobalLocalId,
    /// The cells of the slot; a cell's `id` is its position here.
    pub projection_nodes: Vec<ProjectionNode>,
}

/// A `PfgNode` as a mathematical value.
pub struct PfgNodeView {
    pub gid: GlobalLocalId,
    pub projection_nodes: Seq<ProjectionNodeView>,
}

impl View for PfgNode {
    type V = PfgNodeView;

    open spec fn view(&self) -> PfgNodeView {
        PfgNodeView {
            gid: self.gid,
            projection_nodes: self.projection_nodes@.map_values(|n: ProjectionNode| n@),
        }
    }
}

impl PfgNodeView {
    /// Whether the slot has a cell for the access path in the context.
    pub open spec fn has(self, projection: Seq<PlaceElem>, ctx: CallerContext) -> bool {
        exists|i: int|
            0 <= i < self.projection_nodes.len() && (#[trigger] self.projection_nodes[i]).matches(
                projection,
                ctx,
            )
    }

    /// The position of the cell for the access path in the context, where there is one.
    pub open spec fn index_of(self, projection: Seq<PlaceElem>, ctx: CallerContext) -> int {
        choose|i: int|
            0 <= i < self.projection_nodes.len() && (#[trigger] self.projection_nodes[i]).matches(
                projection,
                ctx,
            )
    }

    /// Whether the slot has a cell for the access path in some context.
    pub open spec fn has_path(self, projection: Seq<PlaceElem>) -> bool {
        exists|i: int|
            0 <= i < self.projection_nodes.len() && (#[trigger] self.projection_nodes[i]).projection
                == projection
    }

    /// The slot with a fresh cell behind the others.
    pub open spec fn with_projection(self, projection: Seq<PlaceElem>, ctx: CallerContext) -> Self {
        PfgNodeView {
            projection_nodes: self.projection_nodes.push(
                ProjectionNodeView::fresh(self.projection_nodes.len() as usize, projection, ctx),
            ),
            ..self
        }
    }

    /// Every cell is numbered by its position and sound in itself, and no two
    /// cells stand for the same access path in the same context.
    pub open spec fn wf(self) -> bool {
        &&& forall|i: int|
            0 <= i < self.projection_nodes.len() ==> (#[trigger] self.projection_nodes[i]).id == i
                && self.projection_nodes[i].wf()
        &&& forall|i: int, j: int|
            0 <= i < j < self.projection_nodes.len() ==> !(#[trigger] self.projection_nodes[i]).matches(
                (#[trigger] self.projection_nodes[j]).projection,
                self.projection_nodes[j].caller_context,
            )
    }

    pub proof fn lemma_index_of(self, projection: Seq<PlaceElem>, ctx: CallerContext, i: int)
        requires
            self.wf(),
            0 <= i < self.projection_nodes.len(),
            self.projection_nodes[i].matches(projection, ctx),
        ensures
            self.has(projection, ctx),
            self.index_of(projection, ctx) == i,
    {
        let k = self.index_of(projection, ctx);
        if k < i {
            assert(!self.projection_nodes[k].matches(
                self.projection_nodes[i].projection,
                self.projection_nodes[i].caller_context,
            ));
        } else if i < k {
            assert(!self.projection_nodes[i].matches(
                self.projection_nodes[k].projection,
                self.projection_nodes[k].caller_context,
            ));
        }
    }
}

impl PfgNode {
    pub fn new(gid: GlobalLocalId) -> (node: Self)
        ensures
            node@ == (PfgNodeView { gid, projection_nodes: Seq::empty() }),
            node@.wf(),
    {
        let node = PfgNode { gid, projection_nodes: Vec::new() };
        assert(node@.projection_nodes =~= Seq::empty());
        node
    }

    pub fn try_get_projection_id(&self, proj: &Vec<PlaceElem>, caller_context: &CallerContext) -> (found:
        Option<ProjectionId>)
        ensures
            found is Some <==> self@.has(proj@, *caller_context),
            found matches Some(i) ==> i < self.projection_nodes@.len() && self@.projection_nodes[i as int].matches(
                proj@,
                *caller_context,
            ),
            found matches Some(i) ==> self@.wf() ==> i == self@.index_of(proj@, *caller_context),
    {
        let mut i: usize = 0;
        while i < self.projection_nodes.len()
            invariant
                i <= self.projection_nodes.len(),
                forall|j: int|
                    0 <= j < i ==> !(#[trigger] self@.projection_nodes[j]).matches(
                        proj@,
                        *caller_context,
                    ),
            decreases self.projection_nodes.len() - i,
        {
            let node = &self.projection_nodes[i];
            if node.is_same_projection(proj) && node.caller_context == *caller_context {
                proof {
                    if self@.wf() {
                        self@.lemma_index_of(proj@, *caller_context, i as int);
                    }
                }
                return Some(i);
            }
            i = i + 1;
        }
        None
    }

    pub fn try_get_projection_node_mut(
        &mut self,
        proj: &Vec<PlaceElem>,
        caller_context: &CallerContext,
    ) -> (found: Option<&mut ProjectionNode>)
        ensures
            found is Some <==> old(self)@.has(proj@, *caller_context),
            found is None ==> *final(self) == *old(self),
            found matches Some(node) ==> {
                let i = node.id as int;
                &&& (*node)@.matches(proj@, *caller_context)
                &&& old(self)@.wf() ==> {
                    &&& 0 <= i < old(self).projection_nodes@.len()
                    &&& *node == old(self).projection_nodes@[i]
                    &&& final(self).gid == old(self).gid
                    &&& final(self).projection_nodes@ == old(self).projection_nodes@.update(
                        i,
                        *final(node),
                    )
                }
            },
    {
        match self.try_get_projection_id(proj, caller_context) {
            Some(i) => Some(&mut self.projection_nodes[i]),
            None => None,
        }
    }

    pub fn has_projection(&self, proj: &Vec<PlaceElem>) -> (found: bool)
        ensures
            found == self@.has_path(proj@),
    {
        let mut i: usize = 0;
        while i < self.projection_nodes.len()
            invariant
                i <= self.projection_nodes.len(),
                forall|j: int| 0 <= j < i ==> (#[trigger] self@.projection_nodes[j]).projection != proj@,
            decreases self.projection_nodes.len() - i,
        {
            if self.projection_nodes[i].is_same_projection(proj) {
                assert(self@.projection_nodes[i as int].projection == proj@);
                return true;
            }
            i = i + 1;
        }
        false
    }

    pub fn add_projection(&mut self, proj: Vec<PlaceElem>, caller_context: CallerContext) -> (id:
        ProjectionId)
        ensures
            final(self)@ == old(self)@.with_projection(proj@, caller_context),
            id == old(self)@.projection_nodes.len(),
            old(self)@.wf() && !old(self)@.has(proj@, caller_context) ==> final(self)@.wf(),
    {
        let id: ProjectionId = self.projection_nodes.len();
        let node = ProjectionNode::new(id, proj, Vec::new(), caller_context);
        self.projection_nodes.push(node);
        assert(final(self)@.projection_nodes =~= old(self)@.with_projection(
            proj@,
            caller_context,
        ).projection_nodes);
        id
    }
}


/// The pointer flow graph of one analysis run.
#[derive(Debug)]
pub struct PointerFlowGraph {
    /// The storage slots seen so far, each once, oldest first.
    pub nodes: Vec<PfgNode>,
    /// The edges that read through a dereference, each once, oldest first.
    pub deref_edges: Vec<DerefEdgeInfo>,
    /// The objects whose cell has held more than one object, each once, oldest first.
    pub multi_drop_objects: Vec<DropObjectId>,
}

/// A `PointerFlowGraph` as a mathematical value.
pub struct PfgView {
    pub nodes: Seq<PfgNodeView>,
    pub deref_edges: Seq<DerefEdgeInfo>,
    pub multi_drop_objects: Seq<DropObjectId>,
}

impl View for PointerFlowGraph {
    type V = PfgView;

    open spec fn view(&self) -> PfgView {
        PfgView {
            nodes: self.nodes@.map_values(|n: PfgNode| n@),
            deref_edges: self.deref_edges@,
            multi_drop_objects: self.multi_drop_objects@,
        }
    }
}

impl PfgView {
    pub open spec fn empty() -> Self {
        PfgView { nodes: Seq::empty(), deref_edges: Seq::empty(), multi_drop_objects: Seq::empty() }
    }

    pub open spec fn has_slot(self, gid: GlobalLocalId) -> bool {
        exists|i: int| 0 <= i < self.nodes.len() && (#[trigger] self.nodes[i]).gid == gid
    }

    /// The position of the slot `gid`, where the graph has it.
    pub open spec fn slot_index(self, gid: GlobalLocalId) -> int {
        choose|i: int| 0 <= i < self.nodes.len() && (#[trigger] self.nodes[i]).gid == gid
    }

    /// Whether `id` names a cell of the graph.
    pub open spec fn contains(self, id: GlobalProjectionId) -> bool {
        self.has_slot(id.g_local_id) && id.projection_id < self.nodes[self.slot_index(
            id.g_local_id,
        )].projection_nodes.len()
    }

    /// The cell that `id` names.
    pub open spec fn node(self, id: GlobalProjectionId) -> ProjectionNodeView {
        self.nodes[self.slot_index(id.g_local_id)].projection_nodes[id.projection_id as int]
    }

    pub open spec fn has_edge(self, from: GlobalProjectionId, to: GlobalProjectionId) -> bool {
        self.contains(from) && self.has_slot(to.g_local_id) && self.node(from).has_neighbor(to)
    }

    /// The graph with a slot for `gid`, added behind the others if it is new.
    pub open spec fn with_slot(self, gid: GlobalLocalId) -> Self {
        if self.has_slot(gid) {
            self
        } else {
            PfgView {
                nodes: self.nodes.push(PfgNodeView { gid, projection_nodes: Seq::empty() }),
                ..self
            }
        }
    }

    /// The graph with a cell for the access path `projection` of slot `local_id`
    /// in the function and context of `call_id`: the graph itself where it has
    /// that cell, else the graph with a fresh cell behind the others of its slot.
    pub open spec fn with_cell(
        self,
        call_id: CtxtSenCallId,
        local_id: LocalId,
        projection: Seq<PlaceElem>,
    ) -> Self {
        let gid = GlobalLocalId { def_id: call_id.def_id, local_id };
        let g = self.with_slot(gid);
        let i = g.slot_index(gid);
        if g.nodes[i].has(projection, call_id.caller_context) {
            g
        } else {
            PfgView {
                nodes: g.nodes.update(
                    i,
                    g.nodes[i].with_projection(projection, call_id.caller_context),
                ),
                ..g
            }
        }
    }

    /// The name of the cell that `with_cell` finds or makes.
    pub open spec fn cell_id(
        self,
        call_id: CtxtSenCallId,
        local_id: LocalId,
        projection: Seq<PlaceElem>,
    ) -> GlobalProjectionId {
        let gid = GlobalLocalId { def_id: call_id.def_id, local_id };
        let g = self.with_cell(call_id, local_id, projection);
        GlobalProjectionId {
            g_local_id: gid,
            projection_id: g.nodes[g.slot_index(gid)].index_of(
                projection,
                call_id.caller_context,
            ) as usize,
        }
    }

    /// The graph with the cell `id` replaced.
    pub open spec fn update_node(self, id: GlobalProjectionId, node: ProjectionNodeView) -> Self {
        let i = self.slot_index(id.g_local_id);
        PfgView {
            nodes: self.nodes.update(
                i,
                PfgNodeView {
                    projection_nodes: self.nodes[i].projection_nodes.update(
                        id.projection_id as int,
                        node,
                    ),
                    ..self.nodes[i]
                },
            ),
            ..self
        }
    }

    pub open spec fn with_drop_span(self, id: GlobalProjectionId, span: Option<CtxtSenSpanInfo>) -> Self {
        match span {
            Some(span) => self.update_node(id, self.node(id).with_drop_span(span)),
            None => self,
        }
    }

    pub open spec fn with_deref_edge(self, edge: DerefEdgeInfo) -> Self {
        if self.deref_edges.contains(edge) {
            self
        } else {
            PfgView { deref_edges: self.deref_edges.push(edge), ..self }
        }
    }

    pub open spec fn with_multi_drop(self, object: DropObjectId) -> Self {
        if self.multi_drop_objects.contains(object) {
            self
        } else {
            PfgView { multi_drop_objects: self.multi_drop_objects.push(object), ..self }
        }
    }

    /// The graph with the flow edge from `from` to `to`, and with it among the
    /// dereferencing edges where the access path of either end holds a dereference.
    pub open spec fn with_edge(
        self,
        from: GlobalProjectionId,
        to: GlobalProjectionId,
        span_info: CtxtSenSpanInfo,
    ) -> Self {
        let g = self.update_node(
            from,
            self.node(from).with_neighbor(ProjectionNeighborInfo { neighbor_id: to, span_info }),
        );
        let from_is_deref = self.node(from).projection.contains(PlaceElem::Deref);
        let to_is_deref = self.node(to).projection.contains(PlaceElem::Deref);
        if from_is_deref || to_is_deref {
            g.with_deref_edge(DerefEdgeInfo { from, to, is_deref: (from_is_deref, to_is_deref) })
        } else {
            g
        }
    }

    /// The graph with the objects `extra` added to the points-to set of `id`.
    pub open spec fn with_points_to(self, id: GlobalProjectionId, extra: Seq<DropObjectId>) -> Self {
        self.update_node(id, self.node(id).with_points_to(extra))
    }

    /// No slot stands twice, every slot is sound in itself, and no dereferencing
    /// edge and no multiply dropped object is listed twice.
    pub open spec fn wf(self) -> bool {
        &&& forall|i: int, j: int|
            0 <= i < j < self.nodes.len() ==> (#[trigger] self.nodes[i]).gid != (
            #[trigger] self.nodes[j]).gid
        &&& forall|i: int| 0 <= i < self.nodes.len() ==> (#[trigger] self.nodes[i]).wf()
        &&& self.deref_edges.no_duplicates()
        &&& self.multi_drop_objects.no_duplicates()
    }

    /// Whatever the graph refers to is in it: the target of every edge, the cell
    /// of every object in a points-to set, both ends and the edge itself of every
    /// dereferencing edge, and the cell of every multiply dropped object.
    pub open spec fn closed(self) -> bool {
        &&& forall|i: int, j: int, k: int|
            0 <= i < self.nodes.len() && 0 <= j < self.nodes[i].projection_nodes.len() && 0 <= k
                < self.nodes[i].projection_nodes[j].neighbors.len() ==> self.contains(
                (#[trigger] self.nodes[i].projection_nodes[j].neighbors[k]).neighbor_id,
            )
        &&& forall|i: int, j: int, k: int|
            0 <= i < self.nodes.len() && 0 <= j < self.nodes[i].projection_nodes.len() && 0 <= k
                < self.nodes[i].projection_nodes[j].points_to.len() ==> self.contains(
                (#[trigger] self.nodes[i].projection_nodes[j].points_to[k]).id,
            )
        &&& forall|k: int|
            0 <= k < self.deref_edges.len() ==> self.contains((#[trigger] self.deref_edges[k]).from)
                && self.contains(self.deref_edges[k].to) && self.node(
                self.deref_edges[k].from,
            ).has_neighbor(self.deref_edges[k].to)
        &&& forall|k: int|
            0 <= k < self.multi_drop_objects.len() ==> self.contains(
                (#[trigger] self.multi_drop_objects[k]).id,
            )
    }

    /// `other` has every slot of `self` at its place, with at least as many cells.
    pub open spec fn grows_to(self, other: PfgView) -> bool {
        &&& self.nodes.len() <= other.nodes.len()
        &&& forall|i: int|
            0 <= i < self.nodes.len() ==> (#[trigger] other.nodes[i]).gid == self.nodes[i].gid
                && self.nodes[i].projection_nodes.len() <= other.nodes[i].projection_nodes.len()
    }

    pub proof fn lemma_slot_index(self, i: int)
        requires
            self.wf(),
            0 <= i < self.nodes.len(),
        ensures
            self.has_slot(self.nodes[i].gid),
            self.slot_index(self.nodes[i].gid) == i,
    {
        let k = self.slot_index(self.nodes[i].gid);
        if k < i {
            assert(self.nodes[k].gid != self.nodes[i].gid);
        } else if i < k {
            assert(self.nodes[i].gid != self.nodes[k].gid);
        }
    }

    /// A cell of a graph is a cell of every graph that the graph grows to.
    pub proof fn lemma_grows_contains(self, other: PfgView, id: GlobalProjectionId)
        requires
            self.wf(),
            other.wf(),
            self.grows_to(other),
            self.contains(id),
        ensures
            other.contains(id),
            other.slot_index(id.g_local_id) == self.slot_index(id.g_local_id),
    {
        let i = self.slot_index(id.g_local_id);
        assert(other.nodes[i].gid == id.g_local_id);
        other.lemma_slot_index(i);
    }
}


impl ProjectionNodeView {
    /// Recording an edge keeps the cell sound and adds its target to the edge
    /// targets, and nothing else.
    pub proof fn lemma_with_neighbor(self, info: ProjectionNeighborInfo)
        requires
            self.wf(),
        ensures
            self.with_neighbor(info).wf(),
            self.with_neighbor(info).has_neighbor(info.neighbor_id),
            forall|to: GlobalProjectionId|
                self.with_neighbor(info).has_neighbor(to) <==> (self.has_neighbor(to) || to
                    == info.neighbor_id),
            forall|k: int|
                0 <= k < self.with_neighbor(info).neighbors.len() ==> {
                    let n = #[trigger] self.with_neighbor(info).neighbors[k];
                    n == info || exists|m: int| 0 <= m < self.neighbors.len() && self.neighbors[m] == n
                },
    {
        let after = self.with_neighbor(info);
        if self.has_neighbor(info.neighbor_id) {
            let at = self.neighbor_index(info.neighbor_id);
            assert(after.neighbors[at].neighbor_id == info.neighbor_id);
            assert forall|to: GlobalProjectionId| after.has_neighbor(to) <==> (self.has_neighbor(to)
                || to == info.neighbor_id) by {
                if after.has_neighbor(to) {
                    let k = after.neighbor_index(to);
                    if k != at {
                        assert(self.neighbors[k].neighbor_id == to);
                    }
                }
                if self.has_neighbor(to) {
                    let k = self.neighbor_index(to);
                    assert(after.neighbors[k].neighbor_id == to);
                }
            }
            assert forall|k: int| 0 <= k < after.neighbors.len() implies {
                let n = #[trigger] after.neighbors[k];
                n == info || exists|m: int| 0 <= m < self.neighbors.len() && self.neighbors[m] == n
            } by {
                if k != at {
                    assert(self.neighbors[k] == after.neighbors[k]);
                }
            }
        } else {
            let at = self.neighbors.len() as int;
            assert(after.neighbors[at].neighbor_id == info.neighbor_id);
            assert forall|to: GlobalProjectionId| after.has_neighbor(to) <==> (self.has_neighbor(to)
                || to == info.neighbor_id) by {
                if after.has_neighbor(to) {
                    let k = after.neighbor_index(to);
                    if k != at {
                        assert(self.neighbors[k].neighbor_id == to);
                    }
                }
                if self.has_neighbor(to) {
                    let k = self.neighbor_index(to);
                    assert(after.neighbors[k].neighbor_id == to);
                }
            }
            assert forall|k: int| 0 <= k < after.neighbors.len() implies {
                let n = #[trigger] after.neighbors[k];
                n == info || exists|m: int| 0 <= m < self.neighbors.len() && self.neighbors[m] == n
            } by {
                if k != at {
                    assert(self.neighbors[k] == after.neighbors[k]);
                }
            }
        }
    }
}

impl PfgView {
    /// What replacing a cell by one of the same number, access path and context
    /// changes: that cell, and nothing else.
    pub proof fn lemma_update_node(self, id: GlobalProjectionId, node: ProjectionNodeView)
        requires
            self.wf(),
            self.contains(id),
            node.wf(),
            node.id == id.projection_id,
            node.matches(self.node(id).projection, self.node(id).caller_context),
        ensures
            self.update_node(id, node).wf(),
            self.grows_to(self.update_node(id, node)),
            self.update_node(id, node).grows_to(self),
            self.update_node(id, node).node(id) == node,
            forall|gid: GlobalLocalId|
                self.update_node(id, node).has_slot(gid) == self.has_slot(gid) && (self.has_slot(gid)
                    ==> self.update_node(id, node).slot_index(gid) == self.slot_index(gid)),
            forall|other: GlobalProjectionId|
                self.update_node(id, node).contains(other) == self.contains(other),
            forall|other: GlobalProjectionId|
                self.contains(other) && other != id ==> self.update_node(id, node).node(other)
                    == self.node(other),
    {
        let after = self.update_node(id, node);
        let at = self.slot_index(id.g_local_id);
        assert(after.nodes.len() == self.nodes.len());
        assert forall|i: int| 0 <= i < after.nodes.len() implies (#[trigger] after.nodes[i]).gid
            == self.nodes[i].gid && after.nodes[i].projection_nodes.len()
            == self.nodes[i].projection_nodes.len() by {}
        assert forall|i: int| 0 <= i < after.nodes.len() implies (#[trigger] after.nodes[i]).wf() by {
            assert(self.nodes[i].wf());
            if i == at {
                let before = self.nodes[i];
                let slot = after.nodes[i];
                assert forall|a: int, b: int|
                    0 <= a < b < slot.projection_nodes.len() implies !(
                #[trigger] slot.projection_nodes[a]).matches(
                    (#[trigger] slot.projection_nodes[b]).projection,
                    slot.projection_nodes[b].caller_context,
                ) by {
                    assert(!before.projection_nodes[a].matches(
                        before.projection_nodes[b].projection,
                        before.projection_nodes[b].caller_context,
                    ));
                }
            }
        }
        assert(after.wf()) by {
            assert forall|i: int, j: int| 0 <= i < j < after.nodes.len() implies (
            #[trigger] after.nodes[i]).gid != (#[trigger] after.nodes[j]).gid by {
                assert(self.nodes[i].gid != self.nodes[j].gid);
            }
        }
        assert forall|gid: GlobalLocalId|
            after.has_slot(gid) == self.has_slot(gid) && (self.has_slot(gid) ==> after.slot_index(gid)
                == self.slot_index(gid)) by {
            if self.has_slot(gid) {
                let i = self.slot_index(gid);
                assert(after.nodes[i].gid == gid);
                after.lemma_slot_index(i);
            }
            if after.has_slot(gid) {
                let i = after.slot_index(gid);
                assert(self.nodes[i].gid == gid);
            }
        }
        assert forall|other: GlobalProjectionId| after.contains(other) == self.contains(other) by {}
    }

    /// Replacing a cell keeps the graph closed where the new cell refers to cells
    /// of the graph only and keeps the edge targets of the old one.
    pub proof fn lemma_update_node_closed(self, id: GlobalProjectionId, node: ProjectionNodeView)
        requires
            self.wf(),
            self.closed(),
            self.contains(id),
            node.wf(),
            node.id == id.projection_id,
            node.matches(self.node(id).projection, self.node(id).caller_context),
            forall|k: int|
                0 <= k < node.neighbors.len() ==> self.contains(
                    (#[trigger] node.neighbors[k]).neighbor_id,
                ),
            forall|k: int|
                0 <= k < node.points_to.len() ==> self.contains((#[trigger] node.points_to[k]).id),
            forall|to: GlobalProjectionId| self.node(id).has_neighbor(to) ==> node.has_neighbor(to),
        ensures
            self.update_node(id, node).closed(),
    {
        let after = self.update_node(id, node);
        let at = self.slot_index(id.g_local_id);
        self.lemma_update_node(id, node);
        assert forall|i: int, j: int, k: int|
            0 <= i < after.nodes.len() && 0 <= j < after.nodes[i].projection_nodes.len() && 0 <= k
                < after.nodes[i].projection_nodes[j].neighbors.len() implies after.contains(
            (#[trigger] after.nodes[i].projection_nodes[j].neighbors[k]).neighbor_id,
        ) by {
            if i == at && j == id.projection_id {
                assert(self.contains(node.neighbors[k].neighbor_id));
            } else {
                assert(self.contains(self.nodes[i].projection_nodes[j].neighbors[k].neighbor_id));
            }
        }
        assert forall|i: int, j: int, k: int|
            0 <= i < after.nodes.len() && 0 <= j < after.nodes[i].projection_nodes.len() && 0 <= k
                < after.nodes[i].projection_nodes[j].points_to.len() implies after.contains(
            (#[trigger] after.nodes[i].projection_nodes[j].points_to[k]).id,
        ) by {
            if i == at && j == id.projection_id {
                assert(self.contains(node.points_to[k].id));
            } else {
                assert(self.contains(self.nodes[i].projection_nodes[j].points_to[k].id));
            }
        }
        assert forall|k: int| 0 <= k < after.deref_edges.len() implies after.contains(
            (#[trigger] after.deref_edges[k]).from,
        ) && after.contains(after.deref_edges[k].to) && after.node(
            after.deref_edges[k].from,
        ).has_neighbor(after.deref_edges[k].to) by {
            let e = self.deref_edges[k];
            assert(self.contains(e.from) && self.contains(e.to) && self.node(e.from).has_neighbor(
                e.to,
            ));
        }
        assert forall|k: int| 0 <= k < after.multi_drop_objects.len() implies after.contains(
            (#[trigger] after.multi_drop_objects[k]).id,
        ) by {
            assert(self.contains(self.multi_drop_objects[k].id));
        }
    }
}


impl PfgView {
    /// Every slot has room for the number of each of its cells.
    pub open spec fn fits(self) -> bool {
        forall|i: int|
            0 <= i < self.nodes.len() ==> (#[trigger] self.nodes[i]).projection_nodes.len()
                <= usize::MAX
    }

    /// Whether the graph has the cell of the given access path.
    pub open spec fn has_cell(
        self,
        call_id: CtxtSenCallId,
        local_id: LocalId,
        projection: Seq<PlaceElem>,
    ) -> bool {
        let gid = GlobalLocalId { def_id: call_id.def_id, local_id };
        self.has_slot(gid) && self.nodes[self.slot_index(gid)].has(
            projection,
            call_id.caller_context,
        )
    }

    /// What `with_slot` changes: nothing in the slots that were there.
    pub proof fn lemma_with_slot(self, gid: GlobalLocalId)
        requires
            self.wf(),
            self.closed(),
        ensures
            self.with_slot(gid).wf(),
            self.with_slot(gid).closed(),
            self.grows_to(self.with_slot(gid)),
            self.with_slot(gid).has_slot(gid),
            forall|i: int|
                0 <= i < self.nodes.len() ==> (#[trigger] self.with_slot(gid).nodes[i])
                    == self.nodes[i],
            !self.has_slot(gid) ==> self.with_slot(gid).slot_index(gid) == self.nodes.len()
                && self.with_slot(gid).nodes[self.nodes.len() as int].projection_nodes.len() == 0,
            forall|other: GlobalProjectionId|
                self.with_slot(gid).contains(other) == self.contains(other),
            forall|other: GlobalProjectionId|
                self.contains(other) ==> self.with_slot(gid).node(other) == self.node(other),
    {
        let after = self.with_slot(gid);
        if !self.has_slot(gid) {
            let at = self.nodes.len() as int;
            assert(after.nodes[at].gid == gid);
            assert(after.wf()) by {
                assert forall|i: int, j: int| 0 <= i < j < after.nodes.len() implies (
                #[trigger] after.nodes[i]).gid != (#[trigger] after.nodes[j]).gid by {
                    if j == at {
                        assert(self.nodes[i].gid != gid);
                    } else {
                        assert(self.nodes[i].gid != self.nodes[j].gid);
                    }
                }
                assert forall|i: int| 0 <= i < after.nodes.len() implies (
                #[trigger] after.nodes[i]).wf() by {
                    if i < at {
                        assert(self.nodes[i].wf());
                    }
                }
            }
            after.lemma_slot_index(at);
            assert forall|other: GlobalProjectionId|
                after.contains(other) == self.contains(other) && (self.contains(other)
                    ==> after.node(other) == self.node(other)) by {
                if self.contains(other) {
                    self.lemma_grows_contains(after, other);
                }
                if after.contains(other) {
                    let i = after.slot_index(other.g_local_id);
                    if i < at {
                        assert(self.nodes[i].gid == other.g_local_id);
                        self.lemma_slot_index(i);
                    }
                }
            }
            assert(after.closed()) by {
                assert forall|i: int, j: int, k: int|
                    0 <= i < after.nodes.len() && 0 <= j < after.nodes[i].projection_nodes.len() && 0
                        <= k < after.nodes[i].projection_nodes[j].neighbors.len() implies after.contains(
                    (#[trigger] after.nodes[i].projection_nodes[j].neighbors[k]).neighbor_id,
                ) by {
                    assert(self.contains(
                        self.nodes[i].projection_nodes[j].neighbors[k].neighbor_id,
                    ));
                }
                assert forall|i: int, j: int, k: int|
                    0 <= i < after.nodes.len() && 0 <= j < after.nodes[i].projection_nodes.len() && 0
                        <= k < after.nodes[i].projection_nodes[j].points_to.len() implies after.contains(
                    (#[trigger] after.nodes[i].projection_nodes[j].points_to[k]).id,
                ) by {
                    assert(self.contains(self.nodes[i].projection_nodes[j].points_to[k].id));
                }
                assert forall|k: int| 0 <= k < after.deref_edges.len() implies after.contains(
                    (#[trigger] after.deref_edges[k]).from,
                ) && after.contains(after.deref_edges[k].to) && after.node(
                    after.deref_edges[k].from,
                ).has_neighbor(after.deref_edges[k].to) by {
                    let e = self.deref_edges[k];
                    assert(self.contains(e.from) && self.contains(e.to) && self.node(
                        e.from,
                    ).has_neighbor(e.to));
                }
                assert forall|k: int| 0 <= k < after.multi_drop_objects.len() implies after.contains(
                    (#[trigger] after.multi_drop_objects[k]).id,
                ) by {
                    assert(self.contains(self.multi_drop_objects[k].id));
                }
            }
        }
    }

    /// What `with_cell` changes: nothing in the cells that were there; the cell
    /// it adds, where it adds one, is fresh and bears the name `cell_id` gives.
    pub proof fn lemma_with_cell(
        self,
        call_id: CtxtSenCallId,
        local_id: LocalId,
        projection: Seq<PlaceElem>,
    )
        requires
            self.wf(),
            self.closed(),
            self.with_cell(call_id, local_id, projection).fits(),
        ensures
            ({
                let after = self.with_cell(call_id, local_id, projection);
                let id = self.cell_id(call_id, local_id, projection);
                &&& after.wf()
                &&& after.closed()
                &&& self.grows_to(after)
                &&& after.nodes.len() == self.with_slot(id.g_local_id).nodes.len()
                &&& after.deref_edges == self.deref_edges
                &&& after.multi_drop_objects == self.multi_drop_objects
                &&& id.g_local_id == (GlobalLocalId { def_id: call_id.def_id, local_id })
                &&& after.contains(id)
                &&& after.node(id).matches(projection, call_id.caller_context)
                &&& after.node(id).id == id.projection_id
                &&& after.has_cell(call_id, local_id, projection)
                &&& self.has_cell(call_id, local_id, projection) ==> after == self
                &&& !self.has_cell(call_id, local_id, projection) ==> !self.contains(id)
                    && after.node(id) == ProjectionNodeView::fresh(
                    id.projection_id,
                    projection,
                    call_id.caller_context,
                )
                &&& forall|other: GlobalProjectionId|
                    after.contains(other) <==> (self.contains(other) || other == id)
                &&& forall|other: GlobalProjectionId|
                    self.contains(other) ==> after.node(other) == self.node(other)
                &&& forall|slot: GlobalLocalId|
                    after.has_slot(slot) <==> (self.has_slot(slot) || slot == id.g_local_id)
            }),
    {
        let gid = GlobalLocalId { def_id: call_id.def_id, local_id };
        let ctx = call_id.caller_context;
        let g = self.with_slot(gid);
        self.lemma_with_slot(gid);
        let at = g.slot_index(gid);
        let after = self.with_cell(call_id, local_id, projection);
        let id = self.cell_id(call_id, local_id, projection);
        assert(g.nodes[at].gid == gid);
        assert(g.nodes[at].wf());
        if self.has_slot(gid) {
            assert(g == self);
        }
        assert forall|slot: GlobalLocalId|
            after.has_slot(slot) <==> (self.has_slot(slot) || slot == gid) by {
            assert(after.nodes.len() == g.nodes.len());
            assert(forall|i: int| 0 <= i < g.nodes.len() ==> (#[trigger] after.nodes[i]).gid == g.nodes[i].gid);
            if after.has_slot(slot) {
                let i = after.slot_index(slot);
                assert(g.nodes[i].gid == slot);
                if i < self.nodes.len() {
                    assert(self.nodes[i].gid == slot);
                }
            }
            if self.has_slot(slot) {
                let i = self.slot_index(slot);
                assert(g.nodes[i].gid == slot);
                assert(after.nodes[i].gid == slot);
            }
            if slot == gid {
                assert(after.nodes[at].gid == slot);
            }
        }
        if g.nodes[at].has(projection, ctx) {
            assert(after == g);
            let k = g.nodes[at].index_of(projection, ctx);
            assert(self.has_slot(gid));
            assert(after.contains(id));
        } else {
            let slot = g.nodes[at].with_projection(projection, ctx);
            let k = g.nodes[at].projection_nodes.len() as int;
            assert(after.nodes[at] == slot);
            assert(slot.projection_nodes[k].matches(projection, ctx));
            assert(k <= usize::MAX) by {
                assert(after.nodes[at].projection_nodes.len() <= usize::MAX);
            }
            assert(slot.wf()) by {
                assert forall|a: int, b: int|
                    0 <= a < b < slot.projection_nodes.len() implies !(
                #[trigger] slot.projection_nodes[a]).matches(
                    (#[trigger] slot.projection_nodes[b]).projection,
                    slot.projection_nodes[b].caller_context,
                ) by {
                    if b == k {
                        assert(!g.nodes[at].projection_nodes[a].matches(projection, ctx));
                    } else {
                        assert(!g.nodes[at].projection_nodes[a].matches(
                            g.nodes[at].projection_nodes[b].projection,
                            g.nodes[at].projection_nodes[b].caller_context,
                        ));
                    }
                }
            }
            slot.lemma_index_of(projection, ctx, k);
            assert(after.wf()) by {
                assert forall|i: int, j: int| 0 <= i < j < after.nodes.len() implies (
                #[trigger] after.nodes[i]).gid != (#[trigger] after.nodes[j]).gid by {
                    assert(g.nodes[i].gid != g.nodes[j].gid);
                }
                assert forall|i: int| 0 <= i < after.nodes.len() implies (
                #[trigger] after.nodes[i]).wf() by {
                    if i != at {
                        assert(g.nodes[i].wf());
                    }
                }
            }
            after.lemma_slot_index(at);
            assert(g.grows_to(after));
            assert(self.grows_to(after));
            assert forall|other: GlobalProjectionId|
                (after.contains(other) <==> (self.contains(other) || other == id)) && (
                self.contains(other) ==> after.node(other) == self.node(other)) by {
                if g.contains(other) {
                    g.lemma_grows_contains(after, other);
                }
                if after.contains(other) {
                    let i = after.slot_index(other.g_local_id);
                    assert(g.nodes[i].gid == other.g_local_id);
                    g.lemma_slot_index(i);
                }
            }
            assert(after.closed()) by {
                assert forall|i: int, j: int, n: int|
                    0 <= i < after.nodes.len() && 0 <= j < after.nodes[i].projection_nodes.len() && 0
                        <= n < after.nodes[i].projection_nodes[j].neighbors.len() implies after.contains(
                    (#[trigger] after.nodes[i].projection_nodes[j].neighbors[n]).neighbor_id,
                ) by {
                    assert(g.contains(g.nodes[i].projection_nodes[j].neighbors[n].neighbor_id));
                }
                assert forall|i: int, j: int, n: int|
                    0 <= i < after.nodes.len() && 0 <= j < after.nodes[i].projection_nodes.len() && 0
                        <= n < after.nodes[i].projection_nodes[j].points_to.len() implies after.contains(
                    (#[trigger] after.nodes[i].projection_nodes[j].points_to[n]).id,
                ) by {
                    assert(g.contains(g.nodes[i].projection_nodes[j].points_to[n].id));
                }
                assert forall|n: int| 0 <= n < after.deref_edges.len() implies after.contains(
                    (#[trigger] after.deref_edges[n]).from,
                ) && after.contains(after.deref_edges[n].to) && after.node(
                    after.deref_edges[n].from,
                ).has_neighbor(after.deref_edges[n].to) by {
                    let e = g.deref_edges[n];
                    assert(g.contains(e.from) && g.contains(e.to) && g.node(e.from).has_neighbor(
                        e.to,
                    ));
                }
                assert forall|n: int| 0 <= n < after.multi_drop_objects.len() implies after.contains(
                    (#[trigger] after.multi_drop_objects[n]).id,
                ) by {
                    assert(g.contains(g.multi_drop_objects[n].id));
                }
            }
        }
    }
}


/// The view of a graph one of whose cells was replaced and nothing else.
pub proof fn lemma_view_of_replaced_node(
    before: PointerFlowGraph,
    after: PointerFlowGraph,
    id: GlobalProjectionId,
    at: int,
)
    requires
        0 <= at < before.nodes@.len(),
        at == before@.slot_index(id.g_local_id),
        id.projection_id < before.nodes@[at].projection_nodes@.len(),
        after.deref_edges == before.deref_edges,
        after.multi_drop_objects == before.multi_drop_objects,
        after.nodes@.len() == before.nodes@.len(),
        forall|i: int| 0 <= i < before.nodes@.len() && i != at ==> after.nodes@[i] == before.nodes@[i],
        after.nodes@[at].gid == before.nodes@[at].gid,
        after.nodes@[at].projection_nodes@.len() == before.nodes@[at].projection_nodes@.len(),
        forall|j: int|
            0 <= j < before.nodes@[at].projection_nodes@.len() && j != id.projection_id
                ==> after.nodes@[at].projection_nodes@[j] == before.nodes@[at].projection_nodes@[j],
    ensures
        after@ == before@.update_node(id, after.nodes@[at].projection_nodes@[id.projection_id as int]@),
{
    let expected = before@.update_node(
        id,
        after.nodes@[at].projection_nodes@[id.projection_id as int]@,
    );
    assert(after@.nodes[at].projection_nodes =~= expected.nodes[at].projection_nodes);
    assert(after@.nodes =~= expected.nodes);
}

impl PointerFlowGraph {
    pub fn new() -> (graph: Self)
        ensures
            graph@ == PfgView::empty(),
            graph@.wf(),
            graph@.closed(),
    {
        let graph = PointerFlowGraph {
            nodes: Vec::new(),
            deref_edges: Vec::new(),
            multi_drop_objects: Vec::new(),
        };
        assert(graph@.nodes =~= Seq::empty());
        graph
    }

    /// The position of the slot `gid`, if the graph has it.
    pub fn find_node(&self, gid: GlobalLocalId) -> (found: Option<usize>)
        ensures
            found is Some <==> self@.has_slot(gid),
            found matches Some(i) ==> i < self.nodes@.len() && self.nodes@[i as int].gid == gid,
            found matches Some(i) ==> self@.wf() ==> i == self@.slot_index(gid),
    {
        let mut i: usize = 0;
        while i < self.nodes.len()
            invariant
                i <= self.nodes.len(),
                forall|j: int| 0 <= j < i ==> (#[trigger] self@.nodes[j]).gid != gid,
            decreases self.nodes.len() - i,
        {
            if self.nodes[i].gid == gid {
                proof {
                    assert(self@.nodes[i as int].gid == gid);
                    if self@.wf() {
                        self@.lemma_slot_index(i as int);
                    }
                }
                return Some(i);
            }
            i = i + 1;
        }
        None
    }

    pub fn has_global_local(&self, g_local_id: GlobalLocalId) -> (found: bool)
        ensures
            found == self@.has_slot(g_local_id),
    {
        self.find_node(g_local_id).is_some()
    }

    pub fn has_global_projection(&self, g_proj_id: GlobalProjectionId) -> (found: bool)
        requires
            self@.wf(),
        ensures
            found == self@.contains(g_proj_id),
    {
        match self.find_node(g_proj_id.g_local_id) {
            Some(i) => g_proj_id.projection_id < self.nodes[i].projection_nodes.len(),
            None => false,
        }
    }

    pub fn get_node(&self, g_local_id: GlobalLocalId) -> (node: &PfgNode)
        requires
            self@.wf(),
            self@.has_slot(g_local_id),
        ensures
            *node == self.nodes@[self@.slot_index(g_local_id)],
    {
        let at = self.find_node(g_local_id).unwrap();
        &self.nodes[at]
    }

    pub fn get_node_mut(&mut self, g_local_id: GlobalLocalId) -> (node: &mut PfgNode)
        requires
            old(self)@.wf(),
            old(self)@.has_slot(g_local_id),
        ensures
            *node == old(self).nodes@[old(self)@.slot_index(g_local_id)],
            final(self).nodes@ == old(self).nodes@.update(
                old(self)@.slot_index(g_local_id),
                *final(node),
            ),
            final(self).deref_edges == old(self).deref_edges,
            final(self).multi_drop_objects == old(self).multi_drop_objects,
    {
        let at = self.find_node(g_local_id).unwrap();
        &mut self.nodes[at]
    }

    pub fn get_projection_node(&self, g_proj_id: GlobalProjectionId) -> (node: &ProjectionNode)
        requires
            self@.wf(),
            self@.contains(g_proj_id),
        ensures
            node@ == self@.node(g_proj_id),
            *node == self.nodes@[self@.slot_index(
                g_proj_id.g_local_id,
            )].projection_nodes@[g_proj_id.projection_id as int],
    {
        let at = self.find_node(g_proj_id.g_local_id).unwrap();
        &self.nodes[at].projection_nodes[g_proj_id.projection_id]
    }

    pub fn get_projection_node_mut(&mut self, g_proj_id: GlobalProjectionId) -> (node:
        &mut ProjectionNode)
        requires
            old(self)@.wf(),
            old(self)@.contains(g_proj_id),
        ensures
            (*node)@ == old(self)@.node(g_proj_id),
            ({
                let at = old(self)@.slot_index(g_proj_id.g_local_id);
                &&& *node == old(self).nodes@[at].projection_nodes@[g_proj_id.projection_id as int]
                &&& final(self).nodes@.len() == old(self).nodes@.len()
                &&& forall|i: int|
                    0 <= i < old(self).nodes@.len() && i != at ==> final(self).nodes@[i] == old(self).nodes@[i]
                &&& final(self).nodes@[at].gid == old(self).nodes@[at].gid
                &&& final(self).nodes@[at].projection_nodes@ == old(self).nodes@[at].projection_nodes@.update(
                    g_proj_id.projection_id as int,
                    *final(node),
                )
            }),
            final(self).deref_edges == old(self).deref_edges,
            final(self).multi_drop_objects == old(self).multi_drop_objects,
    {
        let at = self.find_node(g_proj_id.g_local_id).unwrap();
        &mut self.nodes[at].projection_nodes[g_proj_id.projection_id]
    }

    pub fn get_neighbor_info(&self, from: GlobalProjectionId, to: GlobalProjectionId) -> (info:
        &ProjectionNeighborInfo)
        requires
            self@.wf(),
            self@.contains(from),
            self@.node(from).has_neighbor(to),
        ensures
            info.neighbor_id == to,
            *info == self@.node(from).neighbors[self@.node(from).neighbor_index(to)],
    {
        let from_node = self.get_projection_node(from);
        proof {
            assert(self@.nodes[self@.slot_index(from.g_local_id)].wf());
        }
        let at = from_node.find_neighbor(to).unwrap();
        &from_node.neighbors[at]
    }

    pub fn has_edge(&self, from: GlobalProjectionId, to: GlobalProjectionId) -> (found: bool)
        requires
            self@.wf(),
        ensures
            found == self@.has_edge(from, to),
    {
        if !self.has_global_projection(from) {
            return false;
        }
        if !self.has_global_local(to.g_local_id) {
            return false;
        }
        self.get_projection_node(from).find_neighbor(to).is_some()
    }
}


/// A graph in memory has room for the number of each of its cells.
pub proof fn lemma_graph_fits(graph: PointerFlowGraph)
    ensures
        graph@.fits(),
{
    assert forall|i: int| 0 <= i < graph@.nodes.len() implies (
    #[trigger] graph@.nodes[i]).projection_nodes.len() <= usize::MAX by {
        assert(graph.nodes@[i].projection_nodes.len() == graph.nodes@[i].projection_nodes@.len());
    }
}

impl PfgView {
    pub proof fn lemma_with_drop_span(self, id: GlobalProjectionId, span: Option<CtxtSenSpanInfo>)
        requires
            self.wf(),
            self.closed(),
            self.contains(id),
        ensures
            self.with_drop_span(id, span).wf(),
            self.with_drop_span(id, span).closed(),
            self.grows_to(self.with_drop_span(id, span)),
            self.with_drop_span(id, span).nodes.len() == self.nodes.len(),
            self.with_drop_span(id, span).deref_edges == self.deref_edges,
            self.with_drop_span(id, span).multi_drop_objects == self.multi_drop_objects,
            forall|other: GlobalProjectionId|
                self.with_drop_span(id, span).contains(other) == self.contains(other),
            forall|other: GlobalProjectionId|
                self.contains(other) && other != id ==> self.with_drop_span(id, span).node(other)
                    == self.node(other),
            self.with_drop_span(id, span).node(id) == match span {
                Some(span) => self.node(id).with_drop_span(span),
                None => self.node(id),
            },
    {
        if let Some(span) = span {
            let at = self.slot_index(id.g_local_id);
            assert(self.nodes[at].wf());
            let node = self.node(id).with_drop_span(span);
            self.lemma_update_node(id, node);
            assert forall|k: int| 0 <= k < node.neighbors.len() implies self.contains(
                (#[trigger] node.neighbors[k]).neighbor_id,
            ) by {
                assert(self.contains(
                    self.nodes[at].projection_nodes[id.projection_id as int].neighbors[k].neighbor_id,
                ));
            }
            assert forall|k: int| 0 <= k < node.points_to.len() implies self.contains(
                (#[trigger] node.points_to[k]).id,
            ) by {
                assert(self.contains(
                    self.nodes[at].projection_nodes[id.projection_id as int].points_to[k].id,
                ));
            }
            self.lemma_update_node_closed(id, node);
        }
    }
}

impl PointerFlowGraph {
    /// Finds or makes the cell of the access path `projection` of the slot
    /// `local_id`, in the function and context of `call_id`, and records
    /// `drop_span` on it where one is given.
    pub fn add_or_update_virtual_node(
        &mut self,
        call_id: &CtxtSenCallId,
        local_id: LocalId,
        projection: &Vec<PlaceElem>,
        drop_span: Option<CtxtSenSpanInfo>,
    ) -> (id: GlobalProjectionId)
        requires
            old(self)@.wf(),
            old(self)@.closed(),
        ensures
            id == old(self)@.cell_id(*call_id, local_id, projection@),
            final(self)@ == old(self)@.with_cell(*call_id, local_id, projection@).with_drop_span(
                id,
                drop_span,
            ),
            final(self)@.wf(),
            final(self)@.closed(),
            final(self)@.contains(id),
            old(self)@.with_cell(*call_id, local_id, projection@).fits(),
    {
        let ghost g0 = self@;
        let gid = GlobalLocalId::new(call_id.def_id, local_id);
        let at = match self.find_node(gid) {
            Some(i) => i,
            None => {
                self.nodes.push(PfgNode::new(gid));
                self.nodes.len() - 1
            },
        };
        proof {
            g0.lemma_with_slot(gid);
            assert(self@.nodes =~= g0.with_slot(gid).nodes);
            assert(self@.nodes[at as int].gid == gid);
            self@.lemma_slot_index(at as int);
        }
        let ghost g1 = self@;
        let found = self.nodes[at].try_get_projection_id(projection, &call_id.caller_context);
        let pid = match found {
            Some(p) => p,
            None => self.nodes[at].add_projection(copy_path(projection), call_id.caller_context),
        };
        proof {
            let g2 = g0.with_cell(*call_id, local_id, projection@);
            assert(self@.nodes =~= g2.nodes);
            lemma_graph_fits(*self);
            g0.lemma_with_cell(*call_id, local_id, projection@);
            assert(g1.nodes[at as int].wf());
            if found is None {
                self@.nodes[at as int].lemma_index_of(
                    projection@,
                    call_id.caller_context,
                    pid as int,
                );
            }
            self@.lemma_slot_index(at as int);
        }
        let id = GlobalProjectionId::new(gid, pid);
        assert(id == g0.cell_id(*call_id, local_id, projection@));
        if let Some(span) = drop_span {
            let ghost before = *self;
            self.nodes[at].projection_nodes[pid].add_drop_span(span);
            proof {
                lemma_view_of_replaced_node(before, *self, id, at as int);
            }
        }
        proof {
            g0.with_cell(*call_id, local_id, projection@).lemma_with_drop_span(id, drop_span);
        }
        id
    }

    /// Finds or makes the cell of `place` in the function and context of
    /// `call_id`, and records `drop_span` on it where one is given.
    pub fn add_or_update_node(
        &mut self,
        call_id: &CtxtSenCallId,
        place: &Place,
        drop_span: Option<CtxtSenSpanInfo>,
    ) -> (id: GlobalProjectionId)
        requires
            old(self)@.wf(),
            old(self)@.closed(),
        ensures
            id == old(self)@.cell_id(*call_id, place.local, place.projection@),
            final(self)@ == old(self)@.with_cell(
                *call_id,
                place.local,
                place.projection@,
            ).with_drop_span(id, drop_span),
            final(self)@.wf(),
            final(self)@.closed(),
            final(self)@.contains(id),
            old(self)@.with_cell(*call_id, place.local, place.projection@).fits(),
    {
        self.add_or_update_virtual_node(call_id, place.local, &place.projection, drop_span)
    }
}


impl PfgView {
    /// The cells of the two graphs are the same, one by one, but for what they hold.
    pub open spec fn same_cells_as(self, other: PfgView) -> bool {
        &&& self.grows_to(other)
        &&& other.grows_to(self)
        &&& forall|id: GlobalProjectionId| self.contains(id) == other.contains(id)
        &&& forall|id: GlobalProjectionId| #![trigger other.node(id)]
            self.contains(id) ==> {
                &&& other.node(id).id == self.node(id).id
                &&& other.node(id).projection == self.node(id).projection
                &&& other.node(id).caller_context == self.node(id).caller_context
                &&& other.node(id).cs_drop_spans == self.node(id).cs_drop_spans
            }
    }

    pub proof fn lemma_with_deref_edge(self, edge: DerefEdgeInfo)
        requires
            self.wf(),
            self.closed(),
            self.contains(edge.from),
            self.contains(edge.to),
            self.node(edge.from).has_neighbor(edge.to),
        ensures
            self.with_deref_edge(edge).wf(),
            self.with_deref_edge(edge).closed(),
            self.with_deref_edge(edge).nodes == self.nodes,
            self.with_deref_edge(edge).multi_drop_objects == self.multi_drop_objects,
    {
        let after = self.with_deref_edge(edge);
        if !self.deref_edges.contains(edge) {
            assert forall|id: GlobalProjectionId| after.contains(id) == self.contains(id) by {}
            assert forall|k: int| 0 <= k < after.deref_edges.len() implies after.contains(
                (#[trigger] after.deref_edges[k]).from,
            ) && after.contains(after.deref_edges[k].to) && after.node(
                after.deref_edges[k].from,
            ).has_neighbor(after.deref_edges[k].to) by {
                if k < self.deref_edges.len() {
                    let e = self.deref_edges[k];
                    assert(self.contains(e.from) && self.contains(e.to) && self.node(
                        e.from,
                    ).has_neighbor(e.to));
                }
            }
            assert forall|i: int, j: int, k: int|
                0 <= i < after.nodes.len() && 0 <= j < after.nodes[i].projection_nodes.len() && 0 <= k
                    < after.nodes[i].projection_nodes[j].neighbors.len() implies after.contains(
                (#[trigger] after.nodes[i].projection_nodes[j].neighbors[k]).neighbor_id,
            ) by {
                assert(self.contains(self.nodes[i].projection_nodes[j].neighbors[k].neighbor_id));
            }
            assert forall|i: int, j: int, k: int|
                0 <= i < after.nodes.len() && 0 <= j < after.nodes[i].projection_nodes.len() && 0 <= k
                    < after.nodes[i].projection_nodes[j].points_to.len() implies after.contains(
                (#[trigger] after.nodes[i].projection_nodes[j].points_to[k]).id,
            ) by {
                assert(self.contains(self.nodes[i].projection_nodes[j].points_to[k].id));
            }
            assert forall|k: int| 0 <= k < after.multi_drop_objects.len() implies after.contains(
                (#[trigger] after.multi_drop_objects[k]).id,
            ) by {
                assert(self.contains(self.multi_drop_objects[k].id));
            }
        }
    }

    pub proof fn lemma_with_multi_drop(self, object: DropObjectId)
        requires
            self.wf(),
            self.closed(),
            self.contains(object.id),
        ensures
            self.with_multi_drop(object).wf(),
            self.with_multi_drop(object).closed(),
            self.with_multi_drop(object).nodes == self.nodes,
            self.with_multi_drop(object).deref_edges == self.deref_edges,
    {
        let after = self.with_multi_drop(object);
        if !self.multi_drop_objects.contains(object) {
            assert forall|id: GlobalProjectionId| after.contains(id) == self.contains(id) by {}
            assert forall|k: int| 0 <= k < after.deref_edges.len() implies after.contains(
                (#[trigger] after.deref_edges[k]).from,
            ) && after.contains(after.deref_edges[k].to) && after.node(
                after.deref_edges[k].from,
            ).has_neighbor(after.deref_edges[k].to) by {
                let e = self.deref_edges[k];
                assert(self.contains(e.from) && self.contains(e.to) && self.node(
                    e.from,
                ).has_neighbor(e.to));
            }
            assert forall|i: int, j: int, k: int|
                0 <= i < after.nodes.len() && 0 <= j < after.nodes[i].projection_nodes.len() && 0 <= k
                    < after.nodes[i].projection_nodes[j].neighbors.len() implies after.contains(
                (#[trigger] after.nodes[i].projection_nodes[j].neighbors[k]).neighbor_id,
            ) by {
                assert(self.contains(self.nodes[i].projection_nodes[j].neighbors[k].neighbor_id));
            }
            assert forall|i: int, j: int, k: int|
                0 <= i < after.nodes.len() && 0 <= j < after.nodes[i].projection_nodes.len() && 0 <= k
                    < after.nodes[i].projection_nodes[j].points_to.len() implies after.contains(
                (#[trigger] after.nodes[i].projection_nodes[j].points_to[k]).id,
            ) by {
                assert(self.contains(self.nodes[i].projection_nodes[j].points_to[k].id));
            }
            assert forall|k: int| 0 <= k < after.multi_drop_objects.len() implies after.contains(
                (#[trigger] after.multi_drop_objects[k]).id,
            ) by {
                if k < self.multi_drop_objects.len() {
                    assert(self.contains(self.multi_drop_objects[k].id));
                }
            }
        }
    }

    /// The neighbours and the objects of a cell of a closed graph are cells of it.
    pub proof fn lemma_closed_node(self, id: GlobalProjectionId)
        requires
            self.wf(),
            self.closed(),
            self.contains(id),
        ensures
            self.node(id).wf(),
            self.node(id).id == id.projection_id,
            forall|k: int|
                0 <= k < self.node(id).neighbors.len() ==> self.contains(
                    (#[trigger] self.node(id).neighbors[k]).neighbor_id,
                ),
            forall|k: int|
                0 <= k < self.node(id).points_to.len() ==> self.contains(
                    (#[trigger] self.node(id).points_to[k]).id,
                ),
    {
        let at = self.slot_index(id.g_local_id);
        assert(self.nodes[at].wf());
        assert forall|k: int| 0 <= k < self.node(id).neighbors.len() implies self.contains(
            (#[trigger] self.node(id).neighbors[k]).neighbor_id,
        ) by {
            assert(self.contains(
                self.nodes[at].projection_nodes[id.projection_id as int].neighbors[k].neighbor_id,
            ));
        }
        assert forall|k: int| 0 <= k < self.node(id).points_to.len() implies self.contains(
            (#[trigger] self.node(id).points_to[k]).id,
        ) by {
            assert(self.contains(
                self.nodes[at].projection_nodes[id.projection_id as int].points_to[k].id,
            ));
        }
    }

    /// What `with_edge` changes: the edges of `from` and the dereferencing edges.
    pub proof fn lemma_with_edge(
        self,
        from: GlobalProjectionId,
        to: GlobalProjectionId,
        span_info: CtxtSenSpanInfo,
    )
        requires
            self.wf(),
            self.closed(),
            self.contains(from),
            self.contains(to),
        ensures
            ({
                let after = self.with_edge(from, to, span_info);
                &&& after.wf()
                &&& after.closed()
                &&& self.same_cells_as(after)
                &&& after.multi_drop_objects == self.multi_drop_objects
                &&& after.node(from) == self.node(from).with_neighbor(
                    ProjectionNeighborInfo { neighbor_id: to, span_info },
                )
                &&& after.has_edge(from, to)
                &&& forall|other: GlobalProjectionId|
                    self.contains(other) && other != from ==> after.node(other) == self.node(other)
            }),
    {
        let info = ProjectionNeighborInfo { neighbor_id: to, span_info };
        let node = self.node(from).with_neighbor(info);
        let g = self.update_node(from, node);
        self.lemma_closed_node(from);
        self.node(from).lemma_with_neighbor(info);
        self.lemma_update_node(from, node);
        assert forall|k: int| 0 <= k < node.neighbors.len() implies self.contains(
            (#[trigger] node.neighbors[k]).neighbor_id,
        ) by {
            let n = node.neighbors[k];
            if n != info {
                let m = choose|m: int|
                    0 <= m < self.node(from).neighbors.len() && self.node(from).neighbors[m] == n;
                assert(self.contains(self.node(from).neighbors[m].neighbor_id));
            }
        }
        self.lemma_update_node_closed(from, node);
        let from_is_deref = self.node(from).projection.contains(PlaceElem::Deref);
        let to_is_deref = self.node(to).projection.contains(PlaceElem::Deref);
        if from_is_deref || to_is_deref {
            g.lemma_with_deref_edge(
                DerefEdgeInfo { from, to, is_deref: (from_is_deref, to_is_deref) },
            );
        }
        let after = self.with_edge(from, to, span_info);
        assert(after.nodes == g.nodes);
        assert forall|id: GlobalProjectionId| after.contains(id) == g.contains(id) by {}
        assert forall|id: GlobalProjectionId| #![trigger after.node(id)]
            self.contains(id) implies after.node(id) == g.node(id) by {}
    }

    /// What `with_points_to` changes: the points-to set of `id`.
    pub proof fn lemma_with_points_to(self, id: GlobalProjectionId, extra: Seq<DropObjectId>)
        requires
            self.wf(),
            self.closed(),
            self.contains(id),
            extra.no_duplicates(),
            forall|k: int|
                0 <= k < extra.len() ==> !self.node(id).points_to.contains(#[trigger] extra[k])
                    && self.contains(extra[k].id),
        ensures
            ({
                let after = self.with_points_to(id, extra);
                &&& after.wf()
                &&& after.closed()
                &&& self.same_cells_as(after)
                &&& after.deref_edges == self.deref_edges
                &&& after.multi_drop_objects == self.multi_drop_objects
                &&& after.node(id) == self.node(id).with_points_to(extra)
                &&& forall|other: GlobalProjectionId|
                    self.contains(other) && other != id ==> after.node(other) == self.node(other)
            }),
    {
        let node = self.node(id).with_points_to(extra);
        self.lemma_closed_node(id);
        let old_pts = self.node(id).points_to;
        assert(node.points_to.no_duplicates()) by {
            assert forall|a: int, b: int|
                0 <= a < node.points_to.len() && 0 <= b < node.points_to.len() && a
                    != b implies node.points_to[a] != node.points_to[b] by {
                if a < old_pts.len() && b >= old_pts.len() {
                    assert(!old_pts.contains(extra[b - old_pts.len()]));
                } else if b < old_pts.len() && a >= old_pts.len() {
                    assert(!old_pts.contains(extra[a - old_pts.len()]));
                }
            }
        }
        assert forall|k: int| 0 <= k < node.points_to.len() implies self.contains(
            (#[trigger] node.points_to[k]).id,
        ) by {
            if k >= old_pts.len() {
                assert(self.contains(extra[k - old_pts.len()].id));
            } else {
                assert(self.contains(self.node(id).points_to[k].id));
            }
        }
        self.lemma_update_node(id, node);
        self.lemma_update_node_closed(id, node);
    }
}

impl PointerFlowGraph {
    /// Records the flow edge from `from` to `to`; where the access path of either
    /// end holds a dereference, the edge is listed among the dereferencing edges.
    pub fn add_edge(
        &mut self,
        from: GlobalProjectionId,
        to: GlobalProjectionId,
        span_info: CtxtSenSpanInfo,
    )
        requires
            old(self)@.wf(),
            old(self)@.closed(),
            old(self)@.contains(from),
            old(self)@.contains(to),
        ensures
            final(self)@ == old(self)@.with_edge(from, to, span_info),
            final(self)@.wf(),
            final(self)@.closed(),
    {
        let ghost g0 = self@;
        let ghost before = *self;
        proof {
            g0.lemma_with_edge(from, to, span_info);
            g0.lemma_closed_node(from);
        }
        let at = self.find_node(from.g_local_id).unwrap();
        self.nodes[at].projection_nodes[from.projection_id].add_neighbor(
            ProjectionNeighborInfo::new(to, span_info),
        );
        proof {
            lemma_view_of_replaced_node(before, *self, from, at as int);
            g0.node(from).lemma_with_neighbor(ProjectionNeighborInfo { neighbor_id: to, span_info });
            g0.lemma_update_node(
                from,
                g0.node(from).with_neighbor(ProjectionNeighborInfo { neighbor_id: to, span_info }),
            );
        }
        let from_is_deref = path_has_deref(&self.get_projection_node(from).projection);
        let to_is_deref = path_has_deref(&self.get_projection_node(to).projection);
        if from_is_deref || to_is_deref {
            self.insert_deref_edge(DerefEdgeInfo::new(from, to, (from_is_deref, to_is_deref)));
        }
    }

    /// Lists `edge` among the dereferencing edges, unless it is listed.
    pub fn insert_deref_edge(&mut self, edge: DerefEdgeInfo)
        ensures
            final(self)@ == old(self)@.with_deref_edge(edge),
    {
        let mut i: usize = 0;
        while i < self.deref_edges.len()
            invariant
                i <= self.deref_edges.len(),
                forall|j: int| 0 <= j < i ==> self.deref_edges@[j] != edge,
            decreases self.deref_edges.len() - i,
        {
            if self.deref_edges[i].is_same(&edge) {
                return ;
            }
            i = i + 1;
        }
        self.deref_edges.push(edge);
    }

    /// Lists `object` among the multiply dropped objects, unless it is listed.
    pub fn insert_multi_drop_object(&mut self, object: DropObjectId)
        ensures
            final(self)@ == old(self)@.with_multi_drop(object),
    {
        let mut i: usize = 0;
        while i < self.multi_drop_objects.len()
            invariant
                i <= self.multi_drop_objects.len(),
                forall|j: int| 0 <= j < i ==> self.multi_drop_objects@[j] != object,
            decreases self.multi_drop_objects.len() - i,
        {
            if self.multi_drop_objects[i] == object {
                return ;
            }
            i = i + 1;
        }
        self.multi_drop_objects.push(object);
    }
}


impl PfgView {
    /// Whether `ok` holds of every slot of the graph.
    pub open spec fn slots_all(self, ok: spec_fn(GlobalLocalId) -> bool) -> bool {
        forall|slot: GlobalLocalId| #[trigger] self.has_slot(slot) ==> ok(slot)
    }

    /// Whether `ok` holds of every destructor site of the graph.
    pub open spec fn sites_all(self, ok: spec_fn(CtxtSenSpanInfo) -> bool) -> bool {
        forall|id: GlobalProjectionId, k: int|
            self.contains(id) && 0 <= k < self.node(id).cs_drop_spans.len() ==> ok(
                #[trigger] self.node(id).cs_drop_spans[k],
            )
    }

    /// What holds of the slots and sites of a graph holds of those of the graph
    /// with one more cell, if it holds of the slot of that cell.
    pub proof fn lemma_with_cell_keeps(
        self,
        call_id: CtxtSenCallId,
        local_id: LocalId,
        projection: Seq<PlaceElem>,
        slot_ok: spec_fn(GlobalLocalId) -> bool,
        site_ok: spec_fn(CtxtSenSpanInfo) -> bool,
    )
        requires
            self.wf(),
            self.closed(),
            self.with_cell(call_id, local_id, projection).fits(),
            self.slots_all(slot_ok),
            self.sites_all(site_ok),
            slot_ok(GlobalLocalId { def_id: call_id.def_id, local_id }),
        ensures
            self.with_cell(call_id, local_id, projection).slots_all(slot_ok),
            self.with_cell(call_id, local_id, projection).sites_all(site_ok),
    {
        let after = self.with_cell(call_id, local_id, projection);
        self.lemma_with_cell(call_id, local_id, projection);
        assert forall|slot: GlobalLocalId| #[trigger] after.has_slot(slot) implies slot_ok(slot) by {
            if self.has_slot(slot) {
            }
        }
        assert forall|id: GlobalProjectionId, k: int|
            after.contains(id) && 0 <= k < after.node(id).cs_drop_spans.len() implies site_ok(
            #[trigger] after.node(id).cs_drop_spans[k],
        ) by {
            if self.contains(id) {
                assert(after.node(id) == self.node(id));
                assert(site_ok(self.node(id).cs_drop_spans[k]));
            }
        }
    }

    /// What holds of the slots and sites of a graph holds of those of a graph
    /// with the same cells and the same sites.
    pub proof fn lemma_same_cells_keep(
        self,
        after: PfgView,
        slot_ok: spec_fn(GlobalLocalId) -> bool,
        site_ok: spec_fn(CtxtSenSpanInfo) -> bool,
    )
        requires
            self.same_cells_as(after),
            self.slots_all(slot_ok),
            self.sites_all(site_ok),
        ensures
            after.slots_all(slot_ok),
            after.sites_all(site_ok),
    {
        assert forall|slot: GlobalLocalId| #[trigger] after.has_slot(slot) implies slot_ok(slot) by {
            let i = after.slot_index(slot);
            assert(self.nodes[i].gid == slot);
            assert(self.has_slot(slot));
        }
        assert forall|id: GlobalProjectionId, k: int|
            after.contains(id) && 0 <= k < after.node(id).cs_drop_spans.len() implies site_ok(
            #[trigger] after.node(id).cs_drop_spans[k],
        ) by {
            assert(self.contains(id));
            assert(after.node(id).cs_drop_spans == self.node(id).cs_drop_spans);
            assert(site_ok(self.node(id).cs_drop_spans[k]));
        }
    }

    /// What holds of the slots and sites of a graph holds of those of a graph
    /// with the same slots.
    pub proof fn lemma_same_nodes_keep(
        self,
        after: PfgView,
        slot_ok: spec_fn(GlobalLocalId) -> bool,
        site_ok: spec_fn(CtxtSenSpanInfo) -> bool,
    )
        requires
            self.nodes == after.nodes,
            self.slots_all(slot_ok),
            self.sites_all(site_ok),
        ensures
            after.slots_all(slot_ok),
            after.sites_all(site_ok),
    {
        assert forall|slot: GlobalLocalId| #[trigger] after.has_slot(slot) implies slot_ok(slot) by {
            assert(self.has_slot(slot));
        }
        assert forall|id: GlobalProjectionId, k: int|
            after.contains(id) && 0 <= k < after.node(id).cs_drop_spans.len() implies site_ok(
            #[trigger] after.node(id).cs_drop_spans[k],
        ) by {
            assert(self.contains(id));
            assert(site_ok(self.node(id).cs_drop_spans[k]));
        }
    }

    /// What holds of the slots and sites of a graph holds of those of the graph
    /// with one more site, if it holds of that site.
    pub proof fn lemma_with_drop_span_keeps(
        self,
        id: GlobalProjectionId,
        span: Option<CtxtSenSpanInfo>,
        slot_ok: spec_fn(GlobalLocalId) -> bool,
        site_ok: spec_fn(CtxtSenSpanInfo) -> bool,
    )
        requires
            self.wf(),
            self.closed(),
            self.contains(id),
            self.slots_all(slot_ok),
            self.sites_all(site_ok),
            span matches Some(site) ==> site_ok(site),
        ensures
            self.with_drop_span(id, span).slots_all(slot_ok),
            self.with_drop_span(id, span).sites_all(site_ok),
    {
        let after = self.with_drop_span(id, span);
        self.lemma_with_drop_span(id, span);
        assert forall|slot: GlobalLocalId| #[trigger] after.has_slot(slot) implies slot_ok(slot) by {
            let i = after.slot_index(slot);
            assert(self.nodes[i].gid == slot);
            assert(self.has_slot(slot));
        }
        assert forall|other: GlobalProjectionId, k: int|
            after.contains(other) && 0 <= k < after.node(other).cs_drop_spans.len() implies site_ok(
            #[trigger] after.node(other).cs_drop_spans[k],
        ) by {
            assert(self.contains(other));
            if other == id {
                if span is Some && k == self.node(id).cs_drop_spans.len() {
                } else {
                    assert(site_ok(self.node(id).cs_drop_spans[k]));
                }
            } else {
                assert(after.node(other) == self.node(other));
                assert(site_ok(self.node(other).cs_drop_spans[k]));
            }
        }
    }
}


/// What is asked of the slots and of the destructor sites of a graph.
pub struct Demands {
    pub slot_ok: spec_fn(GlobalLocalId) -> bool,
    pub site_ok: spec_fn(CtxtSenSpanInfo) -> bool,
}

impl PfgView {
    /// Whether every slot and every destructor site of the graph is as demanded.
    pub open spec fn meets(self, demands: Demands) -> bool {
        self.slots_all(demands.slot_ok) && self.sites_all(demands.site_ok)
    }

    /// A graph that meets demands meets weaker ones.
    pub proof fn lemma_meets_weaker(self, demands: Demands, weaker: Demands)
        requires
            self.meets(demands),
            forall|slot: GlobalLocalId| (demands.slot_ok)(slot) ==> #[trigger] (weaker.slot_ok)(slot),
            forall|site: CtxtSenSpanInfo| (demands.site_ok)(site) ==> #[trigger] (weaker.site_ok)(site),
        ensures
            self.meets(weaker),
    {
        assert forall|slot: GlobalLocalId| #[trigger] self.has_slot(slot) implies (weaker.slot_ok)(
            slot,
        ) by {
            assert((demands.slot_ok)(slot));
        }
        assert forall|id: GlobalProjectionId, k: int|
            self.contains(id) && 0 <= k < self.node(id).cs_drop_spans.len() implies (
        weaker.site_ok)(#[trigger] self.node(id).cs_drop_spans[k]) by {
            assert((demands.site_ok)(self.node(id).cs_drop_spans[k]));
        }
    }
}


impl PfgView {
    /// Whether no cell of the graph holds an object.
    pub open spec fn no_facts(self) -> bool {
        forall|id: GlobalProjectionId| #[trigger] self.contains(id) ==> self.node(id).points_to.len() == 0
    }

    /// A graph without facts has none with one more cell.
    pub proof fn lemma_with_cell_no_facts(
        self,
        call_id: CtxtSenCallId,
        local_id: LocalId,
        projection: Seq<PlaceElem>,
    )
        requires
            self.wf(),
            self.closed(),
            self.with_cell(call_id, local_id, projection).fits(),
            self.no_facts(),
        ensures
            self.with_cell(call_id, local_id, projection).no_facts(),
    {
        let after = self.with_cell(call_id, local_id, projection);
        self.lemma_with_cell(call_id, local_id, projection);
        assert forall|id: GlobalProjectionId| #[trigger] after.contains(id) implies after.node(
            id,
        ).points_to.len() == 0 by {
            if self.contains(id) {
                assert(after.node(id) == self.node(id));
            }
        }
    }

    /// A graph without facts has none with one more edge.
    pub proof fn lemma_with_edge_no_facts(
        self,
        from: GlobalProjectionId,
        to: GlobalProjectionId,
        span_info: CtxtSenSpanInfo,
    )
        requires
            self.wf(),
            self.closed(),
            self.contains(from),
            self.contains(to),
            self.no_facts(),
        ensures
            self.with_edge(from, to, span_info).no_facts(),
    {
        let after = self.with_edge(from, to, span_info);
        self.lemma_with_edge(from, to, span_info);
        assert forall|id: GlobalProjectionId| #[trigger] after.contains(id) implies after.node(
            id,
        ).points_to.len() == 0 by {
            assert(self.contains(id));
            if id != from {
                assert(after.node(id) == self.node(id));
            }
        }
    }

    /// Graphs with the same slots have the same facts.
    pub proof fn lemma_same_nodes_no_facts(self, after: PfgView)
        requires
            self.nodes == after.nodes,
            self.no_facts(),
        ensures
            after.no_facts(),
    {
        assert forall|id: GlobalProjectionId| #[trigger] after.contains(id) implies after.node(
            id,
        ).points_to.len() == 0 by {
            assert(self.contains(id));
        }
    }
}

} // verus!
