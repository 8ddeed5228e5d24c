use rust_memory_check::ids::{
    CallerContext, CtxtSenCallId, CtxtSenSpanInfo, DropObjectId, GlobalBasicBlockId,
    GlobalLocalId, GlobalProjectionId, SpanInfo,
};
use rust_memory_check::ir::{copy_path, path_has_deref, Place, PlaceElem, TyKind};
use rust_memory_check::pfg::{
    path_is_prefix_of, DerefEdgeInfo, PfgNode, PointerFlowGraph, ProjectionNeighborInfo,
    ProjectionNode,
};

fn entry(def_id: usize) -> CtxtSenCallId {
    CtxtSenCallId::new(def_id, CallerContext::new(None))
}

fn span(def_id: usize, bb: usize, span: u64) -> CtxtSenSpanInfo {
    CtxtSenSpanInfo::new(def_id, bb, span, CallerContext::new(None))
}

#[test]
fn identifiers_are_what_they_are_made_of() {
    let local = GlobalLocalId::new(3, 4);
    assert_eq!(local.def_id, 3);
    assert_eq!(local.local_id, 4);
    let cell = GlobalProjectionId::new(local, 5);
    assert_eq!(cell.g_local_id, local);
    assert_eq!(cell.projection_id, 5);
    let block = GlobalBasicBlockId::new(1, 2);
    assert_eq!((block.def_id, block.bb_id), (1, 2));
    let object = DropObjectId::from(cell);
    assert_eq!(object.id, cell);
    assert_eq!(object.cell(), cell);
    let inside = CallerContext::new(Some(block));
    assert!(inside.is_same(&CallerContext::new(Some(GlobalBasicBlockId::new(1, 2)))));
    assert!(!inside.is_same(&CallerContext::new(None)));
    assert!(!inside.is_same(&CallerContext::new(Some(GlobalBasicBlockId::new(1, 3)))));
    let call = CtxtSenCallId::new(7, inside);
    assert_eq!(call.def_id, 7);
    assert_eq!(call.caller_context, inside);
    let seen = CtxtSenSpanInfo::new(1, 2, 30, inside);
    let plain = SpanInfo::from(seen);
    assert_eq!(plain, SpanInfo::new(1, 2, 30));
    assert_eq!(plain.into_ctxt_sen(), CtxtSenSpanInfo::new(1, 2, 30, CallerContext::new(None)));
}

#[test]
fn access_paths_are_compared() {
    let short = vec![PlaceElem::Deref];
    let long = vec![PlaceElem::Deref, PlaceElem::Field(1)];
    let other = vec![PlaceElem::Field(1), PlaceElem::Deref];
    assert!(path_is_prefix_of(&vec![], &short));
    assert!(path_is_prefix_of(&short, &long));
    assert!(path_is_prefix_of(&long, &long));
    assert!(!path_is_prefix_of(&long, &short));
    assert!(!path_is_prefix_of(&short, &other));
    assert!(path_has_deref(&other));
    assert!(!path_has_deref(&vec![PlaceElem::Field(0), PlaceElem::Downcast(2)]));
    assert_eq!(copy_path(&long), long);
    let node = ProjectionNode::new(0, long.clone(), vec![], CallerContext::new(None));
    assert!(node.is_prefix_of(&vec![PlaceElem::Deref, PlaceElem::Field(1), PlaceElem::Index(3)]));
    assert!(!node.is_prefix_of(&short));
    assert!(node.is_same_projection(&long));
    assert!(!node.is_same_projection(&short));
    assert!(node.points_to.is_empty() && node.neighbors.is_empty());
}

#[test]
fn a_cell_is_made_once() {
    let mut graph = PointerFlowGraph::new();
    let place = Place::new(2, vec![PlaceElem::Field(0)], TyKind::Other);
    let first = graph.add_or_update_node(&entry(0), &place, None);
    let again = graph.add_or_update_node(&entry(0), &place, None);
    assert_eq!(first, again);
    assert_eq!(first, GlobalProjectionId::new(GlobalLocalId::new(0, 2), 0));
    let other_path = graph.add_or_update_virtual_node(&entry(0), 2, &vec![], None);
    assert_eq!(other_path.projection_id, 1);
    let inside = CtxtSenCallId::new(0, CallerContext::new(Some(GlobalBasicBlockId::new(1, 0))));
    let other_context = graph.add_or_update_node(&inside, &place, None);
    assert_eq!(other_context.projection_id, 2);
    let other_slot = graph.add_or_update_virtual_node(&entry(0), 3, &vec![], None);
    assert_eq!(other_slot, GlobalProjectionId::new(GlobalLocalId::new(0, 3), 0));
    assert_eq!(graph.nodes.len(), 2);
    assert_eq!(graph.nodes[0].projection_nodes.len(), 3);
    assert!(graph.has_global_local(GlobalLocalId::new(0, 2)));
    assert!(!graph.has_global_local(GlobalLocalId::new(1, 2)));
    assert!(graph.has_global_projection(other_context));
    assert!(!graph.has_global_projection(GlobalProjectionId::new(GlobalLocalId::new(0, 2), 3)));
    assert_eq!(graph.find_node(GlobalLocalId::new(0, 3)), Some(1));
    assert_eq!(graph.find_node(GlobalLocalId::new(0, 4)), None);
    assert_eq!(graph.get_node(GlobalLocalId::new(0, 3)).projection_nodes.len(), 1);
    assert_eq!(graph.get_projection_node(other_context).caller_context, inside.caller_context);
}

#[test]
fn destructor_sites_are_recorded_in_their_order() {
    let mut graph = PointerFlowGraph::new();
    let place = Place::new(1, vec![], TyKind::Other);
    let cell = graph.add_or_update_node(&entry(0), &place, Some(span(0, 1, 10)));
    let same = graph.add_or_update_node(&entry(0), &place, Some(span(0, 2, 20)));
    assert_eq!(cell, same);
    assert_eq!(
        graph.get_projection_node(cell).cs_drop_spans,
        vec![span(0, 1, 10), span(0, 2, 20)]
    );
    graph.get_projection_node_mut(cell).add_drop_span(span(0, 3, 30));
    assert_eq!(graph.get_projection_node(cell).cs_drop_spans.len(), 3);
}

#[test]
fn edges_are_kept_once_for_each_target() {
    let mut graph = PointerFlowGraph::new();
    let a = graph.add_or_update_virtual_node(&entry(0), 1, &vec![], None);
    let b = graph.add_or_update_virtual_node(&entry(0), 2, &vec![], None);
    let c = graph.add_or_update_virtual_node(&entry(0), 2, &vec![PlaceElem::Deref], None);
    assert!(!graph.has_edge(a, b));
    graph.add_edge(a, b, span(0, 0, 5));
    assert!(graph.has_edge(a, b));
    assert!(!graph.has_edge(b, a));
    assert!(graph.deref_edges.is_empty());
    graph.add_edge(a, b, span(0, 1, 6));
    assert_eq!(graph.get_projection_node(a).neighbors.len(), 1);
    assert_eq!(graph.get_neighbor_info(a, b).span_info, span(0, 1, 6));
    graph.add_edge(c, a, span(0, 2, 7));
    graph.add_edge(a, c, span(0, 3, 8));
    graph.add_edge(c, a, span(0, 2, 7));
    assert_eq!(
        graph.deref_edges,
        vec![DerefEdgeInfo::new(c, a, (true, false)), DerefEdgeInfo::new(a, c, (false, true))]
    );
    assert_eq!(
        graph.get_projection_node(a).neighbors,
        vec![
            ProjectionNeighborInfo::new(b, span(0, 1, 6)),
            ProjectionNeighborInfo::new(c, span(0, 3, 8))
        ]
    );
    assert_eq!(graph.get_projection_node(a).find_neighbor(c), Some(1));
    assert_eq!(graph.get_projection_node(b).find_neighbor(c), None);
    graph.insert_deref_edge(DerefEdgeInfo::new(a, b, (true, false)));
    graph.insert_deref_edge(DerefEdgeInfo::new(a, b, (true, false)));
    assert_eq!(graph.deref_edges.len(), 3);
    assert!(DerefEdgeInfo::new(a, b, (true, false)).is_same(&graph.deref_edges[2]));
    assert!(!DerefEdgeInfo::new(a, b, (true, true)).is_same(&graph.deref_edges[2]));
    graph.insert_multi_drop_object(DropObjectId::from(a));
    graph.insert_multi_drop_object(DropObjectId::from(a));
    assert_eq!(graph.multi_drop_objects, vec![DropObjectId::from(a)]);
}

#[test]
fn slots_find_their_cells() {
    let mut slot = PfgNode::new(GlobalLocalId::new(0, 1));
    let none = CallerContext::new(None);
    let site = CallerContext::new(Some(GlobalBasicBlockId::new(0, 4)));
    assert_eq!(slot.add_projection(vec![], none), 0);
    assert_eq!(slot.add_projection(vec![PlaceElem::Deref], site), 1);
    assert_eq!(slot.try_get_projection_id(&vec![], &none), Some(0));
    assert_eq!(slot.try_get_projection_id(&vec![], &site), None);
    assert_eq!(slot.try_get_projection_id(&vec![PlaceElem::Deref], &site), Some(1));
    assert!(slot.has_projection(&vec![PlaceElem::Deref]));
    assert!(!slot.has_projection(&vec![PlaceElem::Field(0)]));
    match slot.try_get_projection_node_mut(&vec![PlaceElem::Deref], &site) {
        Some(node) => node.extend_points_to(&vec![DropObjectId::from(GlobalProjectionId::new(
            GlobalLocalId::new(0, 1),
            0,
        ))]),
        None => panic!("the cell is there"),
    }
    assert_eq!(slot.projection_nodes[1].points_to.len(), 1);
    assert!(slot.try_get_projection_node_mut(&vec![PlaceElem::Deref], &none).is_none());
    let mut graph = PointerFlowGraph::new();
    let a = graph.add_or_update_virtual_node(&entry(0), 1, &vec![], None);
    graph.get_node_mut(a.g_local_id).gid = a.g_local_id;
    assert_eq!(graph.get_node(a.g_local_id).gid, a.g_local_id);
}
