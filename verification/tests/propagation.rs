use std::collections::VecDeque;

use rust_memory_check::analysis::{alias_analysis, propagate_next, AnalysisContext, PointsToSet};
use rust_memory_check::cfg::{CfgTable, ControlFlowGraph, FunctionInfo};
use rust_memory_check::check::check_memory_bug;
use rust_memory_check::ids::{
    CallerContext, CtxtSenCallId, CtxtSenSpanInfo, DropObjectId, GlobalLocalId,
    GlobalProjectionId,
};
use rust_memory_check::ir::{
    AnalysisOptions, AssignmentInfo, BasicBlockInfo, CallInfo, LocalInfo, OpKind, Operand, Place,
    PlaceElem, RvalKind, Terminator, TerminatorKind, TyKind,
};
use rust_memory_check::pfg::PointerFlowGraph;
use rust_memory_check::propagate::{holds_object, new_objects};

fn entry() -> CtxtSenCallId {
    CtxtSenCallId::new(0, CallerContext::new(None))
}

fn span(bb: usize) -> CtxtSenSpanInfo {
    CtxtSenSpanInfo::new(0, bb, 0, CallerContext::new(None))
}

fn block(id: usize, successors: Vec<usize>, assignment_infos: Vec<AssignmentInfo>, kind: TerminatorKind, span: u64) -> BasicBlockInfo {
    BasicBlockInfo::new(id, false, successors, assignment_infos, Terminator { kind, span })
}

// a function of `locals` storage slots that does nothing
fn idle(locals: usize) -> CfgTable {
    CfgTable {
        functions: vec![FunctionInfo {
            def_path: vec!["demo".to_string(), "idle".to_string()],
            cfg: Some(ControlFlowGraph {
                def_id: 0,
                local_infos: (0..locals)
                    .map(|id| LocalInfo::new(id, false, TyKind::Other, None, 0))
                    .collect(),
                basic_block_infos: vec![block(0, vec![], vec![], TerminatorKind::Return, 0)],
                call_infos: vec![],
                has_ret: false,
            }),
        }],
        registered: vec![true],
    }
}

fn context(cfgs: CfgTable, pfg: PointerFlowGraph, worklist: Vec<PointsToSet>) -> AnalysisContext {
    AnalysisContext {
        options: AnalysisOptions { debug_opts: vec![], entries: vec![], open_dbg: false },
        cfgs,
        pfg,
        cs_reachable_calls: vec![],
        worklist: VecDeque::from(worklist),
    }
}

fn sorted(ctxt: &AnalysisContext, cell: GlobalProjectionId) -> Vec<(usize, usize)> {
    let mut held: Vec<(usize, usize)> = ctxt
        .pfg
        .get_projection_node(cell)
        .points_to
        .iter()
        .map(|object| (object.id.g_local_id.local_id, object.id.projection_id))
        .collect();
    held.sort();
    held
}

// the cells `a`, `b`, `c` and `d` with the edges a -> b -> c -> a and c -> d
fn ring() -> (PointerFlowGraph, Vec<GlobalProjectionId>) {
    let mut graph = PointerFlowGraph::new();
    let cells: Vec<GlobalProjectionId> = (1..5)
        .map(|local| graph.add_or_update_virtual_node(&entry(), local, &vec![], None))
        .collect();
    graph.add_edge(cells[0], cells[1], span(0));
    graph.add_edge(cells[1], cells[2], span(0));
    graph.add_edge(cells[2], cells[0], span(0));
    graph.add_edge(cells[2], cells[3], span(0));
    (graph, cells)
}

#[test]
fn the_order_of_the_waiting_facts_does_not_matter_where_no_cell_is_made() {
    let orders: [[usize; 3]; 6] =
        [[0, 1, 2], [0, 2, 1], [1, 0, 2], [1, 2, 0], [2, 0, 1], [2, 1, 0]];
    for order in orders {
        let (graph, cells) = ring();
        let items = [
            (cells[0], vec![DropObjectId::from(cells[0])]),
            (cells[3], vec![DropObjectId::from(cells[3]), DropObjectId::from(cells[1])]),
            (cells[1], vec![DropObjectId::from(cells[1])]),
        ];
        let worklist = order
            .iter()
            .map(|&i| PointsToSet::new(items[i].0, items[i].1.clone()))
            .collect();
        let ctxt = alias_analysis(context(idle(5), graph, worklist), entry());
        assert!(ctxt.worklist.is_empty());
        assert_eq!(ctxt.pfg.nodes.len(), 4);
        for cell in &cells[0..3] {
            assert_eq!(sorted(&ctxt, *cell), vec![(1, 0), (2, 0)]);
        }
        assert_eq!(sorted(&ctxt, cells[3]), vec![(1, 0), (2, 0), (4, 0)]);
    }
}

// the cells `a`, `a.0` and `b` with the edge a -> b; the cell `b.0` is not there
fn open_graph() -> (PointerFlowGraph, GlobalProjectionId, GlobalProjectionId) {
    let mut graph = PointerFlowGraph::new();
    let a = graph.add_or_update_virtual_node(&entry(), 1, &vec![], None);
    let a_field = graph.add_or_update_virtual_node(&entry(), 1, &vec![PlaceElem::Field(0)], None);
    let b = graph.add_or_update_virtual_node(&entry(), 2, &vec![], None);
    graph.add_edge(a, b, span(0));
    (graph, a_field, b)
}

#[test]
fn the_order_matters_where_a_cell_is_made_on_the_way() {
    let b_field = GlobalProjectionId::new(GlobalLocalId::new(0, 2), 1);
    let (graph, a_field, b) = open_graph();
    let late = alias_analysis(
        context(
            idle(3),
            graph,
            vec![
                PointsToSet::new(b, vec![DropObjectId::from(b)]),
                PointsToSet::new(a_field, vec![DropObjectId::from(a_field)]),
            ],
        ),
        entry(),
    );
    assert_eq!(sorted(&late, b_field), vec![(1, 1)]);
    let (graph, a_field, b) = open_graph();
    let early = alias_analysis(
        context(
            idle(3),
            graph,
            vec![
                PointsToSet::new(a_field, vec![DropObjectId::from(a_field)]),
                PointsToSet::new(b, vec![DropObjectId::from(b)]),
            ],
        ),
        entry(),
    );
    assert_eq!(sorted(&early, b_field), vec![(1, 1), (2, 0)]);
}

#[test]
fn no_fact_is_lost() {
    let (mut graph, cells) = ring();
    let held = vec![DropObjectId::from(cells[3]), DropObjectId::from(cells[2])];
    graph.get_projection_node_mut(cells[1]).extend_points_to(&held);
    let ctxt = alias_analysis(
        context(
            idle(5),
            graph,
            vec![
                PointsToSet::new(cells[1], vec![DropObjectId::from(cells[2]), DropObjectId::from(cells[0])]),
                PointsToSet::new(cells[0], vec![DropObjectId::from(cells[3])]),
            ],
        ),
        entry(),
    );
    let now = &ctxt.pfg.get_projection_node(cells[1]).points_to;
    assert_eq!(now[0..2], held[..]);
    assert_eq!(now.len(), 3);
    assert_eq!(now[2], DropObjectId::from(cells[0]));
    // what a cell held from the start is not sent on; what it takes in is
    assert_eq!(sorted(&ctxt, cells[2]), vec![(1, 0)]);
    assert_eq!(sorted(&ctxt, cells[0]), vec![(1, 0), (4, 0)]);
    assert_eq!(sorted(&ctxt, cells[3]), vec![(1, 0)]);
}

#[test]
fn new_objects_are_those_not_held() {
    let object = |local: usize| DropObjectId::from(GlobalProjectionId::new(GlobalLocalId::new(0, local), 0));
    let held = vec![object(1), object(2)];
    assert_eq!(new_objects(&vec![object(3), object(2), object(4), object(1)], &held), vec![object(3), object(4)]);
    assert_eq!(new_objects(&vec![object(2)], &held), vec![]);
    assert_eq!(new_objects(&vec![], &held), vec![]);
    assert_eq!(new_objects(&held, &vec![]), held);
    assert!(holds_object(&held, object(2)));
    assert!(!holds_object(&held, object(3)));
}

fn whole(local: usize, ty: TyKind) -> Place {
    Place::new(local, vec![], ty)
}

#[test]
fn without_a_destructor_nothing_is_found() {
    let assign = |to: usize, from: Place, op: OpKind| {
        AssignmentInfo::new(whole(to, TyKind::Ref), RvalKind::Addressed(from), 5, op)
    };
    let cfgs = CfgTable {
        functions: vec![
            FunctionInfo {
                def_path: vec!["demo".to_string(), "f".to_string()],
                cfg: Some(ControlFlowGraph {
                    def_id: 0,
                    local_infos: (0..4).map(|id| LocalInfo::new(id, false, TyKind::Ref, None, 0)).collect(),
                    basic_block_infos: vec![
                        block(
                            0,
                            vec![1],
                            vec![
                                assign(2, whole(1, TyKind::Other), OpKind::Ref),
                                assign(3, Place::new(2, vec![PlaceElem::Deref], TyKind::Other), OpKind::Copy),
                            ],
                            TerminatorKind::Goto { target: 1 },
                            6,
                        ),
                        block(1, vec![], vec![], TerminatorKind::Return, 7),
                    ],
                    call_infos: vec![CallInfo::new(
                        1,
                        1,
                        Operand::Constant,
                        vec![Operand::Move(whole(3, TyKind::Ref))],
                        whole(2, TyKind::Ref),
                        7,
                    )],
                    has_ret: true,
                }),
            },
            FunctionInfo { def_path: vec!["lib".to_string(), "make".to_string()], cfg: None },
        ],
        registered: vec![true, false],
    };
    let ctxt = alias_analysis(context(cfgs, PointerFlowGraph::new(), vec![]), entry());
    assert!(!ctxt.pfg.nodes.is_empty());
    assert!(ctxt.worklist.is_empty());
    assert!(ctxt
        .pfg
        .nodes
        .iter()
        .all(|slot| slot.projection_nodes.iter().all(|cell| cell.points_to.is_empty())));
    assert!(ctxt.pfg.multi_drop_objects.is_empty());
    let info = check_memory_bug(&ctxt);
    assert!(info.uaf_infos.is_empty() && info.df_infos.is_empty());
}

#[test]
fn every_pair_of_sites_is_looked_at() {
    let drop_of = |local: usize, target: usize| TerminatorKind::Drop {
        place: whole(local, TyKind::Other),
        target,
        unwind: None,
    };
    let cfgs = CfgTable {
        functions: vec![FunctionInfo {
            def_path: vec!["demo".to_string(), "f".to_string()],
            cfg: Some(ControlFlowGraph {
                def_id: 0,
                local_infos: (0..3).map(|id| LocalInfo::new(id, id > 0, TyKind::Other, None, 0)).collect(),
                basic_block_infos: vec![
                    block(
                        0,
                        vec![1],
                        vec![AssignmentInfo::new(
                            whole(2, TyKind::Other),
                            RvalKind::Addressed(whole(1, TyKind::Other)),
                            1,
                            OpKind::Move,
                        )],
                        TerminatorKind::Goto { target: 1 },
                        2,
                    ),
                    block(1, vec![2], vec![], drop_of(1, 2), 10),
                    block(2, vec![3], vec![], drop_of(2, 3), 20),
                    block(3, vec![4], vec![], drop_of(1, 4), 30),
                    block(4, vec![], vec![], drop_of(2, 4), 40),
                ],
                call_infos: vec![],
                has_ret: false,
            }),
        }],
        registered: vec![true],
    };
    let ctxt = alias_analysis(context(cfgs, PointerFlowGraph::new(), vec![]), entry());
    let first = GlobalProjectionId::new(GlobalLocalId::new(0, 1), 0);
    let second = GlobalProjectionId::new(GlobalLocalId::new(0, 2), 0);
    assert_eq!(ctxt.pfg.get_projection_node(first).cs_drop_spans.len(), 2);
    assert_eq!(ctxt.pfg.get_projection_node(second).cs_drop_spans.len(), 2);
    assert_eq!(ctxt.pfg.multi_drop_objects, vec![DropObjectId::from(second)]);
    let info = check_memory_bug(&ctxt);
    let found: Vec<((usize, u64), (usize, u64))> = info
        .df_infos
        .iter()
        .map(|f| {
            (
                (f.first_drop_obj_id.id.g_local_id.local_id, f.first_drop_span.span),
                (f.then_drop_obj_id.id.g_local_id.local_id, f.then_drop_span.span),
            )
        })
        .collect();
    assert_eq!(
        found,
        vec![
            ((1, 10), (2, 20)),
            ((2, 20), (1, 30)),
            ((1, 10), (2, 40)),
            ((1, 30), (2, 40))
        ]
    );
    assert!(info.uaf_infos.is_empty());
}

// a function of six storage slots whose blocks follow each other: 0 -> 1 -> 2 -> 3
fn chain() -> CfgTable {
    CfgTable {
        functions: vec![FunctionInfo {
            def_path: vec!["demo".to_string(), "chain".to_string()],
            cfg: Some(ControlFlowGraph {
                def_id: 0,
                local_infos: (0..6)
                    .map(|id| LocalInfo::new(id, false, TyKind::Other, None, 0))
                    .collect(),
                basic_block_infos: vec![
                    block(0, vec![1], vec![], TerminatorKind::Goto { target: 1 }, 0),
                    block(1, vec![2], vec![], TerminatorKind::Goto { target: 2 }, 10),
                    block(2, vec![3], vec![], TerminatorKind::Goto { target: 3 }, 20),
                    block(3, vec![], vec![], TerminatorKind::Return, 30),
                ],
                call_infos: vec![],
                has_ret: false,
            }),
        }],
        registered: vec![true],
    }
}

fn site(bb: usize) -> CtxtSenSpanInfo {
    CtxtSenSpanInfo::new(0, bb, 10 * bb as u64, CallerContext::new(None))
}

// the cells `w`, `x` and `z`, destructed in the blocks 0, 1 and 2, the cells
// `p`, `*p` and `y`, and the edges w -> z, x -> z, x -> p, z -> p and *p -> y,
// the last in block 3
fn destructed() -> (PointerFlowGraph, Vec<GlobalProjectionId>) {
    let mut graph = PointerFlowGraph::new();
    let w = graph.add_or_update_virtual_node(&entry(), 1, &vec![], Some(site(0)));
    let x = graph.add_or_update_virtual_node(&entry(), 2, &vec![], Some(site(1)));
    let z = graph.add_or_update_virtual_node(&entry(), 3, &vec![], Some(site(2)));
    let p = graph.add_or_update_virtual_node(&entry(), 4, &vec![], None);
    let target = graph.add_or_update_virtual_node(&entry(), 4, &vec![PlaceElem::Deref], None);
    let y = graph.add_or_update_virtual_node(&entry(), 5, &vec![], None);
    graph.add_edge(w, z, site(0));
    graph.add_edge(x, z, site(0));
    graph.add_edge(x, p, site(0));
    graph.add_edge(z, p, site(0));
    graph.add_edge(target, y, site(3));
    (graph, vec![w, x, z, p, target, y])
}

#[test]
fn the_order_of_the_waiting_facts_does_not_matter_for_what_is_found() {
    let orders: [[usize; 3]; 6] =
        [[0, 1, 2], [0, 2, 1], [1, 0, 2], [1, 2, 0], [2, 0, 1], [2, 1, 0]];
    let mut seen: Vec<(Vec<(usize, u64, usize, u64)>, Vec<(usize, u64, usize, u64)>)> = Vec::new();
    for order in orders {
        let (graph, cells) = destructed();
        assert_eq!(graph.deref_edges.len(), 1);
        let worklist = order
            .iter()
            .map(|&i| PointsToSet::new(cells[i], vec![DropObjectId::from(cells[i])]))
            .collect();
        let ctxt = alias_analysis(context(chain(), graph, worklist), entry());
        assert!(ctxt.worklist.is_empty());
        assert_eq!(sorted(&ctxt, cells[2]), vec![(1, 0), (2, 0), (3, 0)]);
        assert_eq!(sorted(&ctxt, cells[4]), vec![(1, 0), (2, 0), (3, 0)]);
        assert_eq!(sorted(&ctxt, cells[5]), vec![(1, 0), (2, 0), (3, 0)]);
        assert_eq!(ctxt.pfg.multi_drop_objects, vec![DropObjectId::from(cells[2])]);
        let info = check_memory_bug(&ctxt);
        let mut uaf: Vec<(usize, u64, usize, u64)> = info
            .uaf_infos
            .iter()
            .map(|f| {
                assert_eq!(f.deref_proj_id, cells[4]);
                (
                    f.drop_obj_id.id.g_local_id.local_id,
                    f.drop_span.span,
                    f.deref_proj_id.g_local_id.local_id,
                    f.deref_span.span,
                )
            })
            .collect();
        uaf.sort();
        let mut df: Vec<(usize, u64, usize, u64)> = info
            .df_infos
            .iter()
            .map(|f| {
                (
                    f.first_drop_obj_id.id.g_local_id.local_id,
                    f.first_drop_span.span,
                    f.then_drop_obj_id.id.g_local_id.local_id,
                    f.then_drop_span.span,
                )
            })
            .collect();
        df.sort();
        assert_eq!(info.uaf_infos.len(), 3);
        assert_eq!(info.df_infos.len(), 2);
        seen.push((uaf, df));
    }
    assert_eq!(seen[0].0, vec![(1, 0, 4, 30), (2, 10, 4, 30), (3, 20, 4, 30)]);
    assert_eq!(seen[0].1, vec![(1, 0, 3, 20), (2, 10, 3, 20)]);
    for found in &seen {
        assert_eq!(found, &seen[0]);
    }
}

#[test]
fn the_order_does_not_matter_where_nothing_comes_to_a_cell_that_would_make_one() {
    // the cell `a.0` would make `b.0`, but the waiting facts come to `b` only
    let mut seen = Vec::new();
    for order in [[0usize, 1], [1, 0]] {
        let (graph, a_field, b) = open_graph();
        let items = [DropObjectId::from(b), DropObjectId::from(a_field)];
        let worklist = order.iter().map(|&i| PointsToSet::new(b, vec![items[i]])).collect();
        let ctxt = alias_analysis(context(idle(3), graph, worklist), entry());
        assert!(ctxt.worklist.is_empty());
        assert_eq!(ctxt.pfg.nodes.len(), 2);
        assert_eq!(ctxt.pfg.get_node(GlobalLocalId::new(0, 2)).projection_nodes.len(), 1);
        assert_eq!(sorted(&ctxt, b), vec![(1, 1), (2, 0)]);
        assert_eq!(sorted(&ctxt, a_field), vec![]);
        seen.push(sorted(&ctxt, b));
    }
    assert_eq!(seen[0], seen[1]);
}

#[test]
fn a_step_takes_up_the_oldest_item_and_loses_nothing() {
    let (mut graph, cells) = ring();
    graph.get_projection_node_mut(cells[1]).extend_points_to(&vec![DropObjectId::from(cells[3])]);
    let mut ctxt = context(
        idle(5),
        graph,
        vec![
            PointsToSet::new(cells[1], vec![DropObjectId::from(cells[3]), DropObjectId::from(cells[0])]),
            PointsToSet::new(cells[0], vec![DropObjectId::from(cells[3])]),
        ],
    );
    propagate_next(&mut ctxt);
    assert_eq!(
        ctxt.pfg.get_projection_node(cells[1]).points_to,
        vec![DropObjectId::from(cells[3]), DropObjectId::from(cells[0])]
    );
    assert_eq!(ctxt.worklist[0].g_proj_id, cells[0]);
    assert!(ctxt.worklist.len() >= 2);
    for item in ctxt.worklist.iter().skip(1) {
        assert_eq!(item.g_proj_id, cells[2]);
        assert_eq!(item.points_to, vec![DropObjectId::from(cells[0])]);
    }
    let waiting = ctxt.worklist.len();
    // the next item brings the cell what it does not hold yet
    propagate_next(&mut ctxt);
    assert_eq!(ctxt.pfg.get_projection_node(cells[0]).points_to, vec![DropObjectId::from(cells[3])]);
    assert_eq!(ctxt.pfg.get_projection_node(cells[1]).points_to.len(), 2);
    assert!(ctxt.worklist.len() >= waiting);
    // an item that brings nothing new is dropped, and nothing else changes
    let mut idle_step = context(
        idle(5),
        ring().0,
        vec![PointsToSet::new(cells[2], vec![])],
    );
    propagate_next(&mut idle_step);
    assert!(idle_step.worklist.is_empty());
    assert!(idle_step.pfg.multi_drop_objects.is_empty());
    assert!(sorted(&idle_step, cells[2]).is_empty());
}
