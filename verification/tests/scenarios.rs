use std::collections::VecDeque;

use rust_memory_check::analysis::{alias_analysis, AnalysisContext};
use rust_memory_check::cfg::{CfgTable, ControlFlowGraph, FunctionInfo};
use rust_memory_check::check::check_memory_bug;
use rust_memory_check::ids::{CallerContext, CtxtSenCallId};
use rust_memory_check::ir::{
    AnalysisOptions, AssignmentInfo, BasicBlockInfo, LocalInfo, OpKind, Place, PlaceElem,
    RvalKind, Terminator, TerminatorKind, TyKind,
};
use rust_memory_check::pfg::PointerFlowGraph;

fn local(id: usize, need_drop: bool, ty: TyKind, name: &str) -> LocalInfo {
    LocalInfo::new(id, need_drop, ty, Some(name.to_string()), 0)
}

fn whole(local: usize, ty: TyKind) -> Place {
    Place::new(local, vec![], ty)
}

fn block(
    id: usize,
    successors: Vec<usize>,
    assignment_infos: Vec<AssignmentInfo>,
    kind: TerminatorKind,
    span: u64,
) -> BasicBlockInfo {
    BasicBlockInfo::new(id, false, successors, assignment_infos, Terminator { kind, span })
}

fn context_of(function: ControlFlowGraph) -> AnalysisContext {
    AnalysisContext {
        options: AnalysisOptions { debug_opts: vec![], entries: vec![], open_dbg: false },
        cfgs: CfgTable {
            functions: vec![FunctionInfo {
                def_path: vec!["demo".to_string(), "f".to_string()],
                cfg: Some(function),
            }],
            registered: vec![true],
        },
        pfg: PointerFlowGraph::new(),
        cs_reachable_calls: vec![],
        worklist: VecDeque::new(),
    }
}

fn entry() -> CtxtSenCallId {
    CtxtSenCallId::new(0, CallerContext::new(None))
}

// slots: 0 the result, 1 `x` (needs a destructor), 2 `p`, 3 `y`
fn pointer_locals() -> Vec<LocalInfo> {
    vec![
        local(0, false, TyKind::Unit, "ret"),
        local(1, true, TyKind::Other, "x"),
        local(2, false, TyKind::Ref, "p"),
        local(3, false, TyKind::Other, "y"),
    ]
}

fn take_reference(span: u64) -> AssignmentInfo {
    AssignmentInfo::new(
        whole(2, TyKind::Ref),
        RvalKind::Addressed(whole(1, TyKind::Other)),
        span,
        OpKind::Ref,
    )
}

fn read_through(span: u64) -> AssignmentInfo {
    AssignmentInfo::new(
        whole(3, TyKind::Other),
        RvalKind::Addressed(Place::new(2, vec![PlaceElem::Deref], TyKind::Other)),
        span,
        OpKind::Copy,
    )
}

#[test]
fn direct_use_after_free_is_found() {
    let function = ControlFlowGraph {
        def_id: 0,
        local_infos: pointer_locals(),
        basic_block_infos: vec![
            block(0, vec![1], vec![take_reference(10)], TerminatorKind::Goto { target: 1 }, 11),
            block(
                1,
                vec![2],
                vec![],
                TerminatorKind::Drop { place: whole(1, TyKind::Other), target: 2, unwind: None },
                20,
            ),
            block(2, vec![], vec![read_through(30)], TerminatorKind::Return, 31),
        ],
        call_infos: vec![],
        has_ret: false,
    };
    let ctxt = alias_analysis(context_of(function), entry());
    let info = check_memory_bug(&ctxt);
    assert_eq!(info.uaf_infos.len(), 1);
    let found = &info.uaf_infos[0];
    assert_eq!(found.drop_span.basic_block_id, 1);
    assert_eq!(found.drop_span.span, 20);
    assert_eq!(found.deref_span.basic_block_id, 2);
    assert_eq!(found.deref_span.span, 30);
    assert_eq!(found.drop_obj_id.id.g_local_id.local_id, 1);
    assert_eq!(found.deref_proj_id.g_local_id.local_id, 2);
    assert_eq!(info.df_infos.len(), 0);
}

#[test]
fn use_before_free_is_not_reported() {
    let function = ControlFlowGraph {
        def_id: 0,
        local_infos: pointer_locals(),
        basic_block_infos: vec![
            block(0, vec![1], vec![take_reference(10)], TerminatorKind::Goto { target: 1 }, 11),
            block(1, vec![2], vec![read_through(20)], TerminatorKind::Goto { target: 2 }, 21),
            block(
                2,
                vec![],
                vec![],
                TerminatorKind::Drop { place: whole(1, TyKind::Other), target: 2, unwind: None },
                30,
            ),
        ],
        call_infos: vec![],
        has_ret: false,
    };
    let ctxt = alias_analysis(context_of(function), entry());
    let info = check_memory_bug(&ctxt);
    assert_eq!(info.uaf_infos.len(), 0);
    assert_eq!(info.df_infos.len(), 0);
}

// slots: 0 the result, 1 `x`, 2 `z`; `z = move x` in the first block, `x` is
// destructed in block 1 and `z` in block 2.
fn two_drops(first_successors: Vec<usize>) -> ControlFlowGraph {
    ControlFlowGraph {
        def_id: 0,
        local_infos: vec![
            local(0, false, TyKind::Unit, "ret"),
            local(1, true, TyKind::Other, "x"),
            local(2, true, TyKind::Other, "z"),
        ],
        basic_block_infos: vec![
            block(
                0,
                vec![1, 2],
                vec![AssignmentInfo::new(
                    whole(2, TyKind::Other),
                    RvalKind::Addressed(whole(1, TyKind::Other)),
                    10,
                    OpKind::Move,
                )],
                TerminatorKind::SwitchInt { targets: vec![1], otherwise: 2 },
                11,
            ),
            block(
                1,
                first_successors,
                vec![],
                TerminatorKind::Drop { place: whole(1, TyKind::Other), target: 3, unwind: None },
                20,
            ),
            block(
                2,
                vec![3],
                vec![],
                TerminatorKind::Drop { place: whole(2, TyKind::Other), target: 3, unwind: None },
                30,
            ),
            block(3, vec![], vec![], TerminatorKind::Return, 40),
        ],
        call_infos: vec![],
        has_ret: false,
    }
}

#[test]
fn drops_in_sibling_branches_are_no_double_free() {
    let ctxt = alias_analysis(context_of(two_drops(vec![3])), entry());
    assert_eq!(ctxt.pfg.multi_drop_objects.len(), 1);
    let info = check_memory_bug(&ctxt);
    assert_eq!(info.df_infos.len(), 0);
    assert_eq!(info.uaf_infos.len(), 0);
}

#[test]
fn drops_one_after_the_other_are_a_double_free() {
    let ctxt = alias_analysis(context_of(two_drops(vec![2])), entry());
    assert_eq!(ctxt.pfg.multi_drop_objects.len(), 1);
    let info = check_memory_bug(&ctxt);
    assert_eq!(info.df_infos.len(), 1);
    let found = &info.df_infos[0];
    assert_eq!(found.first_drop_span.basic_block_id, 1);
    assert_eq!(found.first_drop_span.span, 20);
    assert_eq!(found.first_drop_obj_id.id.g_local_id.local_id, 1);
    assert_eq!(found.then_drop_span.basic_block_id, 2);
    assert_eq!(found.then_drop_span.span, 30);
    assert_eq!(found.then_drop_obj_id.id.g_local_id.local_id, 2);
}
