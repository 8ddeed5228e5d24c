use std::collections::VecDeque;

use rust_memory_check::analysis::{
    alias_analysis, can_register_name, is_ignored, is_library, is_pass_through, is_ptr_copy,
    process_calls, AnalysisContext, PointsToSet,
};
use rust_memory_check::cfg::{CfgTable, ControlFlowGraph, FunctionInfo};
use rust_memory_check::check::{check_df, check_memory_bug, check_uaf};
use rust_memory_check::ids::{
    CallerContext, CtxtSenCallId, DropObjectId, GlobalBasicBlockId, GlobalLocalId,
    GlobalProjectionId,
};
use rust_memory_check::ir::{
    AnalysisOptions, AssignmentInfo, BasicBlockInfo, CallInfo, LocalInfo, OpKind, Operand, Place,
    PlaceElem, RvalKind, Terminator, TerminatorKind, TyKind,
};
use rust_memory_check::pfg::PointerFlowGraph;

fn local(id: usize, need_drop: bool, ty: TyKind) -> LocalInfo {
    LocalInfo::new(id, need_drop, ty, None, 0)
}

fn whole(local: usize, ty: TyKind) -> Place {
    Place::new(local, vec![], ty)
}

fn behind(local: usize) -> Place {
    Place::new(local, vec![PlaceElem::Deref], TyKind::Other)
}

fn assign(to: Place, from: Place, op: OpKind, span: u64) -> AssignmentInfo {
    AssignmentInfo::new(to, RvalKind::Addressed(from), span, op)
}

fn block(id: usize, successors: Vec<usize>, assignment_infos: Vec<AssignmentInfo>, kind: TerminatorKind, span: u64) -> BasicBlockInfo {
    BasicBlockInfo::new(id, false, successors, assignment_infos, Terminator { kind, span })
}

fn drop_of(local: usize, target: usize) -> TerminatorKind {
    TerminatorKind::Drop { place: whole(local, TyKind::Other), target, unwind: None }
}

fn call_of(callee: usize, args: Vec<Operand>, destination: Place, target: usize) -> TerminatorKind {
    TerminatorKind::Call {
        func: Operand::Constant,
        callee: Some(callee),
        args,
        destination,
        target: Some(target),
        cleanup: None,
    }
}

fn context(functions: Vec<FunctionInfo>, registered: Vec<bool>) -> AnalysisContext {
    AnalysisContext {
        options: AnalysisOptions { debug_opts: vec![], entries: vec![], open_dbg: false },
        cfgs: CfgTable { functions, registered },
        pfg: PointerFlowGraph::new(),
        cs_reachable_calls: vec![],
        worklist: VecDeque::new(),
    }
}

fn entry() -> CtxtSenCallId {
    CtxtSenCallId::new(0, CallerContext::new(None))
}

fn path(names: &[&str]) -> Vec<String> {
    names.iter().map(|s| s.to_string()).collect()
}

// `p = &x; drop x` in block 0, `callee(move p)` in block 1
fn caller() -> FunctionInfo {
    FunctionInfo {
        def_path: path(&["demo", "caller"]),
        cfg: Some(ControlFlowGraph {
            def_id: 0,
            local_infos: vec![
                local(0, false, TyKind::Unit),
                local(1, true, TyKind::Other),
                local(2, false, TyKind::Ref),
                local(3, false, TyKind::Unit),
            ],
            basic_block_infos: vec![
                block(
                    0,
                    vec![1],
                    vec![assign(whole(2, TyKind::Ref), whole(1, TyKind::Other), OpKind::Ref, 10)],
                    drop_of(1, 1),
                    11,
                ),
                block(
                    1,
                    vec![2],
                    vec![],
                    call_of(1, vec![Operand::Move(whole(2, TyKind::Ref))], whole(3, TyKind::Unit), 2),
                    20,
                ),
                block(2, vec![], vec![], TerminatorKind::Return, 30),
            ],
            call_infos: vec![CallInfo::new(
                1,
                1,
                Operand::Constant,
                vec![Operand::Move(whole(2, TyKind::Ref))],
                whole(3, TyKind::Unit),
                20,
            )],
            has_ret: false,
        }),
    }
}

// `y = *q` for the parameter `q`
fn callee() -> FunctionInfo {
    FunctionInfo {
        def_path: path(&["demo", "callee"]),
        cfg: Some(ControlFlowGraph {
            def_id: 1,
            local_infos: vec![
                local(0, false, TyKind::Unit),
                local(1, false, TyKind::Ref),
                local(2, false, TyKind::Other),
            ],
            basic_block_infos: vec![block(
                0,
                vec![],
                vec![assign(whole(2, TyKind::Other), behind(1), OpKind::Copy, 40)],
                TerminatorKind::Return,
                41,
            )],
            call_infos: vec![],
            has_ret: false,
        }),
    }
}

#[test]
fn a_use_in_a_called_function_is_found() {
    let ctxt = alias_analysis(context(vec![caller(), callee()], vec![true, true]), entry());
    let site = CallerContext::new(Some(GlobalBasicBlockId::new(0, 1)));
    assert_eq!(ctxt.cs_reachable_calls, vec![entry(), CtxtSenCallId::new(1, site)]);
    assert!(ctxt.worklist.is_empty());
    let info = check_memory_bug(&ctxt);
    assert_eq!(info.df_infos.len(), 0);
    assert_eq!(info.uaf_infos.len(), 3);
    let x = GlobalProjectionId::new(GlobalLocalId::new(0, 1), 0);
    let at_call = &info.uaf_infos[0];
    assert_eq!(at_call.drop_obj_id, DropObjectId::from(x));
    assert_eq!((at_call.drop_span.def_id, at_call.drop_span.basic_block_id, at_call.drop_span.span), (0, 0, 11));
    assert_eq!((at_call.deref_span.def_id, at_call.deref_span.basic_block_id, at_call.deref_span.span), (0, 1, 20));
    assert_eq!(at_call.deref_proj_id, GlobalProjectionId::new(GlobalLocalId::new(0, 2), 0));
    // the edge that binds the argument is read through at the parameter too
    let parameter = &info.uaf_infos[1];
    assert_eq!(parameter.drop_obj_id, DropObjectId::from(x));
    assert_eq!((parameter.drop_span.def_id, parameter.drop_span.basic_block_id, parameter.drop_span.span), (0, 0, 11));
    assert_eq!((parameter.deref_span.def_id, parameter.deref_span.basic_block_id, parameter.deref_span.span), (0, 1, 20));
    assert_eq!(parameter.deref_proj_id, GlobalProjectionId::new(GlobalLocalId::new(1, 1), 0));
    assert_eq!(ctxt.pfg.get_projection_node(parameter.deref_proj_id).caller_context, site);
    assert!(ctxt.pfg.deref_edges.iter().any(|edge| edge.from == at_call.deref_proj_id
        && edge.to == parameter.deref_proj_id
        && edge.is_deref == (true, true)));
    let inside = &info.uaf_infos[2];
    assert_eq!(inside.drop_obj_id, DropObjectId::from(x));
    assert_eq!((inside.deref_span.def_id, inside.deref_span.basic_block_id, inside.deref_span.span), (1, 0, 40));
    assert_eq!(inside.deref_proj_id, GlobalProjectionId::new(GlobalLocalId::new(1, 1), 1));
    assert_eq!(ctxt.pfg.get_projection_node(inside.deref_proj_id).caller_context, site);
    assert_eq!(check_uaf(&ctxt), info.uaf_infos);
    assert_eq!(check_df(&ctxt), info.df_infos);
}

#[test]
fn a_function_is_registered_when_a_call_to_it_is_reached() {
    let ctxt = process_calls(context(vec![caller(), callee()], vec![true, false]), entry());
    assert_eq!(ctxt.cfgs.registered, vec![true, true]);
    assert_eq!(ctxt.cs_reachable_calls.len(), 2);
    assert_eq!(ctxt.worklist.len(), 1);
    let mut library = callee();
    library.def_path = path(&["std", "mem", "callee"]);
    let ctxt = process_calls(context(vec![caller(), library], vec![true, false]), entry());
    assert_eq!(ctxt.cfgs.registered, vec![true, false]);
    assert_eq!(ctxt.cs_reachable_calls, vec![entry()]);
}

// `p = &x; r = other(move p)` in block 0, `drop x` in block 1, `y = *r` in block 2
fn caller_of(other: &[&str]) -> Vec<FunctionInfo> {
    vec![
        FunctionInfo {
            def_path: path(&["demo", "caller"]),
            cfg: Some(ControlFlowGraph {
                def_id: 0,
                local_infos: vec![
                    local(0, false, TyKind::Unit),
                    local(1, true, TyKind::Other),
                    local(2, false, TyKind::Ref),
                    local(3, false, TyKind::Other),
                    local(4, false, TyKind::Ref),
                ],
                basic_block_infos: vec![
                    block(
                        0,
                        vec![1],
                        vec![assign(whole(2, TyKind::Ref), whole(1, TyKind::Other), OpKind::Ref, 10)],
                        call_of(1, vec![Operand::Move(whole(2, TyKind::Ref))], whole(4, TyKind::Ref), 1),
                        11,
                    ),
                    block(1, vec![2], vec![], drop_of(1, 2), 20),
                    block(
                        2,
                        vec![],
                        vec![assign(whole(3, TyKind::Other), behind(4), OpKind::Copy, 30)],
                        TerminatorKind::Return,
                        31,
                    ),
                ],
                call_infos: vec![CallInfo::new(
                    1,
                    0,
                    Operand::Constant,
                    vec![Operand::Move(whole(2, TyKind::Ref))],
                    whole(4, TyKind::Ref),
                    11,
                )],
                has_ret: false,
            }),
        },
        FunctionInfo { def_path: path(other), cfg: None },
    ]
}

#[test]
fn a_function_without_a_graph_may_hand_its_argument_back() {
    let ctxt = alias_analysis(context(caller_of(&["lib", "make"]), vec![true, false]), entry());
    let info = check_memory_bug(&ctxt);
    assert_eq!(info.uaf_infos.len(), 1);
    assert_eq!(info.uaf_infos[0].drop_span.basic_block_id, 1);
    assert_eq!(info.uaf_infos[0].deref_span.basic_block_id, 2);
    assert_eq!(info.uaf_infos[0].deref_span.span, 30);
    assert_eq!(ctxt.pfg.deref_edges.len(), 2);
}

#[test]
fn a_copying_function_hands_nothing_on() {
    for name in [["lib", "Thing", "clone"], ["std", "ptr", "as_ref"], ["lib", "cell", "target"]] {
        let ctxt = alias_analysis(context(caller_of(&name), vec![true, false]), entry());
        let info = check_memory_bug(&ctxt);
        assert_eq!(info.uaf_infos.len(), 0);
        assert_eq!(ctxt.pfg.deref_edges.len(), 1);
    }
}

#[test]
fn names_are_sorted_into_their_kinds() {
    let chars = |s: &str| s.chars().collect::<Vec<char>>();
    assert!(is_ignored(&chars("alloc::vec::Vec::clone")));
    assert!(!is_ignored(&chars("alloc::vec::Vec::cloned")));
    for name in ["Box::from_raw", "x::as_mut_ptr", "get", "widget", "a::borrow_mut", "s::as_bytes_mut"] {
        assert!(is_pass_through(&chars(name)));
    }
    for name in ["a::make", "gets", "", "as_ref::x"] {
        assert!(!is_pass_through(&chars(name)));
    }
    assert!(is_library(&chars("std::mem::swap")));
    assert!(is_library(&chars("core::ptr::read")));
    assert!(is_library(&chars("alloc::alloc::dealloc")));
    assert!(!is_library(&chars("mystd::x")));
    assert!(!is_library(&chars("std")));
    for name in ["demo::make", "mystd::x", "a::gets"] {
        assert!(can_register_name(&chars(name)));
    }
    for name in ["std::mem::swap", "demo::Thing::clone", "demo::Thing::as_ref", "core::x", "alloc::y"] {
        assert!(!can_register_name(&chars(name)));
    }
}

#[test]
fn copies_flow_only_where_they_copy_a_pointer() {
    assert!(is_ptr_copy(&whole(1, TyKind::Ref)));
    assert!(is_ptr_copy(&whole(1, TyKind::RawPtr)));
    assert!(!is_ptr_copy(&whole(1, TyKind::Other)));
    assert!(!is_ptr_copy(&whole(1, TyKind::Unit)));
    assert!(is_ptr_copy(&behind(1)));
    assert!(!is_ptr_copy(&Place::new(1, vec![PlaceElem::Field(0)], TyKind::Other)));
    // a copy of a plain value makes no edge, a move of it does
    let function = |op: OpKind| FunctionInfo {
        def_path: path(&["demo", "f"]),
        cfg: Some(ControlFlowGraph {
            def_id: 0,
            local_infos: vec![
                local(0, false, TyKind::Unit),
                local(1, true, TyKind::Other),
                local(2, true, TyKind::Other),
            ],
            basic_block_infos: vec![block(
                0,
                vec![],
                vec![assign(whole(2, TyKind::Other), whole(1, TyKind::Other), op, 10)],
                TerminatorKind::Return,
                11,
            )],
            call_infos: vec![],
            has_ret: false,
        }),
    };
    let copied = process_calls(context(vec![function(OpKind::Copy)], vec![true]), entry());
    assert!(copied.pfg.nodes.is_empty());
    let moved = process_calls(context(vec![function(OpKind::Move)], vec![true]), entry());
    assert_eq!(moved.pfg.nodes.len(), 2);
    let from = GlobalProjectionId::new(GlobalLocalId::new(0, 1), 0);
    let to = GlobalProjectionId::new(GlobalLocalId::new(0, 2), 0);
    assert!(moved.pfg.has_edge(from, to));
    assert!(!moved.pfg.has_edge(to, from));
    assert_eq!(PointsToSet::new(from, vec![]).g_proj_id, from);
}
