use rust_memory_check::cfg::{get_assignment_infos, get_basic_block_successors, ControlFlowGraph};
use rust_memory_check::ir::{
    copy_operands, AssignmentInfo, BasicBlockData, Body, CallInfo, FieldInfo, LocalDecl, OpKind,
    Operand, Place, PlaceElem, RvalKind, Rvalue, Statement, StatementKind, Terminator,
    TerminatorKind, TyKind, VarDebugInfo,
};

fn whole(local: usize) -> Place {
    Place::new(local, vec![], TyKind::Other)
}

fn field(local: usize, field: usize) -> Place {
    Place::new(local, vec![PlaceElem::Field(field)], TyKind::Ref)
}

fn same_place(a: &Place, b: &Place) -> bool {
    a.local == b.local && a.projection == b.projection && a.ty == b.ty
}

fn shape(info: &AssignmentInfo) -> (usize, Option<usize>, u64, OpKind) {
    let from = match &info.rvalue {
        RvalKind::Addressed(place) => Some(place.local),
        RvalKind::Constant => None,
    };
    (info.lvalue.local, from, info.stat_span, info.op)
}

#[test]
fn successors_are_read_from_the_last_instruction() {
    let sorted = |kind: TerminatorKind| {
        let mut successors = get_basic_block_successors(&kind);
        successors.sort();
        successors
    };
    assert_eq!(sorted(TerminatorKind::Goto { target: 3 }), vec![3]);
    assert_eq!(
        sorted(TerminatorKind::SwitchInt { targets: vec![4, 2, 4], otherwise: 2 }),
        vec![2, 4]
    );
    assert_eq!(sorted(TerminatorKind::SwitchInt { targets: vec![], otherwise: 7 }), vec![7]);
    for kind in [
        TerminatorKind::Resume,
        TerminatorKind::Return,
        TerminatorKind::Abort,
        TerminatorKind::GeneratorDrop,
        TerminatorKind::Unreachable,
    ] {
        assert!(sorted(kind).is_empty());
    }
    assert_eq!(sorted(TerminatorKind::Drop { place: whole(1), target: 2, unwind: Some(5) }), vec![2, 5]);
    assert_eq!(sorted(TerminatorKind::Drop { place: whole(1), target: 2, unwind: Some(2) }), vec![2]);
    assert_eq!(
        sorted(TerminatorKind::DropAndReplace { place: whole(1), target: 6, unwind: None }),
        vec![6]
    );
    let call = |target: Option<usize>, cleanup: Option<usize>| TerminatorKind::Call {
        func: Operand::Constant,
        callee: None,
        args: vec![],
        destination: whole(0),
        target,
        cleanup,
    };
    assert_eq!(sorted(call(Some(1), Some(9))), vec![1, 9]);
    assert_eq!(sorted(call(None, Some(9))), vec![9]);
    assert!(sorted(call(None, None)).is_empty());
    assert_eq!(sorted(TerminatorKind::Assert { target: 1, cleanup: Some(3) }), vec![1, 3]);
    assert_eq!(sorted(TerminatorKind::Yield { resume: 4, drop: None }), vec![4]);
    assert_eq!(sorted(TerminatorKind::FalseEdge { real_target: 8 }), vec![8]);
    assert_eq!(sorted(TerminatorKind::FalseUnwind { real_target: 8 }), vec![8]);
    assert_eq!(sorted(TerminatorKind::InlineAsm { destination: Some(1), cleanup: Some(0) }), vec![0, 1]);
}

#[test]
fn assignments_are_sorted_by_their_right_hand_side() {
    let to = field(9, 1);
    let effects = |rvalue: Rvalue| {
        let infos = get_assignment_infos(&to, &rvalue, 77);
        assert!(infos.iter().all(|info| same_place(&info.lvalue, &to)));
        infos.iter().map(shape).collect::<Vec<_>>()
    };
    assert_eq!(effects(Rvalue::Use(Operand::Copy(whole(1)))), vec![(9, Some(1), 77, OpKind::Copy)]);
    assert_eq!(effects(Rvalue::Use(Operand::Move(whole(2)))), vec![(9, Some(2), 77, OpKind::Move)]);
    assert_eq!(effects(Rvalue::Use(Operand::Constant)), vec![(9, None, 77, OpKind::Copy)]);
    assert_eq!(effects(Rvalue::Repeat(Operand::Move(whole(3)))), vec![(9, Some(3), 77, OpKind::Move)]);
    assert_eq!(effects(Rvalue::Cast(Operand::Copy(whole(4)))), vec![(9, Some(4), 77, OpKind::Copy)]);
    assert_eq!(
        effects(Rvalue::ShallowInitBox(Operand::Move(whole(5)))),
        vec![(9, Some(5), 77, OpKind::Move)]
    );
    assert_eq!(effects(Rvalue::Ref(whole(6))), vec![(9, Some(6), 77, OpKind::Ref)]);
    assert_eq!(effects(Rvalue::AddressOf(whole(7))), vec![(9, Some(7), 77, OpKind::AddressOf)]);
    assert_eq!(effects(Rvalue::Discriminant(whole(8))), vec![(9, Some(8), 77, OpKind::Move)]);
    assert_eq!(
        effects(Rvalue::Aggregate(vec![
            Operand::Move(whole(1)),
            Operand::Constant,
            Operand::Copy(whole(2))
        ])),
        vec![
            (9, Some(1), 77, OpKind::Move),
            (9, None, 77, OpKind::Copy),
            (9, Some(2), 77, OpKind::Copy)
        ]
    );
    assert!(effects(Rvalue::Aggregate(vec![])).is_empty());
    for rvalue in [
        Rvalue::ThreadLocalRef,
        Rvalue::Len(whole(1)),
        Rvalue::BinaryOp,
        Rvalue::CheckedBinaryOp,
        Rvalue::NullaryOp,
        Rvalue::UnaryOp,
    ] {
        assert!(effects(rvalue).is_empty());
    }
    let infos = get_assignment_infos(&to, &Rvalue::Ref(field(6, 2)), 1);
    match &infos[0].rvalue {
        RvalKind::Addressed(place) => assert!(same_place(place, &field(6, 2))),
        RvalKind::Constant => panic!("a reference names a place"),
    }
}

fn body() -> Body {
    let decl = |ty: TyKind, needs_drop: bool, span: u64| LocalDecl { ty, needs_drop, span };
    let statement = |kind: StatementKind, span: u64| Statement { kind, span };
    Body {
        local_decls: vec![
            decl(TyKind::Other, false, 1),
            decl(TyKind::Other, true, 2),
            decl(TyKind::Ref, false, 3),
        ],
        var_debug_info: vec![
            VarDebugInfo { name: "first".to_string(), local: Some(1) },
            VarDebugInfo { name: "p".to_string(), local: Some(2) },
            VarDebugInfo { name: "gone".to_string(), local: None },
            VarDebugInfo { name: "x".to_string(), local: Some(1) },
            VarDebugInfo { name: "far".to_string(), local: Some(7) },
        ],
        basic_blocks: vec![
            BasicBlockData {
                statements: vec![
                    statement(StatementKind::Assign(whole(2), Rvalue::Ref(whole(1))), 10),
                    statement(StatementKind::Other, 11),
                    statement(
                        StatementKind::Assign(
                            whole(0),
                            Rvalue::Aggregate(vec![Operand::Copy(whole(2)), Operand::Constant]),
                        ),
                        12,
                    ),
                ],
                terminator: Terminator {
                    kind: TerminatorKind::Call {
                        func: Operand::Constant,
                        callee: Some(5),
                        args: vec![Operand::Move(field(2, 0)), Operand::Constant],
                        destination: whole(0),
                        target: Some(1),
                        cleanup: Some(2),
                    },
                    span: 13,
                },
                is_cleanup: false,
            },
            BasicBlockData {
                statements: vec![],
                terminator: Terminator {
                    kind: TerminatorKind::Call {
                        func: Operand::Copy(whole(2)),
                        callee: None,
                        args: vec![],
                        destination: whole(0),
                        target: Some(2),
                        cleanup: None,
                    },
                    span: 20,
                },
                is_cleanup: false,
            },
            BasicBlockData {
                statements: vec![],
                terminator: Terminator {
                    kind: TerminatorKind::Drop { place: whole(1), target: 2, unwind: None },
                    span: 30,
                },
                is_cleanup: true,
            },
        ],
    }
}

#[test]
fn a_graph_is_made_of_a_body() {
    let cfg = ControlFlowGraph::new(4, body());
    assert_eq!(cfg.def_id, 4);
    assert!(cfg.has_ret);
    assert!(cfg.check_wf());
    let slots: Vec<(usize, bool, TyKind, Option<&str>, u64)> = cfg
        .local_infos
        .iter()
        .map(|l| (l.id, l.need_drop, l.ty, l.var_name.as_deref(), l.decl_span))
        .collect();
    assert_eq!(
        slots,
        vec![
            (0, false, TyKind::Other, None, 1),
            (1, true, TyKind::Other, Some("x"), 2),
            (2, false, TyKind::Ref, Some("p"), 3)
        ]
    );
    assert_eq!(cfg.basic_block_infos.len(), 3);
    let first = &cfg.basic_block_infos[0];
    assert_eq!((first.id, first.is_cleanup, first.terminator.span), (0, false, 13));
    let mut successors = first.successors.clone();
    successors.sort();
    assert_eq!(successors, vec![1, 2]);
    assert_eq!(
        first.assignment_infos.iter().map(shape).collect::<Vec<_>>(),
        vec![
            (2, Some(1), 10, OpKind::Ref),
            (0, Some(2), 12, OpKind::Copy),
            (0, None, 12, OpKind::Copy)
        ]
    );
    assert!(matches!(first.terminator.kind, TerminatorKind::Call { callee: Some(5), .. }));
    let last = &cfg.basic_block_infos[2];
    assert_eq!((last.id, last.is_cleanup), (2, true));
    assert_eq!(last.successors, vec![2]);
    assert!(matches!(last.terminator.kind, TerminatorKind::Drop { .. }));
    assert_eq!(cfg.call_infos.len(), 1);
    let call: &CallInfo = &cfg.call_infos[0];
    assert_eq!((call.callee_def_id, call.caller_bb_id, call.span), (5, 0, 13));
    assert_eq!(call.args.len(), 2);
    match &call.args[0] {
        Operand::Move(place) => assert!(same_place(place, &field(2, 0))),
        _ => panic!("the first argument is moved"),
    }
    assert!(matches!(call.args[1], Operand::Constant));
    assert!(same_place(&call.destination, &whole(0)));
    assert!(matches!(call.func, Operand::Constant));
}

#[test]
fn a_function_without_a_result_has_none() {
    let mut unit = body();
    unit.local_decls[0].ty = TyKind::Unit;
    unit.var_debug_info.clear();
    let cfg = ControlFlowGraph::new(0, unit);
    assert!(!cfg.has_ret);
    assert!(cfg.local_infos.iter().all(|l| l.var_name.is_none()));
    assert!(TyKind::Unit.is_unit() && !TyKind::Ref.is_unit());
    assert!(TyKind::Ref.is_ref() && !TyKind::RawPtr.is_ref());
    assert!(TyKind::RawPtr.is_unsafe_ptr() && !TyKind::Other.is_unsafe_ptr());
    let copies = copy_operands(&vec![Operand::Copy(field(1, 2)), Operand::Constant]);
    assert!(matches!(&copies[0], Operand::Copy(place) if same_place(place, &field(1, 2))));
    assert!(matches!(copies[1].duplicate(), Operand::Constant));
    let _ = FieldInfo {};
}
