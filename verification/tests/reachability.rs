use std::collections::HashSet;

use rust_memory_check::cfg::{CfgTable, ControlFlowGraph, FunctionInfo};
use rust_memory_check::ids::GlobalBasicBlockId;
use rust_memory_check::ir::{
    BasicBlockInfo, CallInfo, LocalInfo, Operand, Place, Terminator, TerminatorKind, TyKind,
};
use rust_memory_check::reach::{
    can_basic_block_arrive, can_call_arrive, can_inner_basic_block_arrive,
};
use rust_memory_check::utils::get_top_def_ids;

fn block(id: usize, successors: Vec<usize>) -> BasicBlockInfo {
    BasicBlockInfo::new(
        id,
        false,
        successors,
        vec![],
        Terminator { kind: TerminatorKind::Return, span: 0 },
    )
}

fn call(callee: usize, bb: usize) -> CallInfo {
    CallInfo::new(callee, bb, Operand::Constant, vec![], Place::new(0, vec![], TyKind::Unit), 0)
}

fn function(def_id: usize, blocks: Vec<Vec<usize>>, calls: Vec<(usize, usize)>) -> FunctionInfo {
    FunctionInfo {
        def_path: vec!["demo".to_string(), format!("f{}", def_id)],
        cfg: Some(ControlFlowGraph {
            def_id,
            local_infos: vec![LocalInfo::new(0, false, TyKind::Unit, None, 0)],
            basic_block_infos: blocks
                .into_iter()
                .enumerate()
                .map(|(id, successors)| block(id, successors))
                .collect(),
            call_infos: calls.into_iter().map(|(callee, bb)| call(callee, bb)).collect(),
            has_ret: false,
        }),
    }
}

fn table(functions: Vec<FunctionInfo>, registered: Vec<bool>) -> CfgTable {
    CfgTable { functions, registered }
}

// 0 -> 1 -> 2 -> 1 and 0 -> 3; block 4 stands alone
fn diamond() -> ControlFlowGraph {
    function(0, vec![vec![1, 3], vec![2], vec![1], vec![], vec![0]], vec![]).cfg.unwrap()
}

#[test]
fn blocks_reach_what_lies_behind_them() {
    let cfg = diamond();
    assert!(cfg.check_wf());
    for (from, to, expected) in [
        (0, 0, true),
        (0, 2, true),
        (0, 3, true),
        (1, 1, true),
        (2, 1, true),
        (1, 0, false),
        (3, 0, false),
        (1, 3, false),
        (0, 4, false),
        (4, 2, true),
    ] {
        let mut visited = HashSet::new();
        assert_eq!(can_inner_basic_block_arrive(&cfg, &mut visited, from, to), expected);
    }
}

#[test]
fn visited_blocks_are_not_passed_again() {
    let cfg = diamond();
    let mut visited: HashSet<usize> = HashSet::new();
    visited.insert(1);
    assert!(!can_inner_basic_block_arrive(&cfg, &mut visited, 0, 2));
    assert!(visited.contains(&0) && visited.contains(&3));
    let mut visited: HashSet<usize> = HashSet::new();
    visited.insert(2);
    assert!(can_inner_basic_block_arrive(&cfg, &mut visited, 1, 2));
    let mut visited: HashSet<usize> = HashSet::new();
    visited.insert(0);
    assert!(can_inner_basic_block_arrive(&cfg, &mut visited, 0, 0));
    assert!(!can_inner_basic_block_arrive(&cfg, &mut visited, 0, 1));
}

// f0 calls f1 in its block 1 and f3 in its block 2; f1 calls f2 and itself;
// f2 calls f0. f3 has a graph that takes no part. f4 calls nothing.
fn program() -> CfgTable {
    table(
        vec![
            function(0, vec![vec![1], vec![], vec![]], vec![(1, 1), (3, 2)]),
            function(1, vec![vec![1], vec![]], vec![(2, 0), (1, 1)]),
            function(2, vec![vec![]], vec![(0, 0)]),
            function(3, vec![vec![]], vec![(4, 0)]),
            function(4, vec![vec![1], vec![]], vec![]),
        ],
        vec![true, true, true, false, true],
    )
}

#[test]
fn functions_reach_what_they_call() {
    let cfgs = program();
    assert!(cfgs.check_wf());
    for (from, to, expected) in [
        (0, 0, true),
        (0, 2, true),
        (2, 1, true),
        (1, 0, true),
        (0, 3, false),
        (0, 4, false),
        (4, 0, false),
        (4, 4, true),
    ] {
        let mut visited = HashSet::new();
        assert_eq!(can_call_arrive(&cfgs, &mut visited, from, to), expected);
    }
    let mut visited: HashSet<usize> = HashSet::new();
    visited.insert(1);
    assert!(!can_call_arrive(&cfgs, &mut visited, 0, 2));
}

#[test]
fn blocks_reach_blocks_of_called_functions() {
    let cfgs = program();
    let at = |def_id: usize, bb_id: usize| GlobalBasicBlockId::new(def_id, bb_id);
    for (from, to, expected) in [
        (at(0, 0), at(0, 1), true),
        (at(0, 1), at(0, 0), false),
        (at(0, 0), at(1, 1), true),
        (at(0, 0), at(2, 0), true),
        (at(0, 2), at(1, 0), false),
        (at(0, 0), at(3, 0), false),
        (at(0, 0), at(4, 0), false),
        (at(1, 1), at(2, 0), true),
        (at(1, 0), at(0, 2), false),
        (at(1, 0), at(0, 1), true),
        (at(2, 0), at(1, 1), true),
        (at(4, 0), at(4, 1), true),
        (at(4, 1), at(4, 0), false),
        (at(1, 1), at(1, 1), true),
    ] {
        let mut visited = Vec::new();
        assert_eq!(can_basic_block_arrive(&cfgs, &mut visited, from, to), expected);
    }
    let mut visited = vec![at(1, 0)];
    assert!(!can_basic_block_arrive(&cfgs, &mut visited, at(0, 0), at(2, 0)));
    assert_eq!(visited, vec![at(1, 0), at(0, 0)]);
}

#[test]
fn functions_that_nobody_calls_are_on_top() {
    assert_eq!(get_top_def_ids(&program()), vec![4]);
    let chain = table(
        vec![
            function(0, vec![vec![]], vec![(0, 0), (2, 0)]),
            function(1, vec![vec![]], vec![(2, 0)]),
            function(2, vec![vec![]], vec![]),
            function(3, vec![vec![]], vec![(1, 0)]),
        ],
        vec![true, true, true, false],
    );
    assert_eq!(get_top_def_ids(&chain), vec![0, 1]);
    assert_eq!(get_top_def_ids(&table(vec![], vec![])), Vec::<usize>::new());
}

#[test]
fn unsound_tables_are_told() {
    let mut cfgs = program();
    cfgs.registered.pop();
    assert!(!cfgs.check_wf());
    let mut cfgs = program();
    cfgs.functions[2].cfg.as_mut().unwrap().call_infos[0].callee_def_id = 9;
    assert!(!cfgs.check_wf());
    let mut cfgs = program();
    cfgs.functions[1].cfg.as_mut().unwrap().def_id = 2;
    assert!(!cfgs.check_wf());
    let mut cfgs = program();
    cfgs.functions[0].cfg.as_mut().unwrap().basic_block_infos[0].successors.push(3);
    assert!(!cfgs.check_wf());
    let mut cfgs = program();
    cfgs.functions[0].cfg.as_mut().unwrap().call_infos[0].args.push(Operand::Constant);
    assert!(!cfgs.check_wf());
    let mut cfgs = program();
    cfgs.functions[0].cfg.as_mut().unwrap().call_infos[0].destination.local = 1;
    assert!(!cfgs.check_wf());
    let mut cfgs = program();
    cfgs.functions[4].cfg.as_mut().unwrap().basic_block_infos.clear();
    assert!(!cfgs.check_wf());
    let mut cfgs = program();
    cfgs.functions[3].cfg = None;
    assert!(cfgs.check_wf());
    assert!(cfgs.contains_key(0) && !cfgs.contains_key(3) && !cfgs.contains_key(5));
    assert_eq!(cfgs.get(1).def_id, 1);
}

#[test]
fn a_block_reaches_itself_whatever_the_table_holds() {
    let nowhere = GlobalBasicBlockId::new(99, 7);
    let table = CfgTable { functions: vec![], registered: vec![] };
    assert!(can_basic_block_arrive(&table, &mut vec![], nowhere, nowhere));
    let elsewhere = GlobalBasicBlockId::new(98, 0);
    let mut visited = vec![nowhere];
    assert!(!can_basic_block_arrive(&table, &mut visited, nowhere, elsewhere));
    assert_eq!(visited, vec![nowhere]);
    assert!(can_call_arrive(&table, &mut HashSet::new(), 5, 5));
    assert!(!can_call_arrive(&table, &mut HashSet::from([5]), 5, 6));
    let cfg = diamond();
    let far = cfg.basic_block_infos.len() + 3;
    assert!(can_inner_basic_block_arrive(&cfg, &mut HashSet::new(), far, far));
    assert!(!can_inner_basic_block_arrive(&cfg, &mut HashSet::from([far]), far, 0));
}
