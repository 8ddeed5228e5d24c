use rust_memory_check::cfg::{CfgTable, ControlFlowGraph, FunctionInfo};
use rust_memory_check::check::{contains_same_span, CheckInfo, DfInfo, SameSpan, UafInfo};
use rust_memory_check::ids::{
    CallerContext, CtxtSenSpanInfo, DropObjectId, GlobalLocalId, GlobalProjectionId,
};
use rust_memory_check::ir::{BasicBlockInfo, LocalInfo, Terminator, TerminatorKind, TyKind};
use rust_memory_check::merge::{
    merge_check_info, merge_findings, CheckResult, DfResult, DfSpan, Finding, UafResult, UafSpan,
};

fn finding(first_span: u64, first_name: Option<&str>, second_span: u64, second_name: Option<&str>) -> Finding {
    Finding {
        first_span,
        first_name: first_name.map(|s| s.to_string()),
        second_span,
        second_name: second_name.map(|s| s.to_string()),
    }
}

fn names(bucket: &Vec<Finding>) -> Vec<(Option<String>, Option<String>)> {
    bucket.iter().map(|f| (f.first_name.clone(), f.second_name.clone())).collect()
}

#[test]
fn a_named_finding_takes_the_place_of_a_nameless_one() {
    let merged = merge_findings(&vec![
        finding(1, None, 2, None),
        finding(1, Some("buf"), 2, None),
    ]);
    assert_eq!(merged.len(), 1);
    assert_eq!(merged[0].key, (1, 2));
    assert_eq!(names(&merged[0].items), vec![(Some("buf".to_string()), None)]);
    let merged = merge_findings(&vec![
        finding(1, Some("buf"), 2, None),
        finding(1, None, 2, None),
    ]);
    assert_eq!(merged.len(), 1);
    assert_eq!(names(&merged[0].items), vec![(Some("buf".to_string()), None)]);
}

#[test]
fn findings_are_grouped_by_their_locations() {
    let merged = merge_findings(&vec![
        finding(1, None, 2, None),
        finding(2, None, 1, None),
        finding(1, None, 2, None),
        finding(1, Some("a"), 2, Some("b")),
        finding(3, None, 3, Some("c")),
        finding(1, Some("a"), 2, None),
        finding(1, Some("a"), 2, Some("b")),
        finding(2, None, 1, None),
    ]);
    assert_eq!(merged.len(), 3);
    assert_eq!(merged[0].key, (1, 2));
    assert_eq!(
        names(&merged[0].items),
        vec![
            (Some("a".to_string()), Some("b".to_string())),
            (Some("a".to_string()), None)
        ]
    );
    assert_eq!(merged[1].key, (2, 1));
    assert_eq!(names(&merged[1].items), vec![(None, None)]);
    assert_eq!(merged[2].key, (3, 3));
    assert_eq!(names(&merged[2].items), vec![(None, Some("c".to_string()))]);
    assert!(merge_findings(&vec![]).is_empty());
    assert!(finding(1, None, 2, Some("x")).has_var_name());
    assert!(!finding(1, None, 2, None).has_var_name());
}

fn table() -> CfgTable {
    let local = |id: usize, name: Option<&str>| {
        LocalInfo::new(id, false, TyKind::Other, name.map(|s| s.to_string()), 0)
    };
    CfgTable {
        functions: vec![FunctionInfo {
            def_path: vec!["demo".to_string()],
            cfg: Some(ControlFlowGraph {
                def_id: 0,
                local_infos: vec![local(0, None), local(1, Some("x")), local(2, None), local(3, Some("p"))],
                basic_block_infos: vec![BasicBlockInfo::new(
                    0,
                    false,
                    vec![],
                    vec![],
                    Terminator { kind: TerminatorKind::Return, span: 0 },
                )],
                call_infos: vec![],
                has_ret: false,
            }),
        }],
        registered: vec![true],
    }
}

fn cell(local: usize, path: usize) -> GlobalProjectionId {
    GlobalProjectionId::new(GlobalLocalId::new(0, local), path)
}

fn at(bb: usize, span: u64) -> CtxtSenSpanInfo {
    CtxtSenSpanInfo::new(0, bb, span, CallerContext::new(None))
}

#[test]
fn merged_results_carry_the_names_of_the_variables() {
    let uaf = |deref: GlobalProjectionId, object: GlobalProjectionId| {
        UafInfo::new(deref, at(2, 30), DropObjectId::from(object), at(1, 20))
    };
    let first = CheckInfo {
        uaf_infos: vec![uaf(cell(2, 0), cell(2, 1)), uaf(cell(3, 1), cell(1, 0))],
        df_infos: vec![DfInfo::new(
            DropObjectId::from(cell(1, 0)),
            at(1, 20),
            DropObjectId::from(cell(2, 0)),
            at(3, 40),
        )],
    };
    let second = CheckInfo {
        uaf_infos: vec![uaf(cell(3, 0), cell(1, 0)), uaf(cell(2, 0), cell(1, 0))],
        df_infos: vec![],
    };
    let result: CheckResult = merge_check_info(&table(), &vec![(0, first), (0, second)]);
    assert_eq!(result.uaf_results.len(), 1);
    assert_eq!(result.uaf_results[0].0, UafSpan::new(30, 20));
    let found: Vec<(Option<String>, Option<String>)> = result.uaf_results[0]
        .1
        .iter()
        .map(|r| (r.deref_var_name.clone(), r.drop_var_name.clone()))
        .collect();
    assert_eq!(
        found,
        vec![
            (Some("p".to_string()), Some("x".to_string())),
            (None, Some("x".to_string()))
        ]
    );
    assert!(result.uaf_results[0].1.iter().all(|r| r.deref_span == 30 && r.drop_span == 20));
    assert!(result.uaf_results[0].1[0].has_var_name());
    assert_eq!(result.df_results.len(), 1);
    assert_eq!(result.df_results[0].0, DfSpan::new(20, 40));
    assert_eq!(result.df_results[0].1.len(), 1);
    assert_eq!(result.df_results[0].1[0].first_drop_var_name, Some("x".to_string()));
    assert_eq!(result.df_results[0].1[0].then_drop_var_name, None);
    assert!(result.df_results[0].1[0].has_var_name());
    let empty = merge_check_info(&table(), &vec![(0, CheckInfo::new())]);
    assert!(empty.uaf_results.is_empty() && empty.df_results.is_empty());
    assert!(CheckResult::new().uaf_results.is_empty());
    assert!(!UafResult::new(1, None, 2, None).has_var_name());
    assert!(DfResult::new(1, None, 2, Some("z".to_string())).has_var_name());
}

#[test]
fn findings_with_the_same_locations_are_told() {
    let a = UafInfo::new(cell(1, 0), at(2, 30), DropObjectId::from(cell(2, 0)), at(1, 20));
    let b = UafInfo::new(cell(3, 0), at(5, 30), DropObjectId::from(cell(1, 0)), at(4, 20));
    let c = UafInfo::new(cell(1, 0), at(2, 31), DropObjectId::from(cell(2, 0)), at(1, 20));
    assert!(a.is_same_span(&b));
    assert!(!a.is_same_span(&c));
    assert!(contains_same_span(&vec![c, b], &a));
    assert!(!contains_same_span(&vec![c], &a));
    assert!(!contains_same_span(&vec![], &a));
    let d = DfInfo::new(DropObjectId::from(cell(1, 0)), at(1, 20), DropObjectId::from(cell(2, 0)), at(3, 40));
    let e = DfInfo::new(DropObjectId::from(cell(2, 0)), at(3, 40), DropObjectId::from(cell(1, 0)), at(1, 20));
    assert!(d.is_same_span(&d));
    assert!(!d.is_same_span(&e));
    assert!(contains_same_span(&vec![e, d], &d));
}
