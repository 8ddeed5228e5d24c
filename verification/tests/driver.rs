use rust_memory_check::cargo_mc::{
    count_own_args, current_crate, decode_args, encode_args, get_arg_flag_value, has_arg_flag,
    is_top_crate, split_at_dashes, target_kind, TargetKind,
};
use rust_memory_check::cfg::{CfgTable, ControlFlowGraph, FunctionInfo};
use rust_memory_check::ir::{
    AnalysisOptions, AssignmentInfo, BasicBlockInfo, CallInfo, LocalInfo, OpKind, Operand, Place,
    PlaceElem, RvalKind, Terminator, TerminatorKind, TyKind,
};
use rust_memory_check::merge::UafSpan;
use rust_memory_check::utils::select_entries;
use rust_memory_check::{after_analysis, analyse_entry, get_compile_time_sysroot, get_rustc_args};

fn strings(items: &[&str]) -> Vec<String> {
    items.iter().map(|s| s.to_string()).collect()
}

fn whole(local: usize, ty: TyKind) -> Place {
    Place::new(local, vec![], ty)
}

fn block(id: usize, successors: Vec<usize>, assignment_infos: Vec<AssignmentInfo>, kind: TerminatorKind, span: u64) -> BasicBlockInfo {
    BasicBlockInfo::new(id, false, successors, assignment_infos, Terminator { kind, span })
}

// `p = &x` in block 0, `drop x` in block 1, `y = *p` and a call of `callee` in block 2
fn faulty(def_id: usize, name: &str, callee: usize) -> FunctionInfo {
    let local = |id: usize, need_drop: bool, ty: TyKind, name: Option<&str>| {
        LocalInfo::new(id, need_drop, ty, name.map(|s| s.to_string()), 0)
    };
    FunctionInfo {
        def_path: strings(&["demo", name]),
        cfg: Some(ControlFlowGraph {
            def_id,
            local_infos: vec![
                local(0, false, TyKind::Unit, None),
                local(1, true, TyKind::Other, Some("x")),
                local(2, false, TyKind::Ref, Some("p")),
                local(3, false, TyKind::Other, None),
            ],
            basic_block_infos: vec![
                block(
                    0,
                    vec![1],
                    vec![AssignmentInfo::new(
                        whole(2, TyKind::Ref),
                        RvalKind::Addressed(whole(1, TyKind::Other)),
                        10,
                        OpKind::Ref,
                    )],
                    TerminatorKind::Goto { target: 1 },
                    11,
                ),
                block(
                    1,
                    vec![2],
                    vec![],
                    TerminatorKind::Drop { place: whole(1, TyKind::Other), target: 2, unwind: None },
                    20,
                ),
                block(
                    2,
                    vec![],
                    vec![AssignmentInfo::new(
                        whole(3, TyKind::Other),
                        RvalKind::Addressed(Place::new(2, vec![PlaceElem::Deref], TyKind::Other)),
                        30,
                        OpKind::Copy,
                    )],
                    TerminatorKind::Call {
                        func: Operand::Constant,
                        callee: Some(callee),
                        args: vec![],
                        destination: whole(0, TyKind::Unit),
                        target: None,
                        cleanup: None,
                    },
                    31,
                ),
            ],
            call_infos: vec![CallInfo::new(callee, 2, Operand::Constant, vec![], whole(0, TyKind::Unit), 31)],
            has_ret: false,
        }),
    }
}

fn quiet(def_id: usize, name: &str) -> FunctionInfo {
    FunctionInfo {
        def_path: strings(&["demo", name]),
        cfg: Some(ControlFlowGraph {
            def_id,
            local_infos: vec![LocalInfo::new(0, false, TyKind::Unit, None, 0)],
            basic_block_infos: vec![block(0, vec![], vec![], TerminatorKind::Return, 0)],
            call_infos: vec![],
            has_ret: false,
        }),
    }
}

fn program() -> CfgTable {
    CfgTable {
        functions: vec![faulty(0, "main", 1), quiet(1, "helper"), faulty(2, "other", 1)],
        registered: vec![true, true, true],
    }
}

fn options(entries: &[&str]) -> AnalysisOptions {
    AnalysisOptions { debug_opts: vec![], entries: strings(entries), open_dbg: false }
}

#[test]
fn entries_are_named_or_found() {
    let cfgs = program();
    assert_eq!(select_entries(&options(&[]), &cfgs), vec![0, 2]);
    assert_eq!(select_entries(&options(&["helper"]), &cfgs), vec![1]);
    assert_eq!(select_entries(&options(&["demo::other", "main"]), &cfgs), vec![0, 2]);
    assert_eq!(select_entries(&options(&["emo::other"]), &cfgs), Vec::<usize>::new());
    let mut partly = program();
    partly.registered[2] = false;
    assert_eq!(select_entries(&options(&["other", "main"]), &partly), vec![0]);
}

#[test]
fn every_entry_is_analysed_and_the_findings_are_merged() {
    let cfgs = program();
    let entries = select_entries(&options(&[]), &cfgs);
    let (cfgs, result) = after_analysis(&options(&[]), cfgs, &entries);
    assert_eq!(cfgs.registered, vec![true, true, true]);
    assert!(result.df_results.is_empty());
    assert_eq!(result.uaf_results.len(), 1);
    assert_eq!(result.uaf_results[0].0, UafSpan::new(30, 20));
    assert_eq!(result.uaf_results[0].1.len(), 1);
    let found = &result.uaf_results[0].1[0];
    assert_eq!(found.deref_var_name.as_deref(), Some("p"));
    assert_eq!(found.drop_var_name.as_deref(), Some("x"));
    let (_, nothing) = after_analysis(&options(&[]), program(), &vec![1]);
    assert!(nothing.uaf_results.is_empty() && nothing.df_results.is_empty());
    let (_, nothing) = after_analysis(&options(&[]), program(), &vec![]);
    assert!(nothing.uaf_results.is_empty() && nothing.df_results.is_empty());
}

#[test]
fn one_entry_is_analysed_on_a_graph_of_its_own() {
    let mut cfgs = program();
    cfgs.registered[1] = false;
    let (cfgs, info) = analyse_entry(&options(&[]), cfgs, 2);
    assert_eq!(cfgs.registered, vec![true, true, true]);
    assert_eq!(info.uaf_infos.len(), 1);
    assert_eq!(info.uaf_infos[0].deref_proj_id.g_local_id.def_id, 2);
    let (_, info) = analyse_entry(&options(&[]), cfgs, 1);
    assert!(info.uaf_infos.is_empty() && info.df_infos.is_empty());
}

#[test]
fn the_compiler_gets_its_flags() {
    assert_eq!(
        get_rustc_args(strings(&["mc", "src/lib.rs"]), false, Some("/root".to_string())),
        strings(&[
            "mc",
            "src/lib.rs",
            "-Zalways_encode_mir",
            "-Clink-arg=-nostartfiles",
            "-Cpanic=abort",
            "--sysroot",
            "/root"
        ])
    );
    assert_eq!(
        get_rustc_args(strings(&["mc", "--sysroot", "/x", "-Zalways_encode_mir"]), true, Some("/root".to_string())),
        strings(&["mc", "--sysroot", "/x", "-Zalways_encode_mir", "-Cpanic=abort"])
    );
    assert_eq!(get_rustc_args(vec![], true, None), strings(&["-Zalways_encode_mir", "-Cpanic=abort"]));
    assert_eq!(
        get_rustc_args(strings(&["--sysroot=/x"]), true, Some("/y".to_string())),
        strings(&["--sysroot=/x", "-Zalways_encode_mir", "-Cpanic=abort", "--sysroot", "/y"])
    );
}

#[test]
fn the_sysroot_is_made_of_the_build_settings() {
    assert_eq!(get_compile_time_sysroot(Some("1"), Some("/h"), Some("t"), Some("/s")), None);
    assert_eq!(
        get_compile_time_sysroot(None, Some("/home/u/.rustup"), Some("nightly-x86"), Some("/s")),
        Some("/home/u/.rustup/toolchains/nightly-x86".to_string())
    );
    assert_eq!(get_compile_time_sysroot(None, Some("/h"), None, Some("/s")), Some("/s".to_string()));
    assert_eq!(get_compile_time_sysroot(None, None, Some("t"), Some("/s")), Some("/s".to_string()));
    assert_eq!(get_compile_time_sysroot(None, Some(""), Some(""), None), Some("/toolchains/".to_string()));
}

#[test]
fn flags_are_looked_for_before_the_dashes() {
    let args = strings(&["cargo-mc", "mc", "-v", "--manifest-path", "a/Cargo.toml", "--x=1", "--", "-h", "--y=2"]);
    assert_eq!(count_own_args(&args), 6);
    assert_eq!(count_own_args(&strings(&["a", "b"])), 2);
    assert!(has_arg_flag(&args, "-v"));
    assert!(!has_arg_flag(&args, "-h"));
    assert!(!has_arg_flag(&args, "--x"));
    assert_eq!(get_arg_flag_value(&args, "--manifest-path"), Some("a/Cargo.toml".to_string()));
    assert_eq!(get_arg_flag_value(&args, "--x"), Some("1".to_string()));
    assert_eq!(get_arg_flag_value(&args, "--y"), None);
    assert_eq!(get_arg_flag_value(&args, "--manifest"), None);
    assert_eq!(get_arg_flag_value(&strings(&["--x", "--", "v"]), "--x"), None);
    assert_eq!(get_arg_flag_value(&strings(&["--xy=0", "--x=", "--x=2"]), "--x"), Some("".to_string()));
    assert_eq!(get_arg_flag_value(&strings(&["--x"]), "--x"), None);
    assert_eq!(get_arg_flag_value(&strings(&["--x", "--x=3"]), "--x"), Some("--x=3".to_string()));
    assert_eq!(
        split_at_dashes(&args, 2),
        (strings(&["-v", "--manifest-path", "a/Cargo.toml", "--x=1"]), strings(&["-h", "--y=2"]))
    );
    assert_eq!(split_at_dashes(&args, 6), (vec![], strings(&["-h", "--y=2"])));
    assert_eq!(split_at_dashes(&args, 7), (strings(&["-h", "--y=2"]), vec![]));
    assert_eq!(split_at_dashes(&args, 9), (vec![], vec![]));
    assert_eq!(split_at_dashes(&strings(&["a", "--", "--", "b"]), 0), (strings(&["a"]), strings(&["--", "b"])));
}

#[test]
fn the_package_and_its_targets_are_chosen() {
    assert_eq!(target_kind("bin"), TargetKind::Bin);
    assert_eq!(target_kind("lib"), TargetKind::Lib);
    assert_eq!(target_kind("test"), TargetKind::Other);
    assert_eq!(target_kind(""), TargetKind::Other);
    let paths = strings(&["/w/a/Cargo.toml", "/w/b/Cargo.toml", "/w/b/Cargo.toml"]);
    let dirs = strings(&["/w/a", "/w/b", "/w/b"]);
    assert_eq!(current_crate(&paths, &dirs, Some("/w/b/Cargo.toml"), "/w/a"), Some(1));
    assert_eq!(current_crate(&paths, &dirs, None, "/w/a"), Some(0));
    assert_eq!(current_crate(&paths, &dirs, None, "/w"), None);
    assert_eq!(current_crate(&paths, &dirs, Some("/w/c/Cargo.toml"), "/w/a"), None);
    assert_eq!(current_crate(&vec![], &vec![], None, "/w"), None);
    assert!(is_top_crate(&strings(&["rustc", "--crate-name", "my_crate", "src/lib.rs"]), "my-crate"));
    assert!(is_top_crate(&strings(&["rustc", "--crate-name=a_b_c"]), "a-b_c"));
    assert!(!is_top_crate(&strings(&["rustc", "--crate-name", "my-crate"]), "my-crate"));
    assert!(!is_top_crate(&strings(&["rustc", "--crate-name", "dep"]), "my-crate"));
    assert!(!is_top_crate(&strings(&["rustc", "--", "--crate-name", "my_crate"]), "my-crate"));
    assert!(!is_top_crate(&strings(&["rustc"]), ""));
}

#[test]
fn arguments_are_handed_on_as_one_text() {
    let args = strings(&["--DBG=cfg", "a \"b\"", "ä\n"]);
    assert_eq!(encode_args(&args), Some("[\"--DBG=cfg\",\"a \\\"b\\\"\",\"ä\\n\"]".to_string()));
    assert_eq!(encode_args(&vec![]), Some("[]".to_string()));
    assert_eq!(decode_args("[\"x\", \"y z\"]"), Some(strings(&["x", "y z"])));
    assert_eq!(decode_args(&encode_args(&args).unwrap()), Some(args));
    assert_eq!(decode_args("[1]"), None);
    assert_eq!(decode_args("not json"), None);
    assert_eq!(decode_args(""), None);
}
