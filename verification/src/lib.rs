//! A whole-program detector of uses after free and of double frees, on the
//! control-flow graphs that a compiler front end hands over.

use vstd::prelude::*;
use vstd::string::*;

pub mod ids;
pub mod ir;
pub mod text;
pub mod utils;
pub mod cfg;
pub mod pfg;
pub mod analysis;
pub mod propagate;
pub mod fixpoint;
pub mod reach;
pub mod check;
pub mod findings;
pub mod confluence;
pub mod merge;
pub mod cargo_mc;
pub mod report;

use std::collections::VecDeque;
use crate::analysis::{alias_analysis, AnalysisContext, ExpandState, FlowState};
use crate::cfg::CfgTable;
use crate::check::{
    check_info_known, check_memory_bug, df_of_all, known_slot, uaf_at_edges, CheckInfo,
};
use crate::ids::{CallerContext, CtxtSenCallId, DefId};
use crate::ir::AnalysisOptions;
use crate::merge::{df_buckets, merge_check_info, merged, raw_df, raw_uaf, uaf_buckets, CheckResult};
use crate::pfg::{PfgView, PointerFlowGraph};

verus! {

/// A function as an entry: without a caller.
pub open spec fn entry_call(entry: DefId) -> CtxtSenCallId {
    CtxtSenCallId { def_id: entry, caller_context: CallerContext { g_bb_id: None } }
}

/// The state from which the analysis of `entry` starts: an empty graph,
/// nothing waiting, and `entry` the only call to read.
pub open spec fn fresh_state(registered: Seq<bool>, entry: DefId) -> ExpandState {
    ExpandState {
        flow: FlowState { pfg: PfgView::empty(), worklist: Seq::empty() },
        reachable: Seq::empty(),
        registered,
        queue: seq![entry_call(entry)],
    }
}

/// Whether the analysis from `entry` on the table `before` comes to rest
/// after `n` steps of expansion and `m` steps of propagation, leaves the
/// table `after`, and finds `info`.
pub open spec fn run_gives(
    before: &CfgTable,
    entry: DefId,
    n: nat,
    m: nat,
    after: &CfgTable,
    info: &CheckInfo,
) -> bool {
    let expanded = fresh_state(before.registered@, entry).run(before.functions@, n);
    let rest = expanded.flow.run(m);
    &&& expanded.queue.len() == 0
    &&& rest.worklist.len() == 0
    &&& after.functions == before.functions
    &&& after.registered@ == expanded.registered
    &&& info.uaf_infos@ == uaf_at_edges(
        after,
        rest.pfg,
        rest.pfg.deref_edges,
        rest.pfg.deref_edges.len() as int,
    )
    &&& info.df_infos@ == df_of_all(
        after,
        rest.pfg,
        rest.pfg.multi_drop_objects,
        rest.pfg.multi_drop_objects.len() as int,
    )
}

/// Whether the analysis from `entry` on the table `before` leaves the table
/// `after` and finds `info`.
pub open spec fn one_run(before: &CfgTable, entry: DefId, after: &CfgTable, info: &CheckInfo) -> bool {
    exists|n: nat, m: nat| #[trigger] run_gives(before, entry, n, m, after, info)
}

/// Whether `tables` and `infos` are the tables and the findings of the runs
/// from `entries`, one after the other, each on the table that the one
/// before it left.
pub open spec fn runs_give(
    cfgs: &CfgTable,
    entries: Seq<DefId>,
    tables: Seq<CfgTable>,
    infos: Seq<(DefId, CheckInfo)>,
) -> bool {
    &&& tables.len() == entries.len() + 1
    &&& infos.len() == entries.len()
    &&& tables[0] == *cfgs
    &&& forall|i: int|
        0 <= i < entries.len() ==> (#[trigger] infos[i]).0 == entries[i] && one_run(
            &tables[i],
            entries[i],
            &tables[i + 1],
            &infos[i].1,
        )
}

/// Runs the analysis from `entry` on a graph of its own and the detectors on
/// what it finds. Returns the table, in which the functions that the run has
/// reached are registered, and the findings. Where no function invokes a
/// destructor, and so where no storage slot is flagged as in need of one,
/// nothing is found.
pub fn analyse_entry(options: &AnalysisOptions, cfgs: CfgTable, entry: DefId) -> (found: (
    CfgTable,
    CheckInfo,
))
    requires
        cfgs.wf(),
        cfgs.has(entry),
    ensures
        one_run(&cfgs, entry, &found.0, &found.1),
        found.0.wf(),
        check_info_known(&found.0, &found.1),
        forall|d: DefId| cfgs.has(d) ==> #[trigger] found.0.has(d),
        crate::analysis::no_destructors(cfgs.functions@) ==> found.1.uaf_infos@.len() == 0
            && found.1.df_infos@.len() == 0,
        crate::analysis::no_destructor_flags(cfgs.functions@)
            && crate::analysis::destructors_are_flagged(cfgs.functions@)
            ==> found.1.uaf_infos@.len() == 0 && found.1.df_infos@.len() == 0,
{
    let ghost before = cfgs;
    proof {
        if crate::analysis::no_destructor_flags(cfgs.functions@)
            && crate::analysis::destructors_are_flagged(cfgs.functions@) {
            crate::analysis::lemma_no_flags_no_destructors(cfgs.functions@);
        }
    }
    let ctxt = AnalysisContext {
        options: options.duplicate(),
        cfgs,
        pfg: PointerFlowGraph::new(),
        cs_reachable_calls: Vec::new(),
        worklist: VecDeque::new(),
    };
    proof {
        assert(crate::analysis::worklist_view(ctxt.worklist@) =~= Seq::empty());
        assert(ctxt.expand_state(seq![entry_call(entry)]) == fresh_state(
            before.registered@,
            entry,
        ));
        assert(ctxt.pfg@.no_facts());
    }
    let ghost start = ctxt;
    let ctxt = alias_analysis(ctxt, CtxtSenCallId::new(entry, CallerContext::new(None)));
    let info = check_memory_bug(&ctxt);
    proof {
        let (n, m) = choose|n: nat, m: nat| #[trigger]
            crate::analysis::analysed(&start, entry_call(entry), n, m) == ctxt.expand_state(
                Seq::empty(),
            );
        assert(run_gives(&before, entry, n, m, &ctxt.cfgs, &info));
    }
    (ctxt.cfgs, info)
}

/// What was known of a storage slot stays known when more functions are registered.
proof fn lemma_known_stays(before: &CfgTable, after: &CfgTable, info: &CheckInfo)
    requires
        before.functions == after.functions,
        forall|d: DefId| before.has(d) ==> #[trigger] after.has(d),
        check_info_known(before, info),
    ensures
        check_info_known(after, info),
{
    assert forall|k: int| 0 <= k < info.uaf_infos@.len() implies known_slot(
        after,
        (#[trigger] info.uaf_infos@[k]).deref_proj_id.g_local_id,
    ) && known_slot(after, info.uaf_infos@[k].drop_obj_id.id.g_local_id) by {
        assert(known_slot(before, info.uaf_infos@[k].deref_proj_id.g_local_id));
        assert(after.has(info.uaf_infos@[k].deref_proj_id.g_local_id.def_id));
        assert(after.has(info.uaf_infos@[k].drop_obj_id.id.g_local_id.def_id));
    }
    assert forall|k: int| 0 <= k < info.df_infos@.len() implies known_slot(
        after,
        (#[trigger] info.df_infos@[k]).first_drop_obj_id.id.g_local_id,
    ) && known_slot(after, info.df_infos@[k].then_drop_obj_id.id.g_local_id) by {
        assert(known_slot(before, info.df_infos@[k].first_drop_obj_id.id.g_local_id));
        assert(after.has(info.df_infos@[k].first_drop_obj_id.id.g_local_id.def_id));
        assert(after.has(info.df_infos@[k].then_drop_obj_id.id.g_local_id.def_id));
    }
}

/// Runs the analysis and the detectors from every entry, each run on the
/// table that the one before it left, and merges the findings. Returns the
/// last table and the merged findings.
pub fn after_analysis(options: &AnalysisOptions, cfgs: CfgTable, entries: &Vec<DefId>) -> (done: (
    CfgTable,
    CheckResult,
))
    requires
        cfgs.wf(),
        forall|k: int| 0 <= k < entries@.len() ==> cfgs.has(#[trigger] entries@[k]),
    ensures
        done.0.wf(),
        exists|tables: Seq<CfgTable>, infos: Seq<(DefId, CheckInfo)>|
            {
                &&& #[trigger] runs_give(&cfgs, entries@, tables, infos)
                &&& tables.last() == done.0
                &&& merged(
                    raw_uaf(&done.0, infos, infos.len() as int),
                    uaf_buckets(done.1.uaf_results@),
                )
                &&& merged(
                    raw_df(&done.0, infos, infos.len() as int),
                    df_buckets(done.1.df_results@),
                )
            },
{
    let ghost first = cfgs;
    let ghost mut tables: Seq<CfgTable> = seq![cfgs];
    let mut cfgs = cfgs;
    let mut check_infos: Vec<(DefId, CheckInfo)> = Vec::new();
    let mut i: usize = 0;
    while i < entries.len()
        invariant
            i <= entries.len(),
            cfgs.wf(),
            cfgs.functions == first.functions,
            forall|d: DefId| first.has(d) ==> #[trigger] cfgs.has(d),
            forall|k: int| 0 <= k < entries@.len() ==> first.has(#[trigger] entries@[k]),
            runs_give(&first, entries@.take(i as int), tables, check_infos@),
            tables.last() == cfgs,
            forall|k: int|
                0 <= k < check_infos@.len() ==> check_info_known(&cfgs, &(#[trigger] check_infos@[k]).1),
        decreases entries.len() - i,
    {
        let entry = entries[i];
        let ghost before = cfgs;
        let ghost old_tables = tables;
        let ghost old_infos = check_infos@;
        let (table, info) = analyse_entry(options, cfgs, entry);
        cfgs = table;
        proof {
            assert forall|k: int| 0 <= k < check_infos@.len() implies check_info_known(
                &cfgs,
                &(#[trigger] check_infos@[k]).1,
            ) by {
                lemma_known_stays(&before, &cfgs, &check_infos@[k].1);
            }
        }
        check_infos.push((entry, info));
        proof {
            tables = tables.push(cfgs);
            let taken = entries@.take(i + 1);
            assert forall|k: int| 0 <= k < taken.len() implies (#[trigger] check_infos@[k]).0
                == taken[k] && one_run(&tables[k], taken[k], &tables[k + 1], &check_infos@[k].1) by {
                if k < i {
                    assert(old_infos[k].0 == entries@.take(i as int)[k]);
                    assert(tables[k] == old_tables[k]);
                    assert(tables[k + 1] == old_tables[k + 1]);
                    assert(check_infos@[k] == old_infos[k]);
                } else {
                    assert(tables[k] == before);
                }
            }
        }
        i = i + 1;
    }
    assert(entries@.take(entries@.len() as int) =~= entries@);
    let check_result = merge_check_info(&cfgs, &check_infos);
    (cfgs, check_result)
}


/// The directory of the compiler's libraries, from the settings that the
/// build was made with: none if a bootstrap stage is set; the toolchain below
/// the home of the toolchains if both are set; else the directory that is set.
pub open spec fn sysroot_of(
    stage: Option<Seq<char>>,
    home: Option<Seq<char>>,
    toolchain: Option<Seq<char>>,
    sysroot: Option<Seq<char>>,
) -> Option<Seq<char>> {
    if stage is Some {
        None
    } else if home is Some && toolchain is Some {
        Some(home->0 + "/toolchains/"@ + toolchain->0)
    } else {
        sysroot
    }
}

/// The characters of a text that may be missing.
pub open spec fn text_view(text: Option<&str>) -> Option<Seq<char>> {
    match text {
        Some(text) => Some(text@),
        None => None,
    }
}

/// The directory of the compiler's libraries. The arguments are the values
/// that `RUST_STAGE`, the home of the toolchains, the toolchain and
/// `RUST_SYSROOT` had when the program was built. Without a bootstrap stage
/// and without home and toolchain, the directory has to be set.
pub fn get_compile_time_sysroot(
    stage: Option<&str>,
    home: Option<&str>,
    toolchain: Option<&str>,
    sysroot: Option<&str>,
) -> (found: Option<String>)
    requires
        stage is Some || (home is Some && toolchain is Some) || sysroot is Some,
    ensures
        match found {
            Some(found) => sysroot_of(
                text_view(stage),
                text_view(home),
                text_view(toolchain),
                text_view(sysroot),
            ) == Some(found@),
            None => sysroot_of(
                text_view(stage),
                text_view(home),
                text_view(toolchain),
                text_view(sysroot),
            ) is None,
        },
{
    if stage.is_some() {
        return None;
    }
    match (home, toolchain) {
        (Some(home), Some(toolchain)) => {
            let mut path = String::new();
            path.append(home);
            path.append("/toolchains/");
            path.append(toolchain);
            assert(path@ =~= home@ + "/toolchains/"@ + toolchain@);
            Some(path)
        },
        _ => Some(sysroot.unwrap().to_owned()),
    }
}

/// Whether one of the arguments is `flag`.
pub open spec fn has_flag(args: Seq<Seq<char>>, flag: Seq<char>) -> bool {
    args.contains(flag)
}

/// The arguments for the compiler: those given; then the flag that keeps the
/// intermediate code of every function, unless it is among them; then,
/// unless the program stands in for the compiler itself, the flag that links
/// without start files; then the flag that makes a panic abort; and then,
/// where the directory of the compiler's libraries is known and the arguments
/// given do not set it, the flag that sets it and the directory.
pub open spec fn rustc_args_of(args: Seq<Seq<char>>, is_rustc: bool, sysroot: Option<Seq<char>>) -> Seq<
    Seq<char>,
> {
    let encoded = if has_flag(args, "-Zalways_encode_mir"@) {
        args
    } else {
        args.push("-Zalways_encode_mir"@)
    };
    let linked = if is_rustc {
        encoded
    } else {
        encoded.push("-Clink-arg=-nostartfiles"@)
    };
    let aborting = linked.push("-Cpanic=abort"@);
    match sysroot {
        Some(sysroot) => if has_flag(aborting, "--sysroot"@) {
            aborting
        } else {
            aborting.push("--sysroot"@).push(sysroot)
        },
        None => aborting,
    }
}

/// Whether one of `args` is `flag`.
fn holds_flag(args: &Vec<String>, flag: &str) -> (found: bool)
    ensures
        found == has_flag(args.deep_view(), flag@),
{
    let mut i: usize = 0;
    while i < args.len()
        invariant
            i <= args.len(),
            forall|j: int| 0 <= j < i ==> args.deep_view()[j] != flag@,
        decreases args.len() - i,
    {
        if crate::utils::same_text(args[i].as_str(), flag) {
            assert(args.deep_view()[i as int] == flag@);
            return true;
        }
        i = i + 1;
    }
    false
}

/// Puts `arg` behind `args`.
fn push_arg(args: &mut Vec<String>, arg: &str)
    ensures
        final(args).deep_view() == old(args).deep_view().push(arg@),
{
    args.push(arg.to_owned());
    assert(args.deep_view() =~= old(args).deep_view().push(arg@));
}

/// The arguments for the compiler, from those that the program was called with.
pub fn get_rustc_args(args: Vec<String>, is_rustc: bool, sysroot: Option<String>) -> (rustc_args: Vec<
    String,
>)
    ensures
        rustc_args.deep_view() == rustc_args_of(
            args.deep_view(),
            is_rustc,
            crate::merge::name_view(sysroot),
        ),
{
    let mut rustc_args = args;
    if !holds_flag(&rustc_args, "-Zalways_encode_mir") {
        push_arg(&mut rustc_args, "-Zalways_encode_mir");
    }
    if !is_rustc {
        push_arg(&mut rustc_args, "-Clink-arg=-nostartfiles");
    }
    push_arg(&mut rustc_args, "-Cpanic=abort");
    if let Some(sysroot) = sysroot {
        if !holds_flag(&rustc_args, "--sysroot") {
            push_arg(&mut rustc_args, "--sysroot");
            push_arg(&mut rustc_args, sysroot.as_str());
        }
    }
    rustc_args
}

} // verus!
