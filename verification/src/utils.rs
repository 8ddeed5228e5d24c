//! Command-line options, entry names and function paths.

use vstd::prelude::*;
use vstd::string::*;
use crate::cfg::CfgTable;
use crate::ids::DefId;
use crate::ir::AnalysisOptions;
use crate::text::{
    chars_start_with, find_from, first_match, has_match_at, occurs_in, pieces, split, split_ranges,
    split_str, starts_with, to_chars,
};

verus! {

/// The configuration of the log, with `{$PATH}` for the file of the log and
/// `{$LEVEL}` for the level from which on messages are kept.
pub const LOG4RS_CONFIG_YAML: &'static str =
    "\n# appender: collect logs to console or file, could have multiple configs\n# ref: https://zhuanlan.zhihu.com/p/104921298\nappenders:\n  # stdout:\n  #   kind: console\n  #   # https://docs.rs/log4rs/0.10.0/log4rs/encode/pattern/index.html\n  #   encoder:\n  #     pattern: \"{d(%Y-%m-%d %H:%M:%S)} [{f}:{L}] [{h({l:<5})}]  {m}{n}\"\n  file:\n    kind: file\n    path: \"{$PATH}\"\n    append: false\n    encoder:\n      pattern: \"{d(%Y-%m-%d %H:%M:%S)} [{f}:{L}] [{h({l:<5})}]  {m}{n}\"\n# global config\nroot:\n  level: {$LEVEL}\n  appenders:\n    # - stdout\n    - file\n";

/// The name of the file that holds the configuration of the log.
pub const CONFIG_FILENAME: &'static str = "mc-log4rs-config.yaml";

/// The name of the file that holds the log.
pub const LOG_FILENAME: &'static str = "mc-log4rs-output.log";

/// The configuration of a log that keeps the messages from `level` on in
/// the file `log_path`.
pub fn log_config(log_path: &str, level: &str) -> (config: String)
    ensures
        config@ == crate::text::replaced(
            crate::text::replaced(LOG4RS_CONFIG_YAML@, "{$PATH}"@, log_path@),
            "{$LEVEL}"@,
            level@,
        ),
{
    proof {
        reveal_strlit("{$PATH}");
        reveal_strlit("{$LEVEL}");
    }
    let with_path = crate::text::replace_all(LOG4RS_CONFIG_YAML, "{$PATH}", log_path);
    crate::text::replace_all(with_path.as_str(), "{$LEVEL}", level)
}

/// The value of the argument `arg` if it has the form `name=value`.
pub open spec fn arg_value(arg: Seq<char>, name: Seq<char>) -> Option<Seq<char>> {
    if starts_with(arg, name + seq!['=']) {
        Some(arg.skip(name.len() as int + 1))
    } else {
        None
    }
}

/// Whether some argument has the form `name=value`.
pub open spec fn has_arg(args: Seq<Seq<char>>, name: Seq<char>) -> bool {
    exists|i: int| 0 <= i < args.len() && (#[trigger] arg_value(args[i], name)) is Some
}

/// The position of the first argument of the form `name=value`, where there is one.
pub open spec fn arg_index(args: Seq<Seq<char>>, name: Seq<char>) -> int {
    choose|i: int|
        0 <= i < args.len() && (#[trigger] arg_value(args[i], name)) is Some && forall|j: int|
            0 <= j < i ==> (#[trigger] arg_value(args[j], name)) is None
}

/// The position of the first argument of the form `name=value`, if there is one.
pub open spec fn arg_position(args: Seq<Seq<char>>, name: Seq<char>) -> Option<int> {
    if has_arg(args, name) {
        Some(arg_index(args, name))
    } else {
        None
    }
}

/// The first `n` arguments without those at the positions `a`, `b` and `c`.
pub open spec fn without(
    args: Seq<Seq<char>>,
    a: Option<int>,
    b: Option<int>,
    c: Option<int>,
    n: int,
) -> Seq<Seq<char>>
    decreases n,
{
    if n <= 0 {
        Seq::empty()
    } else if a == Some(n - 1) || b == Some(n - 1) || c == Some(n - 1) {
        without(args, a, b, c, n - 1)
    } else {
        without(args, a, b, c, n - 1).push(args[n - 1])
    }
}

/// The arguments without the first that gives a value to `--DBG`, to
/// `--entries` and to `--open-dbg`.
pub open spec fn other_args(args: Seq<Seq<char>>) -> Seq<Seq<char>> {
    without(
        args,
        arg_position(args, "--DBG"@),
        arg_position(args, "--entries"@),
        arg_position(args, "--open-dbg"@),
        args.len() as int,
    )
}

/// The comma-separated values of the option `name`; none where it is not given.
pub open spec fn list_option(args: Seq<Seq<char>>, name: Seq<char>) -> Seq<Seq<char>> {
    if has_arg(args, name) {
        split(arg_value(args[arg_index(args, name)], name)->0, ","@)
    } else {
        Seq::empty()
    }
}

/// Whether the option `--open-dbg` is given the value `1`.
pub open spec fn open_dbg_option(args: Seq<Seq<char>>) -> bool {
    has_arg(args, "--open-dbg"@) && arg_value(
        args[arg_index(args, "--open-dbg"@)],
        "--open-dbg"@,
    )->0 == "1"@
}

/// Whether `entry` is made of the last segments of `path`.
pub open spec fn is_suffix_of(entry: Seq<Seq<char>>, path: Seq<Seq<char>>) -> bool {
    entry.len() <= path.len() && path.skip(path.len() - entry.len()) == entry
}

/// Whether one of the entries names the function of the given path.
pub open spec fn names_entry(entries: Seq<Seq<char>>, path: Seq<Seq<char>>) -> bool {
    exists|i: int| 0 <= i < entries.len() && is_suffix_of(split(#[trigger] entries[i], "::"@), path)
}

/// What stands in `s` before the first `c`; all of `s` where it holds no `c`.
pub open spec fn until(s: Seq<char>, c: char) -> Seq<char> {
    if occurs_in(s, seq![c]) {
        s.take(first_match(s, seq![c]))
    } else {
        s
    }
}

/// A path segment without what follows its first `[` and, in what is left,
/// its first `)`.
pub open spec fn bare_segment(segment: Seq<char>) -> Seq<char> {
    until(until(segment, '['), ')')
}

/// The path that the text of a function identifier names: what follows the
/// first ` ~ `, up to the next one, cut at `::`, each segment bare.
pub open spec fn def_path_of(text: Seq<char>) -> Seq<Seq<char>> {
    split(split(text, " ~ "@)[1], "::"@).map_values(|segment: Seq<char>| bare_segment(segment))
}

/// The first argument of the form `name=value`, with its position.
fn try_get_arg_value(args: &[String], name: &str) -> (found: Option<(usize, String)>)
    ensures
        found is Some <==> has_arg(args.deep_view(), name@),
        found matches Some((i, value)) ==> i == arg_index(args.deep_view(), name@) && i < args@.len()
            && Some(value@) == arg_value(args.deep_view()[i as int], name@),
{
    let mut prefix = to_chars(name);
    prefix.push('=');
    assert(prefix@ =~= name@ + seq!['=']);
    let mut i: usize = 0;
    while i < args.len()
        invariant
            i <= args.len(),
            prefix@ == name@ + seq!['='],
            forall|j: int| 0 <= j < i ==> (#[trigger] arg_value(args.deep_view()[j], name@)) is None,
        decreases args.len() - i,
    {
        let arg = args[i].as_str();
        let chars = to_chars(arg);
        assert(args.deep_view()[i as int] == chars@);
        if chars_start_with(&chars, &prefix) {
            let value = arg.substring_char(prefix.len(), chars.len()).to_owned();
            assert(value@ =~= chars@.skip(name@.len() as int + 1));
            return Some((i, value));
        }
        i = i + 1;
    }
    None
}

/// A position as a mathematical integer.
pub open spec fn position(at: Option<usize>) -> Option<int> {
    match at {
        Some(i) => Some(i as int),
        None => None,
    }
}

/// Whether `at` is the position `i`.
fn is_at(at: Option<usize>, i: usize) -> (here: bool)
    ensures
        here == (position(at) == Some(i as int)),
{
    match at {
        Some(k) => k == i,
        None => false,
    }
}

/// The arguments without those at the positions `a`, `b` and `c`.
fn args_without(args: &[String], a: Option<usize>, b: Option<usize>, c: Option<usize>) -> (rest:
    Vec<String>)
    ensures
        rest.deep_view() == without(
            args.deep_view(),
            position(a),
            position(b),
            position(c),
            args@.len() as int,
        ),
{
    let mut rest: Vec<String> = Vec::new();
    let mut i: usize = 0;
    while i < args.len()
        invariant
            i <= args.len(),
            rest.deep_view() == without(
                args.deep_view(),
                position(a),
                position(b),
                position(c),
                i as int,
            ),
        decreases args.len() - i,
    {
        let removed = is_at(a, i) || is_at(b, i) || is_at(c, i);
        if !removed {
            let ghost before = rest.deep_view();
            rest.push(args[i].clone());
            assert(rest.deep_view() =~= before.push(args.deep_view()[i as int]));
        }
        i = i + 1;
    }
    rest
}

/// The comma-separated values of the option `name`, and the position of the
/// argument that gives them.
fn list_arg(args: &[String], name: &str) -> (found: (Option<usize>, Vec<String>))
    ensures
        position(found.0) == arg_position(args.deep_view(), name@),
        found.1.deep_view() == list_option(args.deep_view(), name@),
{
    proof {
        reveal_strlit(",");
    }
    match try_get_arg_value(args, name) {
        Some((i, value)) => (Some(i), split_str(value.as_str(), ",")),
        None => {
            let none: Vec<String> = Vec::new();
            assert(none.deep_view() =~= Seq::<Seq<char>>::empty());
            (None, none)
        },
    }
}

/// Whether the option `--open-dbg` is given the value `1`, and the position of
/// the argument that gives it a value.
fn open_dbg_arg(args: &[String]) -> (found: (Option<usize>, bool))
    ensures
        position(found.0) == arg_position(args.deep_view(), "--open-dbg"@),
        found.1 == open_dbg_option(args.deep_view()),
{
    match try_get_arg_value(args, "--open-dbg") {
        Some((i, value)) => (Some(i), same_text(value.as_str(), "1")),
        None => (None, false),
    }
}

/// Takes the options of the analysis out of the command line. Returns the
/// options and the arguments that are left, in their order.
pub fn parse_args(args: &[String]) -> (parsed: (AnalysisOptions, Vec<String>))
    ensures
        parsed.0.debug_opts.deep_view() == list_option(args.deep_view(), "--DBG"@),
        parsed.0.entries.deep_view() == list_option(args.deep_view(), "--entries"@),
        parsed.0.open_dbg == open_dbg_option(args.deep_view()),
        parsed.1.deep_view() == other_args(args.deep_view()),
{
    let (dbg_at, debug_opts) = list_arg(args, "--DBG");
    let (entries_at, entries) = list_arg(args, "--entries");
    let (open_at, open_dbg) = open_dbg_arg(args);
    let new_args = args_without(args, dbg_at, entries_at, open_at);
    (AnalysisOptions { debug_opts, entries, open_dbg }, new_args)
}

/// Whether two strings hold the same characters.
pub fn same_text(a: &str, b: &str) -> (same: bool)
    ensures
        same == (a@ == b@),
{
    let x = to_chars(a);
    let y = to_chars(b);
    if x.len() != y.len() {
        return false;
    }
    let same = has_match_at(&x, &y, 0);
    assert(x@.subrange(0, x@.len() as int) =~= x@);
    same
}

/// Whether the trace category `opt_name` is switched on.
pub fn has_dbg(opts: &AnalysisOptions, opt_name: &str) -> (on: bool)
    ensures
        on == opts.debug_opts.deep_view().contains(opt_name@),
{
    let mut i: usize = 0;
    while i < opts.debug_opts.len()
        invariant
            i <= opts.debug_opts.len(),
            forall|j: int| 0 <= j < i ==> opts.debug_opts.deep_view()[j] != opt_name@,
        decreases opts.debug_opts.len() - i,
    {
        if same_text(opts.debug_opts[i].as_str(), opt_name) {
            assert(opts.debug_opts.deep_view()[i as int] == opt_name@);
            return true;
        }
        i = i + 1;
    }
    false
}

/// Whether one of the entries that the options name is the function of the
/// given path.
pub fn has_entry(opts: &AnalysisOptions, def_path: &Vec<String>) -> (named: bool)
    ensures
        named == names_entry(opts.entries.deep_view(), def_path.deep_view()),
{
    let mut i: usize = 0;
    while i < opts.entries.len()
        invariant
            i <= opts.entries.len(),
            forall|j: int|
                0 <= j < i ==> !is_suffix_of(
                    split(#[trigger] opts.entries.deep_view()[j], "::"@),
                    def_path.deep_view(),
                ),
        decreases opts.entries.len() - i,
    {
        let entry = parse_entry(opts.entries[i].as_str());
        if entry_is_suffix_of(&entry, def_path) {
            assert(is_suffix_of(split(opts.entries.deep_view()[i as int], "::"@), def_path.deep_view()));
            return true;
        }
        i = i + 1;
    }
    false
}

/// Whether the entries are to be detected, none being named.
pub fn auto_detect_entries(opts: &AnalysisOptions) -> (auto: bool)
    ensures
        auto == (opts.entries@.len() == 0),
{
    opts.entries.len() == 0
}

pub fn open_dbg(opts: &AnalysisOptions) -> (open: bool)
    ensures
        open == opts.open_dbg,
{
    opts.open_dbg
}

/// The segments of an entry name.
pub fn parse_entry(entry: &str) -> (segments: Vec<String>)
    ensures
        segments.deep_view() == split(entry@, "::"@),
{
    proof {
        reveal_strlit("::");
    }
    split_str(entry, "::")
}

/// Whether `entry` is made of the last segments of `def_id`.
pub fn entry_is_suffix_of(entry: &Vec<String>, def_id: &Vec<String>) -> (suffix: bool)
    ensures
        suffix == is_suffix_of(entry.deep_view(), def_id.deep_view()),
{
    if entry.len() > def_id.len() {
        return false;
    }
    let shift = def_id.len() - entry.len();
    let ghost tail = def_id.deep_view().skip(shift as int);
    let mut i: usize = 0;
    while i < entry.len()
        invariant
            i <= entry.len(),
            shift == def_id.len() - entry.len(),
            tail == def_id.deep_view().skip(shift as int),
            forall|j: int|
                entry.len() - i <= j < entry.len() ==> entry.deep_view()[j] == def_id.deep_view()[shift
                    + j],
        decreases entry.len() - i,
    {
        let at = entry.len() - i - 1;
        if !same_text(entry[at].as_str(), def_id[shift + at].as_str()) {
            assert(tail[at as int] == def_id.deep_view()[shift + at]);
            return false;
        }
        i = i + 1;
    }
    assert(tail =~= entry.deep_view());
    true
}


/// Whether the function `caller`, whose graph takes part in the analysis,
/// calls the other function `def_id`.
pub open spec fn calls(cfgs: &CfgTable, caller: DefId, def_id: DefId) -> bool {
    caller != def_id && cfgs.has(caller) && exists|c: int|
        0 <= c < cfgs.cfg(caller).call_infos@.len() && (#[trigger] cfgs.cfg(caller).call_infos@[c]).callee_def_id
            == def_id
}

/// Whether another function whose graph takes part in the analysis calls `def_id`.
pub open spec fn is_called(cfgs: &CfgTable, def_id: DefId) -> bool {
    exists|caller: DefId| #[trigger] calls(cfgs, caller, def_id)
}

/// Whether `def_id` is a function to start from: its graph takes part in the
/// analysis, and no other such function calls it.
pub open spec fn is_top(cfgs: &CfgTable, def_id: DefId) -> bool {
    cfgs.has(def_id) && !is_called(cfgs, def_id)
}

/// The functions to start from among the first `n`, in rising order.
pub open spec fn top_def_ids(cfgs: &CfgTable, n: int) -> Seq<DefId>
    decreases n,
{
    if n <= 0 {
        Seq::empty()
    } else if is_top(cfgs, (n - 1) as usize) {
        top_def_ids(cfgs, n - 1).push((n - 1) as usize)
    } else {
        top_def_ids(cfgs, n - 1)
    }
}

/// The functions named as entries among the first `n`, in rising order.
pub open spec fn named_def_ids(opts: &AnalysisOptions, cfgs: &CfgTable, n: int) -> Seq<DefId>
    decreases n,
{
    if n <= 0 {
        Seq::empty()
    } else if cfgs.has((n - 1) as usize) && names_entry(
        opts.entries.deep_view(),
        cfgs.functions@[n - 1].def_path.deep_view(),
    ) {
        named_def_ids(opts, cfgs, n - 1).push((n - 1) as usize)
    } else {
        named_def_ids(opts, cfgs, n - 1)
    }
}

/// The functions to start the analysis from: those that the options name,
/// or, if they name none, those that no other function calls.
pub open spec fn entry_def_ids(opts: &AnalysisOptions, cfgs: &CfgTable) -> Seq<DefId> {
    if opts.entries@.len() == 0 {
        top_def_ids(cfgs, cfgs.functions@.len() as int)
    } else {
        named_def_ids(opts, cfgs, cfgs.functions@.len() as int)
    }
}

/// The functions whose graphs take part in the analysis and that no other
/// such function calls, in rising order. Calls of a function to itself do
/// not count.
pub fn get_top_def_ids(cfgs: &CfgTable) -> (tops: Vec<DefId>)
    requires
        cfgs.wf(),
    ensures
        tops@ == top_def_ids(cfgs, cfgs.functions@.len() as int),
{
    let count = cfgs.functions.len();
    let mut called: Vec<bool> = Vec::new();
    let mut i: usize = 0;
    while i < count
        invariant
            i <= count,
            called@.len() == i,
            forall|d: int| 0 <= d < i ==> !called@[d],
        decreases count - i,
    {
        called.push(false);
        i = i + 1;
    }
    let mut f: usize = 0;
    while f < count
        invariant
            f <= count,
            count == cfgs.functions@.len(),
            cfgs.wf(),
            called@.len() == count,
            forall|d: DefId|
                d < count ==> (#[trigger] called@[d as int] <==> exists|g: DefId|
                    g < f && #[trigger] calls(cfgs, g, d)),
        decreases count - f,
    {
        let ghost before = called@;
        if cfgs.contains_key(f) {
            let cfg = cfgs.get(f);
            let mut c: usize = 0;
            while c < cfg.call_infos.len()
                invariant
                    c <= cfg.call_infos.len(),
                    f < count,
                    count == cfgs.functions@.len(),
                    cfgs.wf(),
                    cfgs.has(f),
                    *cfg == cfgs.cfg(f),
                    called@.len() == count,
                    forall|d: DefId|
                        d < count ==> (#[trigger] called@[d as int] <==> before[d as int] || (d != f
                            && exists|k: int|
                            0 <= k < c && (#[trigger] cfg.call_infos@[k]).callee_def_id == d)),
                decreases cfg.call_infos.len() - c,
            {
                let callee = cfg.call_infos[c].callee_def_id;
                assert(crate::cfg::call_target_ok(cfgs.functions@, &cfg.call_infos@[c as int])) by {
                    assert(cfgs.functions@[f as int].cfg is Some);
                }
                if callee != f {
                    called.set(callee, true);
                }
                c = c + 1;
            }
        }
        assert forall|d: DefId| d < count implies (#[trigger] called@[d as int] <==> exists|g: DefId|
            g < f + 1 && #[trigger] calls(cfgs, g, d)) by {
            if called@[d as int] {
                if before[d as int] {
                    let g = choose|g: DefId| g < f && #[trigger] calls(cfgs, g, d);
                    assert(g < f + 1 && calls(cfgs, g, d));
                } else {
                    assert(calls(cfgs, f, d));
                }
            }
            if exists|g: DefId| g < f + 1 && #[trigger] calls(cfgs, g, d) {
                let g = choose|g: DefId| g < f + 1 && #[trigger] calls(cfgs, g, d);
                if g < f {
                    assert(before[d as int]);
                } else {
                    assert(g == f);
                }
            }
        }
        f = f + 1;
    }
    assert forall|x: DefId| x < count implies (#[trigger] called@[x as int] <==> is_called(cfgs, x)) by {
        if is_called(cfgs, x) {
            let g = choose|g: DefId| #[trigger] calls(cfgs, g, x);
            assert(g < count && calls(cfgs, g, x));
        }
    }
    let mut tops: Vec<DefId> = Vec::new();
    let mut d: usize = 0;
    while d < count
        invariant
            d <= count,
            count == cfgs.functions@.len(),
            called@.len() == count,
            forall|x: DefId| x < count ==> (#[trigger] called@[x as int] <==> is_called(cfgs, x)),
            tops@ == top_def_ids(cfgs, d as int),
        decreases count - d,
    {
        if cfgs.contains_key(d) && !called[d] {
            tops.push(d);
        }
        d = d + 1;
    }
    tops
}

/// The functions to start the analysis from.
pub fn select_entries(opts: &AnalysisOptions, cfgs: &CfgTable) -> (entries: Vec<DefId>)
    requires
        cfgs.wf(),
    ensures
        entries@ == entry_def_ids(opts, cfgs),
        forall|k: int| 0 <= k < entries@.len() ==> cfgs.has(#[trigger] entries@[k]),
{
    if auto_detect_entries(opts) {
        let tops = get_top_def_ids(cfgs);
        proof {
            lemma_tops_have_graphs(cfgs, cfgs.functions@.len() as int);
        }
        tops
    } else {
        let mut entries: Vec<DefId> = Vec::new();
        let mut d: usize = 0;
        while d < cfgs.functions.len()
            invariant
                d <= cfgs.functions.len(),
                entries@ == named_def_ids(opts, cfgs, d as int),
                forall|k: int| 0 <= k < entries@.len() ==> cfgs.has(#[trigger] entries@[k]),
            decreases cfgs.functions.len() - d,
        {
            if cfgs.contains_key(d) && has_entry(opts, &cfgs.functions[d].def_path) {
                entries.push(d);
            }
            d = d + 1;
        }
        entries
    }
}

/// The graph of every function to start from takes part in the analysis.
proof fn lemma_tops_have_graphs(cfgs: &CfgTable, n: int)
    ensures
        forall|k: int| 0 <= k < top_def_ids(cfgs, n).len() ==> cfgs.has(#[trigger] top_def_ids(cfgs, n)[k]),
    decreases n,
{
    if n > 0 {
        lemma_tops_have_graphs(cfgs, n - 1);
        let before = top_def_ids(cfgs, n - 1);
        let now = top_def_ids(cfgs, n);
        assert forall|k: int| 0 <= k < now.len() implies cfgs.has(#[trigger] now[k]) by {
            if k < before.len() {
                assert(now[k] == before[k]);
            }
        }
    }
}


/// The length of what stands in `s` before the first `c`.
fn length_until(s: &Vec<char>, c: char) -> (len: usize)
    ensures
        len <= s@.len(),
        s@.take(len as int) == until(s@, c),
{
    let mut pat: Vec<char> = Vec::new();
    pat.push(c);
    assert(pat@ =~= seq![c]);
    assert(s@.skip(0) =~= s@);
    match find_from(s, &pat, 0) {
        Some(at) => at,
        None => {
            assert(s@.take(s@.len() as int) =~= s@);
            s.len()
        },
    }
}

/// The path segment without what follows its first `[` and its first `)`.
fn bare(segment: &str) -> (name: String)
    ensures
        name@ == bare_segment(segment@),
{
    let chars = to_chars(segment);
    let first = length_until(&chars, '[');
    let head = segment.substring_char(0, first);
    assert(head@ =~= until(segment@, '['));
    let head_chars = to_chars(head);
    let second = length_until(&head_chars, ')');
    let name = head.substring_char(0, second).to_owned();
    assert(name@ =~= until(head@, ')'));
    name
}

/// The path that the text of a function identifier names. The text is that
/// under which the front end shows the identifier, such as
/// `DefId(0:4 ~ demo[fd64]::utils::foo)`.
pub fn parse_def_id(text: &str) -> (path: Vec<String>)
    requires
        occurs_in(text@, " ~ "@),
    ensures
        path.deep_view() == def_path_of(text@),
{
    proof {
        reveal_strlit(" ~ ");
        reveal_strlit("::");
        crate::text::lemma_split_len(text@, " ~ "@);
    }
    let chars = to_chars(text);
    let separator = to_chars(" ~ ");
    let ranges = split_ranges(&chars, &separator);
    let (from, to) = ranges[1];
    let named = text.substring_char(from, to);
    assert(named@ == split(text@, " ~ "@)[1]);
    let segments = split_str(named, "::");
    let mut path: Vec<String> = Vec::new();
    let mut i: usize = 0;
    while i < segments.len()
        invariant
            i <= segments.len(),
            path@.len() == i,
            forall|k: int| 0 <= k < i ==> (#[trigger] path@[k])@ == bare_segment(segments@[k]@),
        decreases segments.len() - i,
    {
        path.push(bare(segments[i].as_str()));
        i = i + 1;
    }
    assert(path.deep_view() =~= def_path_of(text@));
    path
}


/// Whether `char::is_whitespace` holds of the character.
pub uninterp spec fn is_white_space(c: char) -> bool;

/// `char::is_whitespace`. The contract gives its answer a name and says
/// nothing else of it.
#[verifier::external_body]
fn white_space(c: char) -> (white: bool)
    ensures
        white == is_white_space(c),
{
    c.is_whitespace()
}

/// The text without the white space at its start.
pub open spec fn trim_start(s: Seq<char>) -> Seq<char>
    decreases s.len(),
{
    if s.len() > 0 && is_white_space(s[0]) {
        trim_start(s.drop_first())
    } else {
        s
    }
}

/// The text without the white space at its end.
pub open spec fn trim_end(s: Seq<char>) -> Seq<char>
    decreases s.len(),
{
    if s.len() > 0 && is_white_space(s.last()) {
        trim_end(s.drop_last())
    } else {
        s
    }
}

/// The text without the white space at its start and at its end.
pub open spec fn trimmed(s: Seq<char>) -> Seq<char> {
    trim_end(trim_start(s))
}

/// Whether the character is one of the ten digits.
pub open spec fn is_digit(c: char) -> bool {
    '0' <= c <= '9'
}

/// The number that the digits write in base ten.
pub open spec fn digits_value(digits: Seq<char>) -> nat
    decreases digits.len(),
{
    if digits.len() == 0 {
        0
    } else {
        digits_value(digits.drop_last()) * 10 + (digits.last() as nat - '0' as nat) as nat
    }
}

/// The digits of a number text: the text without a `+` in front.
pub open spec fn digits_of(s: Seq<char>) -> Seq<char> {
    if s.len() > 0 && s[0] == '+' {
        s.skip(1)
    } else {
        s
    }
}

/// The number that the text writes: digits, at least one, maybe with a `+`
/// in front, that write a number not above the largest of the machine.
pub open spec fn usize_of(s: Seq<char>) -> Option<usize> {
    let digits = digits_of(s);
    if digits.len() > 0 && (forall|i: int| 0 <= i < digits.len() ==> is_digit(#[trigger] digits[i]))
        && digits_value(digits) <= usize::MAX {
        Some(digits_value(digits) as usize)
    } else {
        None
    }
}

/// The place that the text of a source location names: the file, the first
/// and the last line, and the first and the last column. The text has the
/// form `file:line:column: line:column (#context)`; what follows the first
/// `(#` does not count, and of what stands before it, cut at `:`, the first
/// five pieces do, the last two without the white space around them.
pub open spec fn span_of(text: Seq<char>) -> Option<(Seq<char>, (usize, usize), (usize, usize))> {
    let pieces = split(split(text, "(#"@)[0], ":"@);
    if pieces.len() < 5 {
        None
    } else {
        match (
            usize_of(pieces[1]),
            usize_of(pieces[2]),
            usize_of(trimmed(pieces[3])),
            usize_of(trimmed(pieces[4])),
        ) {
            (Some(line_lo), Some(column_lo), Some(line_hi), Some(column_hi)) => Some(
                (pieces[0], (line_lo, line_hi), (column_lo, column_hi)),
            ),
            _ => None,
        }
    }
}

/// More digits write no smaller number.
proof fn lemma_digits_grow(digits: Seq<char>, i: int)
    requires
        0 <= i <= digits.len(),
    ensures
        digits_value(digits.take(i)) <= digits_value(digits),
    decreases digits.len() - i,
{
    if i < digits.len() {
        lemma_digits_grow(digits, i + 1);
        assert(digits.take(i + 1).drop_last() =~= digits.take(i));
    } else {
        assert(digits.take(i) =~= digits);
    }
}

/// The number that the characters from `from` to `to` write, if they write one.
pub fn parse_usize(chars: &Vec<char>, from: usize, to: usize) -> (number: Option<usize>)
    requires
        from <= to <= chars@.len(),
    ensures
        number == usize_of(chars@.subrange(from as int, to as int)),
{
    let ghost text = chars@.subrange(from as int, to as int);
    let start: usize = if from < to && chars[from] == '+' { from + 1 } else { from };
    let ghost digits = digits_of(text);
    assert(digits =~= chars@.subrange(start as int, to as int));
    if start == to {
        return None;
    }
    let mut value: usize = 0;
    let mut i: usize = start;
    while i < to
        invariant
            from <= start <= i <= to <= chars@.len(),
            start < to,
            digits == chars@.subrange(start as int, to as int),
            digits == digits_of(chars@.subrange(from as int, to as int)),
            forall|k: int| 0 <= k < i - start ==> is_digit(#[trigger] digits[k]),
            value == digits_value(digits.take(i - start)),
        decreases to - i,
    {
        let c = chars[i];
        if !('0' <= c && c <= '9') {
            assert(!is_digit(digits[i - start]));
            return None;
        }
        let digit: usize = (c as u32 - '0' as u32) as usize;
        proof {
            assert(digits.take(i + 1 - start).drop_last() =~= digits.take(i - start));
            assert(digits.take(i + 1 - start).last() == c);
            lemma_digits_grow(digits, i + 1 - start);
        }
        if value > (usize::MAX - digit) / 10 {
            assert(digits_value(digits.take(i + 1 - start)) > usize::MAX);
            return None;
        }
        value = value * 10 + digit;
        i = i + 1;
    }
    assert(digits.take(to - start) =~= digits);
    Some(value)
}

/// The bounds of what is left of the characters from `from` to `to` without
/// the white space at both ends.
fn trim_range(chars: &Vec<char>, from: usize, to: usize) -> (range: (usize, usize))
    requires
        from <= to <= chars@.len(),
    ensures
        from <= range.0 <= range.1 <= to,
        chars@.subrange(range.0 as int, range.1 as int) == trimmed(
            chars@.subrange(from as int, to as int),
        ),
{
    let ghost text = chars@.subrange(from as int, to as int);
    let mut start: usize = from;
    while start < to && white_space(chars[start])
        invariant
            from <= start <= to <= chars@.len(),
            trim_start(text) == trim_start(chars@.subrange(start as int, to as int)),
        decreases to - start,
    {
        assert(chars@.subrange(start as int, to as int).drop_first() =~= chars@.subrange(
            start + 1,
            to as int,
        ));
        start = start + 1;
    }
    let ghost head = chars@.subrange(start as int, to as int);
    assert(trim_start(text) == head);
    let mut end: usize = to;
    while start < end && white_space(chars[end - 1])
        invariant
            start <= end <= to <= chars@.len(),
            trim_end(head) == trim_end(chars@.subrange(start as int, end as int)),
        decreases end - start,
    {
        assert(chars@.subrange(start as int, end as int).drop_last() =~= chars@.subrange(
            start as int,
            end - 1,
        ));
        end = end - 1;
    }
    (start, end)
}

/// The place that the text of a source location names, if it names one. The
/// text is that under which the front end shows the location, such as
/// `src/main.rs:1:2: 3:4 (#0)`.
pub fn parse_span(text: &str) -> (place: Option<(String, (usize, usize), (usize, usize))>)
    ensures
        match place {
            Some((file, lines, columns)) => span_of(text@) == Some((file@, lines, columns)),
            None => span_of(text@) is None,
        },
{
    proof {
        reveal_strlit("(#");
        reveal_strlit(":");
        crate::text::lemma_split_len(text@, "(#"@);
    }
    let chars = to_chars(text);
    let marker = to_chars("(#");
    let heads = split_ranges(&chars, &marker);
    let (head_from, head_to) = heads[0];
    let head = text.substring_char(head_from, head_to);
    assert(head@ == split(text@, "(#"@)[0]);
    let head_chars = to_chars(head);
    let colon = to_chars(":");
    let pieces = split_ranges(&head_chars, &colon);
    if pieces.len() < 5 {
        return None;
    }
    let ghost cut = split(head@, ":"@);
    let line_lo = parse_usize(&head_chars, pieces[1].0, pieces[1].1);
    let column_lo = parse_usize(&head_chars, pieces[2].0, pieces[2].1);
    let third = trim_range(&head_chars, pieces[3].0, pieces[3].1);
    let line_hi = parse_usize(&head_chars, third.0, third.1);
    let fourth = trim_range(&head_chars, pieces[4].0, pieces[4].1);
    let column_hi = parse_usize(&head_chars, fourth.0, fourth.1);
    match (line_lo, column_lo, line_hi, column_hi) {
        (Some(line_lo), Some(column_lo), Some(line_hi), Some(column_hi)) => {
            let file = head.substring_char(pieces[0].0, pieces[0].1).to_owned();
            assert(file@ == cut[0]);
            Some((file, (line_lo, line_hi), (column_lo, column_hi)))
        },
        _ => None,
    }
}

} // verus!
