//! What the cargo subcommand decides: which arguments it was given, which
//! package is to be analysed, and how the arguments for the analysis are
//! handed on.

use vstd::prelude::*;
use vstd::string::*;
use crate::text::{chars_start_with, starts_with, to_chars};
use crate::utils::same_text;

verus! {

/// Whether `i` is the position of the first `--` among the arguments, or
/// their number if there is none.
pub open spec fn ends_at(args: Seq<Seq<char>>, i: int) -> bool {
    &&& 0 <= i <= args.len()
    &&& i < args.len() ==> args[i] == "--"@
    &&& forall|j: int| 0 <= j < i ==> args[j] != "--"@
}

/// The number of arguments before the first `--`.
pub open spec fn own_len(args: Seq<Seq<char>>) -> int {
    choose|i: int| ends_at(args, i)
}

/// The arguments before the first `--`.
pub open spec fn own_args(args: Seq<Seq<char>>) -> Seq<Seq<char>> {
    args.take(own_len(args))
}

/// There is one position at which the own arguments end.
pub proof fn lemma_own_len(args: Seq<Seq<char>>, i: int)
    requires
        ends_at(args, i),
    ensures
        own_len(args) == i,
{
    let k = own_len(args);
    if k < i {
        assert(args[k] != "--"@);
    } else if i < k {
        assert(args[i] != "--"@);
    }
}

/// The number of arguments before the first `--`.
pub fn count_own_args(args: &Vec<String>) -> (n: usize)
    ensures
        n == own_len(args.deep_view()),
        ends_at(args.deep_view(), n as int),
{
    let mut i: usize = 0;
    while i < args.len()
        invariant
            i <= args.len(),
            forall|j: int| 0 <= j < i ==> args.deep_view()[j] != "--"@,
        decreases args.len() - i,
    {
        if same_text(args[i].as_str(), "--") {
            proof {
                lemma_own_len(args.deep_view(), i as int);
            }
            return i;
        }
        i = i + 1;
    }
    proof {
        lemma_own_len(args.deep_view(), i as int);
    }
    i
}

/// Whether the flag `name` is among the arguments before the first `--`.
pub fn has_arg_flag(args: &Vec<String>, name: &str) -> (found: bool)
    ensures
        found == own_args(args.deep_view()).contains(name@),
{
    let n = count_own_args(args);
    let ghost own = own_args(args.deep_view());
    let mut i: usize = 0;
    while i < n
        invariant
            i <= n <= args.len(),
            n == own_len(args.deep_view()),
            own == own_args(args.deep_view()),
            forall|j: int| 0 <= j < i ==> own[j] != name@,
        decreases n - i,
    {
        if same_text(args[i].as_str(), name) {
            assert(own[i as int] == name@);
            return true;
        }
        i = i + 1;
    }
    false
}

/// The value that the arguments from position `i` on give to `name`: that
/// of the first argument that is `name`, which has the argument behind it for
/// its value, if there is one, or that has the form `name=value`.
pub open spec fn flag_value(args: Seq<Seq<char>>, name: Seq<char>, i: int) -> Option<Seq<char>>
    decreases args.len() - i,
{
    if i < 0 || i >= args.len() {
        None
    } else if args[i] == name {
        if i + 1 < args.len() {
            Some(args[i + 1])
        } else {
            None
        }
    } else if starts_with(args[i], name + seq!['=']) {
        Some(args[i].skip(name.len() as int + 1))
    } else {
        flag_value(args, name, i + 1)
    }
}

/// The value that the arguments before the first `--` give to `name`, in
/// the form `name value` or `name=value`.
pub fn get_arg_flag_value(args: &Vec<String>, name: &str) -> (value: Option<String>)
    ensures
        crate::merge::name_view(value) == flag_value(own_args(args.deep_view()), name@, 0),
{
    let n = count_own_args(args);
    let ghost own = own_args(args.deep_view());
    let name_chars = to_chars(name);
    let mut assigned = to_chars(name);
    assigned.push('=');
    assert(assigned@ =~= name@ + seq!['=']);
    let mut i: usize = 0;
    while i < n
        invariant
            i <= n <= args.len(),
            n == own_len(args.deep_view()),
            own == own_args(args.deep_view()),
            name_chars@ == name@,
            assigned@ == name@ + seq!['='],
            flag_value(own, name@, 0) == flag_value(own, name@, i as int),
        decreases n - i,
    {
        let arg = args[i].as_str();
        let chars = to_chars(arg);
        assert(own[i as int] == chars@);
        if same_text(arg, name) {
            if i + 1 < n {
                assert(own[i + 1] == args@[i + 1]@);
                return Some(args[i + 1].clone());
            } else {
                return None;
            }
        }
        if chars_start_with(&chars, &assigned) {
            let value = arg.substring_char(assigned.len(), chars.len()).to_owned();
            assert(value@ =~= chars@.skip(name@.len() as int + 1));
            return Some(value);
        }
        i = i + 1;
    }
    None
}

/// The arguments from position `from` on: those before the first `--`, and
/// those behind it.
pub fn split_at_dashes(args: &Vec<String>, from: usize) -> (parts: (Vec<String>, Vec<String>))
    requires
        from <= args@.len(),
    ensures
        ({
            let rest = args.deep_view().skip(from as int);
            let n = own_len(rest);
            &&& parts.0.deep_view() == rest.take(n)
            &&& parts.1.deep_view() == if n < rest.len() {
                rest.skip(n + 1)
            } else {
                Seq::empty()
            }
        }),
{
    let ghost rest = args.deep_view().skip(from as int);
    let mut own: Vec<String> = Vec::new();
    let mut i: usize = from;
    let mut open = true;
    assert(own.deep_view() =~= rest.take(0));
    while open && i < args.len()
        invariant
            from <= i <= args.len(),
            rest == args.deep_view().skip(from as int),
            own.deep_view() == rest.take(i - from),
            forall|j: int| 0 <= j < i - from ==> rest[j] != "--"@,
            !open ==> i < args.len() && rest[i - from] == "--"@,
        decreases args.len() - i, open as int,
    {
        if same_text(args[i].as_str(), "--") {
            open = false;
        } else {
            let ghost before = own.deep_view();
            own.push(args[i].clone());
            assert(own.deep_view() =~= before.push(rest[i - from]));
            assert(rest.take(i + 1 - from) =~= rest.take(i - from).push(rest[i - from]));
            i = i + 1;
        }
    }
    proof {
        lemma_own_len(rest, i - from);
    }
    let mut other: Vec<String> = Vec::new();
    if i < args.len() {
        let mut k: usize = i + 1;
        assert(other.deep_view() =~= rest.skip(i + 1 - from).take(0));
        while k < args.len()
            invariant
                i + 1 <= k <= args.len(),
                from <= i,
                rest == args.deep_view().skip(from as int),
                other.deep_view() == rest.skip(i + 1 - from).take(k - i - 1),
            decreases args.len() - k,
        {
            let ghost before = other.deep_view();
            let ghost tail = rest.skip(i + 1 - from);
            other.push(args[k].clone());
            assert(other.deep_view() =~= before.push(tail[k - i - 1]));
            assert(tail.take(k - i) =~= tail.take(k - i - 1).push(tail[k - i - 1]));
            k = k + 1;
        }
        assert(rest.skip(i + 1 - from).take(args@.len() - i - 1) =~= rest.skip(i + 1 - from));
    } else {
        assert(other.deep_view() =~= Seq::<Seq<char>>::empty());
    }
    (own, other)
}

/// What a build target asks of the check.
#[derive(Clone, Copy, Debug, PartialEq, Eq, Structural)]
pub enum TargetKind {
    /// A program: checked with `--bin` and its name.
    Bin,
    /// A library: checked with `--lib`.
    Lib,
    /// Anything else: not checked.
    Other,
}

/// What a target of the kind `kind` asks of the check.
pub fn target_kind(kind: &str) -> (target: TargetKind)
    ensures
        target == if kind@ == "bin"@ {
            TargetKind::Bin
        } else if kind@ == "lib"@ {
            TargetKind::Lib
        } else {
            TargetKind::Other
        },
{
    if same_text(kind, "bin") {
        TargetKind::Bin
    } else if same_text(kind, "lib") {
        TargetKind::Lib
    } else {
        TargetKind::Other
    }
}

/// Whether the package at position `i` is the one to analyse: the one with
/// the given manifest, or, if none is given, the one in the current directory.
pub open spec fn is_current(
    manifest_paths: Seq<Seq<char>>,
    manifest_dirs: Seq<Seq<char>>,
    manifest_path: Option<Seq<char>>,
    current_dir: Seq<char>,
    i: int,
) -> bool {
    match manifest_path {
        Some(path) => manifest_paths[i] == path,
        None => manifest_dirs[i] == current_dir,
    }
}

/// The position of the package to analyse: the first with the given
/// manifest, or, if none is given, the first in the current directory.
/// `manifest_dirs` holds the directory of every manifest.
pub fn current_crate(
    manifest_paths: &Vec<String>,
    manifest_dirs: &Vec<String>,
    manifest_path: Option<&str>,
    current_dir: &str,
) -> (found: Option<usize>)
    requires
        manifest_dirs@.len() == manifest_paths@.len(),
    ensures
        match found {
            Some(i) => i < manifest_paths@.len() && is_current(
                manifest_paths.deep_view(),
                manifest_dirs.deep_view(),
                crate::text_view(manifest_path),
                current_dir@,
                i as int,
            ) && forall|j: int|
                0 <= j < i ==> !is_current(
                    manifest_paths.deep_view(),
                    manifest_dirs.deep_view(),
                    crate::text_view(manifest_path),
                    current_dir@,
                    j,
                ),
            None => forall|j: int|
                0 <= j < manifest_paths@.len() ==> !is_current(
                    manifest_paths.deep_view(),
                    manifest_dirs.deep_view(),
                    crate::text_view(manifest_path),
                    current_dir@,
                    j,
                ),
        },
{
    let mut i: usize = 0;
    while i < manifest_paths.len()
        invariant
            i <= manifest_paths.len(),
            manifest_dirs@.len() == manifest_paths@.len(),
            forall|j: int|
                0 <= j < i ==> !is_current(
                    manifest_paths.deep_view(),
                    manifest_dirs.deep_view(),
                    crate::text_view(manifest_path),
                    current_dir@,
                    j,
                ),
        decreases manifest_paths.len() - i,
    {
        let here = match manifest_path {
            Some(path) => same_text(manifest_paths[i].as_str(), path),
            None => same_text(manifest_dirs[i].as_str(), current_dir),
        };
        if here {
            return Some(i);
        }
        i = i + 1;
    }
    None
}

/// A package name as the compiler writes it: with `_` for every `-`.
pub open spec fn crate_name_of(package: Seq<char>) -> Seq<char> {
    package.map_values(|c: char| if c == '-' { '_' } else { c })
}

/// Whether the compiler is called for the package that is to be analysed:
/// the arguments name, with `--crate-name`, the crate of that package.
pub fn is_top_crate(args: &Vec<String>, top_crate_name: &str) -> (top: bool)
    ensures
        top == (flag_value(own_args(args.deep_view()), "--crate-name"@, 0) == Some(
            crate_name_of(top_crate_name@),
        )),
{
    match get_arg_flag_value(args, "--crate-name") {
        Some(name) => {
            let given = to_chars(name.as_str());
            let wanted = to_chars(top_crate_name);
            if given.len() != wanted.len() {
                return false;
            }
            let mut i: usize = 0;
            while i < given.len()
                invariant
                    i <= given.len(),
                    given.len() == wanted.len(),
                    wanted@ == top_crate_name@,
                    flag_value(own_args(args.deep_view()), "--crate-name"@, 0) == Some(given@),
                    forall|j: int| 0 <= j < i ==> given@[j] == crate_name_of(top_crate_name@)[j],
                decreases given.len() - i,
            {
                let c = if wanted[i] == '-' { '_' } else { wanted[i] };
                if given[i] != c {
                    assert(given@[i as int] != crate_name_of(top_crate_name@)[i as int]);
                    return false;
                }
                i = i + 1;
            }
            assert(given@ =~= crate_name_of(top_crate_name@));
            true
        },
        None => false,
    }
}

/// The error of `serde_json`, `serde_json::Error`: carried through, never looked into.
#[verifier::external_type_specification]
#[verifier::external_body]
pub struct ExJsonError(serde_json::Error);

/// The JSON text that `serde_json::to_string` writes for a list of strings, if
/// it writes one.
pub uninterp spec fn json_of_args(args: Seq<Seq<char>>) -> Option<Seq<char>>;

/// The list of strings that `serde_json::from_str` reads from a JSON text, if
/// it reads one.
pub uninterp spec fn args_of_json(text: Seq<char>) -> Option<Seq<Seq<char>>>;

/// `serde_json::to_string` on a list of strings. The contract gives the text
/// that it writes a name and says nothing else of it.
#[verifier::external_body]
fn args_to_json(args: &Vec<String>) -> (text: Result<String, serde_json::Error>)
    ensures
        match text {
            Ok(text) => json_of_args(args.deep_view()) == Some(text@),
            Err(_) => json_of_args(args.deep_view()) is None,
        },
{
    serde_json::to_string(args)
}

/// `serde_json::from_str` for a list of strings. The contract gives the list
/// that it reads a name and says nothing else of it.
#[verifier::external_body]
fn json_to_args(text: &str) -> (args: Result<Vec<String>, serde_json::Error>)
    ensures
        match args {
            Ok(args) => args_of_json(text@) == Some(args.deep_view()),
            Err(_) => args_of_json(text@) is None,
        },
{
    serde_json::from_str(text)
}

/// The arguments for the analysis as one text, to hand them on through the
/// environment.
pub fn encode_args(args: &Vec<String>) -> (text: Option<String>)
    ensures
        crate::merge::name_view(text) == json_of_args(args.deep_view()),
{
    match args_to_json(args) {
        Ok(text) => Some(text),
        Err(_) => None,
    }
}

/// The arguments for the analysis, from the text that hands them on.
pub fn decode_args(text: &str) -> (args: Option<Vec<String>>)
    ensures
        match args {
            Some(args) => args_of_json(text@) == Some(args.deep_view()),
            None => args_of_json(text@) is None,
        },
{
    match json_to_args(text) {
        Ok(args) => Some(args),
        Err(_) => None,
    }
}

/// What the cargo subcommand is called for.
#[derive(Clone, Copy, Debug, PartialEq, Eq, Structural)]
pub enum Invocation {
    /// To show how it is used.
    Help,
    /// To show its version.
    Version,
    /// By cargo, as `cargo mc`: to check every target of the package.
    Check,
    /// By cargo, in place of the compiler: to compile or analyse one crate.
    Compile,
    /// For nothing that it knows.
    Unknown,
}

/// What the subcommand is called for: help where an argument asks for it,
/// else the version where one asks for it, else what the first argument
/// behind the program's name says.
pub open spec fn invocation_of(args: Seq<Seq<char>>) -> Invocation {
    if args.contains("--help"@) || args.contains("-h"@) {
        Invocation::Help
    } else if args.contains("--version"@) || args.contains("-V"@) {
        Invocation::Version
    } else if args.len() > 1 && args[1] == "mc"@ {
        Invocation::Check
    } else if args.len() > 1 && args[1] == "rustc"@ {
        Invocation::Compile
    } else {
        Invocation::Unknown
    }
}

/// Whether one of the arguments is `name`.
fn holds(args: &Vec<String>, name: &str) -> (found: bool)
    ensures
        found == args.deep_view().contains(name@),
{
    let mut i: usize = 0;
    while i < args.len()
        invariant
            i <= args.len(),
            forall|j: int| 0 <= j < i ==> args.deep_view()[j] != name@,
        decreases args.len() - i,
    {
        if same_text(args[i].as_str(), name) {
            assert(args.deep_view()[i as int] == name@);
            return true;
        }
        i = i + 1;
    }
    false
}

/// What the subcommand is called for, by all the arguments of the program.
pub fn invocation(args: &Vec<String>) -> (called: Invocation)
    ensures
        called == invocation_of(args.deep_view()),
{
    if holds(args, "--help") || holds(args, "-h") {
        Invocation::Help
    } else if holds(args, "--version") || holds(args, "-V") {
        Invocation::Version
    } else if args.len() > 1 && same_text(args[1].as_str(), "mc") {
        assert(args.deep_view()[1] == args@[1]@);
        Invocation::Check
    } else if args.len() > 1 && same_text(args[1].as_str(), "rustc") {
        assert(args.deep_view()[1] == args@[1]@);
        Invocation::Compile
    } else {
        assert(args@.len() > 1 ==> args.deep_view()[1] == args@[1]@);
        Invocation::Unknown
    }
}

/// Puts the arguments from position `from` on behind `into`.
fn push_from(into: &mut Vec<String>, args: &Vec<String>, from: usize)
    requires
        from <= args@.len(),
    ensures
        final(into).deep_view() == old(into).deep_view() + args.deep_view().skip(from as int),
{
    let ghost before = into.deep_view();
    let ghost tail = args.deep_view().skip(from as int);
    assert(into.deep_view() =~= before + tail.take(0));
    let mut i: usize = from;
    while i < args.len()
        invariant
            from <= i <= args.len(),
            tail == args.deep_view().skip(from as int),
            into.deep_view() == before + tail.take(i - from),
        decreases args.len() - i,
    {
        let ghost so_far = into.deep_view();
        into.push(args[i].clone());
        assert(into.deep_view() =~= so_far.push(tail[i - from]));
        assert(tail.take(i + 1 - from) =~= tail.take(i - from).push(tail[i - from]));
        assert(before + tail.take(i + 1 - from) =~= (before + tail.take(i - from)).push(
            tail[i - from],
        ));
        i = i + 1;
    }
    assert(tail.take(args@.len() - from) =~= tail);
}

/// Puts `arg` behind `args`.
fn push_text(args: &mut Vec<String>, arg: &str)
    ensures
        final(args).deep_view() == old(args).deep_view().push(arg@),
{
    args.push(arg.to_owned());
    assert(args.deep_view() =~= old(args).deep_view().push(arg@));
}

/// The arguments behind the program's name and the name of the subcommand.
pub open spec fn behind_subcommand(args: Seq<Seq<char>>) -> Seq<Seq<char>> {
    if args.len() >= 2 {
        args.skip(2)
    } else {
        Seq::empty()
    }
}

/// The arguments with which cargo checks a target of the kind `kind`:
/// `check`; for a program `--bin` and the name of the target, for a library
/// `--lib`; and the arguments of the subcommand before the first `--`.
pub open spec fn cargo_args_of(args: Seq<Seq<char>>, kind: TargetKind, target: Seq<char>) -> Seq<
    Seq<char>,
> {
    let own = own_args(behind_subcommand(args));
    match kind {
        TargetKind::Bin => seq!["check"@, "--bin"@, target] + own,
        TargetKind::Lib => seq!["check"@, "--lib"@] + own,
        TargetKind::Other => Seq::empty(),
    }
}

/// The arguments of the subcommand that are meant for the analysis: those
/// behind the first `--`.
pub open spec fn analysis_args_of(args: Seq<Seq<char>>) -> Seq<Seq<char>> {
    let rest = behind_subcommand(args);
    let n = own_len(rest);
    if n < rest.len() {
        rest.skip(n + 1)
    } else {
        Seq::empty()
    }
}

/// How cargo is called for a target of the package: the arguments for cargo
/// and the arguments for the analysis. A target that is neither a program
/// nor a library is not checked.
pub fn cargo_command(args: &Vec<String>, kind: TargetKind, target: &str) -> (command: Option<
    (Vec<String>, Vec<String>),
>)
    ensures
        match command {
            Some((cargo_args, analysis_args)) => {
                &&& kind != TargetKind::Other
                &&& cargo_args.deep_view() == cargo_args_of(args.deep_view(), kind, target@)
                &&& analysis_args.deep_view() == analysis_args_of(args.deep_view())
            },
            None => kind == TargetKind::Other,
        },
{
    let mut cargo_args: Vec<String> = Vec::new();
    assert(cargo_args.deep_view() =~= Seq::<Seq<char>>::empty());
    push_text(&mut cargo_args, "check");
    match kind {
        TargetKind::Bin => {
            push_text(&mut cargo_args, "--bin");
            push_text(&mut cargo_args, target);
            assert(cargo_args.deep_view() =~= seq!["check"@, "--bin"@, target@]);
        },
        TargetKind::Lib => {
            push_text(&mut cargo_args, "--lib");
            assert(cargo_args.deep_view() =~= seq!["check"@, "--lib"@]);
        },
        TargetKind::Other => {
            return None;
        },
    }
    let from: usize = if args.len() >= 2 { 2 } else { args.len() };
    assert(args.deep_view().skip(from as int) =~= behind_subcommand(args.deep_view()));
    let (own, analysis_args) = split_at_dashes(args, from);
    push_from(&mut cargo_args, &own, 0);
    assert(own.deep_view().skip(0) =~= own.deep_view());
    Some((cargo_args, analysis_args))
}

/// The arguments with which the analysis is called in place of the compiler:
/// those that cargo gave the compiler, the directory of the compiler's
/// libraries, and, for the crate that is to be analysed, the arguments for
/// the analysis.
pub open spec fn analysis_command_of(
    args: Seq<Seq<char>>,
    sysroot: Seq<char>,
    analysis_args: Option<Seq<Seq<char>>>,
) -> Seq<Seq<char>> {
    let base = behind_subcommand(args) + seq!["--sysroot"@, sysroot];
    match analysis_args {
        Some(analysis_args) => base + analysis_args,
        None => base,
    }
}

/// The arguments as mathematical values, where there are any.
pub open spec fn args_view(args: Option<&Vec<String>>) -> Option<Seq<Seq<char>>> {
    match args {
        Some(args) => Some(args.deep_view()),
        None => None,
    }
}

/// The arguments with which the analysis is called in place of the compiler.
pub fn analysis_command(args: &Vec<String>, sysroot: &str, analysis_args: Option<&Vec<String>>) -> (command:
    Vec<String>)
    ensures
        command.deep_view() == analysis_command_of(
            args.deep_view(),
            sysroot@,
            args_view(analysis_args),
        ),
{
    let mut command: Vec<String> = Vec::new();
    assert(command.deep_view() =~= Seq::<Seq<char>>::empty());
    let from: usize = if args.len() >= 2 { 2 } else { args.len() };
    assert(args.deep_view().skip(from as int) =~= behind_subcommand(args.deep_view()));
    push_from(&mut command, args, from);
    assert(command.deep_view() =~= behind_subcommand(args.deep_view()));
    push_text(&mut command, "--sysroot");
    push_text(&mut command, sysroot);
    assert(command.deep_view() =~= behind_subcommand(args.deep_view()) + seq![
        "--sysroot"@,
        sysroot@,
    ]);
    if let Some(analysis_args) = analysis_args {
        let ghost base = command.deep_view();
        push_from(&mut command, analysis_args, 0);
        assert(analysis_args.deep_view().skip(0) =~= analysis_args.deep_view());
    }
    command
}

/// The directory of the compiler's libraries for the subcommand, from the
/// settings that the build was made with: the same as for the analysis.
pub fn compile_time_sysroot(
    stage: Option<&str>,
    home: Option<&str>,
    toolchain: Option<&str>,
    sysroot: Option<&str>,
) -> (found: Option<String>)
    requires
        stage is Some || (home is Some && toolchain is Some) || sysroot is Some,
    ensures
        crate::merge::name_view(found) == crate::sysroot_of(
            crate::text_view(stage),
            crate::text_view(home),
            crate::text_view(toolchain),
            crate::text_view(sysroot),
        ),
{
    crate::get_compile_time_sysroot(stage, home, toolchain, sysroot)
}

} // verus!
