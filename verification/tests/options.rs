use rust_memory_check::ir::AnalysisOptions;
use rust_memory_check::utils;

fn strings(items: &[&str]) -> Vec<String> {
    items.iter().map(|s| s.to_string()).collect()
}

#[test]
fn test_arg_parse() {
    let args = vec![
        "mc".to_owned(),
        "--sysroot".to_owned(),
        "/home/xxx/.rustup/toolchains/stable-x86_64-unknown-linux-gnu".to_owned(),
        "--DBG=cfg,body".to_owned(),
    ];

    let (options, _) = utils::parse_args(&args);
    assert_eq!(options.debug_opts, vec!["cfg", "body"]);
}

#[test]
fn test_entry_is_suffix_of() {
    let entry = vec!["b".to_string(), "c".to_string()];
    let def_id = vec!["a".to_string(), "b".to_string(), "c".to_string()];
    assert_eq!(utils::entry_is_suffix_of(&entry, &def_id), true);
}

#[test]
fn parse_args_takes_its_options_out() {
    let args = strings(&[
        "mc",
        "--entries=main,utils::foo",
        "src/lib.rs",
        "--open-dbg=1",
        "--DBG=pfg",
        "--edition=2021",
    ]);
    let (options, rest) = utils::parse_args(&args);
    assert_eq!(options.debug_opts, vec!["pfg"]);
    assert_eq!(options.entries, vec!["main", "utils::foo"]);
    assert!(options.open_dbg);
    assert_eq!(rest, strings(&["mc", "src/lib.rs", "--edition=2021"]));
}

#[test]
fn parse_args_without_options_keeps_everything() {
    let args = strings(&["mc", "--DBG", "cfg", "--DBGX=1", "--entries"]);
    let (options, rest) = utils::parse_args(&args);
    assert!(options.debug_opts.is_empty());
    assert!(options.entries.is_empty());
    assert!(!options.open_dbg);
    assert_eq!(rest, args);
}

#[test]
fn parse_args_takes_only_the_first_of_each() {
    let args = strings(&["--DBG=a", "--DBG=b", "--open-dbg=0", "--open-dbg=1"]);
    let (options, rest) = utils::parse_args(&args);
    assert_eq!(options.debug_opts, vec!["a"]);
    assert!(!options.open_dbg);
    assert_eq!(rest, strings(&["--DBG=b", "--open-dbg=1"]));
}

#[test]
fn parse_args_with_an_empty_value_gives_one_empty_name() {
    let args = strings(&["--DBG=", "--entries=a,,b,"]);
    let (options, rest) = utils::parse_args(&args);
    assert_eq!(options.debug_opts, vec![""]);
    assert_eq!(options.entries, vec!["a", "", "b", ""]);
    assert!(rest.is_empty());
}

#[test]
fn options_are_read_back() {
    let options = AnalysisOptions {
        debug_opts: strings(&["cfg", "body"]),
        entries: vec![],
        open_dbg: true,
    };
    assert!(utils::has_dbg(&options, "body"));
    assert!(!utils::has_dbg(&options, "bod"));
    assert!(utils::auto_detect_entries(&options));
    assert!(utils::open_dbg(&options));
    let named = AnalysisOptions {
        debug_opts: vec![],
        entries: strings(&["utils::foo"]),
        open_dbg: false,
    };
    assert!(!utils::auto_detect_entries(&named));
    assert!(!utils::open_dbg(&named));
    assert!(utils::has_entry(&named, &strings(&["demo", "utils", "foo"])));
    assert!(!utils::has_entry(&named, &strings(&["demo", "foo"])));
    let copy = named.duplicate();
    assert_eq!(copy.entries, named.entries);
    assert_eq!(copy.open_dbg, named.open_dbg);
}

#[test]
fn entry_names_are_cut_at_double_colons() {
    assert_eq!(utils::parse_entry("a::b::c"), strings(&["a", "b", "c"]));
    assert_eq!(utils::parse_entry("main"), strings(&["main"]));
    assert_eq!(utils::parse_entry(""), strings(&[""]));
    assert_eq!(utils::parse_entry("a:::b"), strings(&["a", ":b"]));
    assert_eq!(utils::parse_entry("::a::"), strings(&["", "a", ""]));
}

#[test]
fn suffixes_of_paths() {
    let path = strings(&["a", "b", "c"]);
    assert!(utils::entry_is_suffix_of(&strings(&[]), &path));
    assert!(utils::entry_is_suffix_of(&strings(&["c"]), &path));
    assert!(utils::entry_is_suffix_of(&path, &path));
    assert!(!utils::entry_is_suffix_of(&strings(&["a", "b"]), &path));
    assert!(!utils::entry_is_suffix_of(&strings(&["x", "a", "b", "c"]), &path));
    assert!(!utils::entry_is_suffix_of(&strings(&["b", "C"]), &path));
}

#[test]
fn function_identifiers_are_read() {
    assert_eq!(
        utils::parse_def_id("DefId(0:4 ~ test02[fd64]::utils::foo)"),
        strings(&["test02", "utils", "foo"])
    );
    assert_eq!(
        utils::parse_def_id("DefId(2:1 ~ core[ab12]::ptr::drop_in_place)"),
        strings(&["core", "ptr", "drop_in_place"])
    );
    assert_eq!(utils::parse_def_id("x ~ a ~ b"), strings(&["a"]));
    assert_eq!(utils::parse_def_id(" ~ "), strings(&[""]));
}

#[test]
fn source_locations_are_read() {
    assert_eq!(
        utils::parse_span("src/main.rs:1:2: 3:4 (#0)"),
        Some(("src/main.rs".to_string(), (1, 3), (2, 4)))
    );
    assert_eq!(
        utils::parse_span("lib.rs:10:+5:\t12:7\u{a0}"),
        Some(("lib.rs".to_string(), (10, 12), (5, 7)))
    );
    assert_eq!(utils::parse_span("src/main.rs:1:2: 3 (#0)"), None);
    assert_eq!(utils::parse_span("src/main.rs: 1:2: 3:4 (#0)"), None);
    assert_eq!(utils::parse_span("src/main.rs:1:2: 3:x (#0)"), None);
    assert_eq!(utils::parse_span("src/main.rs:1:2::4"), None);
    assert_eq!(utils::parse_span("f:1:2:3:99999999999999999999999999"), None);
    assert_eq!(
        utils::parse_span("f:0:0:0:18446744073709551615"),
        if usize::MAX as u128 == 18446744073709551615u128 {
            Some(("f".to_string(), (0, 0), (0, usize::MAX)))
        } else {
            None
        }
    );
}

#[test]
fn text_is_compared_by_characters() {
    assert!(utils::same_text("", ""));
    assert!(utils::same_text("añb", "añb"));
    assert!(!utils::same_text("ab", "abc"));
    assert!(!utils::same_text("abc", "abd"));
}

#[test]
fn numbers_are_read_as_the_standard_library_reads_them() {
    let cases = ["0", "7", "+7", "007", "42", "", "+", "-1", "4 2", "1_0", "٣", "18446744073709551615",
        "18446744073709551616", "99999999999999999999999", "+0", "++1", "1+"];
    for text in cases {
        let chars: Vec<char> = text.chars().collect();
        assert_eq!(utils::parse_usize(&chars, 0, chars.len()), text.parse::<usize>().ok(), "{:?}", text);
    }
    let chars: Vec<char> = "ab123cd".chars().collect();
    assert_eq!(utils::parse_usize(&chars, 2, 5), Some(123));
    assert_eq!(utils::parse_usize(&chars, 2, 2), None);
    assert_eq!(utils::parse_usize(&chars, 1, 5), None);
}
