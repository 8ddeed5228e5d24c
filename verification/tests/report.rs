use rust_memory_check::report::{
    decimal, decimal_width, get_lines_in_file, output_code_and_problem_info, output_level_text,
    output_snippet, problem_text, repeat, Color, Segment,
};
use rust_memory_check::text::replace_all;
use rust_memory_check::utils::{log_config, CONFIG_FILENAME, LOG4RS_CONFIG_YAML, LOG_FILENAME};

fn strings(items: &[&str]) -> Vec<String> {
    items.iter().map(|s| s.to_string()).collect()
}

fn plain(segments: &[Segment]) -> Vec<(String, Color, bool)> {
    segments.iter().map(|s| (s.text.clone(), s.color, s.end_line)).collect()
}

fn printed(segments: &[Segment]) -> String {
    let mut out = String::new();
    for segment in segments {
        out.push_str(&segment.text);
        if segment.end_line {
            out.push('\n');
        }
    }
    out
}

fn piece(text: &str, color: Color) -> (String, Color, bool) {
    (text.to_string(), color, false)
}

fn line(text: &str, color: Color) -> (String, Color, bool) {
    (text.to_string(), color, true)
}

#[test]
fn numbers_are_written_in_base_ten() {
    for n in [0usize, 1, 9, 10, 11, 99, 100, 101, 12345, 1_000_000, usize::MAX - 1, usize::MAX] {
        assert_eq!(decimal(n), n.to_string());
        assert_eq!(decimal_width(n), n.to_string().len());
    }
    assert_eq!(decimal(407), "407");
    assert_eq!(decimal_width(407), 3);
}

#[test]
fn a_text_is_repeated() {
    assert_eq!(repeat("^", 0), "");
    assert_eq!(repeat("^", 3), "^^^");
    assert_eq!(repeat("ab", 2), "abab");
    assert_eq!(repeat("", 5), "");
}

#[test]
fn the_headline_has_three_pieces() {
    let segments = output_level_text("warning", "use after free memory bug may exists");
    assert_eq!(
        plain(&segments),
        vec![
            piece("warning:", Color::Yellow),
            piece("(memory check)", Color::Cyan),
            line(" use after free memory bug may exists", Color::White),
        ]
    );
}

#[test]
fn a_place_is_described_with_its_variable_where_it_is_known() {
    assert_eq!(
        problem_text("first drop", &Some("x".to_string())),
        "first drop here, relative variable: x"
    );
    assert_eq!(problem_text("first drop", &None), "first drop here.");
    assert_eq!(
        problem_text("then dereference", &Some("p".to_string())),
        "then dereference here, relative variable: p"
    );
    assert_eq!(problem_text("then drop", &None), "then drop here.");
}

#[test]
fn lines_are_counted_from_one() {
    let all = strings(&["one", "two", "three", "four"]);
    assert_eq!(get_lines_in_file(&all, (2, 3)), strings(&["two", "three"]));
    assert_eq!(get_lines_in_file(&all, (1, 1)), strings(&["one"]));
    assert_eq!(get_lines_in_file(&all, (4, 9)), strings(&["four"]));
    assert_eq!(get_lines_in_file(&all, (0, 1)), strings(&["one"]));
    assert_eq!(get_lines_in_file(&all, (3, 2)), Vec::<String>::new());
    assert_eq!(get_lines_in_file(&all, (5, 6)), Vec::<String>::new());
    assert_eq!(get_lines_in_file(&Vec::new(), (1, 2)), Vec::<String>::new());
}

#[test]
fn a_place_in_one_line_is_marked() {
    let lines = strings(&["    drop(x);"]);
    let segments =
        output_code_and_problem_info("src/main.rs", (7, 7), (5, 11), "first drop here.", &lines)
            .unwrap();
    assert_eq!(
        plain(&segments),
        vec![
            piece(" --> ", Color::Blue),
            line("src/main.rs:7:5", Color::White),
            line("  | ", Color::Blue),
            piece("7 | ", Color::Blue),
            line("    drop(x);", Color::White),
            piece("  | ", Color::Blue),
            piece("    ^^^^^^^ ", Color::Yellow),
            piece("first drop here.", Color::Yellow),
            line("", Color::White),
            line("  | ", Color::Blue),
        ]
    );
}

#[test]
fn a_place_over_several_lines_is_marked_line_by_line() {
    let lines = strings(&["let v = f(", "    a,", ");"]);
    let segments =
        output_code_and_problem_info("lib.rs", (9, 11), (9, 2), "then drop here.", &lines).unwrap();
    let expected = [
        "  --> lib.rs:9:9",
        "   | ",
        "9 | let v = f(",
        "   |         ^^ ",
        "   | ",
        "10 |     a,",
        "   | ^^^^^^ ",
        "   | ",
        "11 | );",
        "   | ^^ then drop here.",
        "   | ",
        "",
    ];
    assert_eq!(printed(&segments), expected.join("\n"));
    assert_eq!(segments.len(), 3 + 6 + 6 + 7);
}

#[test]
fn a_place_that_cannot_be_marked_has_no_report() {
    let lines = strings(&["abc"]);
    assert!(output_code_and_problem_info("f.rs", (1, 1), (0, 2), "t", &lines).is_none());
    assert!(output_code_and_problem_info("f.rs", (1, 1), (4, 2), "t", &lines).is_none());
    assert!(output_code_and_problem_info("f.rs", (1, 1), (3, 2), "t", &lines).is_some());
    let two = strings(&["abc", "de"]);
    assert!(output_code_and_problem_info("f.rs", (1, 2), (5, 1), "t", &two).is_none());
    assert!(output_code_and_problem_info("f.rs", (usize::MAX, usize::MAX), (1, 1), "t", &two)
        .is_none());
    let none = output_code_and_problem_info("f.rs", (3, 4), (1, 1), "t", &Vec::new()).unwrap();
    assert_eq!(printed(&none), " --> f.rs:3:1\n  | \n");
}

#[test]
fn a_short_report_has_its_carets_before_the_last_column() {
    let lines = strings(&["    drop(x);"]);
    let segments = output_snippet("src/main.rs", (7, 7), (5, 11), " first drop here", &lines)
        .unwrap();
    assert_eq!(
        plain(&segments),
        vec![
            piece(" ", Color::Plain),
            piece("--> ", Color::Blue),
            line(" src/main.rs:7:5", Color::Plain),
            piece("  ", Color::Plain),
            line("|", Color::Blue),
            piece("7", Color::Blue),
            piece(" ", Color::Plain),
            piece("|", Color::Blue),
            line("    drop(x);", Color::Plain),
            piece("  ", Color::Plain),
            piece("|", Color::Blue),
            piece("    ", Color::Plain),
            piece("^^^^^^", Color::Yellow),
            piece(" ", Color::Plain),
            line(" first drop here", Color::Yellow),
            piece("  ", Color::Plain),
            line("|", Color::Blue),
            line("", Color::Plain),
        ]
    );
}

#[test]
fn a_short_report_numbers_its_lines() {
    let lines = strings(&["a(", "b)"]);
    let segments = output_snippet("m.rs", (99, 100), (1, 3), " then drop here", &lines).unwrap();
    let expected = [
        "   -->  m.rs:99:1",
        "    |",
        "99 |a(",
        "100 |b)",
        "    |^^  then drop here",
        "    |",
        "",
        "",
    ];
    assert_eq!(printed(&segments), expected.join("\n"));
}

#[test]
fn a_short_report_needs_a_first_column_before_the_last() {
    let lines = strings(&["abc"]);
    assert!(output_snippet("f.rs", (1, 1), (0, 2), "t", &lines).is_none());
    assert!(output_snippet("f.rs", (1, 1), (3, 2), "t", &lines).is_none());
    assert!(output_snippet("f.rs", (1, 1), (2, 2), "t", &lines).is_some());
    let two = strings(&["abc", "de"]);
    assert!(output_snippet("f.rs", (usize::MAX, usize::MAX), (1, 1), "t", &two).is_none());
    assert!(output_snippet("f.rs", (usize::MAX, usize::MAX), (1, 1), "t", &lines).is_some());
}

#[test]
fn every_occurrence_is_replaced() {
    let cases = [
        ("a{$X}b{$X}", "{$X}", "1"),
        ("", "x", "y"),
        ("xxx", "x", ""),
        ("aaaa", "aa", "b"),
        ("aaa", "aa", "b"),
        ("no match", "zz", "q"),
        ("abcabc", "abc", "abcabc"),
    ];
    for (s, pat, with) in cases {
        assert_eq!(replace_all(s, pat, with), s.replace(pat, with));
    }
    assert_eq!(replace_all("a-b-c", "-", "+"), "a+b+c");
}

#[test]
fn the_configuration_of_the_log_names_the_file_and_the_level() {
    let config = log_config("/tmp/out.log", "debug");
    assert_eq!(
        config,
        LOG4RS_CONFIG_YAML.replace("{$PATH}", "/tmp/out.log").replace("{$LEVEL}", "debug")
    );
    assert!(config.contains("    path: \"/tmp/out.log\"\n"));
    assert!(config.contains("  level: debug\n"));
    assert!(!config.contains("{$PATH}"));
    assert!(!config.contains("{$LEVEL}"));
    assert_eq!(CONFIG_FILENAME, "mc-log4rs-config.yaml");
    assert_eq!(LOG_FILENAME, "mc-log4rs-output.log");
}
