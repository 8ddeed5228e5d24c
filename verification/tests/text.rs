use rust_memory_check::text;

fn chars(s: &str) -> Vec<char> {
    s.chars().collect()
}

fn strings(items: &[&str]) -> Vec<String> {
    items.iter().map(|s| s.to_string()).collect()
}

#[test]
fn texts_are_cut_like_the_standard_library_cuts_them() {
    let cases = [
        ("a,b", ","),
        ("", ","),
        (",", ","),
        ("a,,b,", ","),
        ("a::b::c", "::"),
        ("a:::b", "::"),
        (":::::", "::"),
        ("abcabcab", "bca"),
        ("ααβαα", "β"),
    ];
    for (s, pat) in cases {
        let expected: Vec<String> = s.split(pat).map(|p| p.to_string()).collect();
        assert_eq!(text::split_str(s, pat), expected);
    }
}

#[test]
fn ranges_of_pieces() {
    assert_eq!(text::split_ranges(&chars("ab--c--"), &chars("--")), vec![(0, 2), (4, 5), (7, 7)]);
    assert_eq!(text::split_ranges(&chars("abc"), &chars("x")), vec![(0, 3)]);
    assert_eq!(text::pieces("héllo", &vec![(0, 2), (2, 5)]), strings(&["hé", "llo"]));
}

#[test]
fn patterns_are_found() {
    let s = chars("hello world");
    assert!(text::has_match_at(&s, &chars("world"), 6));
    assert!(!text::has_match_at(&s, &chars("world"), 5));
    assert!(!text::has_match_at(&s, &chars("world"), 7));
    assert!(text::has_match_at(&s, &chars(""), 11));
    assert!(!text::has_match_at(&s, &chars(""), 12));
    assert!(text::chars_start_with(&s, &chars("hell")));
    assert!(!text::chars_start_with(&s, &chars("ello")));
    assert!(text::chars_end_with(&s, &chars("rld")));
    assert!(!text::chars_end_with(&s, &chars("hello world!")));
    assert_eq!(text::find_from(&s, &chars("o"), 0), Some(4));
    assert_eq!(text::find_from(&s, &chars("o"), 5), Some(7));
    assert_eq!(text::find_from(&s, &chars("o"), 8), None);
}

#[test]
fn segments_are_joined() {
    assert_eq!(text::join_chars(&strings(&["a", "b", "c"]), "::"), chars("a::b::c"));
    assert_eq!(text::join_chars(&strings(&["a"]), "::"), chars("a"));
    assert_eq!(text::join_chars(&strings(&[]), "::"), chars(""));
    assert_eq!(text::join_chars(&strings(&["", ""]), "-"), chars("-"));
    assert_eq!(text::to_chars("añ"), vec!['a', 'ñ']);
    let mut v = chars("ab");
    text::push_all(&mut v, &chars("cd"));
    assert_eq!(v, chars("abcd"));
}
