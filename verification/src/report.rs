//! How a finding is laid out for the terminal: pieces of text, each with its
//! colour, that the caller prints one after the other.

use vstd::prelude::*;
use vstd::string::*;

verus! {

/// The colours of a report.
#[derive(Clone, Copy, Debug, PartialEq, Eq, Structural)]
pub enum Color {
    Blue,
    Cyan,
    White,
    Yellow,
    /// The colour of the terminal.
    Plain,
}

/// A piece of a report: a text, its colour, and whether the line ends behind it.
#[derive(Debug)]
pub struct Segment {
    pub text: String,
    pub color: Color,
    pub end_line: bool,
}

/// A `Segment` as a mathematical value.
pub struct SegmentView {
    pub text: Seq<char>,
    pub color: Color,
    pub end_line: bool,
}

impl View for Segment {
    type V = SegmentView;

    open spec fn view(&self) -> SegmentView {
        SegmentView { text: self.text@, color: self.color, end_line: self.end_line }
    }
}

/// The pieces as mathematical values.
pub open spec fn segments_view(segments: Seq<Segment>) -> Seq<SegmentView> {
    segments.map_values(|segment: Segment| segment@)
}

/// A piece of text in a colour, without the end of a line behind it.
pub open spec fn piece(text: Seq<char>, color: Color) -> SegmentView {
    SegmentView { text, color, end_line: false }
}

/// A piece of text in a colour, with the end of a line behind it.
pub open spec fn line(text: Seq<char>, color: Color) -> SegmentView {
    SegmentView { text, color, end_line: true }
}

/// The character of a digit.
pub open spec fn digit_char(d: nat) -> char {
    if d == 0 {
        '0'
    } else if d == 1 {
        '1'
    } else if d == 2 {
        '2'
    } else if d == 3 {
        '3'
    } else if d == 4 {
        '4'
    } else if d == 5 {
        '5'
    } else if d == 6 {
        '6'
    } else if d == 7 {
        '7'
    } else if d == 8 {
        '8'
    } else {
        '9'
    }
}

/// The number in base ten.
pub open spec fn decimal_of(n: nat) -> Seq<char>
    decreases n,
{
    if n < 10 {
        seq![digit_char(n)]
    } else {
        decimal_of(n / 10).push(digit_char(n % 10))
    }
}

/// The text `n` times in a row.
pub open spec fn repeated(text: Seq<char>, n: nat) -> Seq<char>
    decreases n,
{
    if n == 0 {
        Seq::empty()
    } else {
        repeated(text, (n - 1) as nat) + text
    }
}

/// The text of a digit.
fn digit_text(d: usize) -> (text: &'static str)
    requires
        d < 10,
    ensures
        text@ == seq![digit_char(d as nat)],
{
    proof {
        reveal_strlit("0");
        reveal_strlit("1");
        reveal_strlit("2");
        reveal_strlit("3");
        reveal_strlit("4");
        reveal_strlit("5");
        reveal_strlit("6");
        reveal_strlit("7");
        reveal_strlit("8");
        reveal_strlit("9");
    }
    let text = if d == 0 {
        "0"
    } else if d == 1 {
        "1"
    } else if d == 2 {
        "2"
    } else if d == 3 {
        "3"
    } else if d == 4 {
        "4"
    } else if d == 5 {
        "5"
    } else if d == 6 {
        "6"
    } else if d == 7 {
        "7"
    } else if d == 8 {
        "8"
    } else {
        "9"
    };
    assert(text@ =~= seq![digit_char(d as nat)]);
    text
}

/// The number in base ten.
pub fn decimal(n: usize) -> (text: String)
    ensures
        text@ == decimal_of(n as nat),
    decreases n,
{
    if n < 10 {
        let mut text = String::new();
        text.append(digit_text(n));
        assert(text@ =~= decimal_of(n as nat));
        text
    } else {
        let mut text = decimal(n / 10);
        text.append(digit_text(n % 10));
        assert(text@ =~= decimal_of(n as nat));
        text
    }
}

/// The number of digits of the number in base ten.
pub fn decimal_width(n: usize) -> (width: usize)
    ensures
        width == decimal_of(n as nat).len(),
        1 <= width <= 20,
{
    let mut width: usize = 1;
    let mut rest: usize = n;
    assert(rest as nat * pow10(0) == rest as nat) by (nonlinear_arith)
        requires
            pow10(0) == 1,
    ;
    while rest >= 10
        invariant
            1 <= width,
            decimal_of(n as nat).len() == decimal_of(rest as nat).len() + width - 1,
            rest as nat * pow10((width - 1) as nat) <= n,
            width <= 20,
        decreases rest,
    {
        proof {
            lemma_pow10_step(rest as nat, (width - 1) as nat, n as nat);
        }
        rest = rest / 10;
        width = width + 1;
    }
    width
}

/// Ten to the power `k`.
pub open spec fn pow10(k: nat) -> nat
    decreases k,
{
    if k == 0 {
        1
    } else {
        10 * pow10((k - 1) as nat)
    }
}

/// A number of the machine has no more than twenty digits.
proof fn lemma_pow10_step(rest: nat, k: nat, n: nat)
    requires
        rest >= 10,
        rest * pow10(k) <= n,
        n <= usize::MAX,
        k < 20,
    ensures
        (rest / 10) * pow10(k + 1) <= n,
        k + 1 < 20,
{
    assert(pow10(k + 1) == 10 * pow10(k));
    assert((rest / 10) * (10 * pow10(k)) <= rest * pow10(k)) by (nonlinear_arith)
        requires
            rest >= 10,
            pow10(k) >= 0,
    ;
    if k + 1 >= 20 {
        lemma_pow10_19();
        assert(k == 19);
        assert(10 * pow10(19) <= rest * pow10(19)) by (nonlinear_arith)
            requires
                rest >= 10,
                pow10(19) >= 0,
        ;
    }
}

/// Ten to the power nineteen is ten million million million.
proof fn lemma_pow10_19()
    ensures
        pow10(19) == 10000000000000000000,
{
    reveal_with_fuel(pow10, 20);
}

/// The text `n` times in a row.
pub fn repeat(text: &str, n: usize) -> (row: String)
    ensures
        row@ == repeated(text@, n as nat),
{
    let mut row = String::new();
    let mut i: usize = 0;
    while i < n
        invariant
            i <= n,
            row@ == repeated(text@, i as nat),
        decreases n - i,
    {
        row.append(text);
        i = i + 1;
    }
    row
}

/// Puts a piece of text behind the pieces.
fn push_segment(segments: &mut Vec<Segment>, text: String, color: Color, end_line: bool)
    ensures
        segments_view(final(segments)@) == segments_view(old(segments)@).push(
            SegmentView { text: text@, color, end_line },
        ),
{
    let segment = Segment { text, color, end_line };
    segments.push(segment);
    assert(segments_view(segments@) =~= segments_view(old(segments)@).push(segment@));
}

/// The headline of a report: the level and a colon in yellow, the name of the
/// check in cyan, and the message in white behind a blank.
pub open spec fn level_text_of(level: Seq<char>, text: Seq<char>) -> Seq<SegmentView> {
    seq![
        piece(level + ":"@, Color::Yellow),
        piece("(memory check)"@, Color::Cyan),
        line(" "@ + text, Color::White),
    ]
}

/// The headline of a report.
pub fn output_level_text(level: &str, text: &str) -> (segments: Vec<Segment>)
    ensures
        segments_view(segments@) == level_text_of(level@, text@),
{
    let mut segments: Vec<Segment> = Vec::new();
    assert(segments_view(segments@) =~= Seq::<SegmentView>::empty());
    let mut head = String::new();
    head.append(level);
    head.append(":");
    assert(head@ =~= level@ + ":"@);
    push_segment(&mut segments, head, Color::Yellow, false);
    push_segment(&mut segments, "(memory check)".to_owned(), Color::Cyan, false);
    let mut message = String::new();
    message.append(" ");
    message.append(text);
    assert(message@ =~= " "@ + text@);
    push_segment(&mut segments, message, Color::White, true);
    assert(segments_view(segments@) =~= level_text_of(level@, text@));
    segments
}

/// What is said of a place of a finding: the event, and the variable where it is known.
pub open spec fn problem_text_of(event: Seq<char>, var_name: Option<Seq<char>>) -> Seq<char> {
    match var_name {
        Some(name) => event + " here, relative variable: "@ + name,
        None => event + " here."@,
    }
}

/// What is said of a place of a finding. The event is `first drop`, `then
/// drop` or `then dereference`.
pub fn problem_text(event: &str, var_name: &Option<String>) -> (text: String)
    ensures
        text@ == problem_text_of(event@, crate::merge::name_view(*var_name)),
{
    let mut text = String::new();
    text.append(event);
    match var_name {
        Some(name) => {
            text.append(" here, relative variable: ");
            text.append(name.as_str());
            assert(text@ =~= event@ + " here, relative variable: "@ + name@);
        },
        None => {
            text.append(" here.");
            assert(text@ =~= event@ + " here."@);
        },
    }
    text
}

/// The lines of a file from the line `line_range.0` to the line
/// `line_range.1`, the first line of the file being line 1.
pub open spec fn lines_of(all: Seq<Seq<char>>, line_range: (usize, usize), n: int) -> Seq<Seq<char>>
    decreases n,
{
    if n <= 0 {
        Seq::empty()
    } else if line_range.0 <= n <= line_range.1 {
        lines_of(all, line_range, n - 1).push(all[n - 1])
    } else {
        lines_of(all, line_range, n - 1)
    }
}

/// The lines of a file from the line `line_range.0` to the line `line_range.1`.
pub fn get_lines_in_file(all: &Vec<String>, line_range: (usize, usize)) -> (lines: Vec<String>)
    ensures
        lines.deep_view() == lines_of(all.deep_view(), line_range, all@.len() as int),
{
    let mut lines: Vec<String> = Vec::new();
    assert(lines.deep_view() =~= Seq::<Seq<char>>::empty());
    let mut i: usize = 0;
    while i < all.len()
        invariant
            i <= all.len(),
            lines.deep_view() == lines_of(all.deep_view(), line_range, i as int),
        decreases all.len() - i,
    {
        let number = i + 1;
        if number >= line_range.0 && number <= line_range.1 {
            let ghost before = lines.deep_view();
            lines.push(all[i].clone());
            assert(lines.deep_view() =~= before.push(all.deep_view()[i as int]));
        }
        i = i + 1;
    }
    lines
}

/// The larger of the numbers of digits of the two line numbers.
pub open spec fn line_width(line_range: (usize, usize)) -> nat {
    let first = decimal_of(line_range.0 as nat).len();
    let last = decimal_of(line_range.1 as nat).len();
    if first >= last {
        first
    } else {
        last
    }
}

/// The first column to mark in the line with the number `number`: that of
/// the place in its first line, the first column in every other.
pub open spec fn first_column(line_range: (usize, usize), col_range: (usize, usize), number: int) -> int {
    if number == line_range.0 {
        col_range.0 as int
    } else {
        1
    }
}

/// The last column to mark in the line `text` with the number `number`: that
/// of the place in its last line, the length of the line in bytes in every other.
pub open spec fn last_column(
    line_range: (usize, usize),
    col_range: (usize, usize),
    number: int,
    text: Seq<char>,
) -> int {
    if number == line_range.1 {
        col_range.1 as int
    } else {
        vstd::utf8::encode_utf8(text).len() as int
    }
}

/// Whether the line at position `i` can be marked: its number is a number of
/// the machine, its first column to mark is not column 0, and its last column
/// to mark is not more than one before the first.
pub open spec fn can_mark(
    lines: Seq<Seq<char>>,
    line_range: (usize, usize),
    col_range: (usize, usize),
    i: int,
) -> bool {
    let number = i + line_range.0;
    &&& number <= usize::MAX
    &&& 1 <= first_column(line_range, col_range, number)
    &&& first_column(line_range, col_range, number) <= last_column(
        line_range,
        col_range,
        number,
        lines[i],
    ) + 1
}

/// The gutter of a report: blanks of the width of the line numbers and one
/// more, a bar and a blank.
pub open spec fn gutter(line_range: (usize, usize)) -> Seq<char> {
    repeated(" "@, line_width(line_range) + 1) + "| "@
}

/// The report of the line at position `i`: its number, a bar and the line;
/// below it the gutter and carets under the marked columns, with the message
/// behind them if the line is the last of the place; and an empty gutter.
pub open spec fn marked_line(
    lines: Seq<Seq<char>>,
    line_range: (usize, usize),
    col_range: (usize, usize),
    problem_text: Seq<char>,
    i: int,
) -> Seq<SegmentView> {
    let number = i + line_range.0;
    let first = first_column(line_range, col_range, number);
    let last = last_column(line_range, col_range, number, lines[i]);
    seq![
        piece(decimal_of(number as nat) + " | "@, Color::Blue),
        line(lines[i], Color::White),
        piece(gutter(line_range), Color::Blue),
        piece(
            repeated(" "@, (first - 1) as nat) + repeated("^"@, (last - first + 1) as nat) + " "@,
            Color::Yellow,
        ),
    ] + (if number == line_range.1 {
        seq![piece(problem_text, Color::Yellow)]
    } else {
        Seq::empty()
    }) + seq![line(Seq::empty(), Color::White), line(gutter(line_range), Color::Blue)]
}

/// The reports of the first `n` lines.
pub open spec fn marked_lines(
    lines: Seq<Seq<char>>,
    line_range: (usize, usize),
    col_range: (usize, usize),
    problem_text: Seq<char>,
    n: int,
) -> Seq<SegmentView>
    decreases n,
{
    if n <= 0 {
        Seq::empty()
    } else {
        marked_lines(lines, line_range, col_range, problem_text, n - 1) + marked_line(
            lines,
            line_range,
            col_range,
            problem_text,
            n - 1,
        )
    }
}

/// The report of a place in the source: an arrow with the file, the first
/// line and the first column; an empty gutter; and the report of every line.
pub open spec fn code_and_problem_info_of(
    filename: Seq<char>,
    line_range: (usize, usize),
    col_range: (usize, usize),
    problem_text: Seq<char>,
    lines: Seq<Seq<char>>,
) -> Seq<SegmentView> {
    seq![
        piece(repeated(" "@, line_width(line_range)) + "--> "@, Color::Blue),
        line(
            filename + ":"@ + decimal_of(line_range.0 as nat) + ":"@ + decimal_of(
                col_range.0 as nat,
            ),
            Color::White,
        ),
        line(gutter(line_range), Color::Blue),
    ] + marked_lines(lines, line_range, col_range, problem_text, lines.len() as int)
}

/// The gutter of a report.
fn gutter_text(width: usize) -> (text: String)
    requires
        width <= 20,
    ensures
        text@ == repeated(" "@, (width + 1) as nat) + "| "@,
{
    let mut text = repeat(" ", width + 1);
    text.append("| ");
    text
}

/// The report of the line at position `i`, if the line can be marked.
fn mark_line(
    lines: &Vec<String>,
    i: usize,
    line_range: (usize, usize),
    col_range: (usize, usize),
    problem_text: &str,
    width: usize,
) -> (report: Option<Vec<Segment>>)
    requires
        i < lines@.len(),
        width == line_width(line_range),
        width <= 20,
    ensures
        match report {
            Some(segments) => can_mark(lines.deep_view(), line_range, col_range, i as int)
                && segments_view(segments@) == marked_line(
                lines.deep_view(),
                line_range,
                col_range,
                problem_text@,
                i as int,
            ),
            None => !can_mark(lines.deep_view(), line_range, col_range, i as int),
        },
{
    if i > usize::MAX - line_range.0 {
        return None;
    }
    let number = i + line_range.0;
    let text = &lines[i];
    assert(lines.deep_view()[i as int] == text@);
    let first = if number == line_range.0 { col_range.0 } else { 1 };
    let bytes = text.as_str().as_bytes().len();
    assert(bytes == vstd::utf8::encode_utf8(text@).len());
    let last = if number == line_range.1 { col_range.1 } else { bytes };
    assert(first == first_column(line_range, col_range, number as int));
    assert(last == last_column(line_range, col_range, number as int, text@));
    if first < 1 || (last < usize::MAX && first > last + 1) {
        return None;
    }
    let mut segments: Vec<Segment> = Vec::new();
    assert(segments_view(segments@) =~= Seq::<SegmentView>::empty());
    let mut numbered = decimal(number);
    numbered.append(" | ");
    push_segment(&mut segments, numbered, Color::Blue, false);
    push_segment(&mut segments, text.clone(), Color::White, true);
    push_segment(&mut segments, gutter_text(width), Color::Blue, false);
    let carets: usize = if last < usize::MAX { last + 1 - first } else { last - first + 1 };
    let mut marks = repeat(" ", first - 1);
    marks.append(repeat("^", carets).as_str());
    marks.append(" ");
    push_segment(&mut segments, marks, Color::Yellow, false);
    if number == line_range.1 {
        push_segment(&mut segments, problem_text.to_owned(), Color::Yellow, false);
    }
    push_segment(&mut segments, String::new(), Color::White, true);
    push_segment(&mut segments, gutter_text(width), Color::Blue, true);
    assert(segments_view(segments@) =~= marked_line(
        lines.deep_view(),
        line_range,
        col_range,
        problem_text@,
        i as int,
    ));
    Some(segments)
}

/// The first pieces of the report of a place: the arrow with the file, the
/// first line and the first column, and an empty gutter.
fn place_head(filename: &str, line_range: (usize, usize), col_range: (usize, usize), width: usize) -> (segments:
    Vec<Segment>)
    requires
        width == line_width(line_range),
        width <= 20,
    ensures
        segments_view(segments@) == code_and_problem_info_of(
            filename@,
            line_range,
            col_range,
            Seq::empty(),
            Seq::empty(),
        ),
{
    let mut segments: Vec<Segment> = Vec::new();
    assert(segments_view(segments@) =~= Seq::<SegmentView>::empty());
    let mut arrow = repeat(" ", width);
    arrow.append("--> ");
    push_segment(&mut segments, arrow, Color::Blue, false);
    let mut place = String::new();
    place.append(filename);
    place.append(":");
    place.append(decimal(line_range.0).as_str());
    place.append(":");
    place.append(decimal(col_range.0).as_str());
    assert(place@ =~= filename@ + ":"@ + decimal_of(line_range.0 as nat) + ":"@ + decimal_of(
        col_range.0 as nat,
    ));
    push_segment(&mut segments, place, Color::White, true);
    push_segment(&mut segments, gutter_text(width), Color::Blue, true);
    assert(segments_view(segments@) =~= code_and_problem_info_of(
        filename@,
        line_range,
        col_range,
        Seq::empty(),
        Seq::empty(),
    ));
    segments
}

/// The report of a place in the source, with the lines of the file from the
/// first to the last line of the place, and what is said of the place. There
/// is none where a line cannot be marked.
pub fn output_code_and_problem_info(
    filename: &str,
    line_range: (usize, usize),
    col_range: (usize, usize),
    problem_text: &str,
    lines: &Vec<String>,
) -> (report: Option<Vec<Segment>>)
    ensures
        match report {
            Some(segments) => (forall|i: int|
                0 <= i < lines@.len() ==> can_mark(lines.deep_view(), line_range, col_range, i))
                && segments_view(segments@) == code_and_problem_info_of(
                filename@,
                line_range,
                col_range,
                problem_text@,
                lines.deep_view(),
            ),
            None => exists|i: int|
                0 <= i < lines@.len() && !can_mark(lines.deep_view(), line_range, col_range, i),
        },
{
    let first_width = decimal_width(line_range.0);
    let last_width = decimal_width(line_range.1);
    let width = if first_width >= last_width { first_width } else { last_width };
    let mut segments = place_head(filename, line_range, col_range, width);
    let ghost head = segments_view(segments@);
    assert(head + marked_lines(lines.deep_view(), line_range, col_range, problem_text@, 0) =~= head);
    let mut i: usize = 0;
    while i < lines.len()
        invariant
            i <= lines.len(),
            width == line_width(line_range),
            width <= 20,
            forall|k: int| 0 <= k < i ==> can_mark(lines.deep_view(), line_range, col_range, k),
            segments_view(segments@) == head + marked_lines(
                lines.deep_view(),
                line_range,
                col_range,
                problem_text@,
                i as int,
            ),
        decreases lines.len() - i,
    {
        match mark_line(lines, i, line_range, col_range, problem_text, width) {
            Some(mut more) => {
                let ghost before = segments_view(segments@);
                let ghost added = segments_view(more@);
                segments.append(&mut more);
                assert(segments_view(segments@) =~= before + added);
                assert((head + marked_lines(
                    lines.deep_view(),
                    line_range,
                    col_range,
                    problem_text@,
                    i as int,
                )) + added =~= head + marked_lines(
                    lines.deep_view(),
                    line_range,
                    col_range,
                    problem_text@,
                    i + 1,
                ));
            },
            None => {
                return None;
            },
        }
        i = i + 1;
    }
    assert(head =~= seq![
        piece(repeated(" "@, line_width(line_range)) + "--> "@, Color::Blue),
        line(
            filename@ + ":"@ + decimal_of(line_range.0 as nat) + ":"@ + decimal_of(
                col_range.0 as nat,
            ),
            Color::White,
        ),
        line(gutter(line_range), Color::Blue),
    ]);
    Some(segments)
}


/// The numbered lines of a short report: for each of the first `n` lines its
/// number, a bar and the line.
pub open spec fn numbered_lines(lines: Seq<Seq<char>>, first_line: usize, n: int) -> Seq<SegmentView>
    decreases n,
{
    if n <= 0 {
        Seq::empty()
    } else {
        numbered_lines(lines, first_line, n - 1) + seq![
            piece(decimal_of((n - 1 + first_line) as nat), Color::Blue),
            piece(" "@, Color::Plain),
            piece("|"@, Color::Blue),
            line(lines[n - 1], Color::Plain),
        ]
    }
}

/// A bar below the line numbers.
pub open spec fn bar(line_range: (usize, usize)) -> Seq<SegmentView> {
    seq![
        piece(repeated(" "@, line_width(line_range)) + " "@, Color::Plain),
        line("|"@, Color::Blue),
    ]
}

/// The short report of a place in the source: an arrow with the file, the
/// first line and the first column; the lines with their numbers; carets
/// from the first column to the one before the last, with the label behind
/// them; and an empty line.
pub open spec fn snippet_of(
    filename: Seq<char>,
    line_range: (usize, usize),
    col_range: (usize, usize),
    label: Seq<char>,
    lines: Seq<Seq<char>>,
) -> Seq<SegmentView> {
    seq![
        piece(repeated(" "@, line_width(line_range)), Color::Plain),
        piece("--> "@, Color::Blue),
        line(
            " "@ + filename + ":"@ + decimal_of(line_range.0 as nat) + ":"@ + decimal_of(
                col_range.0 as nat,
            ),
            Color::Plain,
        ),
    ] + bar(line_range) + numbered_lines(lines, line_range.0, lines.len() as int) + seq![
        piece(repeated(" "@, line_width(line_range)) + " "@, Color::Plain),
        piece("|"@, Color::Blue),
        piece(repeated(" "@, (col_range.0 - 1) as nat), Color::Plain),
        piece(repeated("^"@, (col_range.1 - col_range.0) as nat), Color::Yellow),
        piece(" "@, Color::Plain),
        line(label, Color::Yellow),
    ] + bar(line_range) + seq![line(Seq::empty(), Color::Plain)]
}

/// Whether a short report can be made: the first column is not column 0 and
/// not behind the last, and every line has a number of the machine.
pub open spec fn can_show(line_range: (usize, usize), col_range: (usize, usize), lines: nat) -> bool {
    1 <= col_range.0 <= col_range.1 && (lines == 0 || lines - 1 + line_range.0 <= usize::MAX)
}

/// Puts a bar below the line numbers behind the pieces.
fn push_bar(segments: &mut Vec<Segment>, line_range: (usize, usize), width: usize)
    requires
        width == line_width(line_range),
    ensures
        segments_view(final(segments)@) == segments_view(old(segments)@) + bar(line_range),
{
    let mut indent = repeat(" ", width);
    indent.append(" ");
    push_segment(segments, indent, Color::Plain, false);
    push_segment(segments, "|".to_owned(), Color::Blue, true);
    assert(segments_view(segments@) =~= segments_view(old(segments)@) + bar(line_range));
}

/// The short report of a place in the source, with the lines of the file
/// from the first to the last line of the place and the label of the place.
/// There is none where it cannot be made.
pub fn output_snippet(
    filename: &str,
    line_range: (usize, usize),
    col_range: (usize, usize),
    label: &str,
    lines: &Vec<String>,
) -> (report: Option<Vec<Segment>>)
    ensures
        match report {
            Some(segments) => can_show(line_range, col_range, lines@.len()) && segments_view(
                segments@,
            ) == snippet_of(filename@, line_range, col_range, label@, lines.deep_view()),
            None => !can_show(line_range, col_range, lines@.len()),
        },
{
    if col_range.0 < 1 || col_range.0 > col_range.1 {
        return None;
    }
    if lines.len() > 0 && lines.len() - 1 > usize::MAX - line_range.0 {
        return None;
    }
    let first_width = decimal_width(line_range.0);
    let last_width = decimal_width(line_range.1);
    let width = if first_width >= last_width { first_width } else { last_width };
    let mut segments: Vec<Segment> = Vec::new();
    assert(segments_view(segments@) =~= Seq::<SegmentView>::empty());
    push_segment(&mut segments, repeat(" ", width), Color::Plain, false);
    push_segment(&mut segments, "--> ".to_owned(), Color::Blue, false);
    let mut place = String::new();
    place.append(" ");
    place.append(filename);
    place.append(":");
    place.append(decimal(line_range.0).as_str());
    place.append(":");
    place.append(decimal(col_range.0).as_str());
    assert(place@ =~= " "@ + filename@ + ":"@ + decimal_of(line_range.0 as nat) + ":"@
        + decimal_of(col_range.0 as nat));
    push_segment(&mut segments, place, Color::Plain, true);
    push_bar(&mut segments, line_range, width);
    let ghost head = segments_view(segments@);
    assert(head + numbered_lines(lines.deep_view(), line_range.0, 0) =~= head);
    let mut i: usize = 0;
    while i < lines.len()
        invariant
            i <= lines.len(),
            lines@.len() == 0 || lines@.len() - 1 + line_range.0 <= usize::MAX,
            segments_view(segments@) == head + numbered_lines(
                lines.deep_view(),
                line_range.0,
                i as int,
            ),
        decreases lines.len() - i,
    {
        let ghost before = segments_view(segments@);
        push_segment(&mut segments, decimal(i + line_range.0), Color::Blue, false);
        push_segment(&mut segments, " ".to_owned(), Color::Plain, false);
        push_segment(&mut segments, "|".to_owned(), Color::Blue, false);
        push_segment(&mut segments, lines[i].clone(), Color::Plain, true);
        assert(segments_view(segments@) =~= before + seq![
            piece(decimal_of((i + line_range.0) as nat), Color::Blue),
            piece(" "@, Color::Plain),
            piece("|"@, Color::Blue),
            line(lines.deep_view()[i as int], Color::Plain),
        ]);
        assert((head + numbered_lines(lines.deep_view(), line_range.0, i as int)) + seq![
            piece(decimal_of((i + line_range.0) as nat), Color::Blue),
            piece(" "@, Color::Plain),
            piece("|"@, Color::Blue),
            line(lines.deep_view()[i as int], Color::Plain),
        ] =~= head + numbered_lines(lines.deep_view(), line_range.0, i + 1));
        i = i + 1;
    }
    let ghost body = segments_view(segments@);
    let mut indent = repeat(" ", width);
    indent.append(" ");
    push_segment(&mut segments, indent, Color::Plain, false);
    push_segment(&mut segments, "|".to_owned(), Color::Blue, false);
    push_segment(&mut segments, repeat(" ", col_range.0 - 1), Color::Plain, false);
    push_segment(&mut segments, repeat("^", col_range.1 - col_range.0), Color::Yellow, false);
    push_segment(&mut segments, " ".to_owned(), Color::Plain, false);
    push_segment(&mut segments, label.to_owned(), Color::Yellow, true);
    push_bar(&mut segments, line_range, width);
    push_segment(&mut segments, String::new(), Color::Plain, true);
    assert(segments_view(segments@) =~= snippet_of(
        filename@,
        line_range,
        col_range,
        label@,
        lines.deep_view(),
    ));
    Some(segments)
}

} // verus!
