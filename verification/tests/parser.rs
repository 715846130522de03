use course_planner::text::chars_of;
use course_planner::text::is_whitespace;
use course_planner::parser::parse_line;
use course_planner::parser::parse_raw_line;
use course_planner::parser::parse_source;
use course_planner::parser::Parser;

fn strings(fields: &[&str]) -> Vec<String> {
    fields.iter().map(|f| f.to_string()).collect()
}

fn with_mark(text: &str) -> Vec<u8> {
    let mut bytes = vec![0xEF, 0xBB, 0xBF];
    bytes.extend_from_slice(text.as_bytes());
    bytes
}

#[test]
fn parser_keeps_the_name_of_its_source() {
    let parser = Parser::new("ABCU_Advising_Program_Input.txt");
    assert_eq!(parser.filename(), "ABCU_Advising_Program_Input.txt");
}

#[test]
fn white_space_is_what_the_standard_library_calls_white_space() {
    for code in 0..=0x10FFFFu32 {
        if let Some(c) = char::from_u32(code) {
            assert_eq!(is_whitespace(c), c.is_whitespace(), "U+{:04X}", code);
        }
    }
}

#[test]
fn white_space_by_example() {
    assert!(is_whitespace(' '));
    assert!(is_whitespace('\t'));
    assert!(is_whitespace('\n'));
    assert!(is_whitespace('\r'));
    assert!(is_whitespace('\u{a0}'));
    assert!(is_whitespace('\u{3000}'));
    assert!(!is_whitespace('a'));
    assert!(!is_whitespace(','));
    assert!(!is_whitespace('\u{200b}'));
    assert!(!is_whitespace('\u{feff}'));
}

#[test]
fn chars_of_a_text() {
    assert_eq!(chars_of(""), Vec::<char>::new());
    assert_eq!(chars_of("a\u{e9}\u{10000}"), vec!['a', '\u{e9}', '\u{10000}']);
}

#[test]
fn a_line_is_cut_at_its_commas() {
    assert_eq!(
        parse_line("CSCI200,Data Structures,CSCI101,MATH201"),
        strings(&["CSCI200", "Data Structures", "CSCI101", "MATH201"])
    );
    assert_eq!(parse_line("CSCI100,Intro to CS"), strings(&["CSCI100", "Intro to CS"]));
}

#[test]
fn a_line_without_a_comma_is_one_field() {
    assert_eq!(parse_line("CSCI100"), strings(&["CSCI100"]));
    assert_eq!(parse_line(""), strings(&[""]));
    assert_eq!(parse_line("   "), strings(&[""]));
}

#[test]
fn empty_fields_are_kept() {
    assert_eq!(parse_line(","), strings(&["", ""]));
    assert_eq!(parse_line("a,,b"), strings(&["a", "", "b"]));
    assert_eq!(parse_line("a,b,"), strings(&["a", "b", ""]));
    assert_eq!(parse_line(",a"), strings(&["", "a"]));
}

#[test]
fn only_the_ends_of_a_line_are_trimmed() {
    assert_eq!(parse_line("  a , b  "), strings(&["a ", " b"]));
    assert_eq!(parse_line("\ta,b\r"), strings(&["a", "b"]));
    assert_eq!(parse_line("\u{a0}a,b\u{3000}"), strings(&["a", "b"]));
    assert_eq!(parse_line(" , "), strings(&["", ""]));
}

#[test]
fn a_line_may_hold_any_characters() {
    assert_eq!(
        parse_line("\u{e9}t\u{e9},\u{10000}x,\u{4e2d}\u{6587}"),
        strings(&["\u{e9}t\u{e9}", "\u{10000}x", "\u{4e2d}\u{6587}"])
    );
}

#[test]
fn parse_line_agrees_with_trim_and_split() {
    let samples = [
        "", " ", ",", ",,", "a", " a", "a ", "a,b", " a , b ", "a,,b,", "\r\n", "x\r",
        "\u{2003}q,\u{e9}\u{2003}", "CSCI200,Data Structures,CSCI101,MATH201", ", ,",
    ];
    for s in samples.iter() {
        let expected: Vec<String> = s.trim().split(',').map(|f| f.to_string()).collect();
        assert_eq!(parse_line(s), expected);
    }
}

#[test]
fn a_raw_line_of_text_is_read() {
    assert_eq!(parse_raw_line(b"a,b"), Some(strings(&["a", "b"])));
    assert_eq!(parse_raw_line(b""), Some(strings(&[""])));
    assert_eq!(
        parse_raw_line("\u{e9},\u{10000}".as_bytes()),
        Some(strings(&["\u{e9}", "\u{10000}"]))
    );
}

#[test]
fn a_raw_line_that_is_not_text_is_not_read() {
    assert_eq!(parse_raw_line(&[0xFF]), None);
    assert_eq!(parse_raw_line(&[b'a', b',', 0xC3]), None);
    assert_eq!(parse_raw_line(&[0xED, 0xA0, 0x80]), None);
    assert_eq!(parse_raw_line(&[0xC0, 0x80]), None);
}

#[test]
fn an_empty_source_has_no_rows() {
    assert!(parse_source(&[]).is_empty());
}

#[test]
fn a_source_of_nothing_but_the_mark_has_no_rows() {
    assert!(parse_source(&[0xEF, 0xBB, 0xBF]).is_empty());
}

#[test]
fn a_source_may_begin_without_a_mark() {
    assert_eq!(parse_source(b"abcdef,g"), vec![strings(&["abcdef", "g"])]);
    assert_eq!(parse_source(b"a\nbc,d"), vec![strings(&["a"]), strings(&["bc", "d"])]);
    assert_eq!(parse_source(b"x"), vec![strings(&["x"])]);
    assert_eq!(
        parse_source(b"CSCI200,Data Structures,CSCI101,MATH201"),
        vec![strings(&["CSCI200", "Data Structures", "CSCI101", "MATH201"])]
    );
}

#[test]
fn a_mark_is_passed_over() {
    assert_eq!(parse_source(&with_mark("abcdef,g")), vec![strings(&["abcdef", "g"])]);
    assert_eq!(parse_source(&with_mark("x")), vec![strings(&["x"])]);
}

#[test]
fn only_one_mark_is_passed_over() {
    let twice = with_mark("\u{feff}a,b");
    assert_eq!(parse_source(&twice), vec![strings(&["\u{feff}a", "b"])]);
}

#[test]
fn a_broken_mark_is_a_line_that_is_not_text() {
    assert!(parse_source(&[0xEF]).is_empty());
    assert!(parse_source(&[0xEF, 0xBB]).is_empty());
    assert_eq!(parse_source(&[0xEF, 0xBB, b'\n', b'a']), vec![strings(&["a"])]);
    assert_eq!(parse_source(&[0xFF, 0xFF, 0xFF, b'\n', b'x']), vec![strings(&["x"])]);
}

#[test]
fn a_source_is_cut_into_lines() {
    let source = with_mark("CSCI100,Intro to CS\nCSCI101,Intro to Programming,CSCI100\n");
    assert_eq!(
        parse_source(&source),
        vec![
            strings(&["CSCI100", "Intro to CS"]),
            strings(&["CSCI101", "Intro to Programming", "CSCI100"]),
        ]
    );
}

#[test]
fn the_last_line_needs_no_line_feed() {
    let source = with_mark("a,b\nc,d");
    assert_eq!(parse_source(&source), vec![strings(&["a", "b"]), strings(&["c", "d"])]);
}

#[test]
fn carriage_returns_are_dropped() {
    let source = with_mark("a,b\r\nc,d\r\n");
    assert_eq!(parse_source(&source), vec![strings(&["a", "b"]), strings(&["c", "d"])]);
}

#[test]
fn blank_lines_are_rows_of_one_empty_field() {
    let source = with_mark("a,b\n\n  \nc,d\n");
    assert_eq!(
        parse_source(&source),
        vec![strings(&["a", "b"]), strings(&[""]), strings(&[""]), strings(&["c", "d"])]
    );
    assert_eq!(parse_source(&with_mark("\n")), vec![strings(&[""])]);
    assert_eq!(parse_source(&with_mark("\n\n")), vec![strings(&[""]), strings(&[""])]);
}

#[test]
fn a_line_that_is_not_text_is_left_out() {
    let mut source = with_mark("a,b\n");
    source.extend_from_slice(&[b'x', 0xFF, b',', b'y', b'\n']);
    source.extend_from_slice(b"c,d\n");
    assert_eq!(parse_source(&source), vec![strings(&["a", "b"]), strings(&["c", "d"])]);
}

#[test]
fn a_row_with_prerequisites() {
    let source = with_mark("CSCI200,Data Structures,CSCI101,MATH201");
    assert_eq!(
        parse_source(&source),
        vec![strings(&["CSCI200", "Data Structures", "CSCI101", "MATH201"])]
    );
}

#[test]
fn parse_source_agrees_with_lines_trim_and_split() {
    let texts = [
        "", "\n", "a", "a\n", "a\nb", "a,b\r\nc,d\r\n\r\n", " x , y \n,\n\n", "q\n\n\nr,s,t",
        "\u{e9},\u{10000}\n\u{3000}z\u{a0}\n",
    ];
    for text in texts.iter() {
        let expected: Vec<Vec<String>> = text
            .lines()
            .map(|line| line.trim().split(',').map(|f| f.to_string()).collect())
            .collect();
        assert_eq!(parse_source(&with_mark(text)), expected);
        assert_eq!(parse_source(text.as_bytes()), expected);
    }
}
