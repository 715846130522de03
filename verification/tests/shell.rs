use course_planner::shell::command_of;
use course_planner::shell::Command;
use course_planner::text::trim;

#[test]
fn the_four_choices_of_the_menu() {
    assert_eq!(command_of("1"), Command::Load);
    assert_eq!(command_of("2"), Command::PrintAll);
    assert_eq!(command_of("3"), Command::PrintCourse);
    assert_eq!(command_of("9"), Command::Exit);
}

#[test]
fn a_choice_is_read_without_the_white_space_around_it() {
    assert_eq!(command_of("1\n"), Command::Load);
    assert_eq!(command_of("  2\r\n"), Command::PrintAll);
    assert_eq!(command_of("\t3 "), Command::PrintCourse);
    assert_eq!(command_of("9\n"), Command::Exit);
}

#[test]
fn anything_else_is_not_on_the_menu() {
    assert_eq!(command_of(""), Command::Unknown);
    assert_eq!(command_of("\n"), Command::Unknown);
    assert_eq!(command_of("4"), Command::Unknown);
    assert_eq!(command_of("0"), Command::Unknown);
    assert_eq!(command_of("11"), Command::Unknown);
    assert_eq!(command_of("1 1"), Command::Unknown);
    assert_eq!(command_of("one"), Command::Unknown);
    assert_eq!(command_of("\u{ff11}"), Command::Unknown);
}

#[test]
fn trim_drops_white_space_at_the_two_ends_only() {
    assert_eq!(trim(""), "");
    assert_eq!(trim("   "), "");
    assert_eq!(trim("CSCI200\n"), "CSCI200");
    assert_eq!(trim("  math201 \r\n"), "math201");
    assert_eq!(trim(" a b "), "a b");
    assert_eq!(trim("\u{3000}\u{e9}\u{a0}"), "\u{e9}");
    assert_eq!(trim("x"), "x");
}

#[test]
fn trim_agrees_with_the_trim_of_strings() {
    let samples = ["", " ", "a", " a", "a ", " a b ", "\r\n", "\u{2003}q\u{2003}", "\u{feff}x "];
    for s in samples.iter() {
        assert_eq!(trim(s), s.trim());
    }
}
