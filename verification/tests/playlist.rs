use playlistr::{join_lines, join_strings, split_lines};

fn owned(lines: &[&str]) -> Vec<String> {
    lines.iter().map(|line| line.to_string()).collect()
}

#[test]
fn join_puts_breaks_between_lines() {
    assert_eq!(join_lines(&["a", "b", "c"]), "a\nb\nc");
    assert_eq!(join_strings(&owned(&["a", "b", "c"])), "a\nb\nc");
}

#[test]
fn join_of_nothing_is_empty() {
    assert_eq!(join_lines(&[]), "");
    assert_eq!(join_strings(&Vec::new()), "");
}

#[test]
fn join_of_one_line_is_the_line() {
    assert_eq!(join_lines(&["only"]), "only");
}

#[test]
fn join_keeps_empty_lines() {
    assert_eq!(join_lines(&["a", "", "b", ""]), "a\n\nb\n");
}

#[test]
fn split_reads_each_line() {
    assert_eq!(split_lines("a\nb\nc"), owned(&["a", "b", "c"]));
}

#[test]
fn split_of_nothing_is_no_line() {
    assert_eq!(split_lines(""), Vec::<String>::new());
}

#[test]
fn split_ignores_one_break_at_the_end() {
    assert_eq!(split_lines("a\nb\n"), owned(&["a", "b"]));
    assert_eq!(split_lines("a\nb\n\n"), owned(&["a", "b", ""]));
    assert_eq!(split_lines("\n"), owned(&[""]));
}

#[test]
fn split_takes_carriage_return_with_the_break() {
    assert_eq!(split_lines("a\r\nb\r\n"), owned(&["a", "b"]));
    assert_eq!(split_lines("a\r\r\nb"), owned(&["a\r", "b"]));
    assert_eq!(split_lines("a\rb\nc\r"), owned(&["a\rb", "c\r"]));
}

#[test]
fn split_does_not_trim() {
    assert_eq!(split_lines("  a \n\tb"), owned(&["  a ", "\tb"]));
}

#[test]
fn written_lines_are_read_back() {
    let lines = owned(&["one", "", "tw[o]", "thr ee"]);
    assert_eq!(split_lines(&join_strings(&lines)), lines);
}

#[test]
fn empty_last_line_is_not_read_back() {
    let lines = owned(&["one", ""]);
    assert_eq!(split_lines(&join_strings(&lines)), owned(&["one"]));
}

#[test]
fn split_keeps_characters_outside_ascii() {
    assert_eq!(split_lines("müsic/ä.mp3\n日本語\r\n"), owned(&["müsic/ä.mp3", "日本語"]));
}

#[test]
fn carriage_return_before_break_is_not_read_back() {
    let lines = owned(&["one\r", "two"]);
    assert_eq!(split_lines(&join_strings(&lines)), owned(&["one", "two"]));
}

#[test]
fn carriage_return_in_last_line_is_read_back() {
    let lines = owned(&["one", "two\r"]);
    assert_eq!(split_lines(&join_strings(&lines)), lines);
}
