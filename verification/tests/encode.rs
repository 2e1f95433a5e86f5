use playlistr::encode_path;

#[test]
fn plain_path_is_unchanged() {
    assert_eq!(encode_path("music/Artist - Song (live).mp3"), "music/Artist - Song (live).mp3");
}

#[test]
fn brackets_are_escaped() {
    assert_eq!(encode_path("a[b]c"), "a%5Bb%5Dc");
}

#[test]
fn controls_are_escaped() {
    assert_eq!(encode_path("a\nb\tc\u{0}d\u{1f}e\u{7f}f"), "a%0Ab%09c%00d%1Fe%7Ff");
}

#[test]
fn carriage_return_is_escaped() {
    assert_eq!(encode_path("a\r"), "a%0D");
}

#[test]
fn space_and_percent_are_unchanged() {
    assert_eq!(encode_path("100% of it ~"), "100% of it ~");
}

#[test]
fn characters_outside_ascii_are_unchanged() {
    assert_eq!(encode_path("müsic/日本語[1].mp3"), "müsic/日本語%5B1%5D.mp3");
    assert_eq!(encode_path("\u{80}\u{10ffff}"), "\u{80}\u{10ffff}");
}

#[test]
fn empty_path_is_empty() {
    assert_eq!(encode_path(""), "");
}

#[test]
fn encoded_path_has_no_line_break() {
    let line = encode_path("one\ntwo\r\nthree");
    assert!(!line.contains('\n'));
    assert_eq!(line, "one%0Atwo%0D%0Athree");
}
