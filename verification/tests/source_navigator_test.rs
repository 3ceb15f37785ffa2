use while_tools::lexer::Span;
use while_tools::utils::SourceNavigator;

#[test]
fn test_position_of_an_offset() {
    let navigator = SourceNavigator::new("ab\ncd\n\nef");
    let expected = [
        (0, (0, 0)),
        (1, (0, 1)),
        (2, (0, 2)),
        (3, (1, 0)),
        (5, (1, 2)),
        (6, (2, 0)),
        (7, (3, 0)),
        (8, (3, 1)),
        (9, (3, 2)),
        (100, (3, 93)),
    ];
    for (offset, (row, col)) in expected {
        let position = navigator.get_position(offset);
        assert_eq!((position.row, position.col), (row, col));
    }
}

#[test]
fn test_position_in_a_source_of_one_line() {
    let navigator = SourceNavigator::new("x : 1;|");
    let position = navigator.get_position(6);
    assert_eq!((position.row, position.col), (0, 6));
    let empty = SourceNavigator::new("");
    let position = empty.get_position(0);
    assert_eq!((position.row, position.col), (0, 0));
}

#[test]
fn test_lines_are_trimmed() {
    let navigator = SourceNavigator::new("  x := 1;  \r\n\tskip\n\nlast ");
    assert_eq!(navigator.get_line(0), "x := 1;");
    assert_eq!(navigator.get_line(1), "skip");
    assert_eq!(navigator.get_line(2), "");
    assert_eq!(navigator.get_line(3), "last");
}

#[test]
fn test_last_line_is_whole() {
    let navigator = SourceNavigator::new("abc");
    assert_eq!(navigator.get_line(0), "abc");
    let navigator = SourceNavigator::new("abc\n");
    assert_eq!(navigator.get_line(0), "abc");
    assert_eq!(navigator.get_line(1), "");
}

#[test]
fn test_lines_with_characters_of_several_bytes() {
    let navigator = SourceNavigator::new("\u{e9}\u{e9}\n\u{1F600} x");
    assert_eq!(navigator.get_line(0), "\u{e9}\u{e9}");
    assert_eq!(navigator.get_line(1), "\u{1F600} x");
    let position = navigator.get_position(5);
    assert_eq!((position.row, position.col), (1, 0));
}

#[test]
fn test_annotated_span() {
    let navigator = SourceNavigator::new("x : 1;|");
    assert_eq!(
        navigator.get_annotated_span(Span(2, 3)),
        "1 | x : 1;|\n      -    "
    );
    assert_eq!(
        navigator.get_annotated_span(Span(6, 7)),
        "1 | x : 1;|\n          -"
    );
}

#[test]
fn test_annotated_span_on_a_later_line() {
    let navigator = SourceNavigator::new("skip;\nx := then\nskip");
    assert_eq!(
        navigator.get_annotated_span(Span(11, 15)),
        "2 | x := then\n         ----"
    );
    assert_eq!(
        navigator.get_annotated_span(Span(6, 7)),
        "2 | x := then\n    -        "
    );
}
