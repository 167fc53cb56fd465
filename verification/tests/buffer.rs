use blink_pairs::buffer::ParsedBuffer;
use blink_pairs::parser::{Kind, Match, MatchWithLine, State, Token};

fn delim(ch: char, col: usize, stack_height: Option<usize>) -> Match {
    let (kind, open, close) = match ch {
        '(' => (Kind::Opening, "(", ")"),
        ')' => (Kind::Closing, "(", ")"),
        '[' => (Kind::Opening, "[", "]"),
        ']' => (Kind::Closing, "[", "]"),
        '{' => (Kind::Opening, "{", "}"),
        '}' => (Kind::Closing, "{", "}"),
        _ => panic!("no delimiter: {}", ch),
    };
    Match { kind, token: Token::Delimiter(open, close), col, stack_height }
}

fn on(line: usize, m: Match) -> MatchWithLine {
    m.with_line(line)
}

fn lines_of(buffer: &ParsedBuffer) -> Vec<Vec<Match>> {
    let mut lines = Vec::new();
    for line in 0..buffer.line_count() {
        lines.push(buffer.line_matches(line).unwrap());
    }
    lines
}

fn states_of(buffer: &ParsedBuffer) -> Vec<State> {
    let mut states = Vec::new();
    for line in 0..buffer.line_count() {
        states.push(buffer.line_state(line).unwrap());
    }
    states
}

fn indentation_of(buffer: &ParsedBuffer) -> Vec<u8> {
    let mut widths = Vec::new();
    for line in 0..buffer.line_count() {
        widths.push(buffer.line_indentation(line).unwrap());
    }
    widths
}

fn heights(buffer: &ParsedBuffer) -> Vec<Vec<Option<usize>>> {
    lines_of(buffer)
        .iter()
        .map(|line| line.iter().map(|m| m.stack_height).collect())
        .collect()
}

#[test]
fn test_unmatched_opening_before() {
    let buffer = ParsedBuffer::parse("rust", 4, &["("]).unwrap();
    assert_eq!(buffer.unmatched_opening_before("(", ")", 0, 0), None);
    assert_eq!(
        buffer.unmatched_opening_before("(", ")", 0, 1),
        Some(delim('(', 0, None).with_line(0))
    );

    let buffer = ParsedBuffer::parse("rust", 4, &["( ( )"]).unwrap();
    assert_eq!(
        buffer.unmatched_opening_before("(", ")", 0, 4),
        Some(delim('(', 0, None).with_line(0))
    );
}

#[test]
fn test_get_unmatched_closing_at() {
    let buffer = ParsedBuffer::parse("rust", 4, &[")"]).unwrap();
    assert_eq!(
        buffer.unmatched_closing_after("(", ")", 0, 0),
        Some(delim(')', 0, None).with_line(0))
    );
    assert_eq!(buffer.unmatched_closing_after("(", ")", 0, 1), None);
    assert_eq!(buffer.unmatched_closing_after("(", ")", 1, 1), None);

    let buffer = ParsedBuffer::parse("rust", 4, &[" )"]).unwrap();
    assert_eq!(
        buffer.unmatched_closing_after("(", ")", 0, 0),
        Some(delim(')', 1, None).with_line(0))
    );
    assert_eq!(
        buffer.unmatched_closing_after("(", ")", 0, 1),
        Some(delim(')', 1, None).with_line(0))
    );
    assert_eq!(buffer.unmatched_closing_after("(", ")", 0, 2), None);
    assert_eq!(buffer.unmatched_closing_after("(", ")", 1, 0), None);

    let buffer = ParsedBuffer::parse("rust", 4, &["( ] )"]).unwrap();
    assert_eq!(buffer.unmatched_closing_after("[", "]", 0, 0), None);
    assert_eq!(
        buffer.unmatched_closing_after("[", "]", 0, 1),
        Some(delim(']', 2, None).with_line(0))
    );
}

#[test]
fn well_formed_pairs_and_depths() {
    let buffer = ParsedBuffer::parse("c", 4, &["( [ ] )"]).unwrap();
    assert_eq!(heights(&buffer), vec![vec![Some(0), Some(1), Some(1), Some(0)]]);
    let outer = (on(0, delim('(', 0, Some(0))), on(0, delim(')', 6, Some(0))));
    let inner = (on(0, delim('[', 2, Some(1))), on(0, delim(']', 4, Some(1))));
    assert_eq!(buffer.match_pair(0, 0), Some(outer));
    assert_eq!(buffer.match_pair(0, 6), Some(outer));
    assert_eq!(buffer.match_pair(0, 2), Some(inner));
    assert_eq!(buffer.match_pair(0, 4), Some(inner));
    assert_eq!(buffer.match_pair(0, 1), None);
    assert_eq!(buffer.match_pair(0, 7), None);
    assert_eq!(buffer.match_pair(1, 0), None);
}

#[test]
fn pairs_across_lines_and_between_siblings() {
    let buffer = ParsedBuffer::parse("c", 4, &["{ ( ) (", "  )", "}"]).unwrap();
    assert_eq!(
        heights(&buffer),
        vec![vec![Some(0), Some(1), Some(1), Some(1)], vec![Some(1)], vec![Some(0)]]
    );
    assert_eq!(
        buffer.match_pair(0, 2),
        Some((on(0, delim('(', 2, Some(1))), on(0, delim(')', 4, Some(1)))))
    );
    assert_eq!(
        buffer.match_pair(0, 4),
        Some((on(0, delim('(', 2, Some(1))), on(0, delim(')', 4, Some(1)))))
    );
    assert_eq!(
        buffer.match_pair(0, 6),
        Some((on(0, delim('(', 6, Some(1))), on(1, delim(')', 2, Some(1)))))
    );
    assert_eq!(
        buffer.match_pair(1, 2),
        Some((on(0, delim('(', 6, Some(1))), on(1, delim(')', 2, Some(1)))))
    );
    assert_eq!(
        buffer.match_pair(2, 0),
        Some((on(0, delim('{', 0, Some(0))), on(2, delim('}', 0, Some(0)))))
    );
}

#[test]
fn malformed_delimiters_have_no_depth_and_no_pair() {
    let buffer = ParsedBuffer::parse("c", 4, &[")"]).unwrap();
    assert_eq!(heights(&buffer), vec![vec![None]]);
    assert_eq!(buffer.match_pair(0, 0), None);

    let buffer = ParsedBuffer::parse("c", 4, &["( ] )"]).unwrap();
    assert_eq!(heights(&buffer), vec![vec![Some(0), None, Some(0)]]);
    assert_eq!(buffer.match_pair(0, 2), None);
    assert_eq!(
        buffer.match_pair(0, 0),
        Some((on(0, delim('(', 0, Some(0))), on(0, delim(')', 4, Some(0)))))
    );

    // the nearest opening delimiter of the pair wins; what lay above it is dropped
    let buffer = ParsedBuffer::parse("c", 4, &["( [ ) ]"]).unwrap();
    assert_eq!(heights(&buffer), vec![vec![Some(0), None, Some(0), None]]);

    let buffer = ParsedBuffer::parse("c", 4, &["[ ( ( ( )"]).unwrap();
    assert_eq!(heights(&buffer), vec![vec![None, None, None, Some(3), Some(3)]]);
    assert_eq!(buffer.match_pair(0, 0), None);
    assert_eq!(
        buffer.match_pair(0, 8),
        Some((on(0, delim('(', 6, Some(3))), on(0, delim(')', 8, Some(3)))))
    );
}

#[test]
fn comments_have_no_depth_and_no_pair() {
    let buffer = ParsedBuffer::parse("c", 4, &["( /* ) */ // (", ")"]).unwrap();
    let line = buffer.line_matches(0).unwrap();
    assert_eq!(line.len(), 4);
    assert_eq!(line[1].token, Token::BlockComment("/*", "*/"));
    assert_eq!(line[1].stack_height, None);
    assert_eq!(line[2].stack_height, None);
    assert_eq!(line[3].token, Token::LineComment("//"));
    assert_eq!(line[3].stack_height, None);
    assert_eq!(buffer.match_pair(0, 2), None);
    assert_eq!(buffer.match_pair(0, 3), None);
    assert_eq!(buffer.match_pair(0, 7), None);
    assert_eq!(buffer.match_pair(0, 10), None);
    assert_eq!(
        buffer.match_pair(0, 0),
        Some((on(0, delim('(', 0, Some(0))), on(1, delim(')', 0, Some(0)))))
    );
}

#[test]
fn match_at_covers_the_whole_marker() {
    let buffer = ParsedBuffer::parse("c", 4, &["a /* b */ ("]).unwrap();
    let opener = Match {
        kind: Kind::Opening,
        token: Token::BlockComment("/*", "*/"),
        col: 2,
        stack_height: None,
    };
    assert_eq!(buffer.match_at(0, 1), None);
    assert_eq!(buffer.match_at(0, 2), Some(opener));
    assert_eq!(buffer.match_at(0, 3), Some(opener));
    assert_eq!(buffer.match_at(0, 4), None);
    assert_eq!(buffer.match_at(0, 10), Some(delim('(', 10, None)));
    assert_eq!(buffer.match_at(0, 11), None);
    assert_eq!(buffer.match_at(1, 0), None);
    assert_eq!(buffer.match_at(0, usize::MAX), None);
    assert_eq!(opener.len(), 2);
}

#[test]
fn line_matches_out_of_range() {
    let buffer = ParsedBuffer::parse("c", 4, &["(", ")"]).unwrap();
    assert_eq!(buffer.line_matches(0), Some(vec![delim('(', 0, Some(0))]));
    assert_eq!(buffer.line_matches(1), Some(vec![delim(')', 0, Some(0))]));
    assert_eq!(buffer.line_matches(2), None);
    assert_eq!(buffer.line_state(2), None);
}

#[test]
fn iter_from_and_iter_to_split_at_the_cursor() {
    let buffer = ParsedBuffer::parse("c", 4, &["( [", "] { }", ")"]).unwrap();
    let a = on(0, delim('(', 0, Some(0)));
    let b = on(0, delim('[', 2, Some(1)));
    let c = on(1, delim(']', 0, Some(1)));
    let d = on(1, delim('{', 2, Some(1)));
    let e = on(1, delim('}', 4, Some(1)));
    let f = on(2, delim(')', 0, Some(0)));
    assert_eq!(buffer.iter_from(0, 0), vec![a, b, c, d, e, f]);
    assert_eq!(buffer.iter_to(0, 0), vec![]);
    assert_eq!(buffer.iter_from(1, 2), vec![d, e, f]);
    assert_eq!(buffer.iter_to(1, 2), vec![c, b, a]);
    assert_eq!(buffer.iter_from(1, 3), vec![e, f]);
    assert_eq!(buffer.iter_to(1, 3), vec![d, c, b, a]);
    assert_eq!(buffer.iter_from(2, 1), vec![]);
    assert_eq!(buffer.iter_to(2, 1), vec![f, e, d, c, b, a]);
    assert_eq!(buffer.iter_from(7, 0), vec![]);
    assert_eq!(buffer.iter_to(7, 0), vec![f, e, d, c, b, a]);
    // asking twice gives the same
    assert_eq!(buffer.iter_from(1, 2), buffer.iter_from(1, 2));
}

#[test]
fn stack_height_at_the_cursor() {
    let buffer = ParsedBuffer::parse("c", 4, &["( [ ] )"]).unwrap();
    assert_eq!(buffer.stack_height_at(0, 0), 0);
    assert_eq!(buffer.stack_height_at(0, 1), 1);
    assert_eq!(buffer.stack_height_at(0, 3), 2);
    assert_eq!(buffer.stack_height_at(0, 5), 1);
    assert_eq!(buffer.stack_height_at(0, 7), 0);
    assert_eq!(buffer.stack_height_at(3, 0), 0);

    let buffer = ParsedBuffer::parse("c", 4, &["( ("]).unwrap();
    assert_eq!(buffer.stack_height_at(0, 1), 0);
    let buffer = ParsedBuffer::parse("c", 4, &["no delimiters"]).unwrap();
    assert_eq!(buffer.stack_height_at(0, 3), 0);
    let buffer = ParsedBuffer::parse("c", 4, &["( )", "("]).unwrap();
    // nothing with a depth ahead: the nearest behind decides
    assert_eq!(buffer.stack_height_at(1, 0), 0);
    let buffer = ParsedBuffer::parse("c", 4, &["( ) x"]).unwrap();
    assert_eq!(buffer.stack_height_at(0, 4), 0);
    let buffer = ParsedBuffer::parse("c", 4, &["( ( ) x"]).unwrap();
    assert_eq!(buffer.stack_height_at(0, 6), 1);
}

#[test]
fn unmatched_search_stops_at_a_lower_pair_of_another_kind() {
    // [ ( | ) ] ) : the last bracket cannot be reached from inside the square brackets
    let buffer = ParsedBuffer::parse("c", 4, &["[ (  ) ] )"]).unwrap();
    assert_eq!(heights(&buffer), vec![vec![Some(0), Some(1), Some(1), Some(0), None]]);
    assert_eq!(buffer.unmatched_closing_after("(", ")", 0, 4), None);
    // ( | ) ) : it can where only round brackets lie between
    let buffer = ParsedBuffer::parse("c", 4, &["(  ) )"]).unwrap();
    assert_eq!(
        buffer.unmatched_closing_after("(", ")", 0, 2),
        Some(on(0, delim(')', 5, None)))
    );
    assert_eq!(buffer.unmatched_closing_after("[", "]", 0, 2), None);
    // ( [ ( | ) ] ) : nothing unmatched at all
    let buffer = ParsedBuffer::parse("c", 4, &["( [ (  ) ] )"]).unwrap();
    assert_eq!(buffer.unmatched_opening_before("(", ")", 0, 6), None);
    // ( [] ( | )
    let buffer = ParsedBuffer::parse("c", 4, &["( [] (  )"]).unwrap();
    assert_eq!(
        buffer.unmatched_opening_before("(", ")", 0, 7),
        Some(on(0, delim('(', 0, None)))
    );
    assert_eq!(buffer.unmatched_opening_before("[", "]", 0, 7), None);
}

#[test]
fn span_at_inside_and_past_a_block_span() {
    let buffer = ParsedBuffer::parse("tex", 4, &["a $$ b", "c + d", "e $$ f", "g"]).unwrap();
    assert_eq!(buffer.span_at(0, 2), Some("math".to_string()));
    assert_eq!(buffer.span_at(0, 5), Some("math".to_string()));
    assert_eq!(buffer.span_at(1, 0), Some("math".to_string()));
    assert_eq!(buffer.span_at(1, 4), Some("math".to_string()));
    assert_eq!(buffer.span_at(2, 5), None);
    assert_eq!(buffer.span_at(3, 0), None);
    assert_eq!(buffer.span_at(4, 0), None);
    // where no span opened on the line reaches the cursor, the state in which
    // the line ends decides
    assert_eq!(buffer.span_at(0, 0), Some("math".to_string()));
    assert_eq!(buffer.span_at(2, 0), None);
}

#[test]
fn span_at_inline_spans() {
    let buffer = ParsedBuffer::parse("tex", 4, &["a $b$ c $d"]).unwrap();
    assert_eq!(buffer.span_at(0, 1), None);
    assert_eq!(buffer.span_at(0, 2), Some("math".to_string()));
    assert_eq!(buffer.span_at(0, 3), Some("math".to_string()));
    assert_eq!(buffer.span_at(0, 4), Some("math".to_string()));
    assert_eq!(buffer.span_at(0, 5), None);
    assert_eq!(buffer.span_at(0, 7), None);
    assert_eq!(buffer.span_at(0, 9), Some("math".to_string()));
    let buffer = ParsedBuffer::parse("c", 4, &["( )"]).unwrap();
    assert_eq!(buffer.span_at(0, 1), None);
}

#[test]
fn reparse_of_the_unchanged_buffer_changes_nothing() {
    let lines = ["fn f() { // (", "  g([1, 2]); /* ]", "  */ \"}\"", "}"];
    let mut buffer = ParsedBuffer::parse("c", 4, &lines).unwrap();
    let matches = lines_of(&buffer);
    let states = states_of(&buffer);
    let widths = indentation_of(&buffer);
    assert!(buffer.reparse_range("c", &lines, Some(0), None, None));
    assert_eq!(lines_of(&buffer), matches);
    assert_eq!(states_of(&buffer), states);
    assert_eq!(indentation_of(&buffer), widths);
    assert!(buffer.reparse_range("c", &lines, None, None, None));
    assert_eq!(lines_of(&buffer), matches);
    assert!(buffer.reparse_range("c", &lines, Some(0), Some(4), Some(4)));
    assert_eq!(lines_of(&buffer), matches);
    assert_eq!(states_of(&buffer), states);
    buffer.recalculate_stack_heights();
    assert_eq!(lines_of(&buffer), matches);
}

#[test]
fn reparse_of_a_range_equals_a_full_parse() {
    let old = ["{", "  ( a", "  b )", "}"];
    let new = ["{", "  [ ( a", "  x", "  b ) ]", "}"];
    let mut buffer = ParsedBuffer::parse("c", 4, &old).unwrap();
    assert!(buffer.reparse_range("c", &new[1..4], Some(1), Some(3), Some(4)));
    let full = ParsedBuffer::parse("c", 4, &new).unwrap();
    assert_eq!(lines_of(&buffer), lines_of(&full));
    assert_eq!(states_of(&buffer), states_of(&full));
    assert_eq!(indentation_of(&buffer), indentation_of(&full));
    assert_eq!(
        heights(&buffer),
        vec![
            vec![Some(0)],
            vec![Some(1), Some(2)],
            vec![],
            vec![Some(2), Some(1)],
            vec![Some(0)]
        ]
    );
}

#[test]
fn reparse_starts_in_the_state_of_the_line_before() {
    let mut buffer = ParsedBuffer::parse("c", 4, &["/* a", "( b", "*/ )"]).unwrap();
    assert!(buffer.reparse_range("c", &["[ c"], Some(1), Some(2), None));
    assert_eq!(buffer.line_matches(1), Some(vec![]));
    assert_eq!(buffer.line_state(1), Some(State::InBlockComment("*/")));
    assert_eq!(buffer.line_count(), 3);
    // depths are resolved over the whole buffer again
    let mut buffer = ParsedBuffer::parse("c", 4, &["(", "x", ")"]).unwrap();
    assert_eq!(heights(&buffer), vec![vec![Some(0)], vec![], vec![Some(0)]]);
    assert!(buffer.reparse_range("c", &[")"], Some(1), Some(2), Some(2)));
    assert_eq!(heights(&buffer), vec![vec![Some(0)], vec![Some(0)], vec![None]]);
}

#[test]
fn reparse_removes_and_inserts_lines() {
    let mut buffer = ParsedBuffer::parse("c", 4, &["(", "[", "]", ")"]).unwrap();
    // delete the two lines in the middle
    assert!(buffer.reparse_range("c", &[], Some(1), Some(3), Some(1)));
    assert_eq!(lines_of(&buffer), vec![vec![delim('(', 0, Some(0))], vec![delim(')', 0, Some(0))]]);
    assert_eq!(indentation_of(&buffer), vec![0, 0]);
    // insert one before the last
    assert!(buffer.reparse_range("c", &["  {}"], Some(1), Some(1), Some(2)));
    assert_eq!(
        lines_of(&buffer),
        vec![
            vec![delim('(', 0, Some(0))],
            vec![delim('{', 2, Some(1)), delim('}', 3, Some(1))],
            vec![delim(')', 0, Some(0))]
        ]
    );
    assert_eq!(indentation_of(&buffer), vec![0, 2, 0]);
}

#[test]
fn reparse_keeps_the_range_within_the_buffer() {
    let mut buffer = ParsedBuffer::parse("c", 4, &["(", ")"]).unwrap();
    // a start past the end appends
    assert!(buffer.reparse_range("c", &["[]"], Some(9), Some(12), None));
    assert_eq!(buffer.line_count(), 3);
    assert_eq!(
        buffer.line_matches(2),
        Some(vec![delim('[', 0, Some(0)), delim(']', 1, Some(0))])
    );
    // an end before the start counts as the start; a new end before the start takes no line
    assert!(buffer.reparse_range("c", &["{"], Some(1), Some(0), Some(0)));
    assert_eq!(buffer.line_count(), 3);
    // a new end past what was parsed takes what there is
    assert!(buffer.reparse_range("c", &["{", "}"], Some(0), Some(0), Some(50)));
    assert_eq!(buffer.line_count(), 5);
    assert_eq!(
        heights(&buffer),
        vec![vec![Some(0)], vec![Some(0)], vec![Some(0)], vec![Some(0)], vec![Some(0), Some(0)]]
    );
}

#[test]
fn reparse_in_an_unknown_language_leaves_the_buffer() {
    let mut buffer = ParsedBuffer::parse("c", 4, &["( [", "] )"]).unwrap();
    let matches = lines_of(&buffer);
    let states = states_of(&buffer);
    assert!(!buffer.reparse_range("nope", &["{"], Some(0), None, None));
    assert_eq!(lines_of(&buffer), matches);
    assert_eq!(states_of(&buffer), states);
    assert_eq!(buffer.line_count(), 2);
}
