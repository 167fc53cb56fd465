use blink_pairs::buffer::ParsedBuffer;
use blink_pairs::parser::tokenize::tokenize;
use blink_pairs::parser::{parse, parse_filetype, Kind, Match, Matcher, Rule, State, Token};

fn delimiter(ch: char, col: usize, stack_height: Option<usize>) -> Match {
    let (kind, open, close) = match ch {
        '(' => (Kind::Opening, "(", ")"),
        ')' => (Kind::Closing, "(", ")"),
        '[' => (Kind::Opening, "[", "]"),
        ']' => (Kind::Closing, "[", "]"),
        '{' => (Kind::Opening, "{", "}"),
        '}' => (Kind::Closing, "{", "}"),
        _ => panic!("no delimiter: {}", ch),
    };
    Match { kind, token: Token::Delimiter(open, close), col, stack_height }
}

fn line_comment(marker: &'static str, col: usize) -> Match {
    Match { kind: Kind::NonPair, token: Token::LineComment(marker), col, stack_height: None }
}

fn block_comment(marker: &'static str, col: usize) -> Match {
    let kind = match marker {
        "/*" => Kind::Opening,
        "*/" => Kind::Closing,
        _ => panic!("no block comment marker: {}", marker),
    };
    Match { kind, token: Token::BlockComment("/*", "*/"), col, stack_height: None }
}

fn span(kind: Kind, block: bool, col: usize) -> Match {
    let token = if block {
        Token::BlockSpan("math", "$$", "$$")
    } else {
        Token::InlineSpan("math", "$", "$")
    };
    Match { kind, token, col, stack_height: None }
}

fn all_lines(buffer: &ParsedBuffer) -> Vec<Vec<Match>> {
    let mut lines = Vec::new();
    for line in 0..buffer.line_count() {
        lines.push(buffer.line_matches(line).unwrap());
    }
    lines
}

fn all_states(buffer: &ParsedBuffer) -> Vec<State> {
    let mut states = Vec::new();
    for line in 0..buffer.line_count() {
        states.push(buffer.line_state(line).unwrap());
    }
    states
}

fn parse_text(filetype: &str, lines: &str) -> Vec<Vec<Match>> {
    let buffer =
        parse_filetype(filetype, 4, &lines.split('\n').collect::<Vec<_>>(), State::Normal).unwrap();
    all_lines(&buffer)
}

#[test]
fn test_parse() {
    assert_eq!(
        parse_text("c", "{\n}"),
        vec![vec![delimiter('{', 0, Some(0))], vec![delimiter('}', 0, Some(0))]]
    );

    assert_eq!(
        parse_text("c", "// comment {}\n}"),
        vec![vec![line_comment("//", 0)], vec![delimiter('}', 0, None)]]
    );

    assert_eq!(
        parse_text("c", "/* comment {} */\n}"),
        vec![
            vec![block_comment("/*", 0), block_comment("*/", 14)],
            vec![delimiter('}', 0, None)]
        ]
    );
}

#[test]
fn test_tex() {
    assert_eq!(
        parse_text("tex", "test 90\\% ( and b )\n%abc"),
        vec![
            vec![delimiter('(', 10, Some(0)), delimiter(')', 18, Some(0))],
            vec![line_comment("%", 0)]
        ]
    );
}

#[test]
fn unknown_language_gives_no_buffer() {
    assert!(parse_filetype("klingon", 4, &["()"], State::Normal).is_none());
    assert!(ParsedBuffer::parse("", 4, &["()"]).is_none());
    assert!(Matcher::for_filetype("C").is_none());
    assert!(Matcher::for_filetype("c").is_some());
    assert!(Matcher::for_filetype("rust").is_some());
    assert!(Matcher::for_filetype("tex").is_some());
    assert!(Matcher::for_filetype("sql").is_some());
    assert!(Matcher::for_filetype("vim").is_some());
}

#[test]
fn tokenizer_hands_on_only_what_is_asked_for() {
    let tokens = tokenize("a(b\\c\n d)e".as_bytes(), "()".as_bytes());
    assert_eq!(tokens, vec![(b'(', 1), (b'\\', 3), (b'\n', 5), (b')', 2)]);
    assert_eq!(tokenize("plain text".as_bytes(), "()".as_bytes()), vec![]);
    assert_eq!(tokenize("".as_bytes(), "()".as_bytes()), vec![]);
    assert_eq!(
        tokenize("\n\n".as_bytes(), "".as_bytes()),
        vec![(b'\n', 0), (b'\n', 0)]
    );
}

#[test]
fn matcher_asks_for_every_marker_byte() {
    let matcher = Matcher::for_filetype("vim").unwrap();
    assert_eq!(matcher.tokens(), "()[]{}".as_bytes().to_vec());
    let matcher = Matcher { rules: vec![Rule::block_comment("/*", "*/"), Rule::line_comment("//")] };
    assert_eq!(matcher.tokens(), "/**///".as_bytes().to_vec());
}

#[test]
fn multi_byte_markers_need_adjacent_bytes() {
    // a slash and a star apart are no comment
    assert_eq!(
        parse_text("c", "/ * ( */ )"),
        vec![vec![delimiter('(', 4, Some(0)), delimiter(')', 9, Some(0))]]
    );
    // a failed look ahead takes nothing: the bracket right after the slash is seen
    assert_eq!(
        parse_text("c", "/(/)"),
        vec![vec![delimiter('(', 1, Some(0)), delimiter(')', 3, Some(0))]]
    );
    // the marker's second byte is taken with it: no comment starts at the third slash
    assert_eq!(parse_text("c", "/// ("), vec![vec![line_comment("//", 0)]]);
    assert_eq!(
        parse_text("c", "(/**/)"),
        vec![vec![
            delimiter('(', 0, Some(0)),
            block_comment("/*", 1),
            block_comment("*/", 3),
            delimiter(')', 5, Some(0))
        ]]
    );
}

#[test]
fn strings_hide_delimiters_and_emit_no_match() {
    assert_eq!(
        parse_text("c", "( \"a ) b\" )"),
        vec![vec![delimiter('(', 0, Some(0)), delimiter(')', 10, Some(0))]]
    );
    // a string ends with its line
    assert_eq!(
        parse_text("c", "\"open (\n)"),
        vec![vec![], vec![delimiter(')', 0, None)]]
    );
}

#[test]
fn backslash_escapes_only_the_next_byte() {
    // escaped quote stays inside the string
    assert_eq!(parse_text("c", "\"a\\\" (\" )"), vec![vec![delimiter(')', 8, None)]]);
    // an escaped backslash escapes nothing
    assert_eq!(
        parse_text("c", "\"a\\\\\" ("),
        vec![vec![delimiter('(', 6, None)]]
    );
    // a backslash two columns before does not escape
    assert_eq!(parse_text("c", "\\a("), vec![vec![delimiter('(', 2, None)]]);
    // an escaped delimiter is plain text
    assert_eq!(parse_text("c", "\\( )"), vec![vec![delimiter(')', 3, None)]]);
    // the escape does not cross the line end
    assert_eq!(
        parse_text("c", "\\\n("),
        vec![vec![], vec![delimiter('(', 0, None)]]
    );
}

#[test]
fn block_comment_runs_over_lines() {
    let buffer = ParsedBuffer::parse("c", 4, &["( /* x", " ) ", "*/ )"]).unwrap();
    assert_eq!(
        all_lines(&buffer),
        vec![
            vec![delimiter('(', 0, Some(0)), block_comment("/*", 2)],
            vec![],
            vec![block_comment("*/", 0), delimiter(')', 3, Some(0))]
        ]
    );
    assert_eq!(
        all_states(&buffer),
        vec![State::InBlockComment("*/"), State::InBlockComment("*/"), State::Normal]
    );
}

#[test]
fn states_that_cannot_cross_a_line_end_are_reset() {
    let buffer = ParsedBuffer::parse("tex", 4, &["a % b", "$ x", "\"", "$$ y", "z"]).unwrap();
    assert_eq!(
        all_states(&buffer),
        vec![
            State::Normal,
            State::Normal,
            State::Normal,
            State::InBlockSpan("math"),
            State::InBlockSpan("math")
        ]
    );
    let buffer = ParsedBuffer::parse("c", 4, &["\"abc", "// x"]).unwrap();
    assert_eq!(all_states(&buffer), vec![State::Normal, State::Normal]);
}

#[test]
fn spans_emit_opening_and_closing_matches() {
    assert_eq!(
        parse_text("tex", "$a$ $$b$$ ($c)"),
        vec![vec![
            span(Kind::Opening, false, 0),
            span(Kind::Closing, false, 2),
            span(Kind::Opening, true, 4),
            span(Kind::Closing, true, 7),
            delimiter('(', 10, None),
            span(Kind::Opening, false, 11),
        ]]
    );
}

#[test]
fn initial_state_is_honoured() {
    let matcher = Matcher::for_filetype("c").unwrap();
    let buffer = parse(4, &["( */ )"], State::InBlockComment("*/"), &matcher);
    assert_eq!(
        all_lines(&buffer),
        vec![vec![block_comment("*/", 2), delimiter(')', 5, None)]]
    );
    let buffer = parse(4, &["( \" )"], State::InString("\""), &matcher);
    assert_eq!(all_lines(&buffer), vec![vec![delimiter(')', 4, None)]]);
    let buffer = parse(4, &["( */ )"], State::InBlockComment("--"), &matcher);
    assert_eq!(all_lines(&buffer), vec![vec![]]);
    assert_eq!(all_states(&buffer), vec![State::InBlockComment("--")]);
}

#[test]
fn no_lines_parse_to_one_empty_line() {
    let buffer = ParsedBuffer::parse("c", 4, &[]).unwrap();
    assert_eq!(buffer.line_count(), 1);
    assert_eq!(all_lines(&buffer), vec![vec![]]);
    assert_eq!(buffer.line_indentation(0), Some(0));
    assert_eq!(buffer.line_indentation(1), None);
}

#[test]
fn indentation_is_kept_per_line() {
    let buffer = ParsedBuffer::parse("c", 8, &["a", "  b", "\tc", ""]).unwrap();
    assert_eq!(buffer.line_indentation(0), Some(0));
    assert_eq!(buffer.line_indentation(1), Some(2));
    assert_eq!(buffer.line_indentation(2), Some(8));
    assert_eq!(buffer.line_indentation(3), Some(0));
    assert_eq!(buffer.line_indentation(4), None);
}

#[test]
fn a_marker_with_a_newline_stands_nowhere() {
    let matcher = Matcher { rules: vec![Rule::delimiter("(\n", ")"), Rule::delimiter("[", "]")] };
    let buffer = parse(4, &["(", "[ )"], State::Normal, &matcher);
    let closer =
        Match { kind: Kind::Closing, token: Token::Delimiter("(\n", ")"), col: 2, stack_height: None };
    assert_eq!(all_lines(&buffer), vec![vec![], vec![delimiter('[', 0, None), closer]]);
}

#[test]
fn sql_line_comments_and_strings() {
    assert_eq!(
        parse_text("sql", "( -- )\n# (\n'(' $$ ( $$ )"),
        vec![
            vec![delimiter('(', 0, Some(0)), line_comment("--", 2)],
            vec![line_comment("#", 0)],
            vec![delimiter(')', 12, Some(0))]
        ]
    );
}

#[test]
fn step_takes_the_rest_of_a_marker_from_the_stream() {
    let matcher = Matcher::for_filetype("c").unwrap();
    let mut matches = Vec::new();
    // "/* (" with the first slash already taken
    let mut tokens = itertools::multipeek(vec![(b'*', 1), (b'(', 3)]);
    let state = matcher.step(&mut matches, &mut tokens, State::Normal, (b'/', 0), false);
    assert_eq!(state, State::InBlockComment("*/"));
    assert_eq!(matches, vec![block_comment("/*", 0)]);
    assert_eq!(tokens.next(), Some((b'(', 3)));
    assert_eq!(tokens.next(), None);

    // a slash that starts nothing takes nothing and leaves the look ahead at the front
    let mut matches = Vec::new();
    let mut tokens = itertools::multipeek(vec![(b'(', 1), (b')', 2)]);
    let state = matcher.step(&mut matches, &mut tokens, State::Normal, (b'/', 0), false);
    assert_eq!(state, State::Normal);
    assert_eq!(matches, vec![]);
    assert_eq!(tokens.peek(), Some(&(b'(', 1)));
    assert_eq!(tokens.next(), Some((b'(', 1)));

    // an escaped token is plain text
    let mut tokens = itertools::multipeek(vec![(b'/', 1)]);
    let state = matcher.step(&mut matches, &mut tokens, State::Normal, (b'/', 0), true);
    assert_eq!(state, State::Normal);
    assert_eq!(matches, vec![]);
    assert_eq!(tokens.next(), Some((b'/', 1)));

    // inside a line comment nothing counts
    let mut tokens = itertools::multipeek(vec![]);
    let state = matcher.step(&mut matches, &mut tokens, State::InLineComment, (b'(', 4), false);
    assert_eq!(state, State::InLineComment);
    assert_eq!(matches, vec![]);

    // a closing delimiter leaves the state as it is
    let state = matcher.step(&mut matches, &mut tokens, State::Normal, (b'}', 7), false);
    assert_eq!(state, State::Normal);
    assert_eq!(matches, vec![delimiter('}', 7, None)]);
}

#[test]
fn states_fall_back_at_the_line_end() {
    assert_eq!(State::InString("\"").at_line_end(), State::Normal);
    assert_eq!(State::InLineComment.at_line_end(), State::Normal);
    assert_eq!(State::InInlineSpan("math").at_line_end(), State::Normal);
    assert_eq!(State::InBlockString("]]").at_line_end(), State::InBlockString("]]"));
    assert_eq!(State::InBlockComment("*/").at_line_end(), State::InBlockComment("*/"));
    assert_eq!(State::InBlockSpan("math").at_line_end(), State::InBlockSpan("math"));
    assert_eq!(State::Normal.at_line_end(), State::Normal);
}

#[test]
fn block_strings_run_over_lines_and_emit_no_match() {
    let matcher = Matcher {
        rules: vec![
            Rule { kind: blink_pairs::parser::RuleKind::BlockString, name: "", open: "[[", close: "]]" },
            Rule::delimiter("(", ")"),
            Rule::delimiter("[", "]"),
        ],
    };
    let buffer = parse(4, &["( [[ )", "] ( ]] )"], State::Normal, &matcher);
    assert_eq!(
        all_lines(&buffer),
        vec![vec![delimiter('(', 0, Some(0))], vec![delimiter(')', 7, Some(0))]]
    );
    assert_eq!(all_states(&buffer), vec![State::InBlockString("]]"), State::Normal]);
}

#[test]
fn tokens_know_their_markers() {
    let token = Token::Delimiter("(", ")");
    assert_eq!(token.opening(), "(");
    assert_eq!(token.closing(), Some(")"));
    assert!(token.is_delimiter());
    assert!(token.is_pair("(", ")"));
    assert!(!token.is_pair("[", ")"));
    assert!(token.same(&Token::Delimiter("(", ")")));
    assert!(!token.same(&Token::Delimiter("(", "]")));
    assert!(!token.same(&Token::BlockComment("(", ")")));
    let comment = Token::LineComment("//");
    assert_eq!(comment.opening(), "//");
    assert_eq!(comment.closing(), None);
    assert!(!comment.is_delimiter());
    let span_token = Token::BlockSpan("math", "$$", "$$");
    assert!(span_token.same(&Token::BlockSpan("math", "$$", "$$")));
    assert!(!span_token.same(&Token::InlineSpan("math", "$$", "$$")));
    assert!(!span_token.same(&Token::BlockSpan("code", "$$", "$$")));
}

#[test]
fn every_match_stands_in_the_text() {
    let texts = [
        ("c", vec!["int f(int a[]) { /* x", " ( */ return \"}\"; // )", "}"]),
        ("rust", vec!["fn f() -> Vec<(u8, [u8; 2])> { // {", "    vec![] /* ] */", "}"]),
        ("tex", vec!["a $b$ c $$ d", "e \\$ f $$ g % (", "(h)"]),
        ("sql", vec!["select (a) -- b", "from `t(` # x", "where $$ ) $$ = '('"]),
        ("vim", vec!["call F([1, {'a': 2}])"]),
    ];
    for (filetype, lines) in texts.iter() {
        let buffer = ParsedBuffer::parse(filetype, 4, lines).unwrap();
        assert_eq!(buffer.line_count(), lines.len());
        for (number, line) in lines.iter().enumerate() {
            for m in buffer.line_matches(number).unwrap() {
                let marker = match m.kind {
                    Kind::Closing => m.token.closing().unwrap(),
                    _ => m.token.opening(),
                };
                assert_eq!(m.len(), marker.len());
                assert_eq!(&line[m.col..m.col + m.len()], marker);
            }
        }
    }
}
