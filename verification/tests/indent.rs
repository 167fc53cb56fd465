use blink_pairs::parser::indent::{indent_levels, indent_levels_of};

#[test]
fn test_basic_indentation() {
    let src = "if foo() {\n    bar();\n}";
    let result = indent_levels::<32>(src, 4);
    assert_eq!(result, vec![0, 4, 0]);
}

#[test]
fn test_mixed_tabs_and_spaces() {
    let src = "if foo() {\n    if bar {\n\t\tprintln!(\"hello world\");\n    }\n}";
    let result = indent_levels::<32>(src, 4);
    assert_eq!(result, vec![0, 4, 8, 4, 0]);
}

#[test]
fn test_empty_lines() {
    let src = "line1\n\n    line3\n\n        line5";
    let result = indent_levels::<32>(src, 4);
    assert_eq!(result, vec![0, 0, 4, 0, 8]);
}

#[test]
fn test_only_empty_lines() {
    let src = "\n\n\n";
    let result = indent_levels::<32>(src, 4);
    assert_eq!(result, vec![0, 0, 0, 0]);
}

#[test]
fn test_all_whitespace_lines() {
    let src = "line1\n    \n\t\n    line4";
    let result = indent_levels::<32>(src, 4);
    assert_eq!(result, vec![0, 4, 4, 4]);
}

#[test]
fn test_different_tab_width() {
    let src = "\tindented\n\t\tdouble";
    let result = indent_levels::<32>(src, 8);
    assert_eq!(result, vec![8, 16]);
}

#[test]
fn test_no_trailing_newline() {
    let src = "line1\n    line2";
    let result = indent_levels::<32>(src, 4);
    assert_eq!(result, vec![0, 4]);
}

#[test]
fn test_only_whitespace() {
    let src = "    ";
    let result = indent_levels::<32>(src, 4);
    assert_eq!(result, vec![4]);
}

#[test]
fn test_empty_string() {
    let src = "";
    let result = indent_levels::<32>(src, 4);
    assert_eq!(result, vec![0]);
}

#[test]
fn test_single_line_no_indentation() {
    let src = "hello world";
    let result = indent_levels::<32>(src, 4);
    assert_eq!(result, vec![0]);
}

#[test]
fn test_large_input() {
    let src = "a".repeat(40) + "\n" + &" ".repeat(40) + "b";
    let result = indent_levels::<32>(&src, 4);
    assert_eq!(result, vec![0, 40]);
}

#[test]
fn test_windows_line_endings() {
    let src = "line1\r\n    line2\r\n";
    let result = indent_levels::<32>(src, 4);
    assert_eq!(result, vec![0, 4, 0]);
}

#[test]
fn indentation_saturates() {
    let src = "\t\t\tx\n".to_string() + &" ".repeat(300) + "y";
    assert_eq!(indent_levels::<16>(&src, 100), vec![255, 255]);
    assert_eq!(indent_levels::<16>("\t\tx", 100), vec![200]);
}

#[test]
fn indentation_stops_at_first_other_byte() {
    assert_eq!(indent_levels::<8>("  a  \t b\n \tc \t", 4), vec![2, 5]);
}

#[test]
fn tab_of_width_zero_is_still_indentation() {
    assert_eq!(indent_levels::<4>("\t  x", 0), vec![2]);
    assert_eq!(indent_levels::<4>(" \t \t x", 0), vec![3]);
}

#[test]
fn block_width_does_not_change_the_result() {
    let src = "fn main() {\n    let x = 1; // a long line that crosses several blocks of bytes\n\tif x > 0 {\n\t    y();\n\t}\n}\n\n   ";
    let expected: Vec<u8> = vec![0, 4, 3, 7, 3, 0, 0, 3];
    assert_eq!(indent_levels::<0>(src, 3), expected);
    assert_eq!(indent_levels::<1>(src, 3), expected);
    assert_eq!(indent_levels::<2>(src, 3), expected);
    assert_eq!(indent_levels::<16>(src, 3), expected);
    assert_eq!(indent_levels::<64>(src, 3), expected);
    assert_eq!(indent_levels_of::<7>(src.as_bytes(), 3), expected);
}

#[test]
fn newline_inside_a_skipped_block_is_seen() {
    let src = "abcdefgh\n  ijklmnopqrstuvwx\n yz";
    assert_eq!(indent_levels::<4>(src, 4), vec![0, 2, 1]);
    assert_eq!(indent_levels::<16>(src, 4), vec![0, 2, 1]);
}
