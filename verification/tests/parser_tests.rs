use csv_parser::{cell, consume_newlines, many_cells, match_inside_quotes, parse_csv};
use csv_parser::{CSVError, SizeError};

#[test]
fn test_quotes() {
    let res = match_inside_quotes("hello\"\"\"\"\n kello\"");
    assert_eq!(res, (String::from("hello\"\"\n kello"), "\""));
}

#[test]
fn cell_test() {
    assert_eq!(
        cell("\"hello world\" yes "),
        (String::from("hello world"), "yes ")
    );
    assert_eq!(
        cell("hello,buffalo,2"),
        (String::from("hello"), ",buffalo,2")
    );
    assert_eq!(
        cell("\"Hello, Buffalo\n2,3\n"),
        (String::from("Hello, Buffalo\n2,3\n"), "")
    );
}

#[test]
fn many_cells_test() {
    assert_eq!(
        many_cells("this,\"that\" ,,2,9\n"),
        (
            vec!["this", "that", "", "2", "9"]
                .iter()
                .map(|&s| String::from(s))
                .collect(),
            "\n"
        )
    );
}

#[test]
fn parse_csv_test() {
    let text = "\"ankit\", \"he\"\"llo\",8,9\n2,3,\"1\"\"\",5\n1,\"5\n\",\"6,9";
    assert_eq!(
        parse_csv(text),
        Err(CSVError::UnequalColumns(SizeError {
            line_no: 3,
            expected_size: 4,
            actual_size: 3,
        }))
    );
}

fn table(rows: &[&[&str]]) -> Vec<Vec<String>> {
    rows.iter()
        .map(|r| r.iter().map(|&s| String::from(s)).collect())
        .collect()
}

#[test]
fn rectangular_input_parses() {
    assert_eq!(
        parse_csv("a,b\nc,d\ne,f"),
        Ok(table(&[&["a", "b"], &["c", "d"], &["e", "f"]]))
    );
}

#[test]
fn single_row_no_trailing_newline() {
    assert_eq!(parse_csv("x,y,z"), Ok(table(&[&["x", "y", "z"]])));
}

#[test]
fn empty_input_is_one_empty_cell() {
    assert_eq!(parse_csv(""), Ok(table(&[&[""]])));
}

#[test]
fn blank_lines_are_separators() {
    assert_eq!(parse_csv("a\n\n\nb"), Ok(table(&[&["a"], &["b"]])));
}

#[test]
fn trailing_newline_gives_mismatch() {
    assert_eq!(
        parse_csv("a,b\n"),
        Err(CSVError::UnequalColumns(SizeError {
            line_no: 2,
            expected_size: 2,
            actual_size: 1,
        }))
    );
}

#[test]
fn quoted_newline_is_not_a_row_separator() {
    assert_eq!(
        parse_csv("\"a\nb\",c\nd,e"),
        Ok(table(&[&["a\nb", "c"], &["d", "e"]]))
    );
}

#[test]
fn doubled_quotes_halve() {
    // six quote characters in the interior decode to three literal quotes
    assert_eq!(
        match_inside_quotes("\"\"\"\"\"\""),
        (String::from("\"\"\""), "")
    );
    assert_eq!(cell("\"a\"\"b\""), (String::from("a\"b"), ""));
}

#[test]
fn unquoted_whitespace_is_preserved() {
    assert_eq!(cell("  a b ,x"), (String::from("  a b "), ",x"));
}

#[test]
fn quoted_surrounding_whitespace_is_stripped() {
    assert_eq!(cell(" \t\"a\"\t ,x"), (String::from("a"), ",x"));
}

#[test]
fn consume_newlines_takes_the_run() {
    assert_eq!(consume_newlines("\n\nabc"), "abc");
    assert_eq!(consume_newlines("abc"), "abc");
    assert_eq!(consume_newlines("\n\n"), "");
}

#[test]
fn reparse_is_identical() {
    let ok_text = "a,b\nc,d";
    assert_eq!(parse_csv(ok_text), parse_csv(ok_text));
    let err_text = "a,b\nc";
    assert_eq!(parse_csv(err_text), parse_csv(err_text));
}

#[test]
fn quoted_cells_round_trip() {
    // every cell quoted; values hold commas, newlines and doubled quotes
    assert_eq!(
        parse_csv("\"a,1\",\"b\nc\"\n\"x\"\"y\",\"\""),
        Ok(table(&[&["a,1", "b\nc"], &["x\"y", ""]]))
    );
}

#[test]
fn mismatch_reports_first_offending_row() {
    // row 2 already mismatches; row 3 would too but is never reached
    assert_eq!(
        parse_csv("a,b\nc\nd"),
        Err(CSVError::UnequalColumns(SizeError {
            line_no: 2,
            expected_size: 2,
            actual_size: 1,
        }))
    );
}
