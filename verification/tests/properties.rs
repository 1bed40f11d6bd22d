use ftb::{TableError, TableFormatter};
use unicode_width::UnicodeWidthStr;

/// Formatting a second time reproduces the first output exactly: alignment
/// is a fixed point.
#[test]
fn test_idempotence_concrete() {
    let input = "h1 | h2 | h3\n-|-|-\ndata-1 | d2 | a much longer cell";
    let mut formatter = TableFormatter::new();
    let once = formatter
        .format_table(input)
        .expect("Should format successfully");
    let twice = formatter
        .format_table(&once)
        .expect("Formatted output should format again");
    assert_eq!(once, twice);
}

/// Every output line of a successful format renders to the same display
/// width, wide characters included.
#[test]
fn test_line_widths_equal() {
    let input = "| Emoji | Description |\n|-|-|\n| 😀 | smile |\n| 中文 | wide |\n";
    let mut formatter = TableFormatter::new();
    let output = formatter
        .format_table(input)
        .expect("Should format successfully");
    let widths: Vec<usize> = output.lines().map(|l| UnicodeWidthStr::width(l)).collect();
    assert!(widths.len() >= 2);
    for w in &widths {
        assert_eq!(*w, widths[0]);
    }
}

/// The second line is dash runs joined by `-|-`, bounded by `|-` and `-|`.
#[test]
fn test_separator_shape_concrete() {
    let input = "| alpha | b |\n|-|-|\n| x | yy |\n";
    let mut formatter = TableFormatter::new();
    let output = formatter
        .format_table(input)
        .expect("Should format successfully");
    let sep = output.lines().nth(1).expect("separator line");
    assert_eq!(sep, "|-------|----|");
    assert!(sep.starts_with("|-"));
    assert!(sep.ends_with("-|"));
    assert!(sep.chars().all(|c| c == '|' || c == '-'));
}

/// A document with no pipe character at all comes back byte for byte,
/// trailing-newline state included.
#[test]
fn test_document_passthrough_exact() {
    let mut formatter = TableFormatter::new();

    let no_newline = "# Title\n\nplain text\n\nlast line";
    assert_eq!(formatter.format_document(no_newline), no_newline);

    let with_newline = "# Title\n\nplain text\n";
    assert_eq!(formatter.format_document(with_newline), with_newline);

    let empty = "";
    assert_eq!(formatter.format_document(empty), empty);

    let blank_lines = "\n\n\n";
    assert_eq!(formatter.format_document(blank_lines), blank_lines);
}

/// Fence delimiter lines are copied through verbatim; a single pipe line
/// inside a fence fails to format and is preserved too.
#[test]
fn test_fence_lines_passthrough() {
    let input = "```\n| fake | table |\n```";
    let mut formatter = TableFormatter::new();
    let output = formatter.format_document(input);
    assert_eq!(output, input);
}

/// A table over the column cap is rejected with the size error carrying
/// actual and maximum counts.
#[test]
fn test_table_too_large() {
    let cells: Vec<&str> = vec!["x"; 1001];
    let header = cells.join(" | ");
    let dashes: Vec<&str> = vec!["-"; 1001];
    let sep = dashes.join("|");
    let input = format!("{}\n{}", header, sep);
    let mut formatter = TableFormatter::new();
    let result = formatter.format_table(&input);
    match result {
        Err(TableError::TableTooLarge {
            rows,
            cols,
            max_rows,
            max_cols,
        }) => {
            assert_eq!(rows, 2);
            assert_eq!(cols, 1001);
            assert_eq!(max_rows, 100000);
            assert_eq!(max_cols, 1000);
        }
        other => panic!("expected TableTooLarge, got {:?}", other),
    }
}

/// Non-blank input with no pipe character holds no table at all, so it is
/// rejected as empty input, just like a blank string.
#[test]
fn test_no_pipe_is_empty_input() {
    let mut formatter = TableFormatter::new();
    let result = formatter.format_table("abc");
    assert!(matches!(result.unwrap_err(), TableError::EmptyInput));
    let result2 = formatter.format_table("plain text\nwith lines\n");
    assert!(matches!(result2.unwrap_err(), TableError::EmptyInput));
}

/// A default-constructed formatter behaves like a new one.
#[test]
fn test_default_formatter() {
    let mut formatter = TableFormatter::default();
    let output = formatter
        .format_table("| a |\n|-|\n| b |")
        .expect("Should format successfully");
    assert_eq!(output, "| a |\n|---|\n| b |\n");
}

/// The exact output of the simplest aligned table.
#[test]
fn test_single_cell_exact() {
    let mut formatter = TableFormatter::new();
    let output = formatter
        .format_table("| h |\n|-|\n| d |")
        .expect("Should format successfully");
    assert_eq!(output, "| h |\n|---|\n| d |\n");
}

/// A data row shorter than the header is padded with an empty cell of the
/// column's width.
#[test]
fn test_short_row_padded() {
    let mut formatter = TableFormatter::new();
    let output = formatter
        .format_table("| a | b | c |\n|-|-|-|\n| 1 | 2 |")
        .expect("Should format successfully");
    assert_eq!(output, "| a | b | c |\n|---|---|---|\n| 1 | 2 |   |\n");
    for line in output.lines() {
        assert_eq!(line.matches('|').count(), 4);
    }
}

/// A document with text, a table, then more text keeps the text verbatim
/// and formats only the table, order unchanged.
#[test]
fn test_document_order_preserved() {
    let input = "before\n\n| a | bb |\n|-|-|\n| cc | d |\n\nafter";
    let mut formatter = TableFormatter::new();
    let output = formatter.format_document(input);
    assert_eq!(
        output,
        "before\n\n| a  | bb |\n|----|----|\n| cc | d  |\n\nafter"
    );
}

/// Combining characters take no display columns: a precomposed and a
/// combining-mark spelling of the same text align to the same width.
#[test]
fn test_combining_marks_width() {
    // "é" as U+0065 U+0301 (two code points, one display column)
    let input = "| e\u{301}x | b |\n|-|-|\n| yyy | z |\n";
    let mut formatter = TableFormatter::new();
    let output = formatter
        .format_table(input)
        .expect("Should format successfully");
    let widths: Vec<usize> = output.lines().map(|l| UnicodeWidthStr::width(l)).collect();
    for w in &widths {
        assert_eq!(*w, widths[0]);
    }
}
