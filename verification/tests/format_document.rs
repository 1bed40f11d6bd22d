use ftb::TableFormatter;

#[test]
fn test_format_document_with_single_table() {
    let input = "# Header\n\nSome text before.\n\n| a | b |\n|-|-|\n| 1 | 2 |\n\nSome text after.";
    let mut formatter = TableFormatter::new();
    let output = formatter.format_document(input);

    assert!(output.contains("# Header"));
    assert!(output.contains("Some text before"));
    assert!(output.contains("Some text after"));
    assert!(output.contains("| a | b |"));
    assert!(output.contains("| 1 | 2 |"));
}

#[test]
fn test_format_document_with_multiple_tables() {
    let input = "Table 1:\n\n| a | b |\n|-|-|\n| 1 | 2 |\n\nTable 2:\n\n| x | y | z |\n|-|-|-|\n| 3 | 4 | 5 |";
    let mut formatter = TableFormatter::new();
    let output = formatter.format_document(input);

    assert!(output.contains("Table 1:"));
    assert!(output.contains("Table 2:"));
    assert!(output.contains("| a | b |"));
    assert!(output.contains("| x | y | z |"));
}

#[test]
fn test_format_document_preserves_code_blocks() {
    let input = "```\n| fake | table |\n```\n\n| real | table |\n|-|-|\n| a | b |";
    let mut formatter = TableFormatter::new();
    let output = formatter.format_document(input);

    // Code block should be preserved as-is
    assert!(output.contains("```"));
    assert!(output.contains("| fake | table |"));
    // Real table should be formatted (checking for formatted structure)
    assert!(output.contains("| real"));
    assert!(output.contains("| a"));
}

#[test]
fn test_format_document_with_no_tables() {
    let input = "# Title\n\nJust some text.\n\nNo tables here.";
    let mut formatter = TableFormatter::new();
    let output = formatter.format_document(input);

    // Should be unchanged
    assert_eq!(output, input);
}

#[test]
fn test_format_document_with_malformed_table() {
    let input = "# Title\n\n| incomplete | table\n\nMore text.";
    let mut formatter = TableFormatter::new();
    let output = formatter.format_document(input);

    // Malformed table should be preserved as-is
    assert!(output.contains("| incomplete | table"));
    assert!(output.contains("More text."));
}
