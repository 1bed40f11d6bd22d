use ftb::{TableError, TableFormatter};

#[test]
fn lib_test_simple_table() {
    let input = "| h1 | h2 | h3 |\n|-|-|-|\n| data1 | data2 | data3 |\n";
    let mut formatter = TableFormatter::new();
    let output = formatter
        .format_table(input)
        .expect("Should format successfully");

    assert!(output.contains("| h1    | h2    | h3    |"));
    assert!(output.contains("| data1 | data2 | data3 |"));
}

#[test]
fn test_irregular_columns() {
    let input = "h1 | h2 | h3\n-|-|-\ndata-1 | data-2 | data-3";
    let mut formatter = TableFormatter::new();
    let output = formatter
        .format_table(input)
        .expect("Should format successfully");

    assert!(output.contains("h1"));
    assert!(output.contains("h2"));
    assert!(output.contains("h3"));
    assert!(output.contains("data-1"));
}

#[test]
fn test_missing_cells() {
    let input = "| Header 1 | Header 2 | Header 3 |\n|----|---|-|\n| data1a | Data is longer | 1 |\n| d1b | add a cell|";
    let mut formatter = TableFormatter::new();
    let output = formatter
        .format_table(input)
        .expect("Should format successfully");

    // Should have 3 columns
    let lines: Vec<&str> = output.lines().collect();
    for line in lines {
        let pipe_count = line.matches('|').count();
        assert_eq!(pipe_count, 4); // 4 pipes for 3 columns
    }
}

#[test]
fn test_empty_table() {
    let input = "";
    let mut formatter = TableFormatter::new();
    let result = formatter.format_table(input);

    assert!(result.is_err());
    assert!(matches!(result.unwrap_err(), TableError::EmptyInput));
}

#[test]
fn test_column_width_calculation() {
    let mut formatter = TableFormatter::new();
    formatter.cells = vec![
        vec![vec!['a'], vec!['b', 'b']],
        vec![vec!['c', 'c', 'c'], vec!['d']],
    ];
    formatter.get_column_widths();

    assert_eq!(formatter.column_widths, vec![3, 2]);
}

#[test]
fn test_unicode_emoji() {
    let input = "| Emoji | Description |\n|-|-|\n| 😀 | smile |\n| 🎉 | party |\n";
    let mut formatter = TableFormatter::new();
    let output = formatter
        .format_table(input)
        .expect("Should format successfully");

    // Check output structure
    let lines: Vec<&str> = output.lines().collect();
    assert_eq!(lines.len(), 4); // header + separator + 2 data rows

    // All lines should have 3 pipes (2 columns)
    for line in &lines {
        assert_eq!(line.matches('|').count(), 3, "Line: {}", line);
    }

    // Check that content is properly aligned
    assert!(output.contains("😀"));
    assert!(output.contains("🎉"));
}

#[test]
fn test_unicode_cjk_characters() {
    let input = "| English | 中文 | 日本語 |\n|-|-|-|\n| hello | 你好 | こんにちは |\n";
    let mut formatter = TableFormatter::new();
    let output = formatter
        .format_table(input)
        .expect("Should format successfully");

    let lines: Vec<&str> = output.lines().collect();
    assert_eq!(lines.len(), 3);

    // All lines should have 4 pipes (3 columns)
    for line in &lines {
        assert_eq!(line.matches('|').count(), 4, "Line: {}", line);
    }

    // Check that CJK characters are present
    assert!(output.contains("中文"));
    assert!(output.contains("日本語"));
    assert!(output.contains("你好"));
    assert!(output.contains("こんにちは"));
}

#[test]
fn test_unicode_accented_characters() {
    let input = "| Name | País |\n|-|-|\n| José | España |\n| François | Françe |\n";
    let mut formatter = TableFormatter::new();
    let output = formatter
        .format_table(input)
        .expect("Should format successfully");

    let lines: Vec<&str> = output.lines().collect();
    assert_eq!(lines.len(), 4);

    // Check accented characters are preserved
    assert!(output.contains("José"));
    assert!(output.contains("España"));
    assert!(output.contains("François"));
    assert!(output.contains("Françe"));
}

#[test]
fn test_mixed_unicode_and_ascii() {
    let input = "| ID | Name | Status |\n|-|-|-|\n| 1 | 田中 | ✓ |\n| 2 | John | ✗ |\n";
    let mut formatter = TableFormatter::new();
    let output = formatter
        .format_table(input)
        .expect("Should format successfully");

    let lines: Vec<&str> = output.lines().collect();
    assert_eq!(lines.len(), 4);

    for line in &lines {
        assert_eq!(line.matches('|').count(), 4);
    }

    assert!(output.contains("田中"));
    assert!(output.contains("✓"));
    assert!(output.contains("✗"));
}

#[test]
fn test_formatter_reusability() {
    let mut formatter = TableFormatter::new();

    // Format first table
    let input1 = "| h1 | h2 |\n|-|-|\n| a | b |\n";
    let output1 = formatter
        .format_table(input1)
        .expect("Should format successfully");
    assert!(output1.contains("h1"));
    assert!(output1.contains("h2"));

    // Format second table with the same formatter
    let input2 = "| col1 | col2 | col3 |\n|-|-|-|\n| x | y | z |\n";
    let output2 = formatter
        .format_table(input2)
        .expect("Should format successfully");
    assert!(output2.contains("col1"));
    assert!(output2.contains("col2"));
    assert!(output2.contains("col3"));

    // Verify the second output doesn't contain data from first table
    let lines2: Vec<&str> = output2.lines().collect();
    assert_eq!(lines2[0].matches('|').count(), 4); // 3 columns = 4 pipes
}

#[test]
fn test_formatter_reusability_different_sizes() {
    let mut formatter = TableFormatter::new();

    // Format a large table
    let input1 = "| a | b | c | d |\n|-|-|-|-|\n| 1 | 2 | 3 | 4 |\n| 5 | 6 | 7 | 8 |\n";
    formatter
        .format_table(input1)
        .expect("Should format successfully");

    // Format a smaller table - should work correctly
    let input2 = "| x | y |\n|-|-|\n| 9 | 10 |\n";
    let output2 = formatter
        .format_table(input2)
        .expect("Should format successfully");

    let lines2: Vec<&str> = output2.lines().collect();
    assert_eq!(lines2.len(), 3);
    // Should have 2 columns (3 pipes)
    for line in &lines2 {
        assert_eq!(line.matches('|').count(), 3, "Line: {}", line);
    }
}

#[test]
fn test_missing_separator_error() {
    let input = "| h1 | h2 |\n| d1 | d2 |";
    let mut formatter = TableFormatter::new();
    let result = formatter.format_table(input);

    assert!(result.is_err());
    assert!(matches!(
        result.unwrap_err(),
        TableError::InvalidStructure(_)
    ));
}

#[test]
fn test_single_row_error() {
    let input = "| header |";
    let mut formatter = TableFormatter::new();
    let result = formatter.format_table(input);

    assert!(result.is_err());
    assert!(matches!(result.unwrap_err(), TableError::MissingSeparator));
}

#[test]
fn test_whitespace_only_error() {
    let input = "   \n\n   \t  \n";
    let mut formatter = TableFormatter::new();
    let result = formatter.format_table(input);

    assert!(result.is_err());
    assert!(matches!(result.unwrap_err(), TableError::EmptyInput));
}

#[test]
fn test_format_after_error() {
    let mut formatter = TableFormatter::new();

    // First call fails
    let result1 = formatter.format_table("invalid");
    assert!(result1.is_err());

    // Second call should work
    let result2 = formatter.format_table("| h |\n|-|\n| d |");
    assert!(result2.is_ok());
    let output = result2.unwrap();
    assert!(output.contains("| h |"));
    assert!(output.contains("| d |"));
}
