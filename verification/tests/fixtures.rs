use ftb::TableFormatter;

// The sample tables these tests run on, with their expected aligned forms.

const SIMPLE_INPUT: &str = "| h1 | h2 | h3 |\n|-|-|-|\n| data1 | data2 | data3 |\n";
const SIMPLE_EXPECTED: &str =
    "| h1    | h2    | h3    |\n|-------|-------|-------|\n| data1 | data2 | data3 |\n";

const IRREGULAR_INPUT: &str = "h1 | h2 | h3\n-|-|-\ndata-1 | data-2 | data-3";
const IRREGULAR_EXPECTED: &str =
    "| h1     | h2     | h3     |\n|--------|--------|--------|\n| data-1 | data-2 | data-3 |\n";

const COMPLEX_INPUT: &str = "| Header 1 | Header 2 | Header 3 |\n|----|---|-|\n| data1a | Data is longer | 1 |\n| d1b | add a cell|";
const COMPLEX_EXPECTED: &str = "| Header 1 | Header 2       | Header 3 |\n|----------|----------------|----------|\n| data1a   | Data is longer | 1        |\n| d1b      | add a cell     |          |\n";

const EMOJI_INPUT: &str = "| Emoji | Description |\n|-|-|\n| 😀 | smile |\n| 🎉 | party |\n";
const EMOJI_EXPECTED: &str =
    "| Emoji | Description |\n|-------|-------------|\n| 😀    | smile       |\n| 🎉    | party       |\n";

const CJK_INPUT: &str = "| English | 中文 | 日本語 |\n|-|-|-|\n| hello | 你好 | こんにちは |\n";
const CJK_EXPECTED: &str = "| English | 中文 | 日本語     |\n|---------|------|------------|\n| hello   | 你好 | こんにちは |\n";

const MIXED_INPUT: &str = "| ID | Name | Status |\n|-|-|-|\n| 1 | 田中 | ✓ |\n| 2 | John | ✗ |\n";
const MIXED_EXPECTED: &str = "| ID | Name | Status |\n|----|------|--------|\n| 1  | 田中 | ✓      |\n| 2  | John | ✗      |\n";

/// Helper function to format a table
fn format_table(input: &str) -> String {
    let mut formatter = TableFormatter::new();
    formatter
        .format_table(input)
        .expect("Should format successfully")
}

#[test]
fn integration_test_test_simple_table() {
    let output = format_table(SIMPLE_INPUT);
    assert_eq!(output, SIMPLE_EXPECTED);
}

#[test]
fn test_irregular_table() {
    let output = format_table(IRREGULAR_INPUT);
    assert_eq!(output, IRREGULAR_EXPECTED);
}

#[test]
fn test_complex_table() {
    let output = format_table(COMPLEX_INPUT);
    assert_eq!(output, COMPLEX_EXPECTED);
}

#[test]
fn test_simple_table_structure() {
    let output = format_table(SIMPLE_INPUT);

    // Verify proper structure
    assert!(output.contains("| h1    | h2    | h3    |"));
    assert!(output.contains("|-"));
    assert!(output.contains("| data1 | data2 | data3 |"));

    // All lines should have the same number of pipes
    let lines: Vec<&str> = output.lines().collect();
    assert_eq!(lines.len(), 3);
    for line in &lines {
        assert_eq!(line.matches('|').count(), 4);
    }
}

#[test]
fn test_complex_table_handles_missing_cells() {
    let output = format_table(COMPLEX_INPUT);

    // All lines should have 4 pipes (3 columns)
    for line in output.lines() {
        assert_eq!(line.matches('|').count(), 4, "Line: {}", line);
    }

    // Should handle missing cells by adding empty ones
    assert!(output
        .lines()
        .any(|line| line.contains("d1b") && line.contains("add a cell")));
}

#[test]
fn test_unicode_emoji_table() {
    let output = format_table(EMOJI_INPUT);
    assert_eq!(output, EMOJI_EXPECTED);
}

#[test]
fn test_unicode_cjk_table() {
    let output = format_table(CJK_INPUT);
    assert_eq!(output, CJK_EXPECTED);
}

#[test]
fn test_unicode_mixed_table() {
    let output = format_table(MIXED_INPUT);
    assert_eq!(output, MIXED_EXPECTED);
}

#[test]
fn test_formatter_reuse_integration() {
    let mut formatter = TableFormatter::new();

    // Format first table
    let output1 = formatter
        .format_table(SIMPLE_INPUT)
        .expect("Should format successfully");
    assert_eq!(output1, SIMPLE_EXPECTED);

    // Reuse formatter for second table
    let output2 = formatter
        .format_table(IRREGULAR_INPUT)
        .expect("Should format successfully");
    assert_eq!(output2, IRREGULAR_EXPECTED);

    // Reuse again for unicode table
    let output3 = formatter
        .format_table(EMOJI_INPUT)
        .expect("Should format successfully");
    assert_eq!(output3, EMOJI_EXPECTED);
}
