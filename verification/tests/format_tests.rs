use bfc::format::format_code;

#[test]
fn test_basic_formatting() {
    let src = "[>+ -]\n<";
    let expected = "[\n\n\t>\n\t+\n\t-\n\n]\n<";
    let formatted = format_code(src);
    assert_eq!(formatted, expected);
}

#[test]
fn test_nested_brackets() {
    let src = "[>[+]<]";
    let expected = "[\n\n\t>\n\t[\n\n\t\t+\n\n\t]\n\t<\n\n]";
    let formatted = format_code(src);
    assert_eq!(formatted, expected);
}

#[test]
fn test_ignores_non_commands() {
    let src = "+abc-123";
    let expected = "+\n-123";
    let formatted = format_code(src);
    assert_eq!(formatted, expected);
}

#[test]
fn test_tabs_and_newlines() {
    let src = "[+[->]<]";
    let expected = "[\n\n\t+\n\t[\n\n\t\t-\n\t\t>\n\n\t]\n\t<\n\n]";
    let formatted = format_code(src);
    assert_eq!(formatted, expected);
}

fn retained(s: &str) -> String {
    s.chars()
        .filter(|c| "><+-.,[]0123456789".contains(*c))
        .collect()
}

#[test]
fn test_formatting_keeps_commands_and_digits() {
    let src = "comment [ +2 > loop ] done -3";
    let formatted = format_code(src);
    assert_eq!(retained(&formatted), retained(src));
}

#[test]
fn test_reformatting_is_noop_on_retained_chars() {
    let src = "[>[+4]<]-2 text";
    let once = format_code(src);
    let twice = format_code(&once);
    assert_eq!(retained(&twice), retained(&once));
}
