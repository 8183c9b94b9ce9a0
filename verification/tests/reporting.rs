use cpdetect::report::{colored_heading, colored_line, heading, plain_line, span_line, to_decimal};
use cpdetect::span::CPLocation;

#[test]
fn decimal_of_small_and_large_numbers() {
    assert_eq!(to_decimal(0), "0");
    assert_eq!(to_decimal(7), "7");
    assert_eq!(to_decimal(10), "10");
    assert_eq!(to_decimal(109), "109");
    assert_eq!(to_decimal(1234567890), "1234567890");
    assert_eq!(to_decimal(usize::MAX), usize::MAX.to_string());
}

#[test]
fn line_of_a_span() {
    let span = CPLocation::new("src/main/A.java".to_string(), 12, 340).unwrap();
    assert_eq!(plain_line(&span), "src/main/A.java: line 12~340");
}

#[test]
fn line_of_a_span_of_one_line() {
    let span = CPLocation::new("a".to_string(), 1, 1).unwrap();
    assert_eq!(plain_line(&span), "a: line 1~1");
}

#[test]
fn line_from_its_parts() {
    assert_eq!(span_line("p", "s", "e"), "p: line s~e");
    assert_eq!(span_line("", "", ""), ": line ~");
}

#[test]
fn heading_from_its_part() {
    assert_eq!(heading("30"), "top 30 result:");
}

#[test]
fn colored_line_without_and_with_colors() {
    let span = CPLocation::new("src/A.java".to_string(), 3, 9).unwrap();

    colored::control::set_override(false);
    assert_eq!(colored_line(&span), plain_line(&span));
    assert_eq!(colored_heading(30), "top 30 result:");

    colored::control::set_override(true);
    assert_eq!(
        colored_line(&span),
        "\u{1b}[31msrc/A.java\u{1b}[0m: line \u{1b}[35m3\u{1b}[0m~\u{1b}[35m9\u{1b}[0m"
    );
    assert_eq!(colored_heading(5), "top \u{1b}[34m5\u{1b}[0m result:");

    let odd = CPLocation::new("a\u{1b}[0mb".to_string(), 1, 2).unwrap();
    let line = colored_line(&odd);
    assert!(!line.contains("a\u{1b}[0mb"));
    assert!(line.ends_with(": line \u{1b}[35m1\u{1b}[0m~\u{1b}[35m2\u{1b}[0m"));
    colored::control::set_override(false);
    assert_eq!(colored_line(&odd), "a\u{1b}[0mb: line 1~2");
}
