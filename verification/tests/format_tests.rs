use fintrack::date::{Date, parse_date, render_date, date_le};
use fintrack::amount::{format_amount, render_cents_display};
use fintrack::text::{check_label, to_lowercase, to_title_case};

#[test]
fn test_parse_date_valid() {
    let d = parse_date("15-01-2025").unwrap();
    assert_eq!(d.day, 15);
    assert_eq!(d.month, 1);
    assert_eq!(d.year, 2025);

    // single-digit day and month are accepted
    let d = parse_date("5-1-2025").unwrap();
    assert_eq!(d.day, 5);
    assert_eq!(d.month, 1);
    assert_eq!(d.year, 2025);
}

#[test]
fn test_parse_date_invalid() {
    assert!(parse_date("31-02-2025").is_none());
    assert!(parse_date("00-01-2025").is_none());
    assert!(parse_date("01-13-2025").is_none());
    assert!(parse_date("2025-01-15").is_none());
    assert!(parse_date("15/01/2025").is_none());
    assert!(parse_date("").is_none());
    assert!(parse_date("15-01-25").is_none());
}

#[test]
fn test_parse_date_leap_years() {
    assert!(parse_date("29-02-2024").is_some());
    assert!(parse_date("29-02-2025").is_none());
    assert!(parse_date("29-02-2000").is_some());
    assert!(parse_date("29-02-1900").is_none());
}

#[test]
fn test_render_date_pads() {
    let d = Date { day: 5, month: 1, year: 2025 };
    assert_eq!(render_date(&d), "05-01-2025");
    let d = Date { day: 31, month: 12, year: 999 };
    assert_eq!(render_date(&d), "31-12-0999");
}

#[test]
fn test_date_round_trip() {
    let d = parse_date("5-1-2025").unwrap();
    assert_eq!(parse_date(&render_date(&d)), Some(d));
}

#[test]
fn test_date_ordering() {
    let a = parse_date("31-12-2024").unwrap();
    let b = parse_date("01-01-2025").unwrap();
    assert!(date_le(&a, &b));
    assert!(!date_le(&b, &a));
    assert!(date_le(&a, &a));
}

#[test]
fn test_format_amount_groups_thousands() {
    assert_eq!(format_amount(123456789), "1,234,567.89");
    assert_eq!(format_amount(100000), "1,000.00");
    assert_eq!(format_amount(99999), "999.99");
    assert_eq!(format_amount(5), "0.05");
    assert_eq!(format_amount(-123450), "-1,234.50");
}

#[test]
fn test_render_cents_display() {
    assert_eq!(render_cents_display(10000), "100");
    assert_eq!(render_cents_display(10050), "100.5");
    assert_eq!(render_cents_display(10025), "100.25");
    assert_eq!(render_cents_display(-250), "-2.5");
}

#[test]
fn test_text_helpers() {
    assert_eq!(to_lowercase("GroCerIES"), "groceries");
    assert_eq!(to_title_case("gROCERIES"), "Groceries");
    assert_eq!(to_title_case("a"), "A");
    assert!(check_label("Groceries_2"));
    assert!(!check_label("2Groceries"));
    assert!(!check_label(""));
    assert!(!check_label("has space"));
}
