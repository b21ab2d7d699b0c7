use camt052::decimal::{parse_decimal, render_decimal, Decimal};
use camt052::iso_date::{parse_iso_date, render_iso_date, IsoDate};

#[test]
fn parses_exact_iso_date() {
    let d = parse_iso_date("2023-05-01").unwrap();
    assert_eq!(d, IsoDate { year: 2023, month: 5, day: 1 });
}

#[test]
fn date_round_trip_reproduces_text() {
    let d = parse_iso_date("2023-05-01").unwrap();
    let text = render_iso_date(&d);
    assert_eq!(text, "2023-05-01");
    assert_eq!(parse_iso_date(&text).unwrap(), d);
}

#[test]
fn date_zero_padding_is_kept() {
    let d = IsoDate { year: 987, month: 1, day: 9 };
    assert_eq!(render_iso_date(&d), "0987-01-09");
    assert_eq!(parse_iso_date("0987-01-09").unwrap(), d);
}

#[test]
fn lenient_date_formats_are_rejected() {
    assert!(parse_iso_date("2023-5-1").is_none());
    assert!(parse_iso_date("01.05.2023").is_none());
    assert!(parse_iso_date("2023-05-01 ").is_none());
    assert!(parse_iso_date("2023/05/01").is_none());
    assert!(parse_iso_date("").is_none());
}

#[test]
fn calendar_rules_are_checked() {
    assert!(parse_iso_date("2023-02-29").is_none());
    assert!(parse_iso_date("2024-02-29").is_some());
    assert!(parse_iso_date("2023-04-31").is_none());
    assert!(parse_iso_date("2023-13-01").is_none());
    assert!(parse_iso_date("2023-00-10").is_none());
    assert!(parse_iso_date("2023-01-00").is_none());
}

#[test]
fn parses_plain_period_decimal() {
    let d = parse_decimal("100.00").unwrap();
    assert_eq!(d, Decimal { mantissa: 10000, scale: 2 });
    let d = parse_decimal("0.05").unwrap();
    assert_eq!(d, Decimal { mantissa: 5, scale: 2 });
    let d = parse_decimal("42").unwrap();
    assert_eq!(d, Decimal { mantissa: 42, scale: 0 });
    let d = parse_decimal("-3.5").unwrap();
    assert_eq!(d, Decimal { mantissa: -35, scale: 1 });
    let d = parse_decimal("+7.25").unwrap();
    assert_eq!(d, Decimal { mantissa: 725, scale: 2 });
}

#[test]
fn locale_notation_is_rejected() {
    assert!(parse_decimal("1,000.00").is_none());
    assert!(parse_decimal("1.000,00").is_none());
    assert!(parse_decimal("12 34").is_none());
    assert!(parse_decimal("").is_none());
    assert!(parse_decimal(".5").is_none());
    assert!(parse_decimal("5.").is_none());
    assert!(parse_decimal("1.2.3").is_none());
    assert!(parse_decimal("1_000").is_none());
}

#[test]
fn negate_flips_only_the_sign() {
    let d = parse_decimal("100.00").unwrap();
    let n = d.negate();
    assert_eq!(n, Decimal { mantissa: -10000, scale: 2 });
    assert_eq!(n.negate(), d);
}

#[test]
fn renders_with_fixed_scale() {
    assert_eq!(render_decimal(&Decimal { mantissa: -10000, scale: 2 }), "-100.00");
    assert_eq!(render_decimal(&Decimal { mantissa: 5000, scale: 2 }), "50.00");
    assert_eq!(render_decimal(&Decimal { mantissa: -5, scale: 2 }), "-0.05");
    assert_eq!(render_decimal(&Decimal { mantissa: 42, scale: 0 }), "42");
    assert_eq!(render_decimal(&Decimal { mantissa: 0, scale: 2 }), "0.00");
}
