use legacy_codec::parse_cli_args;
use legacy_codec::BitcoinError;
use legacy_codec::CliCommand;
use legacy_codec::Point;

fn args(parts: &[&str]) -> Vec<String> {
    parts.iter().map(|p| p.to_string()).collect()
}

fn parse_error_message(e: BitcoinError) -> String {
    match e {
        BitcoinError::ParseError(m) => m,
        other => panic!("expected ParseError, got {other:?}"),
    }
}

#[test]
fn point_new_keeps_fields() {
    let p = Point::new(3u64, 4u64);
    assert_eq!(p.x, 3);
    assert_eq!(p.y, 4);
    let q = Point::new("a", "b");
    assert_eq!(q.x, "a");
    assert_eq!(q.y, "b");
}

#[test]
fn point_parses_plain_pair() {
    let p = Point::<u64>::from_str("(1,2)").unwrap();
    assert_eq!(p, Point::new(1, 2));
}

#[test]
fn point_parses_with_whitespace() {
    let p = Point::<u64>::from_str("  ( 10 ,\t20 )\n").unwrap();
    assert_eq!(p, Point::new(10, 20));
}

#[test]
fn point_parses_extreme_value() {
    let p = Point::<u64>::from_str("(18446744073709551615,0)").unwrap();
    assert_eq!(p.x, u64::MAX);
    assert_eq!(p.y, 0);
}

#[test]
fn point_parses_signed_coordinates() {
    let p = Point::<u64>::from_str("(+1,+2)").unwrap();
    assert_eq!(p, Point::new(1, 2));
}

#[test]
fn point_parses_with_unicode_whitespace() {
    let p = Point::<u64>::from_str("\u{00A0}(\u{3000}1 ,\u{2028}2\u{2009})\u{1680}").unwrap();
    assert_eq!(p, Point::new(1, 2));
}

#[test]
fn point_parses_through_from_str_trait() {
    let p: Point<u64> = "(8,9)".parse().unwrap();
    assert_eq!(p, Point::new(8, 9));
}

#[test]
fn point_rejects_sign_without_digits() {
    let e = Point::<u64>::from_str("(+,2)").unwrap_err();
    assert_eq!(parse_error_message(e), "Failed to parse x coordinate");
}

#[test]
fn point_rejects_double_sign() {
    let e = Point::<u64>::from_str("(1,++2)").unwrap_err();
    assert_eq!(parse_error_message(e), "Failed to parse y coordinate");
}

#[test]
fn point_rejects_missing_parentheses() {
    let e = Point::<u64>::from_str("1,2").unwrap_err();
    assert_eq!(
        parse_error_message(e),
        "Invalid point format '1,2', expected '(x,y)'"
    );
}

#[test]
fn point_rejects_missing_comma() {
    let e = Point::<u64>::from_str("(12)").unwrap_err();
    assert_eq!(
        parse_error_message(e),
        "Invalid point format '(12)', expected '(x,y)'"
    );
}

#[test]
fn point_rejects_bad_x() {
    let e = Point::<u64>::from_str("(a,2)").unwrap_err();
    assert_eq!(parse_error_message(e), "Failed to parse x coordinate");
}

#[test]
fn point_rejects_bad_y() {
    let e = Point::<u64>::from_str("(1,)").unwrap_err();
    assert_eq!(parse_error_message(e), "Failed to parse y coordinate");
}

#[test]
fn point_rejects_overflowing_x() {
    let e = Point::<u64>::from_str("(18446744073709551616,0)").unwrap_err();
    assert_eq!(parse_error_message(e), "Failed to parse x coordinate");
}

#[test]
fn cli_balance() {
    let cmd = parse_cli_args(&args(&["balance"])).unwrap();
    assert!(matches!(cmd, CliCommand::Balance));
}

#[test]
fn cli_send() {
    let cmd = parse_cli_args(&args(&["send", "250", "addr1"])).unwrap();
    match cmd {
        CliCommand::Send { amount, address } => {
            assert_eq!(amount, 250);
            assert_eq!(address, "addr1");
        },
        other => panic!("expected Send, got {other:?}"),
    }
}

#[test]
fn cli_empty_args() {
    let e = parse_cli_args(&[]).unwrap_err();
    assert_eq!(parse_error_message(e), "No command provided");
}

#[test]
fn cli_unknown_command() {
    let e = parse_cli_args(&args(&["foo"])).unwrap_err();
    assert_eq!(parse_error_message(e), "Unknown command: foo");
}

#[test]
fn cli_balance_with_extra_args_is_unknown() {
    let e = parse_cli_args(&args(&["balance", "now"])).unwrap_err();
    assert_eq!(parse_error_message(e), "Unknown command: balance");
}

#[test]
fn cli_send_with_wrong_arity_is_unknown() {
    let e = parse_cli_args(&args(&["send", "12"])).unwrap_err();
    assert_eq!(parse_error_message(e), "Unknown command: send");
}

#[test]
fn cli_send_with_signed_amount() {
    let cmd = parse_cli_args(&args(&["send", "+5", "addr1"])).unwrap();
    match cmd {
        CliCommand::Send { amount, address } => {
            assert_eq!(amount, 5);
            assert_eq!(address, "addr1");
        },
        other => panic!("expected Send, got {other:?}"),
    }
}

#[test]
fn cli_send_with_bare_sign_fails() {
    let e = parse_cli_args(&args(&["send", "+", "addr1"])).unwrap_err();
    assert_eq!(parse_error_message(e), "Invalid amount format");
}

#[test]
fn cli_send_with_bad_amount() {
    let e = parse_cli_args(&args(&["send", "abc", "addr1"])).unwrap_err();
    assert_eq!(parse_error_message(e), "Invalid amount format");
}

#[test]
fn cli_send_with_overflowing_amount() {
    let e = parse_cli_args(&args(&["send", "18446744073709551616", "addr1"])).unwrap_err();
    assert_eq!(parse_error_message(e), "Invalid amount format");
}

#[test]
fn cli_send_with_max_amount() {
    let cmd = parse_cli_args(&args(&["send", "18446744073709551615", "a"])).unwrap();
    match cmd {
        CliCommand::Send { amount, .. } => assert_eq!(amount, u64::MAX),
        other => panic!("expected Send, got {other:?}"),
    }
}
