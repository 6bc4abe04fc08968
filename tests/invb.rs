use invb::decimal::{checked_share, checked_sum, Dec};
use invb::format::dec_to_str;
use invb::parser::{accept_read, parse_group, parse_groups, parse_help, parse_value, sums_to_hundred, ArgError};
use invb::rebalance::{rebalance, report};
use invb::{Column, Table};

fn split_args(args: &str) -> Vec<String> {
    args.split_whitespace().map(String::from).collect()
}

fn dec(mantissa: i128, scale: u32) -> Dec {
    Dec { mantissa, scale }
}

#[test]
fn parse_help_cases() {
    assert!(parse_help(&split_args("prog -a 2 -d 100 -h")));
    assert!(parse_help(&split_args("prog -a --help 2 -d 100")));
    assert!(parse_help(&split_args("prog")));
    assert!(parse_help(&[]));
    assert!(parse_help(&split_args("prog -h")));
    assert!(!parse_help(&split_args("prog -a 2 -d 100")));
    assert!(!parse_help(&split_args("prog -a")));
}

#[test]
fn parse_group_success() {
    let args = split_args("-a 50 50 -c 9 101 -d -2,0.1");
    assert_eq!(parse_group(&args, "-a").unwrap(), vec![dec(50, 0), dec(50, 0)]);
    assert_eq!(parse_group(&args, "-c").unwrap(), vec![dec(9, 0), dec(101, 0)]);
    assert_eq!(parse_group(&args, "-d").unwrap(), vec![dec(-201, 1)]);
    assert_eq!(parse_group(&args, "-e").unwrap(), vec![]);
}

#[test]
fn parse_group_fail() {
    let args = split_args("-a 5x0 50 -c 9 101 -d -2,0.1");
    assert_eq!(parse_group(&args, "-a"), Err(ArgError::Parse("5x0".to_string())));
    let args = split_args("-a 5x0 50 -c 1,000,000,000,000,000.01 101 -d -2,0.1");
    assert_eq!(
        parse_group(&args, "-c"),
        Err(ArgError::Magnitude("1000000000000000.01".to_string()))
    );
}

#[test]
fn parse_value_normalizes_and_bounds() {
    assert_eq!(parse_value("3.100"), Ok(dec(31, 1)));
    assert_eq!(parse_value("-0.00"), Ok(dec(0, 0)));
    assert_eq!(parse_value("1,000,000,000,000,000"), Ok(dec(1_000_000_000_000_000, 0)));
    assert_eq!(parse_value("-1,000,000,000,000,000"), Ok(dec(-1_000_000_000_000_000, 0)));
    assert!(matches!(parse_value("1,000,000,000,000,000.01"), Err(ArgError::Magnitude(_))));
    assert!(matches!(parse_value(""), Err(ArgError::Parse(_))));
    assert!(matches!(parse_value("1.2.3"), Err(ArgError::Parse(_))));
    assert!(matches!(parse_value("--5"), Err(ArgError::Parse(_))));
}

#[test]
fn group_stops_at_marker_not_negative_number() {
    let args = split_args("-d -2.5 -3 -x 4");
    assert_eq!(parse_group(&args, "-d").unwrap(), vec![dec(-25, 1), dec(-3, 0)]);
    let args = split_args("-a 1 - 2");
    assert!(matches!(parse_group(&args, "-a"), Err(ArgError::Parse(_))));
}

#[test]
fn dec_to_str_cases() {
    assert_eq!(dec_to_str(dec(10000, 0)).unwrap(), "10,000.00");
    assert_eq!(dec_to_str(dec(-123456789, 2)).unwrap(), "-1,234,567.89");
    assert_eq!(dec_to_str(dec(-123456789, 4)).unwrap(), "-12,345.68");
    assert_eq!(dec_to_str(dec(0, 0)).unwrap(), "0.00");
    assert_eq!(dec_to_str(dec(1000, 0)).unwrap(), "1,000.00");
    assert_eq!(dec_to_str(dec(999, 0)).unwrap(), "999.00");
    assert_eq!(dec_to_str(dec(1_000_000_000_000_000, 0)).unwrap(), "1,000,000,000,000,000.00");
}

#[test]
fn dec_to_str_rounds_half_to_even() {
    assert_eq!(dec_to_str(dec(125, 3)).unwrap(), "0.12");
    assert_eq!(dec_to_str(dec(135, 3)).unwrap(), "0.14");
    assert_eq!(dec_to_str(dec(-1, 3)).unwrap(), "-0.00");
}

#[test]
fn dec_to_str_too_large() {
    assert_eq!(dec_to_str(dec(79228162514264337593543950335, 0)), None);
}

#[test]
fn exact_arithmetic() {
    assert_eq!(checked_sum(dec(15, 1), dec(25, 2)), Some(dec(175, 2)));
    assert_eq!(checked_sum(dec(79228162514264337593543950335, 0), dec(1, 0)), None);
    assert_eq!(checked_share(dec(50, 0), dec(110, 0)), Some(dec(5500, 2)));
}

#[test]
fn allocation_sum() {
    assert!(sums_to_hundred(&vec![dec(50, 0), dec(50, 0)]));
    assert!(sums_to_hundred(&vec![dec(333, 1), dec(333, 1), dec(334, 1)]));
    assert!(!sums_to_hundred(&vec![dec(60, 0), dec(30, 0)]));
    assert!(sums_to_hundred(&vec![
        dec(1_000_000_000_000_000, 0),
        dec(1, 28),
        dec(-1, 28),
        dec(-999_999_999_999_900, 0),
    ]));
}

#[test]
fn end_to_end_scenario() {
    let args = split_args("prog -a 50 50 -c 9 101 -d 0");
    assert!(!parse_help(&args));
    let (alloc, current, delta) = parse_groups(&args, None).unwrap();
    let rb = rebalance(&alloc, &current, &delta).unwrap();
    assert_eq!(rb.total, dec(110, 0));
    assert_eq!(rb.future, vec![dec(55, 0), dec(55, 0)]);
    assert_eq!(rb.change, vec![dec(46, 0), dec(-46, 0)]);
    let text = report(&current, &rb).unwrap();
    let expected = [
        "---------------------------------\n",
        "| # | Original | Final | Change |\n",
        "---------------------------------\n",
        "| 1 |     9.00 | 55.00 |  46.00 |\n",
        "| 2 |   101.00 | 55.00 | -46.00 |\n",
        "---------------------------------\n",
    ]
    .join("");
    assert_eq!(text, expected);
}

#[test]
fn conservation_of_value() {
    let alloc = vec![dec(333, 1), dec(333, 1), dec(334, 1)];
    let current = vec![dec(1000, 0), dec(2050, 2), dec(-3, 0)];
    let delta = vec![dec(12345, 2)];
    let rb = rebalance(&alloc, &current, &delta).unwrap();
    assert_eq!(rb.total, dec(114095, 2));
    let mut sum = dec(0, 0);
    for f in &rb.future {
        sum = checked_sum(sum, *f).unwrap();
    }
    assert_eq!(sum.mantissa * 10i128.pow(rb.total.scale), rb.total.mantissa * 10i128.pow(sum.scale));
    for i in 0..3 {
        let back = checked_sum(rb.change[i], current[i]).unwrap();
        let f = rb.future[i];
        assert_eq!(back.mantissa * 10i128.pow(f.scale), f.mantissa * 10i128.pow(back.scale));
    }
}

#[test]
fn delta_defaults_to_zero() {
    let args = split_args("prog -a 100 -c 5");
    let (_, _, delta) = parse_groups(&args, None).unwrap();
    assert_eq!(delta, vec![dec(0, 0)]);
}

#[test]
fn default_allocation_is_used() {
    let args = split_args("prog -c 9 101");
    let (alloc, _, _) = parse_groups(&args, Some(" 25  75 ")).unwrap();
    assert_eq!(alloc, vec![dec(25, 0), dec(75, 0)]);
    let args = split_args("prog -a 40 60 -c 9 101");
    let (alloc, _, _) = parse_groups(&args, Some("25 75")).unwrap();
    assert_eq!(alloc, vec![dec(40, 0), dec(60, 0)]);
    assert_eq!(parse_groups(&args, Some("x")).is_ok(), true);
    let args = split_args("prog -c 9 101");
    assert!(matches!(parse_groups(&args, Some("2x5 75")), Err(ArgError::Parse(_))));
}

#[test]
fn validation_alloc_sum() {
    let args = split_args("prog -a 60 30 -c 9 101");
    let e = parse_groups(&args, None).unwrap_err();
    assert_eq!(e, ArgError::AllocSum);
    assert_eq!(e.message(), "values for <alloc> do not sum to 100");
}

#[test]
fn validation_length_mismatch() {
    let args = split_args("prog -a 50 50 -c 9");
    let e = parse_groups(&args, None).unwrap_err();
    assert_eq!(e, ArgError::LengthMismatch);
    assert_eq!(e.message(), "number of values provided for <alloc> and <current> differ");
}

#[test]
fn validation_missing_groups() {
    let e = parse_groups(&split_args("prog -c 9"), None).unwrap_err();
    assert_eq!(e, ArgError::MissingAlloc);
    assert_eq!(e.message(), "no values provided for <alloc>");
    let e = parse_groups(&split_args("prog -a 100 -c"), None).unwrap_err();
    assert_eq!(e, ArgError::MissingCurrent);
    assert_eq!(e.message(), "no values provided for <current>");
}

#[test]
fn error_messages_name_the_token() {
    let e = parse_groups(&split_args("prog -a 5x0 -c 9"), None).unwrap_err();
    assert_eq!(e.message(), "unable to parse '5x0' to a number");
    let e = parse_groups(&split_args("prog -a 100 -c 2,000,000,000,000,000"), None).unwrap_err();
    assert_eq!(e.message(), "magnitude of '2000000000000000' exceeds 1,000,000,000,000,000");
}

#[test]
fn column_width_and_table() {
    let c = Column::from_strings("Name", vec!["a".to_string(), "abcdef".to_string()]);
    assert_eq!(c.width(), 6);
    assert_eq!(c.name(), "Name");
    assert_eq!(c.data(), &["a".to_string(), "abcdef".to_string()][..]);
    let c2 = Column::from_decimals("V", &[dec(15, 1)]).unwrap();
    assert_eq!(c2.data(), &["1.50".to_string()][..]);
    assert_eq!(c2.width(), 4);
    let t = Table::new(vec![Column::from_strings("X", vec!["long".to_string()])]);
    assert_eq!(
        t.draw(),
        "------------\n| # |    X |\n------------\n| 1 | long |\n------------\n"
    );
}

#[test]
fn format_then_parse_is_exact_for_cents() {
    for (m, expected) in [(123450i128, "1,234.50"), (-100000001, "-1,000,000.01"), (7, "0.07")] {
        let text = dec_to_str(dec(m, 2)).unwrap();
        assert_eq!(text, expected);
        let back = parse_value(&text).unwrap();
        let orig = dec(m, 2);
        assert_eq!(back.mantissa * 10i128.pow(orig.scale), orig.mantissa * 10i128.pow(back.scale));
    }
}

#[test]
fn index_column_widens_with_row_count() {
    let t = Table::new(vec![Column::from_strings("V", vec!["a".to_string(); 10])]);
    let text = t.draw();
    let lines: Vec<&str> = text.lines().collect();
    assert_eq!(lines.len(), 14);
    assert_eq!(lines[0], "-".repeat(10));
    assert_eq!(lines[1], "|  # | V |");
    assert_eq!(lines[3], "|  1 | a |");
    assert_eq!(lines[12], "| 10 | a |");
    for l in &lines {
        assert_eq!(l.chars().count(), 10);
    }
}

#[test]
fn accept_read_cases() {
    assert_eq!(accept_read("12.00".to_string(), Some(dec(1200, 2))), Ok(dec(12, 0)));
    assert_eq!(accept_read("x".to_string(), None), Err(ArgError::Parse("x".to_string())));
    assert_eq!(
        accept_read("1000000000000000.01".to_string(), Some(dec(100000000000000001, 2))),
        Err(ArgError::Magnitude("1000000000000000.01".to_string()))
    );
}

#[test]
fn rebalance_with_fine_allocation() {
    let alloc = vec![dec(33333, 3), dec(33333, 3), dec(33334, 3)];
    let current = vec![dec(100, 0), dec(200, 0), dec(700, 0)];
    let rb = rebalance(&alloc, &current, &vec![dec(0, 0)]).unwrap();
    assert_eq!(rb.total, dec(1000, 0));
    assert_eq!(rb.future, vec![dec(33333, 2), dec(33333, 2), dec(33334, 2)]);
    assert_eq!(rb.change, vec![dec(23333, 2), dec(13333, 2), dec(-36666, 2)]);
}

#[test]
fn rebalance_refuses_unrepresentable_total() {
    let alloc = vec![dec(100, 0), dec(0, 0)];
    let current = vec![dec(1_000_000_000_000_000, 0), dec(1, 28)];
    assert!(rebalance(&alloc, &current, &vec![dec(0, 0)]).is_none());
}
