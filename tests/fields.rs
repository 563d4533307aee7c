use docker_stats_exporter::decimal::Decimal;
use docker_stats_exporter::error::ParseError;
use docker_stats_exporter::fields::{
    parse_bytes, parse_count, parse_percent, parse_slashy_values, parse_split_size,
};

fn as_f64(d: &Decimal) -> f64 {
    let integer: String = d.integer.iter().collect();
    let fraction: String = d.fraction.iter().collect();
    let exponent: String = d.exponent.iter().collect();
    let sign = if d.exponent_negative { "-" } else { "" };
    let v: f64 = format!("0{}.{}0e{}0{}", integer, fraction, sign, exponent).parse().unwrap();
    if d.negative {
        -v
    } else {
        v
    }
}

fn dec(negative: bool, integer: &str, fraction: &str) -> Decimal {
    Decimal {
        negative,
        integer: integer.chars().collect(),
        fraction: fraction.chars().collect(),
        exponent_negative: false,
        exponent: Vec::new(),
    }
}

#[test]
fn percent_with_fraction() {
    let d = parse_percent("69.07%".to_string()).unwrap();
    assert_eq!(d, dec(false, "69", "07"));
    assert_eq!(as_f64(&d), 69.07);
}

#[test]
fn percent_whole() {
    let d = parse_percent("100%".to_string()).unwrap();
    assert_eq!(d, dec(false, "100", ""));
    assert_eq!(as_f64(&d), 100.0);
}

#[test]
fn percent_small_and_signed() {
    assert_eq!(as_f64(&parse_percent("0.41%".to_string()).unwrap()), 0.41);
    assert_eq!(parse_percent("-1.5%".to_string()), Ok(dec(true, "1", "5")));
    assert_eq!(parse_percent(".5%".to_string()), Ok(dec(false, "", "5")));
    assert_eq!(parse_percent("+7.%".to_string()), Ok(dec(false, "7", "")));
}

#[test]
fn percent_with_many_digits() {
    let d = parse_percent("99999999999999999999%".to_string()).unwrap();
    assert_eq!(d, dec(false, "99999999999999999999", ""));
    assert_eq!(as_f64(&d), 1e20);
    let d = parse_percent("12.345678901234567890123%".to_string()).unwrap();
    assert_eq!(d, dec(false, "12", "345678901234567890123"));
}

#[test]
fn percent_with_exponent() {
    let d = parse_percent("1e2%".to_string()).unwrap();
    let mut expected = dec(false, "1", "");
    expected.exponent = vec!['2'];
    assert_eq!(d, expected);
    assert_eq!(as_f64(&d), 100.0);
    let d = parse_percent("6.907E-1%".to_string()).unwrap();
    assert_eq!(as_f64(&d), 0.6907);
    assert_eq!(parse_percent("1e%".to_string()), Err(ParseError::MalformedPercent));
    assert_eq!(parse_percent("1e+%".to_string()), Err(ParseError::MalformedPercent));
    assert_eq!(parse_percent("e5%".to_string()), Err(ParseError::MalformedPercent));
    assert_eq!(parse_percent("1e2.5%".to_string()), Err(ParseError::MalformedPercent));
}

#[test]
fn percent_malformed() {
    assert_eq!(parse_percent("abc%".to_string()), Err(ParseError::MalformedPercent));
    assert_eq!(parse_percent("".to_string()), Err(ParseError::MalformedPercent));
    assert_eq!(parse_percent("%".to_string()), Err(ParseError::MalformedPercent));
    assert_eq!(parse_percent("-%".to_string()), Err(ParseError::MalformedPercent));
    assert_eq!(parse_percent(".%".to_string()), Err(ParseError::MalformedPercent));
    assert_eq!(parse_percent("1.2.3%".to_string()), Err(ParseError::MalformedPercent));
    assert_eq!(parse_percent("69.07".to_string()), Err(ParseError::MalformedPercent));
}

#[test]
fn size_decimal_units() {
    assert_eq!(parse_bytes("1.1GB".to_string()), Ok(1_100_000_000));
    assert_eq!(parse_bytes("473MB".to_string()), Ok(473_000_000));
    assert_eq!(parse_bytes("13.4MB".to_string()), Ok(13_400_000));
    assert_eq!(parse_bytes("2.32MB".to_string()), Ok(2_320_000));
    assert_eq!(parse_bytes("0B".to_string()), Ok(0));
}

#[test]
fn size_binary_units() {
    assert_eq!(parse_bytes("707.3MiB".to_string()), Ok(741_657_805));
    assert_eq!(parse_bytes("1GiB".to_string()), Ok(1_073_741_824));
    assert_eq!(parse_bytes("2KiB".to_string()), Ok(2048));
}

#[test]
fn size_malformed_number() {
    assert_eq!(parse_bytes("MB".to_string()), Err(ParseError::MalformedSize));
    assert_eq!(parse_bytes("".to_string()), Err(ParseError::MalformedSize));
    assert_eq!(parse_bytes("1 MB".to_string()), Err(ParseError::MalformedSize));
    assert_eq!(parse_bytes("1,5MB".to_string()), Err(ParseError::MalformedSize));
}

#[test]
fn size_with_many_digits() {
    assert_eq!(parse_bytes("99999999999999999999B".to_string()), Ok(u64::MAX));
    assert_eq!(parse_bytes("99999999999999999999MB".to_string()), Ok(u64::MAX));
    assert_eq!(
        parse_bytes("0.0000000000000000000000000015kB".to_string()),
        Ok(0)
    );
    assert_eq!(
        parse_bytes("1.00000000000000000000000000001GB".to_string()),
        Ok(1_000_000_000)
    );
}

#[test]
fn size_with_exponent() {
    assert_eq!(parse_bytes("1e3GB".to_string()), Ok(1_000_000_000_000));
    assert_eq!(parse_bytes("1e+03MB".to_string()), Ok(1_000_000_000));
    assert_eq!(parse_bytes("2.5e-1kB".to_string()), Ok(250));
    assert_eq!(parse_bytes("1E2B".to_string()), Ok(100));
    assert_eq!(parse_bytes("1e-0B".to_string()), Ok(1));
    assert_eq!(parse_bytes("123.456e1kB".to_string()), Ok(1_234_560));
    assert_eq!(parse_bytes("1.8e19B".to_string()), Ok(18_000_000_000_000_000_000));
    assert_eq!(parse_bytes("5e19B".to_string()), Ok(u64::MAX));
    assert_eq!(
        parse_bytes("1e400000000000000000000000000000000000000GB".to_string()),
        Ok(u64::MAX)
    );
    assert_eq!(
        parse_bytes("1e-400000000000000000000000000000000000000TiB".to_string()),
        Ok(0)
    );
    assert_eq!(
        parse_bytes("0e999999999999999999999999999999999999999B".to_string()),
        Ok(0)
    );
    assert_eq!(parse_bytes("5e-1B".to_string()), Ok(1));
    assert_eq!(parse_bytes("4.9e-1B".to_string()), Ok(0));
    assert_eq!(parse_bytes("1eB".to_string()), Err(ParseError::UnknownUnit("eB".to_string())));
    assert_eq!(parse_bytes("1e+MB".to_string()), Err(ParseError::MalformedSize));
    assert_eq!(
        parse_slashy_values("1e+03MB / 9.99e+02kB"),
        Ok((1_000_000_000, 999_000))
    );
}

#[test]
fn size_non_ascii_unit() {
    assert_eq!(
        parse_bytes("1\u{e9}".to_string()),
        Err(ParseError::UnknownUnit("\u{e9}".to_string()))
    );
    assert_eq!(
        parse_bytes("4\u{b5}B".to_string()),
        Err(ParseError::UnknownUnit("\u{b5}B".to_string()))
    );
}

#[test]
fn size_unknown_unit() {
    assert_eq!(
        parse_bytes("5XB".to_string()),
        Err(ParseError::UnknownUnit("XB".to_string()))
    );
    assert_eq!(parse_bytes("5".to_string()), Err(ParseError::UnknownUnit("".to_string())));
    assert_eq!(
        parse_bytes("3mb".to_string()),
        Err(ParseError::UnknownUnit("mb".to_string()))
    );
}

#[test]
fn pair_in_order() {
    assert_eq!(
        parse_slashy_values("1.1GB / 473MB"),
        Ok((1_100_000_000, 473_000_000))
    );
    assert_eq!(
        parse_slashy_values("707.3MiB / 1GiB"),
        Ok((741_657_805, 1_073_741_824))
    );
}

#[test]
fn pair_needs_exactly_two_parts() {
    assert_eq!(parse_slashy_values("x"), Err(ParseError::MalformedPair));
    assert_eq!(parse_slashy_values(""), Err(ParseError::MalformedPair));
    assert_eq!(parse_slashy_values("1GB / 2GB / 3GB"), Err(ParseError::MalformedPair));
    assert_eq!(parse_slashy_values("1GB/2GB"), Err(ParseError::MalformedPair));
}

#[test]
fn pair_reports_side_failures() {
    assert_eq!(parse_slashy_values("xGB / 2GB"), Err(ParseError::MalformedSize));
    assert_eq!(parse_slashy_values("1GB / 2QB"), Err(ParseError::UnknownUnit("QB".to_string())));
    assert_eq!(parse_slashy_values("1GB / "), Err(ParseError::MalformedSize));
}

#[test]
fn count_values() {
    assert_eq!(parse_count("79"), Ok(79));
    assert_eq!(parse_count("+0"), Ok(0));
    assert_eq!(parse_count("18446744073709551615"), Ok(u64::MAX));
    assert_eq!(parse_count("18446744073709551616"), Err(ParseError::MalformedCount));
    assert_eq!(parse_count("N/A"), Err(ParseError::MalformedCount));
    assert_eq!(parse_count(""), Err(ParseError::MalformedCount));
    assert_eq!(parse_count("+"), Err(ParseError::MalformedCount));
    assert_eq!(parse_count("-1"), Err(ParseError::MalformedCount));
}

#[test]
fn split_size_parts() {
    assert_eq!(parse_split_size("5", "kB".to_string()), Ok(5000));
    assert_eq!(parse_split_size("707.3", "MiB".to_string()), Ok(741_657_805));
    assert_eq!(parse_split_size("5x", "kB".to_string()), Err(ParseError::MalformedSize));
    assert_eq!(
        parse_split_size("5", "kb".to_string()),
        Err(ParseError::UnknownUnit("kb".to_string()))
    );
}
