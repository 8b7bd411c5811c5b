use currency_converter::amount::parse_amount;
use currency_converter::parser::{parse_input, parse_normalized};

fn strings(v: &[&str]) -> Vec<String> {
    v.iter().map(|s| s.to_string()).collect()
}

#[test]
fn test_parse_input() {
    assert_eq!(
        parse_input("14.1USD"),
        ("14.1".into(), vec!["usd".to_string()])
    );
    assert_eq!(
        parse_input("100.5EUR CNY"),
        ("100.5".into(), vec!["eur".to_string(), "cny".to_string()])
    );
    assert_eq!(
        parse_input("123.45 gbp to jpy"),
        ("123.45".into(), vec!["gbp".to_string(), "to".to_string(), "jpy".to_string()])
    );
    assert_eq!(
        parse_input("500usd,cny"),
        ("500".into(), vec!["usd".to_string(), "cny".to_string()])
    );
}

#[test]
fn compact_code_any_case() {
    assert_eq!(parse_input("7Jp"), ("7".to_string(), strings(&["jp"])));
    assert_eq!(parse_input(".5eur"), (".5".to_string(), strings(&["eur"])));
}

#[test]
fn compact_pair_with_long_second_code() {
    assert_eq!(
        parse_input("3usd dollars"),
        ("3".to_string(), strings(&["usd", "dollars"]))
    );
}

#[test]
fn single_word_with_trailing_point() {
    assert_eq!(parse_input("5.usd"), ("5.".to_string(), strings(&["usd"])));
    assert_eq!(parse_input("  12usd "), ("12".to_string(), strings(&["usd"])));
}

#[test]
fn four_letter_code_falls_back() {
    assert_eq!(parse_input("12abcd"), ("".to_string(), strings(&["12abcd"])));
}

#[test]
fn fallback_takes_first_number() {
    assert_eq!(
        parse_input("usd 3 4 cny"),
        ("3".to_string(), strings(&["usd", "cny"]))
    );
    assert_eq!(parse_input("1e3 usd"), ("1e3".to_string(), strings(&["usd"])));
    assert_eq!(parse_input("inf usd"), ("inf".to_string(), strings(&["usd"])));
    assert_eq!(parse_input("-5 usd"), ("-5".to_string(), strings(&["usd"])));
}

#[test]
fn empty_query() {
    assert_eq!(parse_input(""), ("".to_string(), Vec::<String>::new()));
    assert_eq!(parse_input("   "), ("".to_string(), Vec::<String>::new()));
}

#[test]
fn punctuation_becomes_space() {
    assert_eq!(
        parse_input("10;usd/eur"),
        ("10".to_string(), strings(&["usd", "eur"]))
    );
}

#[test]
fn normalized_text_is_split_as_is() {
    assert_eq!(
        parse_normalized("14.1usd"),
        ("14.1".to_string(), strings(&["usd"]))
    );
    assert_eq!(
        parse_normalized("14.1USD"),
        ("".to_string(), strings(&["14.1USD"]))
    );
}

#[test]
fn amount_plain_decimal() {
    let a = parse_amount("14.10").unwrap();
    assert_eq!((a.mantissa, a.scale), (1410, 2));
    let b = parse_amount("+2").unwrap();
    assert_eq!((b.mantissa, b.scale), (2, 0));
    let c = parse_amount(".5").unwrap();
    assert_eq!((c.mantissa, c.scale), (5, 1));
}

#[test]
fn amount_rejections() {
    assert!(parse_amount("").is_none());
    assert!(parse_amount("0").is_none());
    assert!(parse_amount("0.000").is_none());
    assert!(parse_amount("-5").is_none());
    assert!(parse_amount("abc").is_none());
    assert!(parse_amount("1.2.3").is_none());
    assert!(parse_amount(".").is_none());
    assert!(parse_amount("99999999999999999999").is_none());
    assert!(parse_amount("0.0000000000000000001").is_none());
}

#[test]
fn amount_with_exponent() {
    let parts = |t: &str| parse_amount(t).map(|a| (a.mantissa, a.scale));
    assert_eq!(parts("1e3"), Some((1000, 0)));
    assert_eq!(parts("2.5E-1"), Some((25, 2)));
    assert_eq!(parts("1.5e+1"), Some((15, 0)));
    assert_eq!(parts("5e-18"), Some((5, 18)));
    assert_eq!(parts("1e19"), Some((10_000_000_000_000_000_000, 0)));
    assert_eq!(parts("5e-19"), None);
    assert_eq!(parts("1e20"), None);
    assert_eq!(parts("1e"), None);
    assert_eq!(parts("e5"), None);
    assert_eq!(parts("inf"), None);
}

#[test]
fn compact_pair_with_whitespace_run() {
    assert_eq!(
        parse_input("100.5EUR \t CNY"),
        ("100.5".to_string(), strings(&["eur", "cny"]))
    );
}
