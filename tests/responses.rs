use currency_converter::amount::{convert_cents, parse_amount, render_decimal, Amount};
use currency_converter::formatter::{
    convert_currency, respond, show_all_currencies, show_error, show_instructions,
    show_source_currencies, AlfredOutput,
};
use currency_converter::matcher::{match_currencies, matches_lowered};
use currency_converter::model::{rank_of, select_known, CurrencyInfo};

const UNIT: u64 = 100_000_000;

fn entry(code: &str, rate: u64, country: &str, coin: &str) -> (String, CurrencyInfo) {
    (
        code.to_string(),
        CurrencyInfo::new(rate, country.to_string(), coin.to_string()),
    )
}

fn table() -> Vec<(String, CurrencyInfo)> {
    vec![
        entry("AUD", 150_000_000, "Australia", "Dollar"),
        entry("JPY", 15_000_000_000, "Japan", "Yen"),
        entry("UAH", 4_000_000_000, "Ukraine", "Hryvnia"),
        entry("USD", UNIT, "United States", "Dollar"),
        entry("CNY", 700_000_000, "China", "Yuan"),
    ]
}

fn titles(o: &AlfredOutput) -> Vec<String> {
    o.items.iter().map(|i| i.title.clone()).collect()
}

fn codes(v: &[(String, CurrencyInfo)]) -> Vec<String> {
    v.iter().map(|e| e.0.clone()).collect()
}

fn amount(m: u64, s: u32) -> Amount {
    Amount { mantissa: m, scale: s }
}

#[test]
fn match_orders_priority_first() {
    let t = table();
    assert_eq!(codes(&match_currencies("u", &t)), vec!["USD", "UAH"]);
    assert_eq!(codes(&match_currencies("", &t)), vec!["CNY", "USD", "JPY", "AUD", "UAH"]);
}

#[test]
fn match_exact_lowercase_code() {
    let t = table();
    for (code, _) in &t {
        let found = match_currencies(&code.to_lowercase(), &t);
        assert!(found.iter().any(|e| &e.0 == code));
    }
}

#[test]
fn match_by_plural_coin_name() {
    let t = table();
    assert_eq!(codes(&match_currencies("DOLLARS", &t)), vec!["USD", "AUD"]);
    assert_eq!(codes(&match_currencies("yens", &t)), vec!["JPY"]);
    assert!(match_currencies("zzz", &t).is_empty());
}

#[test]
fn lowered_match_test() {
    assert!(matches_lowered("us", "usd", "dollars"));
    assert!(matches_lowered("dol", "usd", "dollars"));
    assert!(!matches_lowered("USD", "usd", "dollars"));
}

#[test]
fn priority_rank() {
    assert_eq!(rank_of(&"CNY".to_string()), 0);
    assert_eq!(rank_of(&"JPY".to_string()), 6);
    assert_eq!(rank_of(&"AUD".to_string()), 100);
    assert_eq!(rank_of(&"cny".to_string()), 100);
}

#[test]
fn render_trims_fraction() {
    let s = |m: u128, k: u32| render_decimal(m, k).into_iter().collect::<String>();
    assert_eq!(s(1410, 2), "14.1");
    assert_eq!(s(100, 0), "100");
    assert_eq!(s(1200, 2), "12");
    assert_eq!(s(5, 2), "0.05");
    assert_eq!(s(0, 2), "0");
}

#[test]
fn conversion_rounds_half_up() {
    assert_eq!(convert_cents(&amount(100, 0), UNIT, 700_000_000), 70000);
    assert_eq!(convert_cents(&amount(1, 0), UNIT, 100_500_000), 101);
    assert_eq!(convert_cents(&amount(1, 0), UNIT, 100_400_000), 100);
    assert_eq!(convert_cents(&amount(1, 0), 300_000_000, UNIT), 33);
}

#[test]
fn round_trip_within_a_cent() {
    let a = amount(12345, 2);
    let there = convert_cents(&a, UNIT, 700_000_000);
    let back = convert_cents(&amount(there as u64, 2), 700_000_000, UNIT);
    assert!((back as i128 - 12345).abs() <= 1);
}

#[test]
fn two_token_conversion() {
    let o = convert_currency(&amount(100, 0), "usd", "cny", &table());
    assert_eq!(o.items.len(), 1);
    let i = &o.items[0];
    assert_eq!(i.title, "700 CNY");
    assert_eq!(i.subtitle, "United States Dollar → China Yuan");
    assert_eq!(i.arg.as_deref(), Some("700"));
    assert_eq!(i.autocomplete.as_deref(), Some("100 USD CNY"));
    assert_eq!(i.icon.path, "images/flags/CNY.png");
    assert!(i.valid);
}

#[test]
fn conversion_skips_source_code() {
    let o = convert_currency(&amount(3, 0), "usd", "dollars", &table());
    assert_eq!(titles(&o), vec!["4.5 AUD"]);
}

#[test]
fn same_currency_is_an_error() {
    let o = convert_currency(&amount(5, 0), "usd", "usd", &table());
    assert_eq!(titles(&o), vec!["不能转换相同货币"]);
    assert!(!o.items[0].valid);
}

#[test]
fn unknown_code_is_an_error() {
    let o = convert_currency(&amount(5, 0), "usd", "zzz", &table());
    assert_eq!(titles(&o), vec!["无效的货币代码"]);
    let o = convert_currency(&amount(5, 0), "zzz", "usd", &table());
    assert_eq!(titles(&o), vec!["无效的货币代码"]);
}

#[test]
fn unmatched_single_token() {
    let o = show_source_currencies(&amount(5, 0), "zzz", &table());
    assert_eq!(o.items.len(), 1);
    assert_eq!(o.items[0].title, "未找到匹配的货币");
    assert_eq!(o.items[0].subtitle, "");
    assert!(o.items[0].arg.is_none());
    assert!(!o.items[0].valid);
}

#[test]
fn ambiguous_single_token_lists_candidates() {
    let o = show_source_currencies(&amount(2, 0), "u", &table());
    assert_eq!(titles(&o), vec!["2 USD", "2 UAH"]);
    assert_eq!(o.items[0].autocomplete.as_deref(), Some("2 USD to "));
    assert_eq!(o.items[0].subtitle, "United States Dollar");
    assert!(!o.items[0].valid);
}

#[test]
fn single_match_lists_targets() {
    let o = show_source_currencies(&amount(2, 0), "cn", &table());
    assert_eq!(titles(&o), vec!["0.29 USD", "42.86 JPY", "0.43 AUD", "11.43 UAH"]);
    assert_eq!(o.items[1].autocomplete.as_deref(), Some("2 CNY JPY"));
}

#[test]
fn all_currencies_priority_first() {
    let o = show_all_currencies(&amount(15, 1), &table());
    assert_eq!(titles(&o), vec!["1.5 CNY", "1.5 USD", "1.5 JPY", "1.5 AUD", "1.5 UAH"]);
    assert_eq!(o.items[0].icon.path, "images/flags/CNY.png");
    assert!(o.items[0].arg.is_none());
}

#[test]
fn error_and_instruction_records() {
    let e = show_error("boom");
    assert_eq!(titles(&e), vec!["boom"]);
    assert_eq!(e.items[0].icon.path, "");
    let i = show_instructions();
    assert_eq!(titles(&i), vec!["输入金额和货币"]);
    assert_eq!(i.items[0].subtitle, "");
}

#[test]
fn respond_dispatches_on_tokens() {
    let t = table();
    assert_eq!(titles(&respond("100usd cny", &t)), vec!["700 CNY"]);
    assert_eq!(titles(&respond("abc", &t)), vec!["输入金额和货币"]);
    assert_eq!(titles(&respond("0 usd", &t)), vec!["输入金额和货币"]);
    assert_eq!(titles(&respond("", &t)), vec!["输入金额和货币"]);
    assert_eq!(titles(&respond("1 a b c", &t)), vec!["无效输入格式"]);
    assert_eq!(respond("1", &t).items.len(), 5);
    assert_eq!(titles(&respond("1 usd", &t))[0], "7 CNY");
}

#[test]
fn select_known_filters_rows() {
    let rates = vec![
        ("AUD".to_string(), 150_000_000),
        ("XXX".to_string(), 5),
        ("CNY".to_string(), 0),
        ("USD".to_string(), UNIT),
    ];
    let names = vec![
        ("USD".to_string(), "美国".to_string(), "美元".to_string()),
        ("AUD".to_string(), "澳大利亚".to_string(), "澳元".to_string()),
        ("CNY".to_string(), "中国".to_string(), "人民币".to_string()),
    ];
    let t = select_known(&rates, &names);
    assert_eq!(codes(&t), vec!["AUD", "USD"]);
    assert_eq!(t[0].1.country, "澳大利亚");
    assert_eq!(t[1].1.rate, UNIT);
}

#[test]
fn parsed_amount_round_trip_text() {
    let a = parse_amount("0.50").unwrap();
    let o = show_all_currencies(&a, &table());
    assert_eq!(o.items[0].title, "0.5 CNY");
}

#[test]
fn respond_reads_exponent_amounts() {
    assert_eq!(titles(&respond("1e3 usd", &table()))[0], "7000 CNY");
}

#[test]
fn non_priority_codes_ascend() {
    let t = vec![
        entry("ZZZ", UNIT, "Zed", "Zee"),
        entry("USD", UNIT, "United States", "Dollar"),
        entry("AAA", UNIT, "Aye", "Ay"),
        entry("MMM", UNIT, "Em", "Emm"),
    ];
    assert_eq!(titles(&show_all_currencies(&amount(1, 0), &t)), vec!["1 USD", "1 AAA", "1 MMM", "1 ZZZ"]);
    assert_eq!(codes(&match_currencies("", &t)), vec!["USD", "AAA", "MMM", "ZZZ"]);
}

#[test]
fn select_known_keeps_last_row_per_code() {
    let rates = vec![
        ("USD".to_string(), UNIT),
        ("AUD".to_string(), 150_000_000),
        ("USD".to_string(), 2 * UNIT),
        ("AUD".to_string(), 0),
    ];
    let names = vec![
        ("USD".to_string(), "美国".to_string(), "美元".to_string()),
        ("AUD".to_string(), "澳大利亚".to_string(), "澳元".to_string()),
    ];
    let t = select_known(&rates, &names);
    assert_eq!(codes(&t), vec!["USD", "AUD"]);
    assert_eq!(t[0].1.rate, 2 * UNIT);
    assert_eq!(t[1].1.rate, 150_000_000);
}
