use vstd::prelude::*;
use crate::amount::{amount_spec, parse_amount, amount_text, cents_text, convert_cents, converted_cents, render_decimal, Amount};
use crate::matcher::{match_currencies, match_spec};
use crate::model::{
    arrange, arrange_entries, entry_view, lemma_table_view_push, rates_ok, table_view,
    lemma_arrange_keeps_rates, lemma_arrange_ordered, lemma_filter_keeps_rates, priority, rank,
    codes_unique, lemma_arrange_each_once, CurrencyInfo, CurrencyView, MAX_RATE, NO_PRIORITY,
    PRIORITY_LEN,
};
use crate::parser::{parse_input, parse_query, strings_view};
use crate::text::{chars_of, push_chars, push_str, string_of};

verus! {

/// Where a record's icon lies.
pub struct Icon {
    pub path: String,
}

/// One record of a response for the launcher.
pub struct AlfredItem {
    pub title: String,
    pub subtitle: String,
    pub arg: Option<String>,
    pub autocomplete: Option<String>,
    pub icon: Icon,
    pub valid: bool,
}

/// A response: its records, in display order.
pub struct AlfredOutput {
    pub items: Vec<AlfredItem>,
}

/// A record, as values.
pub struct ItemView {
    pub title: Seq<char>,
    pub subtitle: Seq<char>,
    pub arg: Option<Seq<char>>,
    pub autocomplete: Option<Seq<char>>,
    pub icon: Seq<char>,
    pub valid: bool,
}

pub open spec fn opt_view(o: Option<String>) -> Option<Seq<char>> {
    match o {
        Some(s) => Some(s@),
        None => None,
    }
}

pub open spec fn item_view(i: AlfredItem) -> ItemView {
    ItemView {
        title: i.title@,
        subtitle: i.subtitle@,
        arg: opt_view(i.arg),
        autocomplete: opt_view(i.autocomplete),
        icon: i.icon.path@,
        valid: i.valid,
    }
}

pub open spec fn items_view(v: Seq<AlfredItem>) -> Seq<ItemView> {
    v.map_values(|i: AlfredItem| item_view(i))
}

impl View for AlfredOutput {
    type V = Seq<ItemView>;

    open spec fn view(&self) -> Seq<ItemView> {
        items_view(self.items@)
    }
}

pub open spec fn no_match_message() -> Seq<char> {
    "未找到匹配的货币"@
}

pub open spec fn invalid_code_message() -> Seq<char> {
    "无效的货币代码"@
}

pub open spec fn same_currency_message() -> Seq<char> {
    "不能转换相同货币"@
}

pub open spec fn bad_format_message() -> Seq<char> {
    "无效输入格式"@
}

/// A record that only shows a message.
pub open spec fn error_item(msg: Seq<char>) -> ItemView {
    ItemView {
        title: msg,
        subtitle: seq![],
        arg: None,
        autocomplete: None,
        icon: seq![],
        valid: false,
    }
}

/// The record that asks for an amount and a currency.
pub open spec fn instructions_item() -> ItemView {
    ItemView {
        title: "输入金额和货币"@,
        subtitle: seq![],
        arg: None,
        autocomplete: None,
        icon: seq![],
        valid: false,
    }
}

pub open spec fn icon_path(code: Seq<char>) -> Seq<char> {
    "images/flags/"@ + code + ".png"@
}

/// A record that shows `amount` in currency `e` and suggests a target next.
pub open spec fn currency_item(amount: Seq<char>, e: CurrencyView) -> ItemView {
    ItemView {
        title: amount + " "@ + e.code,
        subtitle: e.country + " "@ + e.coin,
        arg: None,
        autocomplete: Some(amount + " "@ + e.code + " to "@),
        icon: icon_path(e.code),
        valid: false,
    }
}

/// What `a` in currency `src` comes to in currency `dst`, as text.
pub open spec fn converted_text(a: Amount, src: CurrencyView, dst: CurrencyView) -> Seq<char> {
    cents_text(converted_cents(a.mantissa as nat, a.scale as nat, src.rate, dst.rate))
}

/// A record that converts `a` from `src` to `dst`.
pub open spec fn conversion_item(a: Amount, src: CurrencyView, dst: CurrencyView) -> ItemView {
    let value = converted_text(a, src, dst);
    ItemView {
        title: value + " "@ + dst.code,
        subtitle: src.country + " "@ + src.coin + " → "@ + dst.country + " "@ + dst.coin,
        arg: Some(value),
        autocomplete: Some(amount_text(a) + " "@ + src.code + " "@ + dst.code),
        icon: icon_path(dst.code),
        valid: true,
    }
}

pub open spec fn currency_items(amount: Seq<char>, s: Seq<CurrencyView>) -> Seq<ItemView> {
    s.map_values(|e: CurrencyView| currency_item(amount, e))
}

pub open spec fn conversion_items(a: Amount, src: CurrencyView, s: Seq<CurrencyView>) -> Seq<
    ItemView,
> {
    s.map_values(|e: CurrencyView| conversion_item(a, src, e))
}

pub open spec fn other_than(s: Seq<CurrencyView>, code: Seq<char>) -> Seq<CurrencyView> {
    s.filter(|e: CurrencyView| e.code != code)
}

/// Every currency at `a`, priority codes first.
pub open spec fn all_currencies_spec(a: Amount, t: Seq<CurrencyView>) -> Seq<ItemView> {
    currency_items(amount_text(a), arrange(t))
}

/// The response to a query with one token.
pub open spec fn source_spec(a: Amount, src: Seq<char>, t: Seq<CurrencyView>) -> Seq<ItemView> {
    let m = match_spec(src, t);
    if m.len() == 0 {
        seq![error_item(no_match_message())]
    } else if m.len() > 1 {
        currency_items(amount_text(a), m)
    } else {
        conversion_items(a, m[0], arrange(other_than(t, m[0].code)))
    }
}

/// The response to a query with two tokens.
pub open spec fn convert_spec(a: Amount, src: Seq<char>, dst: Seq<char>, t: Seq<CurrencyView>) -> Seq<
    ItemView,
> {
    let sm = match_spec(src, t);
    let dm = match_spec(dst, t);
    if sm.len() == 0 || dm.len() == 0 {
        seq![error_item(invalid_code_message())]
    } else if other_than(dm, sm[0].code).len() == 0 {
        seq![error_item(same_currency_message())]
    } else {
        conversion_items(a, sm[0], other_than(dm, sm[0].code))
    }
}

proof fn lemma_items_push(v: Seq<AlfredItem>, i: AlfredItem)
    ensures
        items_view(v.push(i)) == items_view(v).push(item_view(i)),
{
    assert(items_view(v.push(i)) =~= items_view(v).push(item_view(i)));
}

fn icon_of(code: &String) -> (r: Icon)
    ensures
        r.path@ == icon_path(code@),
{
    let mut p: Vec<char> = Vec::new();
    push_str(&mut p, "images/flags/");
    push_str(&mut p, code.as_str());
    push_str(&mut p, ".png");
    assert(p@ =~= icon_path(code@));
    Icon { path: string_of(&p) }
}

fn error_record(message: &str) -> (r: AlfredItem)
    ensures
        item_view(r) == error_item(message@),
{
    let empty: Vec<char> = Vec::new();
    AlfredItem {
        title: string_of(&chars_of(message)),
        subtitle: string_of(&empty),
        arg: None,
        autocomplete: None,
        icon: Icon { path: string_of(&empty) },
        valid: false,
    }
}

/// A response of one record that shows `message`.
pub fn show_error(message: &str) -> (r: AlfredOutput)
    ensures
        r@ == seq![error_item(message@)],
{
    let mut items: Vec<AlfredItem> = Vec::new();
    let item = error_record(message);
    proof {
        lemma_items_push(items@, item);
    }
    items.push(item);
    assert(items_view(items@) =~= seq![error_item(message@)]);
    AlfredOutput { items }
}

/// The response that asks for an amount and a currency.
pub fn show_instructions() -> (r: AlfredOutput)
    ensures
        r@ == seq![instructions_item()],
{
    let empty: Vec<char> = Vec::new();
    let item = AlfredItem {
        title: string_of(&chars_of("输入金额和货币")),
        subtitle: string_of(&empty),
        arg: None,
        autocomplete: None,
        icon: Icon { path: string_of(&empty) },
        valid: false,
    };
    let mut items: Vec<AlfredItem> = Vec::new();
    proof {
        lemma_items_push(items@, item);
    }
    items.push(item);
    assert(items_view(items@) =~= seq![instructions_item()]);
    AlfredOutput { items }
}

fn create_currency_item(amount: &Vec<char>, code: &String, info: &CurrencyInfo) -> (r: AlfredItem)
    ensures
        item_view(r) == currency_item(amount@, entry_view((*code, *info))),
{
    let mut title = amount.clone();
    push_str(&mut title, " ");
    push_str(&mut title, code.as_str());
    let mut subtitle = chars_of(info.country.as_str());
    push_str(&mut subtitle, " ");
    push_str(&mut subtitle, info.coin.as_str());
    let mut auto = title.clone();
    push_str(&mut auto, " to ");
    AlfredItem {
        title: string_of(&title),
        subtitle: string_of(&subtitle),
        arg: None,
        autocomplete: Some(string_of(&auto)),
        icon: icon_of(code),
        valid: false,
    }
}

fn create_conversion_item(
    amount: &Amount,
    src_code: &String,
    src_info: &CurrencyInfo,
    dst_code: &String,
    dst_info: &CurrencyInfo,
) -> (r: AlfredItem)
    requires
        amount.wf(),
        0 < src_info.rate <= MAX_RATE,
        dst_info.rate <= MAX_RATE,
    ensures
        item_view(r) == conversion_item(
            *amount,
            entry_view((*src_code, *src_info)),
            entry_view((*dst_code, *dst_info)),
        ),
{
    let cents = convert_cents(amount, src_info.rate, dst_info.rate);
    let value = render_decimal(cents, 2);
    let mut title = value.clone();
    push_str(&mut title, " ");
    push_str(&mut title, dst_code.as_str());
    let mut subtitle = chars_of(src_info.country.as_str());
    push_str(&mut subtitle, " ");
    push_str(&mut subtitle, src_info.coin.as_str());
    push_str(&mut subtitle, " → ");
    push_str(&mut subtitle, dst_info.country.as_str());
    push_str(&mut subtitle, " ");
    push_str(&mut subtitle, dst_info.coin.as_str());
    let mut auto = render_decimal(amount.mantissa as u128, amount.scale);
    push_str(&mut auto, " ");
    push_str(&mut auto, src_code.as_str());
    push_str(&mut auto, " ");
    push_str(&mut auto, dst_code.as_str());
    AlfredItem {
        title: string_of(&title),
        subtitle: string_of(&subtitle),
        arg: Some(string_of(&value)),
        autocomplete: Some(string_of(&auto)),
        icon: icon_of(dst_code),
        valid: true,
    }
}

fn currency_records(amount: &Vec<char>, s: &Vec<(String, CurrencyInfo)>) -> (r: Vec<AlfredItem>)
    ensures
        items_view(r@) == currency_items(amount@, table_view(s@)),
{
    let mut out: Vec<AlfredItem> = Vec::new();
    let mut i: usize = 0;
    while i < s.len()
        invariant
            i <= s@.len(),
            items_view(out@) == currency_items(amount@, table_view(s@.subrange(0, i as int))),
        decreases s@.len() - i,
    {
        let item = create_currency_item(amount, &s[i].0, &s[i].1);
        proof {
            lemma_items_push(out@, item);
            assert(table_view(s@.subrange(0, i + 1)) =~= table_view(s@.subrange(0, i as int)).push(
                entry_view(s@[i as int]),
            ));
            assert(currency_items(amount@, table_view(s@.subrange(0, i + 1))) =~= currency_items(
                amount@,
                table_view(s@.subrange(0, i as int)),
            ).push(item_view(item)));
        }
        out.push(item);
        i = i + 1;
    }
    assert(s@.subrange(0, s@.len() as int) =~= s@);
    out
}

fn conversion_records(
    amount: &Amount,
    src_code: &String,
    src_info: &CurrencyInfo,
    s: &Vec<(String, CurrencyInfo)>,
) -> (r: Vec<AlfredItem>)
    requires
        amount.wf(),
        0 < src_info.rate <= MAX_RATE,
        rates_ok(table_view(s@)),
    ensures
        items_view(r@) == conversion_items(
            *amount,
            entry_view((*src_code, *src_info)),
            table_view(s@),
        ),
{
    let ghost src = entry_view((*src_code, *src_info));
    let mut out: Vec<AlfredItem> = Vec::new();
    let mut i: usize = 0;
    while i < s.len()
        invariant
            i <= s@.len(),
            amount.wf(),
            0 < src_info.rate <= MAX_RATE,
            rates_ok(table_view(s@)),
            src == entry_view((*src_code, *src_info)),
            items_view(out@) == conversion_items(
                *amount,
                src,
                table_view(s@.subrange(0, i as int)),
            ),
        decreases s@.len() - i,
    {
        assert(table_view(s@)[i as int] == entry_view(s@[i as int]));
        assert(table_view(s@).contains(table_view(s@)[i as int]));
        let item = create_conversion_item(amount, src_code, src_info, &s[i].0, &s[i].1);
        proof {
            lemma_items_push(out@, item);
            assert(table_view(s@.subrange(0, i + 1)) =~= table_view(s@.subrange(0, i as int)).push(
                entry_view(s@[i as int]),
            ));
            assert(conversion_items(*amount, src, table_view(s@.subrange(0, i + 1)))
                =~= conversion_items(*amount, src, table_view(s@.subrange(0, i as int))).push(
                item_view(item),
            ));
        }
        out.push(item);
        i = i + 1;
    }
    assert(s@.subrange(0, s@.len() as int) =~= s@);
    out
}

/// The entries of `s` whose code is not `code`, in order.
fn without_code(s: &Vec<(String, CurrencyInfo)>, code: &String) -> (r: Vec<(String, CurrencyInfo)>)
    ensures
        table_view(r@) == other_than(table_view(s@), code@),
{
    let ghost sv = table_view(s@);
    let ghost p = |e: CurrencyView| e.code != code@;
    let mut out: Vec<(String, CurrencyInfo)> = Vec::new();
    let mut j: usize = 0;
    proof {
        crate::seq_facts::lemma_filter_empty(sv, p);
    }
    assert(table_view(out@) =~= sv.subrange(0, 0).filter(p));
    while j < s.len()
        invariant
            j <= s@.len(),
            sv == table_view(s@),
            sv.len() == s@.len(),
            p == (|e: CurrencyView| e.code != code@),
            table_view(out@) == sv.subrange(0, j as int).filter(p),
        decreases s@.len() - j,
    {
        proof {
            crate::seq_facts::lemma_filter_step(sv, j as int, p);
        }
        assert(sv[j as int] == entry_view(s@[j as int]));
        if s[j].0 != *code {
            let e = (s[j].0.clone(), s[j].1.duplicate());
            proof {
                lemma_table_view_push(out@, e);
            }
            out.push(e);
        }
        j = j + 1;
    }
    proof {
        crate::seq_facts::lemma_full_prefix(sv);
    }
    out
}

/// Every currency of the table at `amount`, priority codes first in
/// priority order, then the rest in table order.
pub fn show_all_currencies(amount: &Amount, currencies: &Vec<(String, CurrencyInfo)>) -> (r:
    AlfredOutput)
    requires
        amount.wf(),
        codes_unique(table_view(currencies@)),
    ensures
        r@ == all_currencies_spec(*amount, table_view(currencies@)),
{
    let arranged = arrange_entries(currencies);
    let text = render_decimal(amount.mantissa as u128, amount.scale);
    AlfredOutput { items: currency_records(&text, &arranged) }
}

/// The response to one token: an error when no currency answers it, every
/// answer when several do, and otherwise a conversion of `amount` from the
/// one answer into every other currency.
pub fn show_source_currencies(
    amount: &Amount,
    src: &str,
    currencies: &Vec<(String, CurrencyInfo)>,
) -> (r: AlfredOutput)
    requires
        amount.wf(),
        rates_ok(table_view(currencies@)),
        codes_unique(table_view(currencies@)),
    ensures
        r@ == source_spec(*amount, src@, table_view(currencies@)),
{
    let matches = match_currencies(src, currencies);
    if matches.len() == 0 {
        return show_error("未找到匹配的货币");
    }
    if matches.len() > 1 {
        let text = render_decimal(amount.mantissa as u128, amount.scale);
        return AlfredOutput { items: currency_records(&text, &matches) };
    }
    let ghost t = table_view(currencies@);
    let ghost m = table_view(matches@);
    proof {
        let p = |e: CurrencyView| crate::matcher::is_match(crate::text::lower_of(src@), e);
        lemma_filter_keeps_rates(t, p);
        lemma_arrange_keeps_rates(t.filter(p), 0);
        assert(m[0] == entry_view(matches@[0]));
        assert(m.contains(m[0]));
    }
    let others = without_code(currencies, &matches[0].0);
    let arranged = arrange_entries(&others);
    proof {
        let p = |e: CurrencyView| e.code != matches@[0].0@;
        lemma_filter_keeps_rates(t, p);
        lemma_arrange_keeps_rates(t.filter(p), 0);
    }
    AlfredOutput { items: conversion_records(amount, &matches[0].0, &matches[0].1, &arranged) }
}

/// The response to two tokens: `amount` converted from the first currency
/// that answers `src` into each currency that answers `dst` but that one;
/// an error when either token has no answer, or when nothing is left.
pub fn convert_currency(
    amount: &Amount,
    src: &str,
    dst: &str,
    currencies: &Vec<(String, CurrencyInfo)>,
) -> (r: AlfredOutput)
    requires
        amount.wf(),
        rates_ok(table_view(currencies@)),
        codes_unique(table_view(currencies@)),
    ensures
        r@ == convert_spec(*amount, src@, dst@, table_view(currencies@)),
{
    let src_matches = match_currencies(src, currencies);
    let dst_matches = match_currencies(dst, currencies);
    if src_matches.len() == 0 || dst_matches.len() == 0 {
        return show_error("无效的货币代码");
    }
    let ghost t = table_view(currencies@);
    let ghost sm = table_view(src_matches@);
    proof {
        let p = |e: CurrencyView| crate::matcher::is_match(crate::text::lower_of(src@), e);
        lemma_filter_keeps_rates(t, p);
        lemma_arrange_keeps_rates(t.filter(p), 0);
        let q = |e: CurrencyView| crate::matcher::is_match(crate::text::lower_of(dst@), e);
        lemma_filter_keeps_rates(t, q);
        lemma_arrange_keeps_rates(t.filter(q), 0);
        assert(sm[0] == entry_view(src_matches@[0]));
        assert(sm.contains(sm[0]));
    }
    let targets = without_code(&dst_matches, &src_matches[0].0);
    proof {
        lemma_filter_keeps_rates(
            table_view(dst_matches@),
            |e: CurrencyView| e.code != src_matches@[0].0@,
        );
    }
    if targets.len() == 0 {
        return show_error("不能转换相同货币");
    }
    AlfredOutput {
        items: conversion_records(amount, &src_matches[0].0, &src_matches[0].1, &targets),
    }
}

/// The response to a raw query: the instructions when the amount is not a
/// positive decimal, then by the number of currency tokens every currency,
/// the one-token response, a conversion, or a format error.
pub open spec fn respond_spec(input: Seq<char>, t: Seq<CurrencyView>) -> Seq<ItemView> {
    let (num, toks) = parse_query(input);
    match amount_spec(num) {
        None => seq![instructions_item()],
        Some(v) => {
            let a = Amount { mantissa: v.0 as u64, scale: v.1 as u32 };
            if toks.len() == 0 {
                all_currencies_spec(a, t)
            } else if toks.len() == 1 {
                source_spec(a, toks[0], t)
            } else if toks.len() == 2 {
                convert_spec(a, toks[0], toks[1], t)
            } else {
                seq![error_item(bad_format_message())]
            }
        },
    }
}

/// Answers a raw query against a rate table.
pub fn respond(input: &str, currencies: &Vec<(String, CurrencyInfo)>) -> (r: AlfredOutput)
    requires
        rates_ok(table_view(currencies@)),
        codes_unique(table_view(currencies@)),
    ensures
        r@ == respond_spec(input@, table_view(currencies@)),
{
    let (num, toks) = parse_input(input);
    let amount = match parse_amount(num.as_str()) {
        None => {
            return show_instructions();
        },
        Some(a) => a,
    };
    assert(toks@.len() == strings_view(toks@).len());
    if toks.len() == 0 {
        show_all_currencies(&amount, currencies)
    } else if toks.len() == 1 {
        assert(strings_view(toks@)[0] == toks@[0]@);
        show_source_currencies(&amount, toks[0].as_str(), currencies)
    } else if toks.len() == 2 {
        assert(strings_view(toks@)[0] == toks@[0]@);
        assert(strings_view(toks@)[1] == toks@[1]@);
        convert_currency(&amount, toks[0].as_str(), toks[1].as_str(), currencies)
    } else {
        show_error("无效输入格式")
    }
}

/// A single token that no currency answers gives exactly one record, which
/// shows an error and cannot be acted on.
pub proof fn lemma_unmatched_token(a: Amount, src: Seq<char>, t: Seq<CurrencyView>)
    requires
        match_spec(src, t).len() == 0,
    ensures
        source_spec(a, src, t) == seq![error_item(no_match_message())],
        source_spec(a, src, t).len() == 1,
        !source_spec(a, src, t)[0].valid,
        source_spec(a, src, t)[0].arg is None,
{
}

/// Two equal tokens that one currency alone answers give the error record,
/// never a conversion.
pub proof fn lemma_same_currency(a: Amount, token: Seq<char>, t: Seq<CurrencyView>)
    requires
        match_spec(token, t).len() == 1,
    ensures
        convert_spec(a, token, token, t) == seq![error_item(same_currency_message())],
{
    let m = match_spec(token, t);
    reveal_with_fuel(Seq::filter, 2);
    assert(m.drop_last() =~= Seq::<CurrencyView>::empty());
    assert(other_than(m, m[0].code).len() == 0);
}

/// The response that lists every currency shows each currency of the table,
/// priority codes first in priority order, and each record stands for the
/// entry at its place.
pub proof fn lemma_all_currencies_order(a: Amount, t: Seq<CurrencyView>)
    ensures
        all_currencies_spec(a, t).len() == arrange(t).len(),
        forall|j: int|
            0 <= j < arrange(t).len() ==> #[trigger] all_currencies_spec(a, t)[j] == currency_item(
                amount_text(a),
                arrange(t)[j],
            ),
        forall|x: CurrencyView| t.contains(x) ==> #[trigger] arrange(t).contains(x),
        forall|i: int, j: int|
            0 <= i < j < arrange(t).len() ==> rank(arrange(t)[i].code) <= rank(
                arrange(t)[j].code,
            ),
        forall|j: int|
            0 <= j < arrange(t).len() ==> #[trigger] rank(arrange(t)[j].code) == NO_PRIORITY || (0
                <= rank(arrange(t)[j].code) < PRIORITY_LEN && priority()[rank(arrange(t)[j].code)]
                == arrange(t)[j].code),
{
    lemma_arrange_ordered(t);
}

/// With distinct codes in the table, the list of every currency names each
/// code of the table exactly once.
pub proof fn lemma_all_currencies_each_once(a: Amount, t: Seq<CurrencyView>)
    requires
        codes_unique(t),
    ensures
        all_currencies_spec(a, t) == currency_items(amount_text(a), arrange(t)),
        codes_unique(arrange(t)),
        forall|x: CurrencyView| #[trigger] arrange(t).contains(x) <==> t.contains(x),
{
    lemma_arrange_each_once(t);
}

/// When one currency `S` alone answers a single token, the response converts
/// into every other currency of the table, each code once, and never into `S`.
pub proof fn lemma_single_match_targets(a: Amount, src: Seq<char>, t: Seq<CurrencyView>)
    requires
        codes_unique(t),
        match_spec(src, t).len() == 1,
    ensures
        ({
            let s = match_spec(src, t)[0];
            let targets = arrange(other_than(t, s.code));
            &&& source_spec(a, src, t) == conversion_items(a, s, targets)
            &&& codes_unique(targets)
            &&& forall|x: CurrencyView| #[trigger]
                targets.contains(x) <==> (t.contains(x) && x.code != s.code)
        }),
{
    broadcast use vstd::seq_lib::group_filter_ensures;

    let s = match_spec(src, t)[0];
    let p = |e: CurrencyView| e.code != s.code;
    let o = other_than(t, s.code);
    crate::order::lemma_filter_unique(t, p);
    lemma_arrange_each_once(o);
    assert forall|x: CurrencyView| #[trigger] o.contains(x) <==> (t.contains(x) && x.code
        != s.code) by {
        if o.contains(x) {
            t.lemma_filter_contains_rev(p, x);
            let k = choose|k: int| 0 <= k < o.len() && o[k] == x;
        }
        if t.contains(x) && x.code != s.code {
            let k = choose|k: int| 0 <= k < t.len() && t[k] == x;
            t.lemma_filter_contains(p, k);
        }
    }
}

} // verus!
