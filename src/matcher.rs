use vstd::prelude::*;
use crate::model::{
    arrange, arrange_entries, codes_unique, lemma_arrange_each_once, lemma_arrange_ordered, rank, NO_PRIORITY, entry_view, lemma_table_view_push, table_view, CurrencyInfo,
    CurrencyView,
};
use crate::text::{chars_of, has_prefix, lower_of, lowercase, starts_with, string_of};

verus! {

/// The coin name with the naive plural `s`.
pub open spec fn plural(coin: Seq<char>) -> Seq<char> {
    coin.push('s')
}

/// Whether an entry answers a lowercased search: its lowercased code, or its
/// lowercased plural coin name, begins with the search.
pub open spec fn is_match(search: Seq<char>, e: CurrencyView) -> bool {
    starts_with(lower_of(e.code), search) || starts_with(lower_of(plural(e.coin)), search)
}

/// The entries of `t` that answer `search`, stably sorted by priority rank.
pub open spec fn match_spec(search: Seq<char>, t: Seq<CurrencyView>) -> Seq<CurrencyView> {
    arrange(t.filter(|e: CurrencyView| is_match(lower_of(search), e)))
}

/// Whether an entry whose lowercased code and lowercased plural coin name are
/// given answers an already lowercased search.
pub fn matches_lowered(search: &str, code: &str, plural_coin: &str) -> (r: bool)
    ensures
        r == (starts_with(code@, search@) || starts_with(plural_coin@, search@)),
{
    let s = chars_of(search);
    has_prefix(&chars_of(code), &s) || has_prefix(&chars_of(plural_coin), &s)
}

fn entry_matches(search: &str, e: &(String, CurrencyInfo)) -> (r: bool)
    ensures
        r == is_match(search@, entry_view(*e)),
{
    let code = lowercase(e.0.as_str());
    let mut coin = chars_of(e.1.coin.as_str());
    coin.push('s');
    let coin = lowercase(string_of(&coin).as_str());
    matches_lowered(search, code.as_str(), coin.as_str())
}

/// Every currency whose code or plural coin name begins with `search`, case
/// aside, priority codes first in priority order, the rest in table order.
pub fn match_currencies(search: &str, currencies: &Vec<(String, CurrencyInfo)>) -> (r: Vec<
    (String, CurrencyInfo),
>)
    ensures
        table_view(r@) == match_spec(search@, table_view(currencies@)),
{
    let lowered = lowercase(search);
    let ghost sv = table_view(currencies@);
    let ghost p = |e: CurrencyView| is_match(lower_of(search@), e);
    let mut matched: Vec<(String, CurrencyInfo)> = Vec::new();
    let mut j: usize = 0;
    proof {
        crate::seq_facts::lemma_filter_empty(sv, p);
    }
    assert(table_view(matched@) =~= sv.subrange(0, 0).filter(p));
    while j < currencies.len()
        invariant
            j <= currencies@.len(),
            sv == table_view(currencies@),
            sv.len() == currencies@.len(),
            lowered@ == lower_of(search@),
            p == (|e: CurrencyView| is_match(lower_of(search@), e)),
            table_view(matched@) == sv.subrange(0, j as int).filter(p),
        decreases currencies@.len() - j,
    {
        proof {
            crate::seq_facts::lemma_filter_step(sv, j as int, p);
        }
        assert(sv[j as int] == entry_view(currencies@[j as int]));
        if entry_matches(lowered.as_str(), &currencies[j]) {
            let e = (currencies[j].0.clone(), currencies[j].1.duplicate());
            proof {
                lemma_table_view_push(matched@, e);
            }
            matched.push(e);
        }
        j = j + 1;
    }
    proof {
        crate::seq_facts::lemma_full_prefix(sv);
    }
    arrange_entries(&matched)
}

/// A search that lowercases to the same text as an entry's code finds that
/// entry.
pub proof fn lemma_code_finds_entry(search: Seq<char>, t: Seq<CurrencyView>, e: CurrencyView)
    requires
        t.contains(e),
        lower_of(search) == lower_of(e.code),
    ensures
        match_spec(search, t).contains(e),
{
    let p = |x: CurrencyView| is_match(lower_of(search), x);
    assert(lower_of(e.code).subrange(0, lower_of(e.code).len() as int) =~= lower_of(e.code));
    assert(p(e));
    let k = choose|k: int| 0 <= k < t.len() && t[k] == e;
    t.lemma_filter_contains(p, k);
    lemma_arrange_ordered(t.filter(p));
}

/// In every match result, the entries of priority codes come before all the
/// others.
pub proof fn lemma_priority_matches_first(search: Seq<char>, t: Seq<CurrencyView>)
    ensures
        forall|a: int, b: int|
            0 <= a < b < match_spec(search, t).len() && rank(match_spec(search, t)[b].code)
                != NO_PRIORITY ==> rank(match_spec(search, t)[a].code) != NO_PRIORITY,
{
    let p = |x: CurrencyView| is_match(lower_of(search), x);
    lemma_arrange_ordered(t.filter(p));
    let m = match_spec(search, t);
    assert forall|a: int, b: int|
        0 <= a < b < m.len() && rank(m[b].code) != NO_PRIORITY implies rank(m[a].code)
        != NO_PRIORITY by {
        assert(rank(m[a].code) <= rank(m[b].code));
        assert(rank(m[b].code) < NO_PRIORITY);
    }
}

/// With distinct codes in the table, a match result names each matching
/// entry exactly once and nothing else.
pub proof fn lemma_match_each_once(search: Seq<char>, t: Seq<CurrencyView>)
    requires
        codes_unique(t),
    ensures
        codes_unique(match_spec(search, t)),
        forall|x: CurrencyView| #[trigger]
            match_spec(search, t).contains(x) <==> (t.contains(x) && is_match(
                lower_of(search),
                x,
            )),
{
    broadcast use vstd::seq_lib::group_filter_ensures;

    let p = |x: CurrencyView| is_match(lower_of(search), x);
    let f = t.filter(p);
    crate::order::lemma_filter_unique(t, p);
    lemma_arrange_each_once(f);
    assert forall|x: CurrencyView| #[trigger] f.contains(x) <==> (t.contains(x) && is_match(
        lower_of(search),
        x,
    )) by {
        if f.contains(x) {
            t.lemma_filter_contains_rev(p, x);
            let k = choose|k: int| 0 <= k < f.len() && f[k] == x;
        }
        if t.contains(x) && is_match(lower_of(search), x) {
            let k = choose|k: int| 0 <= k < t.len() && t[k] == x;
            t.lemma_filter_contains(p, k);
        }
    }
}

} // verus!
