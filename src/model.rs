use vstd::prelude::*;
use crate::order::{code_lt, lemma_filter_unique, lemma_sort_unique, lemma_code_lt_irreflexive, lemma_sort_contains, lemma_sort_sorted, sort_by_code, sort_entries, sorted_by_code};
use crate::text::chars_eq;

verus! {

/// Largest rate the table holds: a rate is a whole number of
/// hundred-millionths of a unit per US dollar.
pub const MAX_RATE: u64 = 1_000_000_000_000_000;

/// Sentinel rank of a currency that is not on the priority list.
pub const NO_PRIORITY: usize = 100;

/// How many hours a cached rate table stays in use.
pub const CACHE_HOURS: i64 = 12;

/// Number of codes on the priority list.
pub const PRIORITY_LEN: usize = 7;

/// A currency's rate against the US dollar and its display names.
pub struct CurrencyInfo {
    pub rate: u64,
    pub country: String,
    pub coin: String,
}

impl CurrencyInfo {
    pub fn new(rate: u64, country: String, coin: String) -> (r: Self)
        ensures
            r.rate == rate,
            r.country == country,
            r.coin == coin,
    {
        Self { rate, country, coin }
    }

    /// A copy with the same rate and names.
    pub fn duplicate(&self) -> (r: Self)
        ensures
            r == *self,
    {
        Self { rate: self.rate, country: self.country.clone(), coin: self.coin.clone() }
    }
}

/// One row of the rate table, as values.
pub struct CurrencyView {
    pub code: Seq<char>,
    pub rate: nat,
    pub country: Seq<char>,
    pub coin: Seq<char>,
}

pub open spec fn entry_view(e: (String, CurrencyInfo)) -> CurrencyView {
    CurrencyView { code: e.0@, rate: e.1.rate as nat, country: e.1.country@, coin: e.1.coin@ }
}

pub open spec fn table_view(t: Seq<(String, CurrencyInfo)>) -> Seq<CurrencyView> {
    t.map_values(|e: (String, CurrencyInfo)| entry_view(e))
}

/// Every rate of the table is positive and at most `MAX_RATE`.
pub open spec fn rates_ok(t: Seq<CurrencyView>) -> bool {
    forall|e: CurrencyView| #[trigger] t.contains(e) ==> 0 < e.rate <= MAX_RATE
}

pub proof fn lemma_filter_keeps_rates(s: Seq<CurrencyView>, p: spec_fn(CurrencyView) -> bool)
    requires
        rates_ok(s),
    ensures
        rates_ok(s.filter(p)),
{
    assert forall|e: CurrencyView| s.filter(p).contains(e) implies 0 < e.rate <= MAX_RATE by {
        s.lemma_filter_contains_rev(p, e);
    }
}

pub proof fn lemma_concat_keeps_rates(a: Seq<CurrencyView>, b: Seq<CurrencyView>)
    requires
        rates_ok(a),
        rates_ok(b),
    ensures
        rates_ok(a + b),
{
    assert forall|e: CurrencyView| (a + b).contains(e) implies 0 < e.rate <= MAX_RATE by {
        let j = choose|j: int| 0 <= j < (a + b).len() && (a + b)[j] == e;
        if j < a.len() {
            assert(a.contains(a[j]));
        } else {
            assert(b.contains(b[j - a.len()]));
        }
    }
}

pub proof fn lemma_arrange_keeps_rates(s: Seq<CurrencyView>, i: int)
    requires
        rates_ok(s),
    ensures
        rates_ok(arrange_from(s, i)),
    decreases PRIORITY_LEN - i,
{
    lemma_filter_keeps_rates(s, |e: CurrencyView| has_rank(e, i));
    lemma_filter_keeps_rates(s, |e: CurrencyView| has_rank(e, NO_PRIORITY as int));
    lemma_sort_contains(s.filter(|e: CurrencyView| has_rank(e, NO_PRIORITY as int)));
    if 0 <= i < PRIORITY_LEN {
        lemma_arrange_keeps_rates(s, i + 1);
        lemma_concat_keeps_rates(
            s.filter(|e: CurrencyView| has_rank(e, i)),
            arrange_from(s, i + 1),
        );
    }
}

/// No two entries share a code.
pub open spec fn codes_unique(t: Seq<CurrencyView>) -> bool {
    forall|i: int, j: int| 0 <= i < j < t.len() ==> t[i].code != t[j].code
}

/// Position of the first entry of `t` whose code is `code`, from `i` on.
pub open spec fn code_index_from(t: Seq<CurrencyView>, code: Seq<char>, i: int) -> Option<int>
    decreases t.len() - i,
{
    if i < 0 || i >= t.len() {
        None
    } else if t[i].code == code {
        Some(i)
    } else {
        code_index_from(t, code, i + 1)
    }
}

/// The codes shown first, in this order.
pub open spec fn priority() -> Seq<Seq<char>> {
    seq![
        seq!['C', 'N', 'Y'],
        seq!['U', 'S', 'D'],
        seq!['B', 'H', 'D'],
        seq!['E', 'U', 'R'],
        seq!['H', 'K', 'D'],
        seq!['G', 'B', 'P'],
        seq!['J', 'P', 'Y'],
    ]
}

pub open spec fn rank_from(code: Seq<char>, i: int) -> int
    decreases PRIORITY_LEN - i,
{
    if i < 0 || i >= PRIORITY_LEN {
        NO_PRIORITY as int
    } else if priority()[i] == code {
        i
    } else {
        rank_from(code, i + 1)
    }
}

/// Position of `code` on the priority list, or `NO_PRIORITY`.
pub open spec fn rank(code: Seq<char>) -> int {
    rank_from(code, 0)
}

pub open spec fn has_rank(e: CurrencyView, k: int) -> bool {
    rank(e.code) == k
}

/// The entries of rank `i`, then those of each later rank, each group in
/// table order, then those off the list, ascending by code.
pub open spec fn arrange_from(s: Seq<CurrencyView>, i: int) -> Seq<CurrencyView>
    decreases PRIORITY_LEN - i,
{
    if i < 0 || i >= PRIORITY_LEN {
        sort_by_code(s.filter(|e: CurrencyView| has_rank(e, NO_PRIORITY as int)))
    } else {
        s.filter(|e: CurrencyView| has_rank(e, i)) + arrange_from(s, i + 1)
    }
}

/// `s` sorted by priority rank; entries off the priority list come last,
/// ascending by code.
pub open spec fn arrange(s: Seq<CurrencyView>) -> Seq<CurrencyView> {
    arrange_from(s, 0)
}

fn priority_codes() -> (r: Vec<Vec<char>>)
    ensures
        r@.len() == PRIORITY_LEN,
        forall|i: int| 0 <= i < PRIORITY_LEN ==> (#[trigger] r@[i])@ == priority()[i],
{
    let r = vec![
        vec!['C', 'N', 'Y'],
        vec!['U', 'S', 'D'],
        vec!['B', 'H', 'D'],
        vec!['E', 'U', 'R'],
        vec!['H', 'K', 'D'],
        vec!['G', 'B', 'P'],
        vec!['J', 'P', 'Y'],
    ];
    assert(r@[0]@ =~= priority()[0]);
    assert(r@[1]@ =~= priority()[1]);
    assert(r@[2]@ =~= priority()[2]);
    assert(r@[3]@ =~= priority()[3]);
    assert(r@[4]@ =~= priority()[4]);
    assert(r@[5]@ =~= priority()[5]);
    assert(r@[6]@ =~= priority()[6]);
    r
}

/// Position of `code` on the priority list, or `NO_PRIORITY`.
pub fn rank_of(code: &String) -> (r: usize)
    ensures
        r == rank(code@),
{
    let codes = priority_codes();
    let c = crate::text::chars_of(code.as_str());
    let mut i: usize = 0;
    while i < PRIORITY_LEN
        invariant
            i <= PRIORITY_LEN,
            c@ == code@,
            codes@.len() == PRIORITY_LEN,
            forall|j: int| 0 <= j < PRIORITY_LEN ==> (#[trigger] codes@[j])@ == priority()[j],
            rank(code@) == rank_from(code@, i as int),
        decreases PRIORITY_LEN - i,
    {
        if chars_eq(&codes[i], &c) {
            return i;
        }
        i = i + 1;
    }
    NO_PRIORITY
}

pub proof fn lemma_table_view_push(t: Seq<(String, CurrencyInfo)>, e: (String, CurrencyInfo))
    ensures
        table_view(t.push(e)) == table_view(t).push(entry_view(e)),
{
    assert(table_view(t.push(e)) =~= table_view(t).push(entry_view(e)));
}

/// Appends to `out` the entries of `s` whose rank is `k`, in order.
fn push_rank(out: &mut Vec<(String, CurrencyInfo)>, s: &Vec<(String, CurrencyInfo)>, k: usize)
    ensures
        table_view(final(out)@) == table_view(old(out)@) + table_view(s@).filter(
            |e: CurrencyView| has_rank(e, k as int),
        ),
{
    let ghost sv = table_view(s@);
    let ghost p = |e: CurrencyView| has_rank(e, k as int);
    let ghost base = table_view(out@);
    let mut j: usize = 0;
    proof {
        crate::seq_facts::lemma_filter_empty(sv, p);
    }
    assert(table_view(out@) == base + sv.subrange(0, 0).filter(p));
    while j < s.len()
        invariant
            j <= s@.len(),
            sv == table_view(s@),
            sv.len() == s@.len(),
            p == (|e: CurrencyView| has_rank(e, k as int)),
            table_view(out@) == base + sv.subrange(0, j as int).filter(p),
        decreases s@.len() - j,
    {
        proof {
            crate::seq_facts::lemma_filter_step(sv, j as int, p);
        }
        assert(sv[j as int] == entry_view(s@[j as int]));
        if rank_of(&s[j].0) == k {
            let e = (s[j].0.clone(), s[j].1.duplicate());
            proof {
                lemma_table_view_push(out@, e);
            }
            out.push(e);
        }
        j = j + 1;
    }
    proof {
        crate::seq_facts::lemma_full_prefix(sv);
    }
}

/// The entries of `s` stably sorted by priority rank.
pub fn arrange_entries(s: &Vec<(String, CurrencyInfo)>) -> (r: Vec<(String, CurrencyInfo)>)
    ensures
        table_view(r@) == arrange(table_view(s@)),
{
    let ghost sv = table_view(s@);
    let mut out: Vec<(String, CurrencyInfo)> = Vec::new();
    let mut b: usize = 0;
    assert(table_view(out@) =~= seq![]);
    while b < PRIORITY_LEN
        invariant
            b <= PRIORITY_LEN,
            sv == table_view(s@),
            arrange(sv) == table_view(out@) + arrange_from(sv, b as int),
        decreases PRIORITY_LEN - b,
    {
        let ghost before = table_view(out@);
        push_rank(&mut out, s, b);
        assert(arrange(sv) == table_view(out@) + arrange_from(sv, b + 1)) by {
            assert(before + arrange_from(sv, b as int) =~= table_view(out@) + arrange_from(
                sv,
                b + 1,
            ));
        }
        b = b + 1;
    }
    let mut rest: Vec<(String, CurrencyInfo)> = Vec::new();
    assert(table_view(rest@) =~= seq![]);
    push_rank(&mut rest, s, NO_PRIORITY);
    assert(table_view(rest@) =~= sv.filter(|e: CurrencyView| has_rank(e, NO_PRIORITY as int)));
    let sorted = sort_entries(&rest);
    let ghost before = table_view(out@);
    append_entries(&mut out, &sorted);
    assert(table_view(out@) =~= before + arrange_from(sv, PRIORITY_LEN as int));
    out
}

/// Appends copies of the entries of `s` to `out`, in order.
fn append_entries(out: &mut Vec<(String, CurrencyInfo)>, s: &Vec<(String, CurrencyInfo)>)
    ensures
        table_view(final(out)@) == table_view(old(out)@) + table_view(s@),
{
    let ghost base = table_view(out@);
    let mut j: usize = 0;
    assert(table_view(s@.subrange(0, 0)) =~= seq![]);
    while j < s.len()
        invariant
            j <= s@.len(),
            table_view(out@) == base + table_view(s@.subrange(0, j as int)),
        decreases s@.len() - j,
    {
        let e = (s[j].0.clone(), s[j].1.duplicate());
        proof {
            lemma_table_view_push(out@, e);
        }
        out.push(e);
        assert(table_view(s@.subrange(0, j + 1)) =~= table_view(s@.subrange(0, j as int)).push(
            entry_view(s@[j as int]),
        ));
        j = j + 1;
    }
    assert(s@.subrange(0, s@.len() as int) =~= s@);
}

/// Position of the first row of `names` whose code is `code`, from `i` on.
pub open spec fn name_index_from(names: Seq<(String, String, String)>, code: Seq<char>, i: int) -> Option<
    int,
>
    decreases names.len() - i,
{
    if i < 0 || i >= names.len() {
        None
    } else if names[i].0@ == code {
        Some(i)
    } else {
        name_index_from(names, code, i + 1)
    }
}

/// The rows of a fetched rate list whose code has display names and whose
/// rate is positive and at most `MAX_RATE`, with the names of the first row
/// of `names` for that code; a later row for a code already taken replaces
/// the earlier one in its place.
pub open spec fn known_rates(
    rates: Seq<(String, u64)>,
    names: Seq<(String, String, String)>,
) -> Seq<CurrencyView>
    decreases rates.len(),
{
    if rates.len() == 0 {
        seq![]
    } else {
        let prev = known_rates(rates.drop_last(), names);
        let code = rates.last().0;
        let rate = rates.last().1;
        match name_index_from(names, code@, 0) {
            Some(i) => if 0 < rate <= MAX_RATE {
                let v = CurrencyView {
                    code: code@,
                    rate: rate as nat,
                    country: names[i].1@,
                    coin: names[i].2@,
                };
                match code_index_from(prev, code@, 0) {
                    Some(k) => prev.update(k, v),
                    None => prev.push(v),
                }
            } else {
                prev
            },
            None => prev,
        }
    }
}

fn find_name(names: &Vec<(String, String, String)>, code: &String) -> (r: Option<usize>)
    ensures
        match name_index_from(names@, code@, 0) {
            Some(i) => r == Some(i as usize),
            None => r is None,
        },
        r matches Some(i) ==> i < names@.len() && name_index_from(names@, code@, 0) == Some(
            i as int,
        ),
{
    let mut i: usize = 0;
    while i < names.len()
        invariant
            i <= names@.len(),
            name_index_from(names@, code@, 0) == name_index_from(names@, code@, i as int),
        decreases names@.len() - i,
    {
        if names[i].0 == *code {
            return Some(i);
        }
        i = i + 1;
    }
    None
}

fn find_code(t: &Vec<(String, CurrencyInfo)>, code: &String) -> (r: Option<usize>)
    ensures
        match code_index_from(table_view(t@), code@, 0) {
            Some(k) => r == Some(k as usize),
            None => r is None,
        },
        r matches Some(k) ==> k < t@.len() && t@[k as int].0@ == code@ && code_index_from(
            table_view(t@),
            code@,
            0,
        ) == Some(k as int),
        r is None ==> forall|k: int| 0 <= k < t@.len() ==> (#[trigger] t@[k]).0@ != code@,
{
    let ghost tv = table_view(t@);
    let mut i: usize = 0;
    while i < t.len()
        invariant
            i <= t@.len(),
            tv == table_view(t@),
            code_index_from(tv, code@, 0) == code_index_from(tv, code@, i as int),
            forall|k: int| 0 <= k < i ==> (#[trigger] t@[k]).0@ != code@,
        decreases t@.len() - i,
    {
        assert(tv[i as int] == entry_view(t@[i as int]));
        if t[i].0 == *code {
            return Some(i);
        }
        i = i + 1;
    }
    None
}

/// Builds the rate table from a fetched list of (code, rate) rows and a
/// table of (code, country, coin) display names: rows without names, and
/// rows whose rate is zero or above `MAX_RATE`, are left out, and each code
/// is kept once, with its last row.
pub fn select_known(
    rates: &Vec<(String, u64)>,
    names: &Vec<(String, String, String)>,
) -> (r: Vec<(String, CurrencyInfo)>)
    ensures
        table_view(r@) == known_rates(rates@, names@),
        rates_ok(table_view(r@)),
        codes_unique(table_view(r@)),
{
    let mut out: Vec<(String, CurrencyInfo)> = Vec::new();
    let mut j: usize = 0;
    assert(table_view(out@) =~= known_rates(rates@.subrange(0, 0), names@));
    while j < rates.len()
        invariant
            j <= rates@.len(),
            table_view(out@) == known_rates(rates@.subrange(0, j as int), names@),
            rates_ok(table_view(out@)),
            codes_unique(table_view(out@)),
        decreases rates@.len() - j,
    {
        assert(rates@.subrange(0, j + 1).drop_last() =~= rates@.subrange(0, j as int));
        assert(rates@.subrange(0, j + 1).last() == rates@[j as int]);
        let code = &rates[j].0;
        let rate = rates[j].1;
        let ghost prev = table_view(out@);
        let ghost next = known_rates(rates@.subrange(0, j + 1), names@);
        let found = find_name(names, code);
        proof {
            if found is None || rate == 0 || rate > MAX_RATE {
                assert(next == prev);
            }
        }
        if let Some(i) = found {
            if 0 < rate && rate <= MAX_RATE {
                let e = (code.clone(), CurrencyInfo::new(rate, names[i].1.clone(), names[i].2.clone()));
                let ghost v = entry_view(e);
                assert(name_index_from(names@, code@, 0) == Some(i as int));
                assert(v == CurrencyView {
                    code: code@,
                    rate: rate as nat,
                    country: names@[i as int].1@,
                    coin: names@[i as int].2@,
                });
                match find_code(&out, code) {
                    Some(k) => {
                        assert(code_index_from(prev, code@, 0) == Some(k as int));
                        assert(next == prev.update(k as int, v));
                        out[k] = e;
                        assert(table_view(out@) =~= prev.update(k as int, v));
                        assert(table_view(out@) == next);
                        assert forall|x: CurrencyView| table_view(out@).contains(x) implies 0
                            < x.rate <= MAX_RATE by {
                            let m = choose|m: int|
                                0 <= m < table_view(out@).len() && table_view(out@)[m] == x;
                            if m != k {
                                assert(prev.contains(prev[m]));
                            }
                        }
                        assert forall|a: int, b: int|
                            0 <= a < b < table_view(out@).len() implies table_view(out@)[a].code
                            != table_view(out@)[b].code by {
                            assert(prev[k as int].code == code@);
                        }
                    },
                    None => {
                        proof {
                            lemma_table_view_push(out@, e);
                        }
                        assert(code_index_from(prev, code@, 0) is None);
                        assert(next == prev.push(v));
                        out.push(e);
                        assert(table_view(out@) == next);
                        assert forall|x: CurrencyView| table_view(out@).contains(x) implies 0
                            < x.rate <= MAX_RATE by {
                            let m = choose|m: int|
                                0 <= m < table_view(out@).len() && table_view(out@)[m] == x;
                            if m < prev.len() {
                                assert(prev.contains(prev[m]));
                            }
                        }
                        assert forall|a: int, b: int|
                            0 <= a < b < table_view(out@).len() implies table_view(out@)[a].code
                            != table_view(out@)[b].code by {
                            if b == prev.len() {
                                assert(prev[a] == entry_view(out@[a]));
                            }
                        }
                    },
                }
            }
        }
        j = j + 1;
    }
    assert(rates@.subrange(0, rates@.len() as int) =~= rates@);
    out
}

proof fn lemma_rank_from_range(code: Seq<char>, i: int)
    ensures
        rank_from(code, i) == NO_PRIORITY || (0 <= i <= rank_from(code, i) < PRIORITY_LEN
            && priority()[rank_from(code, i)] == code),
        i < 0 ==> rank_from(code, i) == NO_PRIORITY,
    decreases PRIORITY_LEN - i,
{
    if 0 <= i < PRIORITY_LEN {
        lemma_rank_from_range(code, i + 1);
    }
}

/// Every entry of `arrange_from(s, i)` has rank `i` or more.
proof fn lemma_arrange_from_ranks(s: Seq<CurrencyView>, i: int)
    requires
        0 <= i <= PRIORITY_LEN,
    ensures
        forall|j: int|
            0 <= j < arrange_from(s, i).len() ==> rank((#[trigger] arrange_from(s, i)[j]).code)
                >= i,
    decreases PRIORITY_LEN - i,
{
    broadcast use vstd::seq_lib::group_filter_ensures;

    if i < PRIORITY_LEN {
        lemma_arrange_from_ranks(s, i + 1);
        let f = s.filter(|e: CurrencyView| has_rank(e, i));
        let r = arrange_from(s, i + 1);
        assert forall|j: int| 0 <= j < arrange_from(s, i).len() implies rank(
            (#[trigger] arrange_from(s, i)[j]).code,
        ) >= i by {
            if j < f.len() {
                assert(has_rank(f[j], i));
            } else {
                assert(arrange_from(s, i)[j] == r[j - f.len()]);
            }
        }
    } else {
        lemma_last_group(s);
    }
}

/// The last group holds exactly the entries off the priority list.
proof fn lemma_last_group(s: Seq<CurrencyView>)
    ensures
        forall|j: int|
            0 <= j < arrange_from(s, PRIORITY_LEN as int).len() ==> rank(
                (#[trigger] arrange_from(s, PRIORITY_LEN as int)[j]).code,
            ) == NO_PRIORITY,
        forall|x: CurrencyView|
            s.contains(x) && rank(x.code) == NO_PRIORITY ==> #[trigger] arrange_from(
                s,
                PRIORITY_LEN as int,
            ).contains(x),
{
    broadcast use vstd::seq_lib::group_filter_ensures;

    let f = s.filter(|e: CurrencyView| has_rank(e, NO_PRIORITY as int));
    let g = arrange_from(s, PRIORITY_LEN as int);
    lemma_sort_contains(f);
    assert forall|j: int| 0 <= j < g.len() implies rank((#[trigger] g[j]).code) == NO_PRIORITY by {
        assert(g.contains(g[j]));
        let m = choose|m: int| 0 <= m < f.len() && f[m] == g[j];
        assert(has_rank(f[m], NO_PRIORITY as int));
    }
    assert forall|x: CurrencyView| s.contains(x) && rank(x.code) == NO_PRIORITY implies #[trigger] g.contains(x) by {
        let k = choose|k: int| 0 <= k < s.len() && s[k] == x;
        assert(f.contains(s[k]));
    }
}

/// `arrange_from(s, i)` is ordered by rank.
proof fn lemma_arrange_from_sorted(s: Seq<CurrencyView>, i: int)
    requires
        0 <= i <= PRIORITY_LEN,
    ensures
        forall|a: int, b: int|
            0 <= a < b < arrange_from(s, i).len() ==> rank(arrange_from(s, i)[a].code) <= rank(
                arrange_from(s, i)[b].code,
            ),
    decreases PRIORITY_LEN - i,
{
    broadcast use vstd::seq_lib::group_filter_ensures;

    let t = arrange_from(s, i);
    if i < PRIORITY_LEN {
        lemma_arrange_from_sorted(s, i + 1);
        lemma_arrange_from_ranks(s, i + 1);
        let f = s.filter(|e: CurrencyView| has_rank(e, i));
        let r = arrange_from(s, i + 1);
        assert forall|a: int, b: int| 0 <= a < b < t.len() implies rank(t[a].code) <= rank(
            t[b].code,
        ) by {
            if b < f.len() {
                assert(has_rank(f[a], i) && has_rank(f[b], i));
            } else if a < f.len() {
                assert(has_rank(f[a], i));
                assert(t[b] == r[b - f.len()]);
            } else {
                assert(t[a] == r[a - f.len()] && t[b] == r[b - f.len()]);
            }
        }
    } else {
        lemma_last_group(s);
        assert forall|a: int, b: int| 0 <= a < b < t.len() implies rank(t[a].code) <= rank(
            t[b].code,
        ) by {
            assert(rank(t[a].code) == NO_PRIORITY && rank(t[b].code) == NO_PRIORITY);
        }
    }
}

/// Every entry of `s` whose rank is `i` or more appears in `arrange_from(s, i)`.
proof fn lemma_arrange_from_keeps(s: Seq<CurrencyView>, i: int, x: CurrencyView)
    requires
        0 <= i <= PRIORITY_LEN,
        s.contains(x),
        rank(x.code) >= i,
    ensures
        arrange_from(s, i).contains(x),
    decreases PRIORITY_LEN - i,
{
    broadcast use vstd::seq_lib::group_filter_ensures;

    lemma_rank_from_range(x.code, 0);
    let k = choose|k: int| 0 <= k < s.len() && s[k] == x;
    if i < PRIORITY_LEN {
        let f = s.filter(|e: CurrencyView| has_rank(e, i));
        let r = arrange_from(s, i + 1);
        if rank(x.code) == i {
            assert(f.contains(s[k]));
            let m = choose|m: int| 0 <= m < f.len() && f[m] == x;
            assert((f + r)[m] == x);
        } else {
            lemma_arrange_from_keeps(s, i + 1, x);
            let m = choose|m: int| 0 <= m < r.len() && r[m] == x;
            assert((f + r)[f.len() + m] == x);
        }
    } else {
        assert(rank(x.code) == NO_PRIORITY);
        lemma_last_group(s);
    }
}

/// Within `arrange_from(s, i)`, entries of equal rank come in ascending code order.
proof fn lemma_arrange_from_code_order(s: Seq<CurrencyView>, i: int)
    requires
        0 <= i <= PRIORITY_LEN,
    ensures
        forall|a: int, b: int|
            0 <= a < b < arrange_from(s, i).len() && rank(arrange_from(s, i)[a].code) == rank(
                arrange_from(s, i)[b].code,
            ) ==> !code_lt(arrange_from(s, i)[b].code, arrange_from(s, i)[a].code),
    decreases PRIORITY_LEN - i,
{
    broadcast use vstd::seq_lib::group_filter_ensures;

    let t = arrange_from(s, i);
    if i < PRIORITY_LEN {
        lemma_arrange_from_code_order(s, i + 1);
        lemma_arrange_from_ranks(s, i + 1);
        let f = s.filter(|e: CurrencyView| has_rank(e, i));
        let r = arrange_from(s, i + 1);
        assert forall|a: int, b: int|
            0 <= a < b < t.len() && rank(t[a].code) == rank(t[b].code) implies !code_lt(
            t[b].code,
            t[a].code,
        ) by {
            if b < f.len() {
                assert(has_rank(f[a], i) && has_rank(f[b], i));
                lemma_rank_from_range(f[a].code, 0);
                lemma_rank_from_range(f[b].code, 0);
                lemma_code_lt_irreflexive(f[a].code);
            } else if a < f.len() {
                assert(has_rank(f[a], i));
                assert(t[b] == r[b - f.len()]);
            } else {
                assert(t[a] == r[a - f.len()] && t[b] == r[b - f.len()]);
            }
        }
    } else {
        lemma_sort_sorted(s.filter(|e: CurrencyView| has_rank(e, NO_PRIORITY as int)));
    }
}

/// Every entry of `arrange_from(s, i)` is an entry of `s`; when the codes of
/// `s` are distinct, so are those of `arrange_from(s, i)`.
proof fn lemma_arrange_from_members(s: Seq<CurrencyView>, i: int)
    requires
        0 <= i <= PRIORITY_LEN,
    ensures
        forall|j: int|
            0 <= j < arrange_from(s, i).len() ==> s.contains(#[trigger] arrange_from(s, i)[j]),
        codes_unique(s) ==> codes_unique(arrange_from(s, i)),
    decreases PRIORITY_LEN - i,
{
    broadcast use vstd::seq_lib::group_filter_ensures;

    let t = arrange_from(s, i);
    if i < PRIORITY_LEN {
        lemma_arrange_from_members(s, i + 1);
        lemma_arrange_from_ranks(s, i + 1);
        let p = |e: CurrencyView| has_rank(e, i);
        let f = s.filter(p);
        let r = arrange_from(s, i + 1);
        assert forall|j: int| 0 <= j < t.len() implies s.contains(#[trigger] t[j]) by {
            if j < f.len() {
                assert(f.contains(f[j]));
                s.lemma_filter_contains_rev(p, f[j]);
            } else {
                assert(t[j] == r[j - f.len()]);
            }
        }
        if codes_unique(s) {
            lemma_filter_unique(s, p);
            assert forall|a: int, b: int| 0 <= a < b < t.len() implies t[a].code != t[b].code by {
                if b < f.len() {
                    assert(t[a] == f[a] && t[b] == f[b]);
                } else if a < f.len() {
                    assert(has_rank(f[a], i));
                    assert(t[b] == r[b - f.len()]);
                } else {
                    assert(t[a] == r[a - f.len()] && t[b] == r[b - f.len()]);
                }
            }
        }
    } else {
        let p = |e: CurrencyView| has_rank(e, NO_PRIORITY as int);
        let f = s.filter(p);
        lemma_sort_contains(f);
        assert forall|j: int| 0 <= j < t.len() implies s.contains(#[trigger] t[j]) by {
            assert(t.contains(t[j]));
            s.lemma_filter_contains_rev(p, t[j]);
        }
        if codes_unique(s) {
            lemma_filter_unique(s, p);
            lemma_sort_unique(f);
        }
    }
}

/// With distinct codes, arranging lists exactly the entries of `s`, each code
/// once.
pub proof fn lemma_arrange_each_once(s: Seq<CurrencyView>)
    requires
        codes_unique(s),
    ensures
        codes_unique(arrange(s)),
        forall|x: CurrencyView| #[trigger] arrange(s).contains(x) <==> s.contains(x),
{
    lemma_arrange_from_members(s, 0);
    lemma_arrange_ordered(s);
    assert forall|x: CurrencyView| #[trigger] arrange(s).contains(x) implies s.contains(x) by {
        let k = choose|k: int| 0 <= k < arrange(s).len() && arrange(s)[k] == x;
    }
}

/// Arranging orders the entries by priority rank, so entries of priority
/// codes come before all others and follow the priority list; entries of
/// equal rank come in ascending code order; and it keeps every entry.
pub proof fn lemma_arrange_ordered(s: Seq<CurrencyView>)
    ensures
        forall|a: int, b: int|
            0 <= a < b < arrange(s).len() && rank(arrange(s)[a].code) == rank(arrange(s)[b].code)
                ==> !code_lt(arrange(s)[b].code, arrange(s)[a].code),
        forall|a: int, b: int|
            0 <= a < b < arrange(s).len() ==> rank(arrange(s)[a].code) <= rank(
                arrange(s)[b].code,
            ),
        forall|x: CurrencyView| s.contains(x) ==> #[trigger] arrange(s).contains(x),
        forall|j: int|
            0 <= j < arrange(s).len() ==> #[trigger] rank(arrange(s)[j].code) == NO_PRIORITY || (0
                <= rank(arrange(s)[j].code) < PRIORITY_LEN && priority()[rank(arrange(s)[j].code)]
                == arrange(s)[j].code),
{
    lemma_arrange_from_sorted(s, 0);
    lemma_arrange_from_code_order(s, 0);
    assert forall|x: CurrencyView| s.contains(x) implies #[trigger] arrange(s).contains(x) by {
        lemma_rank_from_range(x.code, 0);
        lemma_arrange_from_keeps(s, 0, x);
    }
    assert forall|j: int| 0 <= j < arrange(s).len() implies #[trigger] rank(arrange(s)[j].code)
        == NO_PRIORITY || (0 <= rank(arrange(s)[j].code) < PRIORITY_LEN && priority()[rank(
        arrange(s)[j].code,
    )] == arrange(s)[j].code) by {
        lemma_rank_from_range(arrange(s)[j].code, 0);
    }
}

/// Whether a cached rate table written `age_hours` whole hours ago may
/// still be used instead of fetching the rates again.
pub fn cache_fresh(age_hours: i64) -> (r: bool)
    ensures
        r == (age_hours < CACHE_HOURS),
{
    age_hours < CACHE_HOURS
}

} // verus!
