use vstd::prelude::*;
use crate::model::{codes_unique, entry_view, table_view, CurrencyInfo, CurrencyView};
use crate::text::chars_of;

verus! {

/// `a` sorts before `b` as `String`s do: character by character, a proper
/// prefix first.
pub open spec fn code_lt(a: Seq<char>, b: Seq<char>) -> bool
    decreases a.len(),
{
    if b.len() == 0 {
        false
    } else if a.len() == 0 {
        true
    } else if a[0] < b[0] {
        true
    } else if a[0] == b[0] {
        code_lt(a.drop_first(), b.drop_first())
    } else {
        false
    }
}

/// `x` placed before the first entry of `s` whose code does not sort before
/// its own.
pub open spec fn insert_by_code(x: CurrencyView, s: Seq<CurrencyView>) -> Seq<CurrencyView>
    decreases s.len(),
{
    if s.len() == 0 {
        seq![x]
    } else if code_lt(s[0].code, x.code) {
        seq![s[0]] + insert_by_code(x, s.drop_first())
    } else {
        seq![x] + s
    }
}

/// `s` sorted by code, ascending; entries of equal code keep their order.
pub open spec fn sort_by_code(s: Seq<CurrencyView>) -> Seq<CurrencyView>
    decreases s.len(),
{
    if s.len() == 0 {
        s
    } else {
        insert_by_code(s.last(), sort_by_code(s.drop_last()))
    }
}

/// No entry of `s` has a code that sorts before the code of an earlier one.
pub open spec fn sorted_by_code(s: Seq<CurrencyView>) -> bool {
    forall|i: int, j: int| 0 <= i < j < s.len() ==> !code_lt(s[j].code, s[i].code)
}

pub proof fn lemma_code_lt_irreflexive(a: Seq<char>)
    ensures
        !code_lt(a, a),
    decreases a.len(),
{
    if a.len() > 0 {
        lemma_code_lt_irreflexive(a.drop_first());
    }
}

/// Of two different codes, exactly one sorts before the other.
pub proof fn lemma_code_lt_total(a: Seq<char>, b: Seq<char>)
    ensures
        a != b ==> (code_lt(a, b) || code_lt(b, a)),
        !(code_lt(a, b) && code_lt(b, a)),
    decreases a.len(),
{
    if a.len() > 0 && b.len() > 0 && a[0] == b[0] {
        lemma_code_lt_total(a.drop_first(), b.drop_first());
        if a != b {
            assert(a =~= seq![a[0]] + a.drop_first());
            assert(b =~= seq![b[0]] + b.drop_first());
        }
    } else if a.len() == 0 && b.len() == 0 {
        assert(a =~= b);
    }
}

pub proof fn lemma_code_lt_transitive(a: Seq<char>, b: Seq<char>, c: Seq<char>)
    requires
        code_lt(a, b),
        code_lt(b, c),
    ensures
        code_lt(a, c),
    decreases a.len(),
{
    if a.len() > 0 && a[0] == b[0] && b[0] == c[0] {
        lemma_code_lt_transitive(a.drop_first(), b.drop_first(), c.drop_first());
    }
}

/// `!code_lt` is transitive too: it is "sorts no later than".
proof fn lemma_code_le_transitive(a: Seq<char>, b: Seq<char>, c: Seq<char>)
    requires
        !code_lt(b, a),
        !code_lt(c, b),
    ensures
        !code_lt(c, a),
{
    if code_lt(c, a) {
        lemma_code_lt_total(a, b);
        lemma_code_lt_total(b, c);
        if a == b {
        } else if b == c {
        } else {
            lemma_code_lt_transitive(a, b, c);
            lemma_code_lt_total(a, c);
        }
    }
}

pub proof fn lemma_insert_contains(x: CurrencyView, s: Seq<CurrencyView>, y: CurrencyView)
    ensures
        insert_by_code(x, s).contains(y) <==> (y == x || s.contains(y)),
        insert_by_code(x, s).len() == s.len() + 1,
    decreases s.len(),
{
    if s.len() > 0 {
        lemma_insert_contains(x, s.drop_first(), y);
        assert(s =~= seq![s[0]] + s.drop_first());
        if code_lt(s[0].code, x.code) {
            let r = insert_by_code(x, s.drop_first());
            if r.contains(y) {
                let k = choose|k: int| 0 <= k < r.len() && r[k] == y;
                assert((seq![s[0]] + r)[k + 1] == y);
            }
            if insert_by_code(x, s).contains(y) && y != s[0] {
                let k = choose|k: int|
                    0 <= k < insert_by_code(x, s).len() && insert_by_code(x, s)[k] == y;
                assert(r[k - 1] == y);
            }
            if s.contains(y) && y != s[0] {
                let k = choose|k: int| 0 <= k < s.len() && s[k] == y;
                assert(s.drop_first()[k - 1] == y);
            }
            assert(insert_by_code(x, s)[0] == s[0]);
        } else {
            if (seq![x] + s).contains(y) && y != x {
                let k = choose|k: int| 0 <= k < s.len() + 1 && (seq![x] + s)[k] == y;
                assert(s[k - 1] == y);
            }
            if s.contains(y) {
                let k = choose|k: int| 0 <= k < s.len() && s[k] == y;
                assert((seq![x] + s)[k + 1] == y);
            }
            assert((seq![x] + s)[0] == x);
        }
    } else {
        if seq![x].contains(y) {
            assert(seq![x][0] == y);
        }
        assert(seq![x][0] == x);
    }
}

/// Sorting keeps exactly the entries there were, and as many.
pub proof fn lemma_sort_contains(s: Seq<CurrencyView>)
    ensures
        forall|y: CurrencyView| #[trigger] sort_by_code(s).contains(y) <==> s.contains(y),
        sort_by_code(s).len() == s.len(),
    decreases s.len(),
{
    if s.len() > 0 {
        lemma_sort_contains(s.drop_last());
        assert forall|y: CurrencyView| #[trigger] sort_by_code(s).contains(y) <==> s.contains(
            y,
        ) by {
            lemma_insert_contains(s.last(), sort_by_code(s.drop_last()), y);
            assert(s =~= s.drop_last().push(s.last()));
            if s.contains(y) && y != s.last() {
                let k = choose|k: int| 0 <= k < s.len() && s[k] == y;
                assert(s.drop_last()[k] == y);
            }
            if s.drop_last().contains(y) {
                let k = choose|k: int| 0 <= k < s.len() - 1 && s.drop_last()[k] == y;
                assert(s[k] == y);
            }
            assert(s[s.len() - 1] == s.last());
        }
        lemma_insert_contains(s.last(), sort_by_code(s.drop_last()), s.last());
    }
}

proof fn lemma_insert_sorted(x: CurrencyView, s: Seq<CurrencyView>)
    requires
        sorted_by_code(s),
    ensures
        sorted_by_code(insert_by_code(x, s)),
    decreases s.len(),
{
    if s.len() > 0 {
        let t = s.drop_first();
        assert(sorted_by_code(t)) by {
            assert forall|i: int, j: int| 0 <= i < j < t.len() implies !code_lt(
                t[j].code,
                t[i].code,
            ) by {
                assert(t[i] == s[i + 1] && t[j] == s[j + 1]);
            }
        }
        if code_lt(s[0].code, x.code) {
            lemma_insert_sorted(x, t);
            let r = insert_by_code(x, t);
            let u = seq![s[0]] + r;
            assert forall|i: int, j: int| 0 <= i < j < u.len() implies !code_lt(
                u[j].code,
                u[i].code,
            ) by {
                if i == 0 {
                    assert(u[j] == r[j - 1]);
                    lemma_insert_contains(x, t, r[j - 1]);
                    if r[j - 1] == x {
                        lemma_code_lt_total(s[0].code, x.code);
                    } else {
                        let k = choose|k: int| 0 <= k < t.len() && t[k] == r[j - 1];
                        assert(t[k] == s[k + 1]);
                    }
                } else {
                    assert(u[i] == r[i - 1] && u[j] == r[j - 1]);
                }
            }
        } else {
            let u = seq![x] + s;
            assert forall|i: int, j: int| 0 <= i < j < u.len() implies !code_lt(
                u[j].code,
                u[i].code,
            ) by {
                if i == 0 {
                    assert(u[j] == s[j - 1]);
                    if j - 1 > 0 {
                        lemma_code_le_transitive(x.code, s[0].code, s[j - 1].code);
                    }
                } else {
                    assert(u[i] == s[i - 1] && u[j] == s[j - 1]);
                }
            }
        }
    }
}

/// Sorting by code gives ascending codes.
pub proof fn lemma_sort_sorted(s: Seq<CurrencyView>)
    ensures
        sorted_by_code(sort_by_code(s)),
    decreases s.len(),
{
    if s.len() > 0 {
        lemma_sort_sorted(s.drop_last());
        lemma_insert_sorted(s.last(), sort_by_code(s.drop_last()));
    }
}

/// Whether `a` sorts before `b`.
pub fn code_less(a: &Vec<char>, b: &Vec<char>) -> (r: bool)
    ensures
        r == code_lt(a@, b@),
{
    let mut i: usize = 0;
    assert(a@.subrange(0, a@.len() as int) =~= a@);
    assert(b@.subrange(0, b@.len() as int) =~= b@);
    while i < a.len() && i < b.len() && a[i] == b[i]
        invariant
            i <= a@.len(),
            i <= b@.len(),
            code_lt(a@, b@) == code_lt(
                a@.subrange(i as int, a@.len() as int),
                b@.subrange(i as int, b@.len() as int),
            ),
        decreases a@.len() - i,
    {
        assert(a@.subrange(i as int, a@.len() as int).drop_first() =~= a@.subrange(
            i + 1,
            a@.len() as int,
        ));
        assert(b@.subrange(i as int, b@.len() as int).drop_first() =~= b@.subrange(
            i + 1,
            b@.len() as int,
        ));
        i = i + 1;
    }
    assert(a@.subrange(0, a@.len() as int) =~= a@);
    assert(b@.subrange(0, b@.len() as int) =~= b@);
    if i == b.len() {
        false
    } else if i == a.len() {
        true
    } else {
        a[i] < b[i]
    }
}

/// Places `e` into `out`, which is sorted by code, before the first entry
/// whose code does not sort before its own.
fn insert_entry(out: &mut Vec<(String, CurrencyInfo)>, e: (String, CurrencyInfo))
    ensures
        table_view(final(out)@) == insert_by_code(entry_view(e), table_view(old(out)@)),
{
    let ghost s = table_view(out@);
    let ghost x = entry_view(e);
    let code = chars_of(e.0.as_str());
    let mut p: usize = 0;
    assert(s.subrange(0, s.len() as int) =~= s);
    assert(s.subrange(0, 0) + s =~= s);
    while p < out.len() && code_less(&chars_of(out[p].0.as_str()), &code)
        invariant
            p <= out@.len(),
            s == table_view(out@),
            x == entry_view(e),
            code@ == e.0@,
            insert_by_code(x, s) == s.subrange(0, p as int) + insert_by_code(
                x,
                s.subrange(p as int, s.len() as int),
            ),
        decreases out@.len() - p,
    {
        assert(s[p as int] == entry_view(out@[p as int]));
        assert(s.subrange(p as int, s.len() as int).drop_first() =~= s.subrange(
            p + 1,
            s.len() as int,
        ));
        assert(s.subrange(0, p + 1) =~= s.subrange(0, p as int) + seq![s[p as int]]);
        p = p + 1;
    }
    proof {
        if p < out@.len() {
            assert(s[p as int] == entry_view(out@[p as int]));
        }
    }
    out.insert(p, e);
    assert(table_view(out@) =~= s.subrange(0, p as int) + seq![x] + s.subrange(
        p as int,
        s.len() as int,
    ));
}

/// The entries of `s` sorted by code, ascending.
pub fn sort_entries(s: &Vec<(String, CurrencyInfo)>) -> (r: Vec<(String, CurrencyInfo)>)
    ensures
        table_view(r@) == sort_by_code(table_view(s@)),
{
    let ghost sv = table_view(s@);
    let mut out: Vec<(String, CurrencyInfo)> = Vec::new();
    let mut j: usize = 0;
    assert(sv.subrange(0, 0) =~= Seq::<CurrencyView>::empty());
    assert(table_view(out@) =~= Seq::<CurrencyView>::empty());
    while j < s.len()
        invariant
            j <= s@.len(),
            sv == table_view(s@),
            table_view(out@) == sort_by_code(sv.subrange(0, j as int)),
        decreases s@.len() - j,
    {
        assert(sv.subrange(0, j + 1).drop_last() =~= sv.subrange(0, j as int));
        assert(sv[j as int] == entry_view(s@[j as int]));
        let e = (s[j].0.clone(), s[j].1.duplicate());
        insert_entry(&mut out, e);
        j = j + 1;
    }
    assert(sv.subrange(0, s@.len() as int) =~= sv);
    out
}

/// Filtering keeps codes distinct.
pub proof fn lemma_filter_unique(s: Seq<CurrencyView>, p: spec_fn(CurrencyView) -> bool)
    requires
        codes_unique(s),
    ensures
        codes_unique(s.filter(p)),
    decreases s.len(),
{
    reveal(Seq::filter);
    if s.len() > 0 {
        let d = s.drop_last();
        assert(codes_unique(d)) by {
            assert forall|i: int, j: int| 0 <= i < j < d.len() implies d[i].code != d[j].code by {
                assert(d[i] == s[i] && d[j] == s[j]);
            }
        }
        lemma_filter_unique(d, p);
        let f = d.filter(p);
        if p(s.last()) {
            let g = f.push(s.last());
            assert forall|i: int, j: int| 0 <= i < j < g.len() implies g[i].code != g[j].code by {
                if j == f.len() {
                    assert(f.contains(f[i]));
                    d.lemma_filter_contains_rev(p, f[i]);
                    let k = choose|k: int| 0 <= k < d.len() && d[k] == f[i];
                    assert(s[k] == d[k]);
                    assert(s[s.len() - 1] == s.last());
                } else {
                    assert(g[i] == f[i] && g[j] == f[j]);
                }
            }
        }
    }
}

proof fn lemma_insert_unique(x: CurrencyView, s: Seq<CurrencyView>)
    requires
        codes_unique(s),
        forall|k: int| 0 <= k < s.len() ==> (#[trigger] s[k]).code != x.code,
    ensures
        codes_unique(insert_by_code(x, s)),
    decreases s.len(),
{
    if s.len() > 0 {
        let t = s.drop_first();
        assert(codes_unique(t)) by {
            assert forall|i: int, j: int| 0 <= i < j < t.len() implies t[i].code != t[j].code by {
                assert(t[i] == s[i + 1] && t[j] == s[j + 1]);
            }
        }
        assert forall|k: int| 0 <= k < t.len() implies (#[trigger] t[k]).code != x.code by {
            assert(t[k] == s[k + 1]);
        }
        if code_lt(s[0].code, x.code) {
            lemma_insert_unique(x, t);
            let r = insert_by_code(x, t);
            let u = seq![s[0]] + r;
            assert forall|i: int, j: int| 0 <= i < j < u.len() implies u[i].code != u[j].code by {
                if i == 0 {
                    assert(u[j] == r[j - 1]);
                    assert(r.contains(r[j - 1]));
                    lemma_insert_contains(x, t, r[j - 1]);
                    if r[j - 1] != x {
                        let k = choose|k: int| 0 <= k < t.len() && t[k] == r[j - 1];
                        assert(t[k] == s[k + 1]);
                    }
                } else {
                    assert(u[i] == r[i - 1] && u[j] == r[j - 1]);
                }
            }
        } else {
            let u = seq![x] + s;
            assert forall|i: int, j: int| 0 <= i < j < u.len() implies u[i].code != u[j].code by {
                assert(u[j] == s[j - 1]);
                if i > 0 {
                    assert(u[i] == s[i - 1]);
                }
            }
        }
    }
}

/// Sorting keeps codes distinct.
pub proof fn lemma_sort_unique(s: Seq<CurrencyView>)
    requires
        codes_unique(s),
    ensures
        codes_unique(sort_by_code(s)),
    decreases s.len(),
{
    if s.len() > 0 {
        let d = s.drop_last();
        assert(codes_unique(d)) by {
            assert forall|i: int, j: int| 0 <= i < j < d.len() implies d[i].code != d[j].code by {
                assert(d[i] == s[i] && d[j] == s[j]);
            }
        }
        lemma_sort_unique(d);
        lemma_sort_contains(d);
        let r = sort_by_code(d);
        assert forall|k: int| 0 <= k < r.len() implies (#[trigger] r[k]).code != s.last().code by {
            assert(r.contains(r[k]));
            let m = choose|m: int| 0 <= m < d.len() && d[m] == r[k];
            assert(s[m] == d[m]);
            assert(s[s.len() - 1] == s.last());
        }
        lemma_insert_unique(s.last(), r);
    }
}

} // verus!
