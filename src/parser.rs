use vstd::prelude::*;
use crate::text::{
    all_ascii, ascii_lower, chars_eq, chars_of, is_ascii_digit, is_ascii_lower, is_ascii_punct,
    is_digit_char, is_lower_char, is_ws, is_ws_char, lower_char, lower_of, lowercase, string_of,
};

verus! {

/// Classes of characters that the input grammar scans for.
pub enum CharClass {
    Digit,
    Lower,
    Space,
    NumChar,
}

pub open spec fn in_class(c: char, k: CharClass) -> bool {
    match k {
        CharClass::Digit => is_ascii_digit(c),
        CharClass::Lower => is_ascii_lower(c),
        CharClass::Space => is_ws(c),
        CharClass::NumChar => is_ascii_digit(c) || c == '.',
    }
}

/// Length of the run of characters of class `k` that starts at `i`.
pub open spec fn span(s: Seq<char>, i: int, k: CharClass) -> int
    decreases s.len() - i,
{
    if 0 <= i < s.len() && in_class(s[i], k) {
        1 + span(s, i + 1, k)
    } else {
        0
    }
}

/// No two distinct positions of `n` hold a `.`.
pub open spec fn one_dot_at_most(n: Seq<char>) -> bool {
    forall|a: int, b: int|
        0 <= a < n.len() && 0 <= b < n.len() && n[a] == '.' && n[b] == '.' ==> a == b
}

/// Every ASCII punctuation character but `.` and `-` becomes a space.
pub open spec fn normalize_char(c: char) -> char {
    if is_ascii_punct(c) && c != '.' && c != '-' {
        ' '
    } else {
        c
    }
}

pub open spec fn normalize(s: Seq<char>) -> Seq<char> {
    s.map_values(|c: char| normalize_char(c))
}

/// The compact form: a number (`\d*\.?\d+`), one to three letters, and
/// optionally whitespace and a second run of letters, filling the whole text.
pub open spec fn compact_rule(s: Seq<char>) -> Option<(Seq<char>, Seq<Seq<char>>)> {
    let n = span(s, 0, CharClass::NumChar);
    let l = span(s, n, CharClass::Lower);
    let j = n + l;
    if !(n > 0 && is_ascii_digit(s[n - 1]) && one_dot_at_most(s.subrange(0, n)) && 1 <= l
        <= 3) {
        None
    } else if j == s.len() {
        Some((s.subrange(0, n), seq![s.subrange(n, j)]))
    } else {
        let w = span(s, j, CharClass::Space);
        let k = span(s, j + w, CharClass::Lower);
        if w >= 1 && k >= 1 && j + w + k == s.len() {
            Some((s.subrange(0, n), seq![s.subrange(n, j), s.subrange(j + w, s.len() as int)]))
        } else {
            None
        }
    }
}

/// A single word made of a number (`\d+\.?\d*`) and exactly three letters.
pub open spec fn word_rule(w: Seq<char>) -> Option<(Seq<char>, Seq<char>)> {
    let n = span(w, 0, CharClass::NumChar);
    if n > 0 && is_ascii_digit(w[0]) && one_dot_at_most(w.subrange(0, n)) && span(
        w,
        n,
        CharClass::Lower,
    ) == 3 && n + 3 == w.len() {
        Some((w.subrange(0, n), w.subrange(n, w.len() as int)))
    } else {
        None
    }
}

/// The word in progress, as a list of zero or one word.
pub open spec fn pending(cur: Seq<char>) -> Seq<Seq<char>> {
    if cur.len() > 0 {
        seq![cur]
    } else {
        seq![]
    }
}

/// The whitespace-separated words of `s` from position `i`, `cur` being the
/// word read so far.
pub open spec fn words_from(s: Seq<char>, i: int, cur: Seq<char>) -> Seq<Seq<char>>
    decreases s.len() - i,
{
    if i < 0 || i >= s.len() {
        pending(cur)
    } else if is_ws(s[i]) {
        pending(cur) + words_from(s, i + 1, seq![])
    } else {
        words_from(s, i + 1, cur.push(s[i]))
    }
}

pub open spec fn words(s: Seq<char>) -> Seq<Seq<char>> {
    words_from(s, 0, seq![])
}

/// A run of decimal digits, possibly with a fraction, then an optional
/// exponent; at least one digit before the exponent.
pub open spec fn decimal_float(b: Seq<char>) -> bool {
    let n = span(b, 0, CharClass::Digit);
    let has_dot = n < b.len() && b[n] == '.';
    let f = if has_dot {
        span(b, n + 1, CharClass::Digit)
    } else {
        0
    };
    let after = if has_dot {
        n + 1 + f
    } else {
        n
    };
    n + f >= 1 && exponent_ok(b, after)
}

pub open spec fn exponent_ok(b: Seq<char>, i: int) -> bool {
    i == b.len() || (0 <= i < b.len() && (b[i] == 'e' || b[i] == 'E') && {
        let j = if i + 1 < b.len() && (b[i + 1] == '+' || b[i + 1] == '-') {
            i + 2
        } else {
            i + 1
        };
        let d = span(b, j, CharClass::Digit);
        d >= 1 && j + d == b.len()
    })
}

pub open spec fn strip_sign(w: Seq<char>) -> Seq<char> {
    if w.len() > 0 && (w[0] == '+' || w[0] == '-') {
        w.subrange(1, w.len() as int)
    } else {
        w
    }
}

/// The texts that Rust's number parsing accepts as a binary float: a sign, then `inf`, `infinity`,
/// `nan` (in any case) or a decimal number with an optional exponent.
pub open spec fn float_text(w: Seq<char>) -> bool {
    let b = strip_sign(w);
    let l = ascii_lower(b);
    l == seq!['i', 'n', 'f'] || l == seq!['i', 'n', 'f', 'i', 'n', 'i', 't', 'y'] || l == seq![
        'n',
        'a',
        'n',
    ] || decimal_float(b)
}

pub open spec fn is_amount_word(w: Seq<char>) -> bool {
    float_text(w)
}

pub open spec fn is_token_word(w: Seq<char>) -> bool {
    !float_text(w) && w.len() > 0
}

/// The first word that reads as a number (or nothing), and every other
/// non-empty word in order.
pub open spec fn fallback(ws: Seq<Seq<char>>) -> (Seq<char>, Seq<Seq<char>>) {
    let nums = ws.filter(|w: Seq<char>| is_amount_word(w));
    (
        if nums.len() > 0 {
            nums[0]
        } else {
            seq![]
        },
        ws.filter(|w: Seq<char>| is_token_word(w)),
    )
}

/// The amount text and the currency tokens of a normalized, lowercased query.
pub open spec fn parse_spec(s: Seq<char>) -> (Seq<char>, Seq<Seq<char>>) {
    match compact_rule(s) {
        Some(r) => r,
        None => {
            let ws = words(s);
            if ws.len() == 1 && word_rule(ws[0]) is Some {
                let (amount, code) = word_rule(ws[0])->0;
                (amount, seq![code])
            } else {
                fallback(ws)
            }
        },
    }
}

pub open spec fn strings_view(v: Seq<String>) -> Seq<Seq<char>> {
    v.map_values(|t: String| t@)
}

/// What `parse_input` returns for a raw query.
pub open spec fn parse_query(input: Seq<char>) -> (Seq<char>, Seq<Seq<char>>) {
    parse_spec(lower_of(normalize(input)))
}

fn in_class_exec(c: char, k: &CharClass) -> (r: bool)
    ensures
        r == in_class(c, *k),
{
    match k {
        CharClass::Digit => is_digit_char(c),
        CharClass::Lower => is_lower_char(c),
        CharClass::Space => is_ws_char(c),
        CharClass::NumChar => is_digit_char(c) || c == '.',
    }
}

/// Length of the run of characters of class `k` that starts at `i`.
pub fn span_of(s: &Vec<char>, i: usize, k: CharClass) -> (r: usize)
    requires
        i <= s@.len(),
    ensures
        r == span(s@, i as int, k),
        i + r <= s@.len(),
{
    let mut j = i;
    while j < s.len() && in_class_exec(s[j], &k)
        invariant
            i <= j <= s@.len(),
            span(s@, i as int, k) == (j - i) + span(s@, j as int, k),
        decreases s@.len() - j,
    {
        j = j + 1;
    }
    j - i
}

/// Whether `s[from..to]` holds at most one `.`.
fn dots_ok(s: &Vec<char>, from: usize, to: usize) -> (r: bool)
    requires
        from <= to <= s@.len(),
    ensures
        r == one_dot_at_most(s@.subrange(from as int, to as int)),
{
    let ghost n = s@.subrange(from as int, to as int);
    let mut seen: Option<usize> = None;
    let mut i = from;
    while i < to
        invariant
            from <= i <= to <= s@.len(),
            n == s@.subrange(from as int, to as int),
            forall|a: int, b: int|
                from <= a < i && from <= b < i && s@[a] == '.' && s@[b] == '.' ==> a == b,
            seen is None ==> forall|a: int| from <= a < i ==> s@[a] != '.',
            seen matches Some(p) ==> from <= p < i && s@[p as int] == '.',
        decreases to - i,
    {
        if s[i] == '.' {
            if let Some(p) = seen {
                assert(n[p - from] == '.' && n[i - from] == '.');
                return false;
            }
            seen = Some(i);
        }
        i = i + 1;
    }
    assert forall|a: int, b: int|
        0 <= a < n.len() && 0 <= b < n.len() && n[a] == '.' && n[b] == '.' implies a == b by {
        assert(s@[from + a] == '.' && s@[from + b] == '.');
    }
    true
}

pub(crate) fn sub_vec(s: &Vec<char>, from: usize, to: usize) -> (r: Vec<char>)
    requires
        from <= to <= s@.len(),
    ensures
        r@ == s@.subrange(from as int, to as int),
{
    let mut r: Vec<char> = Vec::new();
    let mut i = from;
    while i < to
        invariant
            from <= i <= to <= s@.len(),
            r@ == s@.subrange(from as int, i as int),
        decreases to - i,
    {
        r.push(s[i]);
        i = i + 1;
        assert(r@ =~= s@.subrange(from as int, i as int));
    }
    r
}

fn compact_exec(s: &Vec<char>) -> (r: Option<(Vec<char>, Vec<Vec<char>>)>)
    ensures
        match compact_rule(s@) {
            Some(c) => r matches Some(x) && x.0@ == c.0 && x.1@.map_values(|t: Vec<char>| t@)
                == c.1,
            None => r is None,
        },
{
    let len = s.len();
    let n = span_of(s, 0, CharClass::NumChar);
    let l = span_of(s, n, CharClass::Lower);
    let j = n + l;
    if !(n > 0 && is_digit_char(s[n - 1]) && dots_ok(s, 0, n) && 1 <= l && l <= 3) {
        return None;
    }
    let num = sub_vec(s, 0, n);
    let first = sub_vec(s, n, j);
    if j == s.len() {
        let mut codes: Vec<Vec<char>> = Vec::new();
        codes.push(first);
        assert(codes@.map_values(|t: Vec<char>| t@) =~= seq![s@.subrange(n as int, j as int)]);
        return Some((num, codes));
    }
    let w = span_of(s, j, CharClass::Space);
    let k = span_of(s, j + w, CharClass::Lower);
    if w >= 1 && k >= 1 && j + w + k == s.len() {
        let second = sub_vec(s, j + w, s.len());
        let mut codes: Vec<Vec<char>> = Vec::new();
        codes.push(first);
        codes.push(second);
        assert(codes@.map_values(|t: Vec<char>| t@) =~= seq![
            s@.subrange(n as int, j as int),
            s@.subrange((j + w) as int, s@.len() as int),
        ]);
        Some((num, codes))
    } else {
        None
    }
}

fn word_exec(w: &Vec<char>) -> (r: Option<(Vec<char>, Vec<char>)>)
    ensures
        match word_rule(w@) {
            Some(c) => r matches Some(x) && x.0@ == c.0 && x.1@ == c.1,
            None => r is None,
        },
{
    let len = w.len();
    let n = span_of(w, 0, CharClass::NumChar);
    if n > 0 && is_digit_char(w[0]) && dots_ok(w, 0, n) && span_of(w, n, CharClass::Lower) == 3
        && n + 3 == w.len() {
        Some((sub_vec(w, 0, n), sub_vec(w, n, w.len())))
    } else {
        None
    }
}

pub open spec fn views(v: Seq<Vec<char>>) -> Seq<Seq<char>> {
    v.map_values(|t: Vec<char>| t@)
}

proof fn lemma_views_push(v: Seq<Vec<char>>, t: Vec<char>)
    ensures
        views(v.push(t)) == views(v).push(t@),
{
    assert(views(v.push(t)) =~= views(v).push(t@));
}

/// The whitespace-separated words of `s`.
pub fn split_words(s: &Vec<char>) -> (r: Vec<Vec<char>>)
    ensures
        views(r@) == words(s@),
{
    let mut out: Vec<Vec<char>> = Vec::new();
    let mut cur: Vec<char> = Vec::new();
    let mut i: usize = 0;
    while i < s.len()
        invariant
            i <= s@.len(),
            words(s@) == views(out@) + words_from(s@, i as int, cur@),
        decreases s@.len() - i,
    {
        let c = s[i];
        if is_ws_char(c) {
            if cur.len() > 0 {
                proof {
                    lemma_views_push(out@, cur);
                }
                out.push(cur);
                cur = Vec::new();
                assert(views(out@) + words_from(s@, i + 1, cur@) =~= views(out@.drop_last()) + (
                pending(out@.last()@) + words_from(s@, i + 1, seq![])));
            } else {
                assert(pending(cur@) =~= seq![]);
                assert(cur@ =~= seq![]);
                assert(words_from(s@, i as int, cur@) =~= words_from(s@, i + 1, seq![]));
            }
        } else {
            cur.push(c);
        }
        i = i + 1;
    }
    if cur.len() > 0 {
        proof {
            lemma_views_push(out@, cur);
        }
        out.push(cur);
        assert(views(out@) =~= views(out@.drop_last()) + pending(out@.last()@));
    } else {
        assert(views(out@) =~= views(out@) + pending(cur@));
    }
    out
}


fn exponent_exec(b: &Vec<char>, i: usize) -> (r: bool)
    requires
        i <= b@.len(),
    ensures
        r == exponent_ok(b@, i as int),
{
    let len = b.len();
    if i == len {
        return true;
    }
    if !(b[i] == 'e' || b[i] == 'E') {
        return false;
    }
    let j = if i + 1 < len && (b[i + 1] == '+' || b[i + 1] == '-') {
        i + 2
    } else {
        i + 1
    };
    let d = span_of(b, j, CharClass::Digit);
    d >= 1 && j + d == len
}

fn ascii_lower_vec(b: &Vec<char>) -> (r: Vec<char>)
    ensures
        r@ == ascii_lower(b@),
{
    let mut r: Vec<char> = Vec::new();
    let mut i: usize = 0;
    while i < b.len()
        invariant
            i <= b@.len(),
            r@.len() == i,
            forall|j: int| 0 <= j < i ==> r@[j] == crate::text::ascii_lower_char(b@[j]),
        decreases b@.len() - i,
    {
        r.push(lower_char(b[i]));
        i = i + 1;
    }
    assert(r@ =~= ascii_lower(b@));
    r
}

/// Whether Rust's number parsing accepts `w` as a binary float.
pub fn is_float_word(w: &Vec<char>) -> (r: bool)
    ensures
        r == float_text(w@),
{
    let len = w.len();
    let b = if len > 0 && (w[0] == '+' || w[0] == '-') {
        sub_vec(w, 1, len)
    } else {
        sub_vec(w, 0, len)
    };
    assert(b@ == strip_sign(w@));
    let l = ascii_lower_vec(&b);
    if chars_eq(&l, &vec!['i', 'n', 'f']) || chars_eq(
        &l,
        &vec!['i', 'n', 'f', 'i', 'n', 'i', 't', 'y'],
    ) || chars_eq(&l, &vec!['n', 'a', 'n']) {
        return true;
    }
    let blen = b.len();
    let n = span_of(&b, 0, CharClass::Digit);
    let has_dot = n < blen && b[n] == '.';
    let f = if has_dot {
        span_of(&b, n + 1, CharClass::Digit)
    } else {
        0
    };
    let after = if has_dot {
        n + 1 + f
    } else {
        n
    };
    n + f >= 1 && exponent_exec(&b, after)
}

fn fallback_exec(ws: &Vec<Vec<char>>) -> (r: (Vec<char>, Vec<Vec<char>>))
    ensures
        r.0@ == fallback(views(ws@)).0,
        views(r.1@) == fallback(views(ws@)).1,
{
    let ghost vs = views(ws@);
    let ghost pa = |w: Seq<char>| is_amount_word(w);
    let ghost pt = |w: Seq<char>| is_token_word(w);
    let mut amount: Vec<char> = Vec::new();
    let mut found = false;
    let mut rest: Vec<Vec<char>> = Vec::new();
    let mut i: usize = 0;
    proof {
        crate::seq_facts::lemma_filter_empty(vs, pa);
        crate::seq_facts::lemma_filter_empty(vs, pt);
        assert(views(rest@) =~= seq![]);
    }
    while i < ws.len()
        invariant
            i <= ws@.len(),
            vs == views(ws@),
            vs.len() == ws@.len(),
            pa == (|w: Seq<char>| is_amount_word(w)),
            pt == (|w: Seq<char>| is_token_word(w)),
            found == (vs.subrange(0, i as int).filter(pa).len() > 0),
            found ==> amount@ == vs.subrange(0, i as int).filter(pa)[0],
            !found ==> amount@ == Seq::<char>::empty(),
            views(rest@) == vs.subrange(0, i as int).filter(pt),
        decreases ws@.len() - i,
    {
        let w = &ws[i];
        assert(vs[i as int] == w@);
        proof {
            crate::seq_facts::lemma_filter_step(vs, i as int, pa);
            crate::seq_facts::lemma_filter_step(vs, i as int, pt);
        }
        let num = is_float_word(w);
        assert(pa(vs[i as int]) == num);
        assert(pt(vs[i as int]) == (!num && w@.len() > 0));
        if num {
            if !found {
                amount = sub_vec(w, 0, w.len());
                assert(amount@ =~= w@);
                found = true;
            }
        } else if w.len() > 0 {
            let t = sub_vec(w, 0, w.len());
            assert(t@ =~= w@);
            proof {
                lemma_views_push(rest@, t);
            }
            rest.push(t);
        }
        i = i + 1;
    }
    proof {
        crate::seq_facts::lemma_full_prefix(vs);
    }
    (amount, rest)
}

fn to_strings(v: &Vec<Vec<char>>) -> (r: Vec<String>)
    ensures
        strings_view(r@) == views(v@),
{
    let mut r: Vec<String> = Vec::new();
    let mut i: usize = 0;
    while i < v.len()
        invariant
            i <= v@.len(),
            strings_view(r@) == views(v@.subrange(0, i as int)),
        decreases v@.len() - i,
    {
        let s = string_of(&v[i]);
        assert(strings_view(r@.push(s)) =~= strings_view(r@).push(s@));
        assert(views(v@.subrange(0, i + 1)) =~= views(v@.subrange(0, i as int)).push(v@[i as int]@));
        r.push(s);
        i = i + 1;
    }
    assert(v@.subrange(0, v@.len() as int) =~= v@);
    r
}

/// Splits a query that is already normalized and lowercased into its amount
/// text and its currency tokens.
pub fn parse_normalized(s: &str) -> (r: (String, Vec<String>))
    ensures
        r.0@ == parse_spec(s@).0,
        strings_view(r.1@) == parse_spec(s@).1,
{
    let cs = chars_of(s);
    if let Some((num, codes)) = compact_exec(&cs) {
        return (string_of(&num), to_strings(&codes));
    }
    let ws = split_words(&cs);
    if ws.len() == 1 {
        assert(views(ws@)[0] == ws@[0]@);
        if let Some((num, code)) = word_exec(&ws[0]) {
            let mut codes: Vec<Vec<char>> = Vec::new();
            codes.push(code);
            proof {
                let (_, c) = word_rule(ws@[0]@)->0;
                assert(views(codes@) =~= seq![c]);
            }
            return (string_of(&num), to_strings(&codes));
        }
    }
    let (num, rest) = fallback_exec(&ws);
    (string_of(&num), to_strings(&rest))
}

/// Every ASCII punctuation character but `.` and `-` becomes a space.
fn normalize_exec(s: &str) -> (r: Vec<char>)
    ensures
        r@ == normalize(s@),
{
    let cs = chars_of(s);
    let mut r: Vec<char> = Vec::new();
    let mut i: usize = 0;
    while i < cs.len()
        invariant
            i <= cs@.len(),
            cs@ == s@,
            r@.len() == i,
            forall|j: int| 0 <= j < i ==> r@[j] == normalize_char(cs@[j]),
        decreases cs@.len() - i,
    {
        let c = cs[i];
        let p = (c >= '!' && c <= '/') || (c >= ':' && c <= '@') || (c >= '[' && c <= '`') || (c
            >= '{' && c <= '~');
        if p && c != '.' && c != '-' {
            r.push(' ');
        } else {
            r.push(c);
        }
        i = i + 1;
    }
    assert(r@ =~= normalize(s@));
    r
}

/// Splits a free-text query into its amount text and its currency tokens:
/// punctuation other than `.` and `-` becomes a space, the text is
/// lowercased, then the compact forms are tried before the word-by-word one.
pub fn parse_input(input: &str) -> (r: (String, Vec<String>))
    ensures
        r.0@ == parse_query(input@).0,
        strings_view(r.1@) == parse_query(input@).1,
        all_ascii(input@) ==> r.0@ == parse_spec(ascii_lower(normalize(input@))).0
            && strings_view(r.1@) == parse_spec(ascii_lower(normalize(input@))).1,
{
    assert(all_ascii(input@) ==> all_ascii(normalize(input@)));
    let normalized = string_of(&normalize_exec(input));
    let lowered = lowercase(normalized.as_str());
    parse_normalized(lowered.as_str())
}

proof fn lemma_span_exact(s: Seq<char>, i: int, k: CharClass, e: int)
    requires
        0 <= i <= e <= s.len(),
        forall|j: int| i <= j < e ==> in_class(#[trigger] s[j], k),
        e == s.len() || !in_class(s[e], k),
    ensures
        span(s, i, k) == e - i,
    decreases e - i,
{
    if i < e {
        lemma_span_exact(s, i + 1, k, e);
    }
}

/// A number as the compact form writes it: digits with at most one point,
/// ending in a digit.
pub open spec fn compact_number(num: Seq<char>) -> bool {
    &&& num.len() > 0
    &&& forall|j: int| 0 <= j < num.len() ==> in_class(#[trigger] num[j], CharClass::NumChar)
    &&& is_ascii_digit(num.last())
    &&& one_dot_at_most(num)
}

/// One to three ASCII letters, in either case.
pub open spec fn short_code(code: Seq<char>) -> bool {
    &&& 1 <= code.len() <= 3
    &&& ascii_letters(code)
}

pub open spec fn ascii_letters(code: Seq<char>) -> bool {
    forall|j: int|
        0 <= j < code.len() ==> is_ascii_lower(#[trigger] code[j]) || crate::text::is_ascii_upper(
            code[j],
        )
}

proof fn lemma_plain_text(num: Seq<char>, rest: Seq<char>)
    requires
        forall|j: int| 0 <= j < num.len() ==> in_class(#[trigger] num[j], CharClass::NumChar),
        forall|j: int|
            0 <= j < rest.len() ==> is_ascii_lower(#[trigger] rest[j])
                || crate::text::is_ascii_upper(rest[j]) || ascii_space(rest[j]),
    ensures
        normalize(num + rest) == num + rest,
        all_ascii(num + rest),
        ascii_lower(num + rest) == num + ascii_lower(rest),
{
    let s = num + rest;
    assert(normalize(s) =~= s) by {
        assert forall|j: int| 0 <= j < s.len() implies normalize_char(s[j]) == s[j] by {
            if j >= num.len() {
                assert(s[j] == rest[j - num.len()]);
            }
        }
    }
    assert forall|j: int| 0 <= j < s.len() implies crate::text::is_ascii_char(#[trigger] s[j]) by {
        if j >= num.len() {
            assert(s[j] == rest[j - num.len()]);
        }
    }
    assert(ascii_lower(s) =~= num + ascii_lower(rest)) by {
        assert forall|j: int| 0 <= j < s.len() implies #[trigger] ascii_lower(s)[j] == (num
            + ascii_lower(rest))[j] by {
            if j >= num.len() {
                assert(s[j] == rest[j - num.len()]);
            }
        }
    }
}

/// A number written directly before a currency code of one to three letters
/// reads as that number and the lowercased code.
pub proof fn lemma_compact_code(num: Seq<char>, code: Seq<char>)
    requires
        compact_number(num),
        short_code(code),
    ensures
        parse_spec(ascii_lower(normalize(num + code))) == (num, seq![ascii_lower(code)]),
{
    lemma_plain_text(num, code);
    let lc = ascii_lower(code);
    let s = num + lc;
    let n = num.len() as int;
    assert(s.subrange(0, n) =~= num);
    assert(s.subrange(n, s.len() as int) =~= lc);
    lemma_span_exact(s, 0, CharClass::NumChar, n);
    lemma_span_exact(s, n, CharClass::Lower, s.len() as int);
}

/// An ASCII whitespace character.
pub open spec fn ascii_space(c: char) -> bool {
    is_ws(c) && crate::text::is_ascii_char(c)
}

/// A number written directly before a code of one to three letters, then a
/// run of ASCII whitespace and a second code, reads as that number and both
/// codes lowercased.
pub proof fn lemma_compact_pair(num: Seq<char>, code: Seq<char>, ws: Seq<char>, code2: Seq<char>)
    requires
        compact_number(num),
        short_code(code),
        ws.len() >= 1,
        forall|j: int| 0 <= j < ws.len() ==> ascii_space(#[trigger] ws[j]),
        code2.len() >= 1,
        ascii_letters(code2),
    ensures
        parse_spec(ascii_lower(normalize(num + code + ws + code2))) == (
            num,
            seq![ascii_lower(code), ascii_lower(code2)],
        ),
{
    let rest = code + ws + code2;
    assert(num + code + ws + code2 =~= num + rest);
    assert forall|j: int|
        0 <= j < rest.len() implies is_ascii_lower(#[trigger] rest[j])
        || crate::text::is_ascii_upper(rest[j]) || ascii_space(rest[j]) by {
        if j < code.len() {
            assert(rest[j] == code[j]);
        } else if j < code.len() + ws.len() {
            assert(rest[j] == ws[j - code.len()]);
        } else {
            assert(rest[j] == code2[j - code.len() - ws.len()]);
        }
    }
    lemma_plain_text(num, rest);
    let lc = ascii_lower(code);
    let lc2 = ascii_lower(code2);
    let lw = ascii_lower(ws);
    assert(lw =~= ws) by {
        assert forall|j: int| 0 <= j < ws.len() implies lw[j] == ws[j] by {
            assert(ascii_space(ws[j]));
        }
    }
    assert(ascii_lower(rest) =~= lc + ws + lc2);
    let s = num + (lc + ws + lc2);
    let n = num.len() as int;
    let j = n + lc.len();
    let k = j + ws.len();
    assert(s.subrange(0, n) =~= num);
    assert(s.subrange(n, j) =~= lc);
    assert(s.subrange(k, s.len() as int) =~= lc2);
    assert forall|q: int| j <= q < k implies in_class(#[trigger] s[q], CharClass::Space) by {
        assert(s[q] == ws[q - j]);
    }
    assert(s[k] == lc2[0]);
    lemma_span_exact(s, 0, CharClass::NumChar, n);
    lemma_span_exact(s, n, CharClass::Lower, j);
    lemma_span_exact(s, j, CharClass::Space, k);
    lemma_span_exact(s, k, CharClass::Lower, s.len() as int);
}

proof fn lemma_words_run(s: Seq<char>, i: int, e: int, cur: Seq<char>)
    requires
        0 <= i <= e <= s.len(),
        forall|j: int| i <= j < e ==> !is_ws(#[trigger] s[j]),
    ensures
        words_from(s, i, cur) == words_from(s, e, cur + s.subrange(i, e)),
    decreases e - i,
{
    if i < e {
        lemma_words_run(s, i + 1, e, cur.push(s[i]));
        assert(cur.push(s[i]) + s.subrange(i + 1, e) =~= cur + s.subrange(i, e));
    } else {
        assert(cur + s.subrange(i, e) =~= cur);
    }
}

/// A word that is not whitespace, and the words after it.
proof fn lemma_words_cons(w: Seq<char>, rest: Seq<char>)
    requires
        w.len() >= 1,
        forall|j: int| 0 <= j < w.len() ==> !is_ws(#[trigger] w[j]),
        rest.len() >= 1 ==> is_ws(rest[0]),
    ensures
        words(w + rest) == seq![w] + if rest.len() >= 1 {
            words(rest.drop_first())
        } else {
            seq![]
        },
{
    let s = w + rest;
    let n = w.len() as int;
    assert forall|j: int| 0 <= j < n implies !is_ws(#[trigger] s[j]) by {
        assert(s[j] == w[j]);
    }
    lemma_words_run(s, 0, n, seq![]);
    assert(seq![] + s.subrange(0, n) =~= w);
    if rest.len() >= 1 {
        assert(s[n] == rest[0]);
        assert(s.subrange(n + 1, s.len() as int) =~= rest.drop_first());
        lemma_words_shift(s, n + 1, rest.drop_first());
        assert(pending(w) =~= seq![w]);
        assert(words_from(s, n + 1, seq![]) == words(rest.drop_first()));
    } else {
        assert(pending(w) =~= seq![w]);
        assert(seq![w] + Seq::<Seq<char>>::empty() =~= seq![w]);
    }
}

/// Reading words from `i` depends only on the text from `i` on.
proof fn lemma_words_shift(s: Seq<char>, i: int, t: Seq<char>)
    requires
        0 <= i <= s.len(),
        t == s.subrange(i, s.len() as int),
    ensures
        forall|cur: Seq<char>| #[trigger] words_from(s, i, cur) == words_from(t, 0, cur),
    decreases s.len() - i,
{
    assert forall|cur: Seq<char>| #[trigger] words_from(s, i, cur) == words_from(t, 0, cur) by {
        lemma_words_shift_at(s, i, t, 0, cur);
    }
}

proof fn lemma_words_shift_at(s: Seq<char>, i: int, t: Seq<char>, k: int, cur: Seq<char>)
    requires
        0 <= i <= s.len(),
        t == s.subrange(i, s.len() as int),
        0 <= k <= t.len(),
    ensures
        words_from(s, i + k, cur) == words_from(t, k, cur),
    decreases t.len() - k,
{
    if k < t.len() {
        assert(s[i + k] == t[k]);
        lemma_words_shift_at(s, i, t, k + 1, cur.push(t[k]));
        lemma_words_shift_at(s, i, t, k + 1, seq![]);
    }
}

/// The non-whitespace text `w` holds nothing that reads as a number when it
/// is letters other than `inf`, `infinity` and `nan`.
proof fn lemma_letters_not_number(w: Seq<char>)
    requires
        w.len() >= 1,
        forall|j: int| 0 <= j < w.len() ==> is_ascii_lower(#[trigger] w[j]),
        w != seq!['i', 'n', 'f'],
        w != seq!['i', 'n', 'f', 'i', 'n', 'i', 't', 'y'],
        w != seq!['n', 'a', 'n'],
    ensures
        !float_text(w),
        is_token_word(w),
{
    assert(strip_sign(w) == w);
    assert(ascii_lower(w) =~= w);
    assert(span(w, 0, CharClass::Digit) == 0);
}

/// A number, a code, the word `to` and a second code, separated by single
/// spaces, read word by word: the number, then both codes lowercased with
/// `to` kept between them.
pub proof fn lemma_spaced_query(num: Seq<char>, code: Seq<char>, code2: Seq<char>)
    requires
        num.len() >= 1,
        forall|j: int| 0 <= j < num.len() ==> is_ascii_digit(#[trigger] num[j]),
        code.len() >= 1,
        ascii_letters(code),
        code2.len() >= 1,
        ascii_letters(code2),
        ascii_lower(code) != seq!['i', 'n', 'f'],
        ascii_lower(code) != seq!['i', 'n', 'f', 'i', 'n', 'i', 't', 'y'],
        ascii_lower(code) != seq!['n', 'a', 'n'],
        ascii_lower(code2) != seq!['i', 'n', 'f'],
        ascii_lower(code2) != seq!['i', 'n', 'f', 'i', 'n', 'i', 't', 'y'],
        ascii_lower(code2) != seq!['n', 'a', 'n'],
    ensures
        parse_spec(
            ascii_lower(
                normalize(num + seq![' '] + code + seq![' ', 't', 'o', ' '] + code2),
            ),
        ) == (num, seq![ascii_lower(code), seq!['t', 'o'], ascii_lower(code2)]),
{
    let to = seq!['t', 'o'];
    let sp = seq![' '];
    let rest = sp + code + sp + to + sp + code2;
    assert(num + seq![' '] + code + seq![' ', 't', 'o', ' '] + code2 =~= num + rest);
    assert forall|j: int|
        0 <= j < num.len() implies in_class(#[trigger] num[j], CharClass::NumChar) by {}
    assert forall|j: int|
        0 <= j < rest.len() implies is_ascii_lower(#[trigger] rest[j])
        || crate::text::is_ascii_upper(rest[j]) || ascii_space(rest[j]) by {
        let a = 1 + code.len();
        if 1 <= j < a {
            assert(rest[j] == code[j - 1]);
        } else if j >= a + 4 {
            assert(rest[j] == code2[j - a - 4]);
        }
    }
    lemma_plain_text(num, rest);
    let lc = ascii_lower(code);
    let lc2 = ascii_lower(code2);
    assert(ascii_lower(rest) =~= sp + lc + sp + to + sp + lc2);
    let s = num + (sp + lc + sp + to + sp + lc2);
    // the compact form does not apply: a space follows the number
    let n = num.len() as int;
    assert forall|j: int| 0 <= j < n implies in_class(#[trigger] s[j], CharClass::NumChar) by {
        assert(s[j] == num[j]);
    }
    assert(s[n] == ' ');
    lemma_span_exact(s, 0, CharClass::NumChar, n);
    lemma_span_exact(s, n, CharClass::Lower, n);
    assert(compact_rule(s) is None);
    // the words
    let t3 = lc2;
    let t2 = to + sp + t3;
    let t1 = lc + sp + t2;
    assert(s =~= num + (sp + t1));
    assert(t1 =~= lc + (sp + t2));
    assert(t2 =~= to + (sp + t3));
    assert forall|j: int| 0 <= j < lc.len() implies is_ascii_lower(#[trigger] lc[j]) by {}
    assert forall|j: int| 0 <= j < lc2.len() implies is_ascii_lower(#[trigger] lc2[j]) by {}
    assert forall|j: int| 0 <= j < num.len() implies !is_ws(#[trigger] num[j]) by {}
    assert forall|j: int| 0 <= j < lc.len() implies !is_ws(#[trigger] lc[j]) by {}
    assert forall|j: int| 0 <= j < lc2.len() implies !is_ws(#[trigger] lc2[j]) by {}
    assert forall|j: int| 0 <= j < to.len() implies !is_ws(#[trigger] to[j]) by {}
    lemma_words_cons(num, sp + t1);
    assert((sp + t1).drop_first() =~= t1);
    lemma_words_cons(lc, sp + t2);
    assert((sp + t2).drop_first() =~= t2);
    lemma_words_cons(to, sp + t3);
    assert((sp + t3).drop_first() =~= t3);
    lemma_words_cons(lc2, seq![]);
    assert(lc2 + seq![] =~= lc2);
    let ws = words(s);
    assert(ws =~= seq![num, lc, to, lc2]);
    // the fallback
    assert(decimal_float(num)) by {
        assert(strip_sign(num) == num);
        lemma_span_exact(num, 0, CharClass::Digit, n);
    }
    assert(float_text(num));
    lemma_letters_not_number(lc);
    lemma_letters_not_number(lc2);
    lemma_letters_not_number(to);
    reveal_with_fuel(Seq::filter, 5);
    assert(ws.filter(|w: Seq<char>| is_amount_word(w)) =~= seq![num]);
    assert(ws.filter(|w: Seq<char>| is_token_word(w)) =~= seq![lc, to, lc2]);
}

} // verus!
