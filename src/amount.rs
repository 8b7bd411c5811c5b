use vstd::prelude::*;
use crate::model::MAX_RATE;
use crate::parser::{span, span_of, CharClass};
use crate::text::{chars_of, push_chars};

verus! {

/// Most digits an amount may hold after its decimal point.
pub const MAX_SCALE: u32 = 18;

/// A positive decimal amount: `mantissa / 10^scale`.
pub struct Amount {
    pub mantissa: u64,
    pub scale: u32,
}

impl Amount {
    pub open spec fn wf(&self) -> bool {
        self.scale <= MAX_SCALE
    }
}

pub open spec fn pow10(n: nat) -> nat
    decreases n,
{
    if n == 0 {
        1
    } else {
        10 * pow10((n - 1) as nat)
    }
}

pub open spec fn digit_value(c: char) -> nat {
    (c as int - 48) as nat
}

/// The number that a string of decimal digits denotes.
pub open spec fn digits_value(ds: Seq<char>) -> nat
    decreases ds.len(),
{
    if ds.len() == 0 {
        0
    } else {
        digits_value(ds.drop_last()) * 10 + digit_value(ds.last())
    }
}

/// The integer and fraction digits of a plain decimal: digits, or digits, a
/// point and digits, with at least one digit in all.
pub open spec fn plain_split(b: Seq<char>) -> Option<(Seq<char>, Seq<char>)> {
    let n = span(b, 0, CharClass::Digit);
    if n == b.len() {
        if n >= 1 {
            Some((b, Seq::<char>::empty()))
        } else {
            None
        }
    } else if b[n] == '.' {
        let f = span(b, n + 1, CharClass::Digit);
        if n + 1 + f == b.len() && n + f >= 1 {
            Some((b.subrange(0, n), b.subrange(n + 1, b.len() as int)))
        } else {
            None
        }
    } else {
        None
    }
}

pub open spec fn strip_plus(t: Seq<char>) -> Seq<char> {
    if t.len() > 0 && t[0] == '+' {
        t.subrange(1, t.len() as int)
    } else {
        t
    }
}

/// The exponent written from position `n` of `b` to its end: none (zero),
/// or `e` or `E`, an optional sign and digits.
pub open spec fn exp_part(b: Seq<char>, n: int) -> Option<int> {
    if n == b.len() {
        Some(0)
    } else if 0 <= n < b.len() && (b[n] == 'e' || b[n] == 'E') {
        let j = if n + 1 < b.len() && (b[n + 1] == '+' || b[n + 1] == '-') {
            n + 2
        } else {
            n + 1
        };
        let d = span(b, j, CharClass::Digit);
        if d >= 1 && j + d == b.len() {
            let v = digits_value(b.subrange(j, b.len() as int)) as int;
            Some(
                if b[j - 1] == '-' {
                    -v
                } else {
                    v
                },
            )
        } else {
            None
        }
    } else {
        None
    }
}

/// The integer digits, fraction digits and exponent of a decimal number
/// with an optional `+` and an optional exponent.
pub open spec fn amount_parts(t: Seq<char>) -> Option<(Seq<char>, Seq<char>, int)> {
    let b = strip_plus(t);
    let n = span(b, 0, CharClass::NumChar);
    match plain_split(b.subrange(0, n)) {
        None => None,
        Some(p) => match exp_part(b, n) {
            None => None,
            Some(e) => Some((p.0, p.1, e)),
        },
    }
}

/// The positive amount that `t` denotes, as (mantissa, scale), when its
/// exponent is at most `u64::MAX` in size and the amount fits.
pub open spec fn amount_spec(t: Seq<char>) -> Option<(nat, nat)> {
    match amount_parts(t) {
        None => None,
        Some(p) => {
            let m = digits_value(p.0 + p.1);
            let x = p.2 - p.1.len();
            if p.2 > u64::MAX || p.2 < -(u64::MAX as int) {
                None
            } else if x >= 0 {
                let v = m * pow10(x as nat);
                if 0 < v <= u64::MAX {
                    Some((v, 0))
                } else {
                    None
                }
            } else if 0 < m <= u64::MAX && -x <= MAX_SCALE {
                Some((m, (-x) as nat))
            } else {
                None
            }
        },
    }
}

proof fn lemma_digits_prefix(s: Seq<char>, i: int)
    requires
        0 <= i <= s.len(),
    ensures
        digits_value(s.subrange(0, i)) <= digits_value(s),
    decreases s.len(),
{
    if i < s.len() {
        assert(s.drop_last().subrange(0, i) =~= s.subrange(0, i));
        lemma_digits_prefix(s.drop_last(), i);
    } else {
        assert(s.subrange(0, i) =~= s);
    }
}

fn split_plain(b: &Vec<char>) -> (r: Option<(Vec<char>, usize)>)
    ensures
        match plain_split(b@) {
            Some(parts) => r matches Some(x) && x.0@ == parts.0 + parts.1 && x.1 == parts.1.len(),
            None => r is None,
        },
        r matches Some(x) ==> forall|j: int|
            0 <= j < x.0@.len() ==> crate::text::is_ascii_digit(#[trigger] x.0@[j]),
{
    let blen = b.len();
    let n = span_of(&b, 0, CharClass::Digit);
    let mut ds: Vec<char> = Vec::new();
    let mut k: usize = 0;
    while k < n
        invariant
            k <= n <= blen,
            blen == b@.len(),
            ds@ == b@.subrange(0, k as int),
        decreases n - k,
    {
        ds.push(b[k]);
        k = k + 1;
        assert(ds@ =~= b@.subrange(0, k as int));
    }
    let scale: usize;
    if n == blen {
        if n == 0 {
            return None;
        }
        scale = 0;
        assert(b@.subrange(0, n as int) =~= b@);
        assert(ds@ =~= b@ + Seq::<char>::empty());
    } else if b[n] == '.' {
        let f = span_of(&b, n + 1, CharClass::Digit);
        if !(n + 1 + f == blen && n + f >= 1) {
            return None;
        }
        let mut k2: usize = n + 1;
        while k2 < blen
            invariant
                n + 1 <= k2 <= blen,
                blen == b@.len(),
                ds@ == b@.subrange(0, n as int) + b@.subrange(n + 1, k2 as int),
            decreases blen - k2,
        {
            ds.push(b[k2]);
            k2 = k2 + 1;
            assert(ds@ =~= b@.subrange(0, n as int) + b@.subrange(n + 1, k2 as int));
        }
        scale = f;
        assert forall|j: int| 0 <= j < ds@.len() implies crate::text::is_ascii_digit(
            #[trigger] ds@[j],
        ) by {
            if j < n {
                lemma_span_all(b@, 0, CharClass::Digit, j);
            } else {
                lemma_span_all(b@, n + 1, CharClass::Digit, j + 1);
            }
        }
        return Some((ds, scale));
    } else {
        return None;
    }
    assert forall|j: int| 0 <= j < ds@.len() implies crate::text::is_ascii_digit(
        #[trigger] ds@[j],
    ) by {
        lemma_span_all(b@, 0, CharClass::Digit, j);
    }
    Some((ds, scale))
}

/// The value of a string of decimal digits, when it fits in a `u64`.
fn digits_to_u64(ds: &Vec<char>) -> (r: Option<u64>)
    requires
        forall|j: int| 0 <= j < ds@.len() ==> crate::text::is_ascii_digit(#[trigger] ds@[j]),
    ensures
        match r {
            Some(v) => v == digits_value(ds@),
            None => digits_value(ds@) > u64::MAX,
        },
{
    let mut acc: u64 = 0;
    let mut q: usize = 0;
    while q < ds.len()
        invariant
            q <= ds@.len(),
            acc == digits_value(ds@.subrange(0, q as int)),
            forall|j: int| 0 <= j < ds@.len() ==> crate::text::is_ascii_digit(#[trigger] ds@[j]),
        decreases ds@.len() - q,
    {
        let d = (ds[q] as u32 - '0' as u32) as u64;
        assert(ds@.subrange(0, q + 1).drop_last() =~= ds@.subrange(0, q as int));
        if acc > (u64::MAX - d) / 10 {
            proof {
                let mx = u64::MAX as int;
                assert(acc as int * 10 + d > mx) by (nonlinear_arith)
                    requires
                        acc as int > (mx - d as int) / 10,
                        0 <= d as int <= 9,
                ;
                lemma_digits_prefix(ds@, q + 1);
            }
            return None;
        }
        acc = acc * 10 + d;
        q = q + 1;
    }
    assert(ds@.subrange(0, ds@.len() as int) =~= ds@);
    Some(acc)
}

fn strip_plus_exec(text: &str) -> (b: Vec<char>)
    ensures
        b@ == strip_plus(text@),
{
    let t = chars_of(text);
    let len = t.len();
    let start: usize = if len > 0 && t[0] == '+' {
        1
    } else {
        0
    };
    let mut b: Vec<char> = Vec::new();
    let mut i = start;
    while i < len
        invariant
            start <= i <= len,
            len == t@.len(),
            b@ == t@.subrange(start as int, i as int),
        decreases len - i,
    {
        b.push(t[i]);
        i = i + 1;
        assert(b@ =~= t@.subrange(start as int, i as int));
    }
    if start == 0 {
        assert(b@ =~= t@);
    }
    b
}

/// Reads the exponent from position `n` of `b`: its sign, and its size when
/// that fits in a `u64`.
fn read_exponent(b: &Vec<char>, n: usize) -> (r: Option<(bool, Option<u64>)>)
    requires
        n <= b@.len(),
    ensures
        match exp_part(b@, n as int) {
            None => r is None,
            Some(e) => r matches Some(x) && match x.1 {
                Some(v) => e == if x.0 {
                    -(v as int)
                } else {
                    v as int
                },
                None => e > u64::MAX || e < -(u64::MAX as int),
            },
        },
{
    let len = b.len();
    if n == len {
        return Some((false, Some(0)));
    }
    if !(b[n] == 'e' || b[n] == 'E') {
        return None;
    }
    let j = if n + 1 < len && (b[n + 1] == '+' || b[n + 1] == '-') {
        n + 2
    } else {
        n + 1
    };
    let d = span_of(b, j, CharClass::Digit);
    if !(d >= 1 && j + d == len) {
        return None;
    }
    let neg = b[j - 1] == '-';
    let ds = crate::parser::sub_vec(b, j, len);
    assert forall|k: int| 0 <= k < ds@.len() implies crate::text::is_ascii_digit(
        #[trigger] ds@[k],
    ) by {
        lemma_span_all(b@, j as int, CharClass::Digit, j + k);
    }
    Some((neg, digits_to_u64(&ds)))
}

proof fn lemma_pow10_large(x: nat)
    requires
        x >= 20,
    ensures
        pow10(x) > u64::MAX,
{
    reveal_with_fuel(pow10, 21);
    assert(pow10(20) == 100_000_000_000_000_000_000);
    lemma_pow10_mono(20, x);
}

/// `m * 10^x`, when it fits in a `u64`.
fn scale_up(m: u64, x: u64) -> (r: Option<u64>)
    requires
        m >= 1,
    ensures
        match r {
            Some(v) => v == m * pow10(x as nat),
            None => m * pow10(x as nat) > u64::MAX,
        },
{
    if x >= 20 {
        proof {
            lemma_pow10_large(x as nat);
            assert(m * pow10(x as nat) >= pow10(x as nat)) by (nonlinear_arith)
                requires
                    m >= 1,
            ;
        }
        return None;
    }
    let mut acc = m;
    let mut i: u64 = 0;
    assert(pow10(0) == 1);
    assert(acc == m * pow10(0)) by (nonlinear_arith)
        requires
            acc == m,
            pow10(0) == 1,
    ;
    while i < x
        invariant
            i <= x,
            m >= 1,
            acc == m * pow10(i as nat),
        decreases x - i,
    {
        if acc > u64::MAX / 10 {
            proof {
                lemma_pow10_mono((i + 1) as nat, x as nat);
                let big = m * pow10(x as nat);
                assert(big >= m * pow10((i + 1) as nat)) by (nonlinear_arith)
                    requires
                        pow10(x as nat) >= pow10((i + 1) as nat),
                        m >= 1,
                        big == m * pow10(x as nat),
                ;
                assert(m * pow10((i + 1) as nat) == acc * 10) by (nonlinear_arith)
                    requires
                        pow10((i + 1) as nat) == 10 * pow10(i as nat),
                        acc == m * pow10(i as nat),
                ;
            }
            return None;
        }
        proof {
            assert(m * pow10((i + 1) as nat) == acc * 10) by (nonlinear_arith)
                requires
                    pow10((i + 1) as nat) == 10 * pow10(i as nat),
                    acc == m * pow10(i as nat),
            ;
        }
        acc = acc * 10;
        i = i + 1;
    }
    Some(acc)
}

/// Reads a query's amount text as a positive decimal: an optional `+`, then
/// digits with an optional fraction and an optional exponent; `None` for
/// anything else, for zero, and for an amount that does not fit.
pub fn parse_amount(text: &str) -> (r: Option<Amount>)
    ensures
        match amount_spec(text@) {
            Some(v) => r matches Some(a) && a.mantissa == v.0 && a.scale == v.1 && a.wf(),
            None => r is None,
        },
{
    let b = strip_plus_exec(text);
    let n = span_of(&b, 0, CharClass::NumChar);
    let head = crate::parser::sub_vec(&b, 0, n);
    let (ds, flen) = match split_plain(&head) {
        None => return None,
        Some(x) => x,
    };
    let (neg, mag) = match read_exponent(&b, n) {
        None => return None,
        Some(x) => x,
    };
    let e = match mag {
        None => return None,
        Some(e) => e,
    };
    let m = match digits_to_u64(&ds) {
        None => {
            proof {
                let big = digits_value(ds@);
                let x = (if neg {
                    -(e as int)
                } else {
                    e as int
                }) - flen as int;
                if x >= 0 {
                    let q = pow10(x as nat);
                    lemma_pow10_mono(0, x as nat);
                    assert(big * q >= big) by (nonlinear_arith)
                        requires
                            q >= 1,
                    ;
                }
            }
            return None;
        },
        Some(m) => m,
    };
    if m == 0 {
        proof {
            let x = (if neg {
                -(e as int)
            } else {
                e as int
            }) - flen as int;
            if x >= 0 {
                let q = pow10(x as nat);
                assert(0 * q == 0) by (nonlinear_arith);
            }
        }
        return None;
    }
    let ghost ei: int = if neg {
        -(e as int)
    } else {
        e as int
    };
    let ghost pp = plain_split(head@)->0;
    assert(exp_part(b@, n as int) == Some(ei));
    assert(amount_parts(text@) == Some((pp.0, pp.1, ei)));
    assert(digits_value(pp.0 + pp.1) == m);
    assert(pp.1.len() == flen);
    assert(pow10(0) == 1);
    assert(m * pow10(0) == m) by (nonlinear_arith)
        requires
            pow10(0) == 1,
    ;
    if neg {
        let scale = flen as u128 + e as u128;
        if scale > MAX_SCALE as u128 {
            return None;
        }
        assert(amount_spec(text@) == Some((m as nat, scale as nat)));
        Some(Amount { mantissa: m, scale: scale as u32 })
    } else if e as u128 >= flen as u128 {
        let x = (e as u128 - flen as u128) as u64;
        assert(x == ei - pp.1.len());
        match scale_up(m, x) {
            None => None,
            Some(v) => {
                proof {
                    let q = pow10(x as nat);
                    lemma_pow10_mono(0, x as nat);
                    assert(m * q >= 1) by (nonlinear_arith)
                        requires
                            m >= 1,
                            q >= 1,
                    ;
                }
                Some(Amount { mantissa: v, scale: 0 })
            },
        }
    } else {
        let scale = flen as u128 - e as u128;
        if scale > MAX_SCALE as u128 {
            return None;
        }
        assert(amount_spec(text@) == Some((m as nat, scale as nat)));
        Some(Amount { mantissa: m, scale: scale as u32 })
    }
}

proof fn lemma_span_all(s: Seq<char>, i: int, k: CharClass, j: int)
    requires
        0 <= i <= j < i + span(s, i, k),
    ensures
        crate::parser::in_class(s[j], k),
    decreases j - i,
{
    if j > i {
        lemma_span_all(s, i + 1, k, j);
    }
}


/// `n / d` rounded half up.
pub open spec fn round_div(n: nat, d: nat) -> nat {
    (2 * n + d) / (2 * d)
}

/// Hundredths of `m / 10^k` units of a currency of rate `src`, converted to
/// a currency of rate `dst` and rounded half up.
pub open spec fn converted_cents(m: nat, k: nat, src: nat, dst: nat) -> nat {
    round_div(m * dst * 100, pow10(k) * src)
}

pub open spec fn digit_char(d: nat) -> char {
    ((d + 48) as u8) as char
}

/// The decimal digits of `n`, without leading zeros.
pub open spec fn digits_of(n: nat) -> Seq<char>
    decreases n,
{
    if n < 10 {
        seq![digit_char(n)]
    } else {
        digits_of(n / 10).push(digit_char(n % 10))
    }
}

/// The last `k` decimal digits of `n`, and what is left above them.
pub open spec fn split_low(n: nat, k: nat) -> (nat, Seq<char>)
    decreases k,
{
    if k == 0 {
        (n, seq![])
    } else {
        let (q, s) = split_low(n / 10, (k - 1) as nat);
        (q, s.push(digit_char(n % 10)))
    }
}

/// `m / 10^k` with the fraction's trailing zeros dropped.
pub open spec fn trimmed(m: nat, k: nat) -> (nat, nat)
    decreases k,
{
    if k > 0 && m % 10 == 0 {
        trimmed(m / 10, (k - 1) as nat)
    } else {
        (m, k)
    }
}

/// `m / 10^k` written out in the shortest way: integer digits, then a point
/// and the fraction digits when the fraction is not zero.
pub open spec fn decimal_text(m: nat, k: nat) -> Seq<char> {
    let (m2, k2) = trimmed(m, k);
    if k2 == 0 {
        digits_of(m2)
    } else {
        let (q, low) = split_low(m2, k2);
        digits_of(q) + seq!['.'] + low
    }
}

/// How an amount is written.
pub open spec fn amount_text(a: Amount) -> Seq<char> {
    decimal_text(a.mantissa as nat, a.scale as nat)
}

/// How a converted amount, in hundredths, is written.
pub open spec fn cents_text(c: nat) -> Seq<char> {
    decimal_text(c, 2)
}

fn digit_of(d: u128) -> (r: char)
    requires
        d < 10,
    ensures
        r == digit_char(d as nat),
{
    ((d as u8) + 48) as char
}

/// Writes `m / 10^k` in the shortest way.
pub fn render_decimal(m: u128, k: u32) -> (r: Vec<char>)
    ensures
        r@ == decimal_text(m as nat, k as nat),
{
    let mut m2 = m;
    let mut k2 = k;
    while k2 > 0 && m2 % 10 == 0
        invariant
            trimmed(m2 as nat, k2 as nat) == trimmed(m as nat, k as nat),
        decreases k2,
    {
        m2 = m2 / 10;
        k2 = k2 - 1;
    }
    let mut cur = m2;
    let mut low: Vec<char> = Vec::new();
    let mut j = k2;
    while j > 0
        invariant
            split_low(m2 as nat, k2 as nat) == (split_low(cur as nat, j as nat).0, split_low(
                cur as nat,
                j as nat,
            ).1 + low@),
        decreases j,
    {
        let ghost before = low@;
        low.insert(0, digit_of(cur % 10));
        proof {
            let (q, s) = split_low((cur / 10) as nat, (j - 1) as nat);
            assert(s.push(digit_char((cur % 10) as nat)) + before =~= s + low@);
        }
        cur = cur / 10;
        j = j - 1;
    }
    assert(split_low(cur as nat, 0).1 + low@ =~= low@);
    let mut c = cur;
    let mut high: Vec<char> = Vec::new();
    while c >= 10
        invariant
            digits_of(cur as nat) == digits_of(c as nat) + high@,
        decreases c,
    {
        let ghost before = high@;
        high.insert(0, digit_of(c % 10));
        assert(digits_of((c / 10) as nat).push(digit_char((c % 10) as nat)) + before
            =~= digits_of((c / 10) as nat) + high@);
        c = c / 10;
    }
    high.insert(0, digit_of(c));
    assert(high@ =~= digits_of(cur as nat));
    if k2 == 0 {
        assert(cur == m2);
        high
    } else {
        high.push('.');
        push_chars(&mut high, &low);
        high
    }
}

proof fn lemma_pow10_mono(i: nat, j: nat)
    requires
        i <= j,
    ensures
        1 <= pow10(i) <= pow10(j),
    decreases j,
{
    if i < j {
        lemma_pow10_mono(i, (j - 1) as nat);
    } else if i > 0 {
        lemma_pow10_mono((i - 1) as nat, (i - 1) as nat);
    }
}

fn pow10_exec(k: u32) -> (r: u128)
    requires
        k <= MAX_SCALE,
    ensures
        r == pow10(k as nat),
        1 <= r <= 1_000_000_000_000_000_000,
{
    proof {
        reveal_with_fuel(pow10, 19);
        assert(pow10(18) == 1_000_000_000_000_000_000);
    }
    let mut p: u128 = 1;
    let mut i: u32 = 0;
    while i < k
        invariant
            i <= k <= MAX_SCALE,
            p == pow10(i as nat),
            pow10(18) == 1_000_000_000_000_000_000,
        decreases k - i,
    {
        proof {
            lemma_pow10_mono((i + 1) as nat, 18);
        }
        p = p * 10;
        i = i + 1;
    }
    proof {
        lemma_pow10_mono(k as nat, 18);
    }
    p
}

/// Hundredths of `a` in a currency of rate `src_rate`, converted to one of
/// rate `dst_rate`, rounded half up.
pub fn convert_cents(a: &Amount, src_rate: u64, dst_rate: u64) -> (r: u128)
    requires
        a.wf(),
        0 < src_rate <= MAX_RATE,
        dst_rate <= MAX_RATE,
    ensures
        r == converted_cents(a.mantissa as nat, a.scale as nat, src_rate as nat, dst_rate as nat),
{
    let p = pow10_exec(a.scale);
    let m = a.mantissa as u128;
    let dst = dst_rate as u128;
    let src = src_rate as u128;
    proof {
        let mx = MAX_RATE as int;
        assert(m * dst <= 0x1_0000_0000_0000_0000 * mx) by (nonlinear_arith)
            requires
                m < 0x1_0000_0000_0000_0000,
                dst <= mx,
        ;
        assert(p * src <= 1_000_000_000_000_000_000 * mx) by (nonlinear_arith)
            requires
                p <= 1_000_000_000_000_000_000,
                src <= mx,
        ;
        assert(p * src >= 1) by (nonlinear_arith)
            requires
                p >= 1,
                src >= 1,
        ;
    }
    let num = m * dst * 100;
    let den = p * src;
    (2 * num + den) / (2 * den)
}

/// Converting an amount from a currency into one of equal or higher rate
/// and the rounded result back gives the amount again within a hundredth:
/// `|c2 / 100 - m / 10^k| <= 1 / 100`.
pub proof fn lemma_round_trip(m: nat, k: nat, x: nat, y: nat)
    requires
        0 < x <= y,
    ensures
        ({
            let c1 = converted_cents(m, k, x, y);
            let c2 = converted_cents(c1, 2, y, x);
            -(pow10(k) as int) <= c2 * pow10(k) - 100 * m <= pow10(k)
        }),
{
    lemma_pow10_mono(0, k);
    reveal_with_fuel(pow10, 3);
    let p = pow10(k) as int;
    let c1 = converted_cents(m, k, x, y) as int;
    let c2 = converted_cents(c1 as nat, 2, y, x) as int;
    let (mi, xi, yi) = (m as int, x as int, y as int);
    // c1 = floor((200 m y + p x) / (2 p x))
    let d1 = 2 * (p * xi);
    let n1 = 2 * (mi * yi * 100) + p * xi;
    assert(d1 > 0) by (nonlinear_arith)
        requires
            p >= 1,
            xi >= 1,
            d1 == 2 * (p * xi),
    ;
    vstd::arithmetic::div_mod::lemma_fundamental_div_mod(n1, d1);
    vstd::arithmetic::div_mod::lemma_mod_bound(n1, d1);
    assert(c1 == n1 / d1);
    // c2 = floor((200 c1 x + 100 y) / (200 y))
    let d2 = 2 * (100 * yi);
    let n2 = 2 * (c1 * xi * 100) + 100 * yi;
    vstd::arithmetic::div_mod::lemma_fundamental_div_mod(n2, d2);
    vstd::arithmetic::div_mod::lemma_mod_bound(n2, d2);
    assert(c2 == n2 / d2);
    assert(-p <= c2 * p - 100 * mi <= p) by (nonlinear_arith)
        requires
            d1 * c1 <= n1 < d1 * c1 + d1,
            d2 * c2 <= n2 < d2 * c2 + d2,
            d1 == 2 * (p * xi),
            n1 == 2 * (mi * yi * 100) + p * xi,
            d2 == 2 * (100 * yi),
            n2 == 2 * (c1 * xi * 100) + 100 * yi,
            p >= 1,
            1 <= xi <= yi,
    ;
}

} // verus!
