//! Number literals: `[+-]? (digits ('.' digits?)? | '.' digits) ([eE] [+-]? digits)?`,
//! read into an exact decimal `Number`: its significant digits, without
//! leading or trailing zeros, and its exponent.
use vstd::prelude::*;
use crate::ast::{Number, NumberV};
use crate::lexer::{is_digit, skip_digits, skip_digits_exec, lemma_skip_digits_bounds};

verus! {

/// The value of a run of decimal digits.
pub open spec fn digits_value(d: Seq<u8>) -> nat
    decreases d.len(),
{
    if d.len() == 0 {
        0
    } else {
        digits_value(d.drop_last()) * 10 + (d.last() - 48) as nat
    }
}

/// The position of the first digit at or after `k` that is not `0`.
pub open spec fn skip_zeros(d: Seq<u8>, k: int) -> int
    decreases d.len() - k,
{
    if 0 <= k < d.len() && d[k] == 48 {
        skip_zeros(d, k + 1)
    } else {
        k
    }
}

/// The end of `d[..k]` once its trailing `0` digits are dropped.
pub open spec fn drop_zeros(d: Seq<u8>, k: int) -> int
    decreases k,
{
    if 0 < k <= d.len() && d[k - 1] == 48 {
        drop_zeros(d, k - 1)
    } else {
        k
    }
}

/// The normalised literal whose significant digits are `sig` (leading and
/// trailing zeros included) and whose value is `sig * 10^scale`.
pub open spec fn normal(negative: bool, sig: Seq<u8>, scale: int) -> NumberV {
    let p = skip_zeros(sig, 0);
    if p >= sig.len() {
        NumberV { negative, digits: seq![], exponent: 0 }
    } else {
        let q = drop_zeros(sig, sig.len() as int);
        NumberV { negative, digits: sig.subrange(p, q), exponent: (scale + (sig.len() - q)) as i128 }
    }
}

/// Length of an optional sign at `i`.
pub open spec fn sign_len(s: Seq<u8>, i: int) -> int {
    if 0 <= i < s.len() && (s[i] == 43 || s[i] == 45) {
        1
    } else {
        0
    }
}

/// Where the digits of a literal at `i` lie: the integer digits `[a, b)`,
/// the fraction digits `[c, d)`, and the position `k` after the mantissa.
pub open spec fn mantissa_shape(s: Seq<u8>, i: int) -> Option<(int, int, int, int, int)> {
    let j = i + sign_len(s, i);
    let d1 = skip_digits(s, j);
    if d1 > j {
        if d1 < s.len() && s[d1] == 46 {
            let f = skip_digits(s, d1 + 1);
            Some((j, d1, d1 + 1, f, f))
        } else {
            Some((j, d1, d1, d1, d1))
        }
    } else if j < s.len() && s[j] == 46 && skip_digits(s, j + 1) > j + 1 {
        let f = skip_digits(s, j + 1);
        Some((j, j, j + 1, f, f))
    } else {
        None
    }
}

/// The exponent part at `k`: `None` when an exponent marker is not followed
/// by digits, else whether it is negative, its digits `[m, e)`, and the end.
pub open spec fn exponent_shape(s: Seq<u8>, k: int) -> Option<(bool, int, int, int)> {
    if 0 <= k < s.len() && (s[k] == 101 || s[k] == 69) {
        let m = k + 1 + sign_len(s, k + 1);
        let e = skip_digits(s, m);
        if e > m {
            Some((sign_len(s, k + 1) == 1 && s[k + 1] == 45, m, e, e))
        } else {
            None
        }
    } else {
        Some((false, k, k, k))
    }
}

/// The number literal at `i`, if there is one whose written exponent fits in
/// `u64`, and the position after it.
pub open spec fn number_literal(s: Seq<u8>, i: int) -> Option<(NumberV, int)> {
    match mantissa_shape(s, i) {
        None => None,
        Some((a, b, c, d, k)) => match exponent_shape(s, k) {
            None => None,
            Some((eneg, m, e, end)) => {
                let ev = digits_value(s.subrange(m, e));
                let scale = (if eneg { -ev } else { ev as int }) - (d - c);
                if ev <= u64::MAX {
                    Some((normal(0 <= i < s.len() && s[i] == 45, s.subrange(a, b) + s.subrange(c, d), scale), end))
                } else {
                    None
                }
            },
        },
    }
}

proof fn lemma_digits_value_push(g: Seq<u8>, x: u8)
    ensures
        digits_value(g.push(x)) == digits_value(g) * 10 + (x - 48) as nat,
{
    assert(g.push(x).drop_last() =~= g);
}

proof fn lemma_digits_value_grows(g: Seq<u8>, t: Seq<u8>)
    ensures
        digits_value(g + t) >= digits_value(g),
    decreases t.len(),
{
    if t.len() > 0 {
        lemma_digits_value_grows(g, t.drop_last());
        assert((g + t).drop_last() =~= g + t.drop_last());
    } else {
        assert(g + t =~= g);
    }
}

/// Folds the digits `s[from..to]` into `m0`, the value of the digits `g0`;
/// `None` when the value of `g0` followed by those digits exceeds `u64`.
fn fold_digits(s: &[u8], from: usize, to: usize, m0: u64, Ghost(g0): Ghost<Seq<u8>>) -> (r: Option<u64>)
    requires
        from <= to <= s@.len(),
        forall|k: int| from <= k < to ==> is_digit(#[trigger] s@[k]),
        m0 == digits_value(g0),
    ensures
        digits_value(g0 + s@.subrange(from as int, to as int)) <= u64::MAX <==> r is Some,
        r matches Some(v) ==> v == digits_value(g0 + s@.subrange(from as int, to as int)),
{
    let mut m = m0;
    let mut k = from;
    while k < to
        invariant
            from <= k <= to <= s@.len(),
            forall|q: int| from <= q < to ==> is_digit(#[trigger] s@[q]),
            m == digits_value(g0 + s@.subrange(from as int, k as int)),
        decreases to - k,
    {
        let ghost g = g0 + s@.subrange(from as int, k as int);
        proof {
            assert(g0 + s@.subrange(from as int, k + 1) =~= g.push(s@[k as int]));
            lemma_digits_value_push(g, s@[k as int]);
        }
        let d = (s[k] - 48) as u64;
        match m.checked_mul(10) {
            Some(t) => match t.checked_add(d) {
                Some(n) => {
                    m = n;
                },
                None => {
                    proof {
                        assert(g0 + s@.subrange(from as int, to as int) =~= g.push(s@[k as int])
                            + s@.subrange(k + 1, to as int));
                        lemma_digits_value_grows(g.push(s@[k as int]), s@.subrange(k + 1, to as int));
                    }
                    return None;
                },
            },
            None => {
                proof {
                    assert(g0 + s@.subrange(from as int, to as int) =~= g.push(s@[k as int])
                        + s@.subrange(k + 1, to as int));
                    lemma_digits_value_grows(g.push(s@[k as int]), s@.subrange(k + 1, to as int));
                }
                return None;
            },
        }
        k = k + 1;
    }
    Some(m)
}

/// The normalised literal of the digits `s[a..b]` followed by `s[c..d]`.
fn normal_exec(negative: bool, s: &[u8], a: usize, b: usize, c: usize, d: usize, scale: i128) -> (r: Number)
    requires
        a <= b <= c <= d <= s@.len(),
        -0x1_0000_0000_0000_0000_0000 <= scale <= 0x1_0000_0000_0000_0000_0000,
        d - c <= 0x1_0000_0000_0000_0000,
        b - a <= 0x1_0000_0000_0000_0000,
    ensures
        r@ == normal(negative, s@.subrange(a as int, b as int) + s@.subrange(c as int, d as int), scale as int),
{
    let ghost g = s@.subrange(a as int, b as int) + s@.subrange(c as int, d as int);
    let mut sig: Vec<u8> = Vec::new();
    let mut k = a;
    while k < b
        invariant
            a <= k <= b <= s@.len(),
            sig@ == s@.subrange(a as int, k as int),
        decreases b - k,
    {
        sig.push(s[k]);
        proof {
            assert(sig@ =~= s@.subrange(a as int, k + 1));
        }
        k = k + 1;
    }
    let mut k = c;
    while k < d
        invariant
            c <= k <= d <= s@.len(),
            sig@ == s@.subrange(a as int, b as int) + s@.subrange(c as int, k as int),
        decreases d - k,
    {
        sig.push(s[k]);
        proof {
            assert(sig@ =~= s@.subrange(a as int, b as int) + s@.subrange(c as int, k + 1));
        }
        k = k + 1;
    }
    assert(sig@ == g);
    let mut p: usize = 0;
    while p < sig.len() && sig[p] == 48
        invariant
            p <= sig@.len(),
            skip_zeros(sig@, p as int) == skip_zeros(sig@, 0),
        decreases sig@.len() - p,
    {
        p = p + 1;
    }
    if p >= sig.len() {
        return Number { negative, digits: Vec::new(), exponent: 0 };
    }
    let mut q: usize = sig.len();
    while q > 0 && sig[q - 1] == 48
        invariant
            q <= sig@.len(),
            drop_zeros(sig@, q as int) == drop_zeros(sig@, sig@.len() as int),
        decreases q,
    {
        q = q - 1;
    }
    proof {
        lemma_zeros_bounds(sig@, p as int, q as int);
    }
    let mut digits: Vec<u8> = Vec::new();
    let mut k = p;
    while k < q
        invariant
            p <= k <= q <= sig@.len(),
            digits@ == sig@.subrange(p as int, k as int),
        decreases q - k,
    {
        digits.push(sig[k]);
        proof {
            assert(digits@ =~= sig@.subrange(p as int, k + 1));
        }
        k = k + 1;
    }
    Number { negative, digits, exponent: scale + ((sig.len() - q) as i128) }
}

/// Where the zeros stop: the last non-zero digit lies at or after the first.
proof fn lemma_zeros_bounds(d: Seq<u8>, p: int, q: int)
    requires
        0 <= p < d.len(),
        d[p] != 48,
        q <= d.len(),
        q == 0 || d[q - 1] != 48,
        drop_zeros(d, q) == drop_zeros(d, d.len() as int),
    ensures
        p < q,
{
    lemma_drop_zeros_past(d, d.len() as int, p);
}

proof fn lemma_drop_zeros_past(d: Seq<u8>, k: int, p: int)
    requires
        0 <= p < k <= d.len(),
        d[p] != 48,
    ensures
        drop_zeros(d, k) > p,
    decreases k,
{
    if d[k - 1] == 48 {
        lemma_drop_zeros_past(d, k - 1, p);
    }
}

fn mantissa_shape_exec(s: &[u8], i: usize) -> (r: Option<(usize, usize, usize, usize, usize)>)
    requires
        i <= s@.len(),
    ensures
        mantissa_shape(s@, i as int) is None <==> r is None,
        r matches Some((a, b, c, d, k)) ==> mantissa_shape(s@, i as int) == Some(
            (a as int, b as int, c as int, d as int, k as int),
        ) && i <= a <= b <= c <= d == k <= s@.len() && i < k && (forall|q: int|
            a <= q < b ==> is_digit(#[trigger] s@[q])) && (forall|q: int|
            c <= q < d ==> is_digit(#[trigger] s@[q])),
{
    proof {
        lemma_skip_digits_bounds(s@, i as int);
        if i < s@.len() {
            lemma_skip_digits_bounds(s@, i + 1);
        }
    }
    let j = if i < s.len() && (s[i] == 43 || s[i] == 45) { i + 1 } else { i };
    let d1 = skip_digits_exec(s, j);
    if d1 > j {
        if d1 < s.len() && s[d1] == 46 {
            let f = skip_digits_exec(s, d1 + 1);
            proof {
                lemma_skip_digits_bounds(s@, d1 + 1);
            }
            Some((j, d1, d1 + 1, f, f))
        } else {
            Some((j, d1, d1, d1, d1))
        }
    } else if j < s.len() && s[j] == 46 && skip_digits_exec(s, j + 1) > j + 1 {
        let f = skip_digits_exec(s, j + 1);
        proof {
            lemma_skip_digits_bounds(s@, j + 1);
        }
        Some((j, j, j + 1, f, f))
    } else {
        None
    }
}

fn exponent_shape_exec(s: &[u8], k: usize) -> (r: Option<(bool, usize, usize, usize)>)
    requires
        k <= s@.len(),
    ensures
        exponent_shape(s@, k as int) is None <==> r is None,
        r matches Some((n, m, e, end)) ==> exponent_shape(s@, k as int) == Some(
            (n, m as int, e as int, end as int),
        ) && k <= m <= e == end <= s@.len() && (forall|q: int|
            m <= q < e ==> is_digit(#[trigger] s@[q])),
{
    if k < s.len() && (s[k] == 101 || s[k] == 69) {
        let (sl, neg) = if k + 1 < s.len() && (s[k + 1] == 43 || s[k + 1] == 45) {
            (1, s[k + 1] == 45)
        } else {
            (0, false)
        };
        let m = k + 1 + sl;
        let e = skip_digits_exec(s, m);
        proof {
            lemma_skip_digits_bounds(s@, m as int);
        }
        if e > m {
            Some((neg, m, e, e))
        } else {
            None
        }
    } else {
        Some((false, k, k, k))
    }
}

/// The number literal at `i`, if any, and the position after it.
pub fn number_literal_exec(s: &[u8], i: usize) -> (r: Option<(Number, usize)>)
    requires
        i <= s@.len(),
    ensures
        number_literal(s@, i as int) is None <==> r is None,
        r matches Some((n, j)) ==> number_literal(s@, i as int) == Some((n@, j as int)) && i < j
            <= s@.len(),
{
    let (a, b, c, d, k) = match mantissa_shape_exec(s, i) {
        Some(t) => t,
        None => {
            return None;
        },
    };
    let (eneg, m, e, end) = match exponent_shape_exec(s, k) {
        Some(t) => t,
        None => {
            return None;
        },
    };
    proof {
        assert(Seq::<u8>::empty() + s@.subrange(a as int, b as int) =~= s@.subrange(a as int, b as int));
        assert(Seq::<u8>::empty() + s@.subrange(m as int, e as int) =~= s@.subrange(m as int, e as int));
    }
    let ev = match fold_digits(s, m, e, 0, Ghost(Seq::empty())) {
        Some(v) => v,
        None => {
            return None;
        },
    };
    let scale: i128 = (if eneg { -(ev as i128) } else { ev as i128 }) - ((d - c) as i128);
    Some((normal_exec(i < s.len() && s[i] == 45, s, a, b, c, d, scale), end))
}

} // verus!
