//! Integer reading of JSON numbers kept as literal text: the integer part of a float
//! literal's exact decimal value, saturating at the bounds of `i64`.
use vstd::prelude::*;
use crate::runtime::{is_digit, digits_value, all_digits, slice_chars};

verus! {

/// The end of the run of ASCII digits starting at `i`.
pub open spec fn digit_end(t: Seq<char>, i: int) -> int
    decreases t.len() - i,
{
    if 0 <= i < t.len() && is_digit(t[i]) {
        digit_end(t, i + 1)
    } else {
        i
    }
}

/// The parts of a JSON number literal `-?int(.frac)?([eE][+-]?exp)?`: (well formed,
/// negative, integer digits, fraction digits, negative exponent, exponent digits).
pub open spec fn float_parts(t: Seq<char>) -> (bool, bool, Seq<char>, Seq<char>, bool, Seq<char>) {
    let neg = t.len() > 0 && t[0] == '-';
    let a: int = if neg { 1 } else { 0 };
    let b = digit_end(t, a);
    let has_dot = b < t.len() && t[b] == '.';
    let c = if has_dot { digit_end(t, b + 1) } else { b };
    let has_exp = c < t.len() && (t[c] == 'e' || t[c] == 'E');
    let e0 = c + 1;
    let exp_neg = has_exp && e0 < t.len() && t[e0] == '-';
    let e1 = if has_exp && e0 < t.len() && (t[e0] == '+' || t[e0] == '-') { e0 + 1 } else { e0 };
    let d = if has_exp { digit_end(t, e1) } else { c };
    let ok = b > a && (!has_dot || c > b + 1) && (!has_exp || d > e1) && d == t.len();
    (
        ok,
        neg,
        t.subrange(a, b),
        if has_dot { t.subrange(b + 1, c) } else { Seq::empty() },
        exp_neg,
        if has_exp { t.subrange(e1, d) } else { Seq::empty() },
    )
}

pub open spec fn pow10(n: nat) -> nat
    decreases n,
{
    if n == 0 { 1 } else { 10 * pow10((n - 1) as nat) }
}

/// The integer part of `0.m × 10^(len m)` scaled by `10^s`: the digits `m` followed by
/// `s` zeros, or with their last `-s` digits dropped.
pub open spec fn scaled_int(m: Seq<char>, s: int) -> int {
    if s >= 0 {
        digits_value(m) * pow10(s as nat)
    } else if m.len() + s > 0 {
        digits_value(m.take(m.len() + s))
    } else {
        0
    }
}

/// The integer part (toward zero) of a number literal's decimal value, saturated to `i64`;
/// 0 for text that is not a number literal.
pub open spec fn float_trunc(t: Seq<char>) -> i64 {
    let (ok, neg, ip, fp, eneg, ed) = float_parts(t);
    if !ok {
        0
    } else {
        let e = if eneg { -digits_value(ed) } else { digits_value(ed) };
        let mag = scaled_int(ip + fp, e - fp.len());
        if neg {
            if mag >= 0x8000_0000_0000_0000 { i64::MIN } else { (-mag) as i64 }
        } else {
            if mag > i64::MAX { i64::MAX } else { mag as i64 }
        }
    }
}

pub open spec fn capped(x: int, cap: int) -> int {
    if x < cap { x } else { cap }
}

proof fn lemma_digit_end(t: Seq<char>, i: int)
    requires
        0 <= i <= t.len(),
    ensures
        i <= digit_end(t, i) <= t.len(),
        forall|k: int| i <= k < digit_end(t, i) ==> #[trigger] is_digit(t[k]),
        digit_end(t, i) == t.len() || !is_digit(t[digit_end(t, i)]),
    decreases t.len() - i,
{
    if i < t.len() && is_digit(t[i]) {
        lemma_digit_end(t, i + 1);
    }
}

proof fn lemma_digits_nonneg(s: Seq<char>)
    requires
        all_digits(s),
    ensures
        digits_value(s) >= 0,
    decreases s.len(),
{
    if s.len() > 0 {
        assert(all_digits(s.drop_last())) by {
            assert forall|i: int| 0 <= i < s.drop_last().len() implies #[trigger] is_digit(s.drop_last()[i]) by {
                assert(is_digit(s[i]));
            }
        }
        lemma_digits_nonneg(s.drop_last());
        assert(is_digit(s[s.len() - 1]));
    }
}

proof fn lemma_pow10_big(n: nat)
    requires
        n >= 19,
    ensures
        pow10(n) >= 0x8000_0000_0000_0001,
    decreases n,
{
    if n > 19 {
        lemma_pow10_big((n - 1) as nat);
    } else {
        reveal_with_fuel(pow10, 20);
        assert(pow10(19) == 10_000_000_000_000_000_000nat);
    }
}

proof fn lemma_pow10_pos(n: nat)
    ensures
        pow10(n) >= 1,
    decreases n,
{
    if n > 0 {
        lemma_pow10_pos((n - 1) as nat);
    }
}

fn digit_end_exec(t: &Vec<char>, i: usize) -> (r: usize)
    requires
        i <= t@.len(),
    ensures
        r == digit_end(t@, i as int),
{
    let mut j = i;
    while j < t.len() && '0' <= t[j] && t[j] <= '9'
        invariant
            i <= j <= t@.len(),
            digit_end(t@, i as int) == digit_end(t@, j as int),
        decreases t@.len() - j,
    {
        j += 1;
    }
    j
}

/// `min(value of the first n digits, cap)`.
fn capped_digits(d: &Vec<char>, n: usize, cap: u128) -> (v: u128)
    requires
        n <= d@.len(),
        all_digits(d@.take(n as int)),
        cap <= 0x1000_0000_0000_0000_0000_0000_0000,
    ensures
        v == capped(digits_value(d@.take(n as int)), cap as int),
{
    let mut v: u128 = 0;
    let mut k: usize = 0;
    while k < n
        invariant
            k <= n <= d@.len(),
            all_digits(d@.take(n as int)),
            cap <= 0x1000_0000_0000_0000_0000_0000_0000,
            v == capped(digits_value(d@.take(k as int)), cap as int),
        decreases n - k,
    {
        let c = d[k];
        proof {
            assert(d@.take(k + 1).drop_last() =~= d@.take(k as int));
            assert(d@.take(k + 1).last() == c);
            assert(d@.take(n as int)[k as int] == c);
            assert(is_digit(c));
            assert(all_digits(d@.take(k as int))) by {
                assert forall|j: int| 0 <= j < k implies #[trigger] is_digit(d@.take(k as int)[j]) by {
                    assert(d@.take(k as int)[j] == d@.take(n as int)[j]);
                }
            }
            lemma_digits_nonneg(d@.take(k as int));
        }
        let dv = (c as u32 - '0' as u32) as u128;
        let ghost prev = digits_value(d@.take(k as int));
        proof {
            assert(digits_value(d@.take(k + 1)) == prev * 10 + dv);
        }
        if v < cap {
            let w = v * 10 + dv;
            v = if w < cap { w } else { cap };
        } else {
            proof {
                assert(prev * 10 + dv >= cap) by (nonlinear_arith)
                    requires
                        prev >= cap,
                        cap >= 0,
                        dv >= 0,
                ;
            }
        }
        k += 1;
    }
    v
}

/// The pieces of a number literal: `None` when it is not one; else (negative, mantissa
/// digits, number of fraction digits, negative exponent, exponent digits).
fn scan_float(t: &Vec<char>) -> (r: Option<(bool, Vec<char>, usize, bool, Vec<char>)>)
    ensures
        r is None <==> !float_parts(t@).0,
        r is Some ==> ({
            let (neg, m, fl, en, ed) = r->0;
            &&& neg == float_parts(t@).1
            &&& m@ == float_parts(t@).2 + float_parts(t@).3
            &&& fl == float_parts(t@).3.len()
            &&& en == float_parts(t@).4
            &&& ed@ == float_parts(t@).5
            &&& all_digits(m@)
            &&& all_digits(ed@)
        }),
{
    let n = t.len();
    let neg = n > 0 && t[0] == '-';
    let a: usize = if neg { 1 } else { 0 };
    let b = digit_end_exec(t, a);
    proof {
        lemma_digit_end(t@, a as int);
    }
    let has_dot = b < n && t[b] == '.';
    let c = if has_dot { digit_end_exec(t, b + 1) } else { b };
    proof {
        if has_dot {
            lemma_digit_end(t@, b + 1);
        }
    }
    let has_exp = c < n && (t[c] == 'e' || t[c] == 'E');
    let mut exp_neg = false;
    let mut e1: usize = c;
    let mut d: usize = c;
    if has_exp {
        let e0 = c + 1;
        exp_neg = e0 < n && t[e0] == '-';
        e1 = if e0 < n && (t[e0] == '+' || t[e0] == '-') { e0 + 1 } else { e0 };
        d = digit_end_exec(t, e1);
        proof {
            lemma_digit_end(t@, e1 as int);
        }
    }
    let ok = b > a && (!has_dot || c > b + 1) && (!has_exp || d > e1) && d == n;
    let ghost parts = float_parts(t@);
    if !ok {
        return None;
    }
    let m1 = slice_chars(t, a, b);
    let mut m = m1;
    let frac_len: usize = if has_dot { c - (b + 1) } else { 0 };
    if has_dot {
        let f = slice_chars(t, b + 1, c);
        let mut k: usize = 0;
        let ghost start = m@;
        while k < f.len()
            invariant
                0 <= k <= f@.len(),
                m@ == start + f@.take(k as int),
            decreases f@.len() - k,
        {
            m.push(f[k]);
            proof {
                assert(f@.take(k + 1) =~= f@.take(k as int).push(f@[k as int]));
            }
            k += 1;
        }
        proof {
            assert(f@.take(f@.len() as int) =~= f@);
        }
    }
    let ed = if has_exp { slice_chars(t, e1, d) } else { Vec::new() };
    proof {
        assert(parts.2 =~= t@.subrange(a as int, b as int));
        if has_dot {
            assert(parts.3 =~= t@.subrange(b + 1, c as int));
        } else {
            assert(parts.3 =~= Seq::<char>::empty());
        }
        if has_exp {
            assert(parts.5 =~= t@.subrange(e1 as int, d as int));
        } else {
            assert(parts.5 =~= Seq::<char>::empty());
        }
        assert(m@ =~= parts.2 + parts.3);
        assert forall|j: int| 0 <= j < m@.len() implies #[trigger] is_digit(m@[j]) by {
            if j < parts.2.len() {
                assert(m@[j] == t@[a + j]);
            } else {
                assert(m@[j] == t@[b + 1 + (j - parts.2.len())]);
            }
        }
        assert forall|j: int| 0 <= j < ed@.len() implies #[trigger] is_digit(ed@[j]) by {
            assert(ed@[j] == t@[e1 + j]);
        }
    }
    Some((neg, m, frac_len, exp_neg, ed))
}

/// The magnitude of `m × 10^(±e − fl)`, capped at `2^63 + 1`, from the exponent capped at
/// `len m + 65` (beyond which the capped magnitude no longer changes).
fn scaled_capped(m: &Vec<char>, fl: usize, exp_neg: bool, e_val: u128, Ghost(e): Ghost<int>) -> (mag: u128)
    requires
        all_digits(m@),
        fl <= m@.len(),
        e >= 0,
        e_val == capped(e, m@.len() as int + 65),
    ensures
        mag == capped(scaled_int(m@, (if exp_neg { -e } else { e }) - fl), 0x8000_0000_0000_0001),
{
    let big: u128 = 0x8000_0000_0000_0001;
    let cap_e: u128 = m.len() as u128 + 64;
    let ghost s_true: int = (if exp_neg { -e } else { e }) - fl;
    proof {
        lemma_digits_nonneg_all(m@);
    }
    if !exp_neg && e_val >= fl as u128 {
        let s = e_val - fl as u128;
        let v = scale_up(m, s);
        proof {
            if e <= cap_e {
                assert(e_val == e);
                assert(s_true == s);
            } else {
                lemma_big_scale(m@, s as int, s_true);
            }
            assert(s_true >= 0);
            assert(scaled_int(m@, s_true) == digits_value(m@) * pow10(s_true as nat));
        }
        v
    } else {
        proof {
            if !exp_neg {
                assert(e_val == e);
            }
        }
        let drop: u128 = if exp_neg { e_val + fl as u128 } else { fl as u128 - e_val };
        if drop >= m.len() as u128 {
            proof {
                if e_val == e {
                    assert(m@.len() + s_true <= 0);
                    if s_true >= 0 {
                        assert(m@.len() == 0);
                        assert(m@ =~= Seq::<char>::empty());
                        assert(digits_value(m@) == 0);
                        assert(scaled_int(m@, s_true) == 0) by (nonlinear_arith)
                            requires
                                digits_value(m@) == 0,
                                s_true >= 0,
                                scaled_int(m@, s_true) == digits_value(m@) * pow10(s_true as nat),
                        ;
                    }
                } else {
                    assert(exp_neg);
                    assert(e >= m@.len() + 65);
                }
                assert(scaled_int(m@, s_true) == 0);
            }
            0
        } else {
            let keep = (m.len() as u128 - drop) as usize;
            proof {
                if exp_neg {
                    assert(e_val == e);
                }
                assert(all_digits(m@.take(keep as int))) by {
                    assert forall|j: int| 0 <= j < keep implies #[trigger] is_digit(m@.take(keep as int)[j]) by {
                        assert(m@.take(keep as int)[j] == m@[j]);
                    }
                }
            }
            proof {
                assert(s_true <= 0);
                assert(keep == m@.len() + s_true);
                if s_true == 0 {
                    assert(m@.take(keep as int) =~= m@);
                    assert(pow10(0) == 1);
                    assert(scaled_int(m@, 0) == digits_value(m@) * pow10(0));
                    assert(digits_value(m@) * pow10(0) == digits_value(m@)) by (nonlinear_arith)
                        requires
                            pow10(0) == 1,
                    ;
                }
            }
            capped_digits(m, keep, big)
        }
    }
}

proof fn lemma_digits_nonneg_all(m: Seq<char>)
    requires
        all_digits(m),
    ensures
        digits_value(m) >= 0,
{
    lemma_digits_nonneg(m);
}

/// `min(value of m × 10^s, 2^63 + 1)`.
fn scale_up(m: &Vec<char>, s: u128) -> (v: u128)
    requires
        all_digits(m@),
    ensures
        v == capped(digits_value(m@) * pow10(s as nat), 0x8000_0000_0000_0001),
{
    let big: u128 = 0x8000_0000_0000_0001;
    let mut v = capped_digits(m, m.len(), big);
    proof {
        assert(m@.take(m@.len() as int) =~= m@);
        lemma_digits_nonneg(m@);
        assert(pow10(0) == 1);
    }
    let mut i: u128 = 0;
    while i < s && v != 0 && v != big
        invariant
            i <= s,
            all_digits(m@),
            digits_value(m@) >= 0,
            v == capped(digits_value(m@) * pow10(i as nat), big as int),
            big == 0x8000_0000_0000_0001,
        decreases s - i,
    {
        proof {
            lemma_pow10_pos(i as nat);
            let x = digits_value(m@) * pow10(i as nat);
            assert(digits_value(m@) * pow10((i + 1) as nat) == x * 10) by (nonlinear_arith)
                requires
                    pow10((i + 1) as nat) == 10 * pow10(i as nat),
                    x == digits_value(m@) * pow10(i as nat),
            ;
        }
        let w = v * 10;
        v = if w < big { w } else { big };
        i += 1;
    }
    proof {
        let x = digits_value(m@) * pow10(s as nat);
        if i < s {
            lemma_pow10_pos(i as nat);
            lemma_pow10_pos(s as nat);
            if v == 0 {
                assert(digits_value(m@) == 0) by (nonlinear_arith)
                    requires
                        digits_value(m@) * pow10(i as nat) == 0,
                        pow10(i as nat) >= 1,
                        digits_value(m@) >= 0,
                ;
                assert(x == 0) by (nonlinear_arith)
                    requires
                        digits_value(m@) == 0,
                        x == digits_value(m@) * pow10(s as nat),
                ;
            } else {
                lemma_pow10_mono(i as nat, s as nat);
                assert(x >= big) by (nonlinear_arith)
                    requires
                        digits_value(m@) * pow10(i as nat) >= big,
                        pow10(s as nat) >= pow10(i as nat),
                        digits_value(m@) >= 0,
                        x == digits_value(m@) * pow10(s as nat),
                ;
            }
        }
    }
    v
}

/// The integer part of a number literal, saturated to `i64` (see [`float_trunc`]).
pub fn float_trunc_exec(t: &Vec<char>) -> (r: i64)
    ensures
        r == float_trunc(t@),
{
    match scan_float(t) {
        None => 0,
        Some((neg, m, fl, exp_neg, ed)) => {
            let cap: u128 = m.len() as u128 + 65;
            let e_val = capped_digits(&ed, ed.len(), cap);
            proof {
                assert(ed@.take(ed@.len() as int) =~= ed@);
                lemma_digits_nonneg(ed@);
            }
            let mag = scaled_capped(&m, fl, exp_neg, e_val, Ghost(digits_value(ed@)));
            if neg {
                if mag >= 0x8000_0000_0000_0000 {
                    i64::MIN
                } else {
                    -(mag as i64)
                }
            } else {
                if mag > 0x7fff_ffff_ffff_ffff {
                    i64::MAX
                } else {
                    mag as i64
                }
            }
        },
    }
}

/// Past 19 places the scale no longer matters to the capped value.
proof fn lemma_big_scale(m: Seq<char>, s1: int, s2: int)
    requires
        all_digits(m),
        s1 >= 19,
        s2 >= 19,
    ensures
        capped(digits_value(m) * pow10(s1 as nat), 0x8000_0000_0000_0001)
            == capped(digits_value(m) * pow10(s2 as nat), 0x8000_0000_0000_0001),
{
    lemma_digits_nonneg(m);
    lemma_pow10_big(s1 as nat);
    lemma_pow10_big(s2 as nat);
    let v = digits_value(m);
    if v > 0 {
        assert(v * pow10(s1 as nat) >= pow10(s1 as nat)) by (nonlinear_arith)
            requires
                v >= 1,
                pow10(s1 as nat) >= 0,
        ;
        assert(v * pow10(s2 as nat) >= pow10(s2 as nat)) by (nonlinear_arith)
            requires
                v >= 1,
                pow10(s2 as nat) >= 0,
        ;
    } else {
        assert(v * pow10(s1 as nat) == 0) by (nonlinear_arith)
            requires
                v == 0,
        ;
        assert(v * pow10(s2 as nat) == 0) by (nonlinear_arith)
            requires
                v == 0,
        ;
    }
}

proof fn lemma_pow10_mono(i: nat, j: nat)
    requires
        i <= j,
    ensures
        pow10(i) <= pow10(j),
    decreases j - i,
{
    if i < j {
        lemma_pow10_mono(i, (j - 1) as nat);
        lemma_pow10_pos((j - 1) as nat);
    }
}

} // verus!
