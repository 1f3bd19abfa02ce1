//! Whether a partial's refresh interval, as text, reads as a number of
//! seconds of at least one: the question `str::parse::<f64>` followed by a
//! comparison with `1.0` answers, decided here exactly on the decimal text.
//!
//! The double nearest to a decimal value is at least `1.0` exactly when the
//! value is at least the midpoint between `1.0` and the largest double below
//! it, `1 - 2^-54` (a tie rounds to `1.0`, whose last mantissa bit is even).

use vstd::prelude::*;
use crate::text::{
    chars_of, dec_digit, dec_value, find_first, first_index, lemma_find_first_none, lower,
    lower_seq,
};

verus! {

/// Every character is an ASCII decimal digit.
pub open spec fn all_digits(s: Seq<char>) -> bool {
    forall|i: int| 0 <= i < s.len() ==> dec_digit(#[trigger] s[i])
}

/// The value of the first `n` digits of `s`, read as a decimal numeral.
pub open spec fn dval_upto(s: Seq<char>, n: nat) -> nat
    decreases n,
{
    if n == 0 {
        0
    } else {
        dval_upto(s, (n - 1) as nat) * 10 + dec_value(s[n - 1])
    }
}

/// The value of a decimal numeral.
pub open spec fn dval(s: Seq<char>) -> nat {
    dval_upto(s, s.len())
}

pub open spec fn pow10(n: nat) -> nat
    decreases n,
{
    if n == 0 {
        1
    } else {
        10 * pow10((n - 1) as nat)
    }
}

pub open spec fn pow2(n: nat) -> nat
    decreases n,
{
    if n == 0 {
        1
    } else {
        2 * pow2((n - 1) as nat)
    }
}

pub open spec fn pow5(n: nat) -> nat
    decreases n,
{
    if n == 0 {
        1
    } else {
        5 * pow5((n - 1) as nat)
    }
}

/// `Sign? Digit+`: the exponent of a float literal.
pub open spec fn exponent_value(x: Seq<char>) -> Option<int> {
    if x.len() > 0 && (x[0] == '+' || x[0] == '-') {
        let d = x.skip(1);
        if d.len() > 0 && all_digits(d) {
            Some(
                if x[0] == '-' {
                    -dval(d)
                } else {
                    dval(d) as int
                },
            )
        } else {
            None
        }
    } else if x.len() > 0 && all_digits(x) {
        Some(dval(x) as int)
    } else {
        None
    }
}

/// `Digit+ | Digit+ '.' Digit* | Digit* '.' Digit+`: the mantissa, as its
/// digits (point removed) and the number of digits after the point.
pub open spec fn mantissa_parts(m: Seq<char>) -> Option<(Seq<char>, nat)> {
    match find_first(m, '.') {
        Some(k) => {
            let i = m.take(k);
            let f = m.skip(k + 1);
            if all_digits(i) && all_digits(f) && i.len() + f.len() > 0 {
                Some((i + f, f.len()))
            } else {
                None
            }
        },
        None => if m.len() > 0 && all_digits(m) {
            Some((m, 0))
        } else {
            None
        },
    }
}

/// An unsigned decimal float literal (`Number` of the grammar that
/// `f64::from_str` documents, `e` in either case): its digits, its number of
/// fraction digits and its exponent, so that its value is
/// `dval(digits) * 10^(exponent - fraction digits)`.
pub open spec fn numeral_parts(s: Seq<char>) -> Option<(Seq<char>, nat, int)> {
    match find_first(lower_seq(s), 'e') {
        Some(k) => match (mantissa_parts(s.take(k)), exponent_value(s.skip(k + 1))) {
            (Some(mp), Some(x)) => Some((mp.0, mp.1, x)),
            _ => None,
        },
        None => match mantissa_parts(s) {
            Some(mp) => Some((mp.0, mp.1, 0)),
            None => None,
        },
    }
}

/// `m * 10^(e - f) >= 1 - 2^-54`, in integers.
pub open spec fn at_least_one(m: nat, f: nat, e: int) -> bool {
    if e >= 0 {
        m * pow10(e as nat) * pow2(54) >= (pow2(54) - 1) * pow10(f)
    } else {
        m * pow2(54) >= (pow2(54) - 1) * pow10(f + (-e) as nat)
    }
}

/// What `s.parse::<f64>().is_ok_and(|r| r >= 1.0)` answers: `s` is a float
/// literal (an optional sign, then `inf`, `infinity`, `nan` in any case, or a
/// decimal numeral) whose value rounds to a double that is at least `1.0`.
pub open spec fn float_at_least_one(s: Seq<char>) -> bool {
    let signed = s.len() > 0 && (s[0] == '+' || s[0] == '-');
    let neg = s.len() > 0 && s[0] == '-';
    let body = if signed {
        s.skip(1)
    } else {
        s
    };
    let lb = lower_seq(body);
    if lb == seq!['i', 'n', 'f'] || lb == seq!['i', 'n', 'f', 'i', 'n', 'i', 't', 'y'] {
        !neg
    } else if lb == seq!['n', 'a', 'n'] {
        false
    } else {
        match numeral_parts(body) {
            Some(p) => !neg && at_least_one(dval(p.0), p.1, p.2),
            None => false,
        }
    }
}

// ---------------------------------------------------------------------------
// Arithmetic facts.

proof fn lemma_pow10_pos(n: nat)
    ensures
        pow10(n) >= 1,
    decreases n,
{
    if n > 0 {
        lemma_pow10_pos((n - 1) as nat);
    }
}

proof fn lemma_pow10_add(a: nat, b: nat)
    ensures
        pow10(a + b) == pow10(a) * pow10(b),
    decreases b,
{
    if b > 0 {
        lemma_pow10_add(a, (b - 1) as nat);
        assert((a + b - 1) as nat == a + (b - 1) as nat);
        assert(pow10(a + b) == 10 * pow10((a + b - 1) as nat));
        assert(pow10(b) == 10 * pow10((b - 1) as nat));
        let x = pow10((a + b - 1) as nat);
        let y = pow10((b - 1) as nat);
        let pa = pow10(a);
        assert(10 * x == pa * (10 * y)) by (nonlinear_arith)
            requires
                x == pa * y,
        ;
    } else {
        assert(pow10(0) == 1);
        assert(a + b == a);
        assert(pow10(a) * 1 == pow10(a));
    }
}

proof fn lemma_pow10_mono(a: nat, b: nat)
    requires
        a <= b,
    ensures
        pow10(a) <= pow10(b),
    decreases b,
{
    if a < b {
        lemma_pow10_mono(a, (b - 1) as nat);
        lemma_pow10_pos((b - 1) as nat);
    }
}

proof fn lemma_powers_54()
    ensures
        pow2(54) == 18014398509481984,
        pow5(54) == 55511151231257827021181583404541015625,
        pow10(54) == 1000000000000000000000000000000000000000000000000000000,
{
    reveal_with_fuel(pow2, 56);
    reveal_with_fuel(pow5, 56);
    reveal_with_fuel(pow10, 56);
}

/// The threshold `1 - 2^-54` scaled by `10^54`.
pub open spec fn threshold() -> nat {
    (pow10(54) - pow5(54)) as nat
}

proof fn lemma_dval_prefix(s: Seq<char>, t: Seq<char>, n: nat)
    requires
        n <= s.len(),
        n <= t.len(),
        forall|i: int| 0 <= i < n ==> s[i] == t[i],
    ensures
        dval_upto(s, n) == dval_upto(t, n),
    decreases n,
{
    if n > 0 {
        lemma_dval_prefix(s, t, (n - 1) as nat);
    }
}

proof fn lemma_dval_bound(s: Seq<char>, n: nat)
    requires
        n <= s.len(),
        all_digits(s),
    ensures
        dval_upto(s, n) < pow10(n),
    decreases n,
{
    if n > 0 {
        lemma_dval_bound(s, (n - 1) as nat);
        assert(dec_digit(s[n - 1]));
    }
}

proof fn lemma_dval_lower(s: Seq<char>, n: nat)
    requires
        1 <= n <= s.len(),
        all_digits(s),
        s[0] != '0',
    ensures
        dval_upto(s, n) >= pow10((n - 1) as nat),
    decreases n,
{
    if n > 1 {
        lemma_dval_lower(s, (n - 1) as nat);
    } else {
        assert(dec_digit(s[0]));
        assert(dval_upto(s, 0) == 0);
    }
}

proof fn lemma_dval_pad(s: Seq<char>, m: nat, n: nat)
    requires
        m <= n <= s.len(),
        forall|i: int| m <= i < n ==> s[i] == '0',
    ensures
        dval_upto(s, n) == dval_upto(s, m) * pow10((n - m) as nat),
    decreases n,
{
    if n > m {
        lemma_dval_pad(s, m, (n - 1) as nat);
        let a = dval_upto(s, m);
        let p = pow10((n - 1 - m) as nat);
        assert((n - 1 - m) as nat == ((n - m) as nat - 1) as nat);
        assert(pow10((n - m) as nat) == 10 * p);
        assert(dec_value(s[n - 1]) == 0);
        assert(dval_upto(s, n) == dval_upto(s, (n - 1) as nat) * 10);
        let prev = dval_upto(s, (n - 1) as nat);
        let q = pow10((n - m) as nat);
        assert(prev * 10 == a * q) by (nonlinear_arith)
            requires
                prev == a * p,
                q == 10 * p,
        ;
    } else {
        assert(pow10(0) == 1);
        assert(dval_upto(s, m) * 1 == dval_upto(s, m));
    }
}

proof fn lemma_dval_zero_prefix(s: Seq<char>, n: nat)
    requires
        n <= s.len(),
        forall|i: int| 0 <= i < n ==> s[i] == '0',
    ensures
        dval_upto(s, n) == 0,
    decreases n,
{
    if n > 0 {
        lemma_dval_zero_prefix(s, (n - 1) as nat);
    }
}

proof fn lemma_dval_skip_zeros(s: Seq<char>, lz: nat, n: nat)
    requires
        lz <= n <= s.len(),
        forall|i: int| 0 <= i < lz ==> s[i] == '0',
    ensures
        dval_upto(s, n) == dval_upto(s.skip(lz as int), (n - lz) as nat),
    decreases n,
{
    if n > lz {
        lemma_dval_skip_zeros(s, lz, (n - 1) as nat);
        assert(s.skip(lz as int)[n - 1 - lz] == s[n - 1]);
    } else {
        lemma_dval_zero_prefix(s, n);
    }
}

proof fn lemma_dval_lex(x: Seq<char>, y: Seq<char>, k: nat, n: nat)
    requires
        all_digits(x),
        all_digits(y),
        k < n <= x.len(),
        n <= y.len(),
        forall|j: int| 0 <= j < k ==> x[j] == y[j],
        dec_value(x[k as int]) > dec_value(y[k as int]),
    ensures
        dval_upto(x, n) > dval_upto(y, n),
    decreases n,
{
    if n == k + 1 {
        lemma_dval_prefix(x, y, k);
    } else {
        lemma_dval_lex(x, y, k, (n - 1) as nat);
        assert(dec_digit(y[n - 1]));
    }
}

proof fn lemma_scale(a: nat, b: nat)
    requires
        pow2(54) * pow5(54) == pow10(54),
        pow5(54) > 0,
        pow2(54) >= 1,
    ensures
        a * pow2(54) >= (pow2(54) - 1) * b <==> a * pow10(54) >= threshold() * b,
{
    lemma_powers_54();
    let p2 = pow2(54) as int;
    let p5 = pow5(54) as int;
    let p10 = pow10(54) as int;
    assert(threshold() == (p2 - 1) * p5) by (nonlinear_arith)
        requires
            p2 * p5 == p10,
            threshold() == p10 - p5,
    ;
    assert(a * p10 == (a * p2) * p5) by (nonlinear_arith)
        requires
            p2 * p5 == p10,
    ;
    assert(threshold() * b == ((p2 - 1) * b) * p5) by (nonlinear_arith)
        requires
            threshold() == (p2 - 1) * p5,
    ;
    assert(a * p2 >= (p2 - 1) * b <==> (a * p2) * p5 >= ((p2 - 1) * b) * p5) by (nonlinear_arith)
        requires
            p5 > 0,
    ;
}

/// How a numeral with `n` significant digits (`d`, first digit non-zero),
/// `f` fraction digits and exponent `e` compares with the threshold: its
/// decimal exponent `n + e - f` decides, and when that is zero its digits do.
proof fn lemma_decide(d: Seq<char>, f: nat, e: int)
    requires
        all_digits(d),
        d.len() >= 1,
        d[0] != '0',
    ensures
        d.len() + e - f > 0 ==> at_least_one(dval(d), f, e),
        d.len() + e - f < 0 ==> !at_least_one(dval(d), f, e),
        d.len() + e - f == 0 ==> (at_least_one(dval(d), f, e) <==> dval(d) * pow10(54) >= threshold()
            * pow10(d.len())),
{
    lemma_powers_54();
    let n = d.len();
    let m = dval(d);
    let p2 = pow2(54);
    let c = (pow2(54) - 1) as nat;
    lemma_dval_bound(d, n);
    lemma_dval_lower(d, n);
    lemma_pow10_pos(f);
    if e >= 0 {
        let en = e as nat;
        lemma_pow10_pos(en);
        let a = m * pow10(en);
        lemma_scale(a, pow10(f));
        lemma_pow10_add((n - 1) as nat, en);
        lemma_pow10_add(n, en);
        assert(m * pow10(en) >= pow10((n - 1) as nat) * pow10(en)) by (nonlinear_arith)
            requires
                m >= pow10((n - 1) as nat),
        ;
        assert(m * pow10(en) < pow10(n) * pow10(en)) by (nonlinear_arith)
            requires
                m < pow10(n),
                pow10(en) >= 1,
        ;
        if n + e - f > 0 {
            lemma_pow10_mono(f, (n - 1 + en) as nat);
            assert(a * p2 > c * pow10(f)) by (nonlinear_arith)
                requires
                    a >= pow10(f),
                    p2 == c + 1,
                    pow10(f) >= 1,
            ;
        } else if n + e - f < 0 {
            lemma_pow10_mono(n + en, (f - 1) as nat);
            lemma_pow10_pos((f - 1) as nat);
            assert(pow10(f) == 10 * pow10((f - 1) as nat));
            assert(a * p2 < c * pow10(f)) by (nonlinear_arith)
                requires
                    a < pow10((f - 1) as nat),
                    p2 == c + 1,
                    c >= 1,
                    pow10(f) == 10 * pow10((f - 1) as nat),
            ;
        } else {
            assert(f == n + en);
            lemma_pow10_pos(en);
            assert(a * pow10(54) >= threshold() * pow10(f) <==> m * pow10(54) >= threshold()
                * pow10(n)) by (nonlinear_arith)
                requires
                    a == m * pow10(en),
                    pow10(f) == pow10(n) * pow10(en),
                    pow10(en) >= 1,
            ;
        }
    } else {
        let en = (-e) as nat;
        lemma_pow10_pos(f + en);
        lemma_scale(m, pow10(f + en));
        if n + e - f > 0 {
            lemma_pow10_mono(f + en, (n - 1) as nat);
            assert(m * p2 > c * pow10(f + en)) by (nonlinear_arith)
                requires
                    m >= pow10(f + en),
                    p2 == c + 1,
                    pow10(f + en) >= 1,
            ;
        } else if n + e - f < 0 {
            lemma_pow10_mono(n, (f + en - 1) as nat);
            lemma_pow10_pos((f + en - 1) as nat);
            assert(pow10(f + en) == 10 * pow10((f + en - 1) as nat));
            assert(m * p2 < c * pow10(f + en)) by (nonlinear_arith)
                requires
                    m < pow10((f + en - 1) as nat),
                    p2 == c + 1,
                    c >= 1,
                    pow10(f + en) == 10 * pow10((f + en - 1) as nat),
            ;
        } else {
            assert(f + en == n);
        }
    }
}


// ---------------------------------------------------------------------------
// Reading the text.

/// The digits of the threshold `1 - 2^-54`, after the decimal point.
pub const THRESHOLD_DIGITS: &'static str = "999999999999999944488848768742172978818416595458984375";

proof fn lemma_threshold_value(t: Seq<char>)
    requires
        t == THRESHOLD_DIGITS@,
    ensures
        t.len() == 54,
        dval_upto(t, 54) == 999999999999999944488848768742172978818416595458984375,
{
    reveal_strlit("999999999999999944488848768742172978818416595458984375");
    reveal_with_fuel(dval_upto, 56);
}

proof fn lemma_threshold_digit_chars(t: Seq<char>)
    requires
        t == THRESHOLD_DIGITS@,
    ensures
        all_digits(t),
{
    reveal_strlit("999999999999999944488848768742172978818416595458984375");
    assert forall|i: int| 0 <= i < t.len() implies dec_digit(#[trigger] t[i]) by {
        assert(t[i] == '9' || t[i] == '4' || t[i] == '8' || t[i] == '7' || t[i] == '6' || t[i]
            == '2' || t[i] == '1' || t[i] == '5' || t[i] == '3');
    }
}

proof fn lemma_threshold_digits(t: Seq<char>)
    requires
        t == THRESHOLD_DIGITS@,
    ensures
        t.len() == 54,
        all_digits(t),
        dval_upto(t, 54) == threshold(),
{
    lemma_threshold_value(t);
    lemma_threshold_digit_chars(t);
    lemma_powers_54();
}

fn digits_only(s: &[char]) -> (b: bool)
    ensures
        b == all_digits(s@),
{
    let mut i: usize = 0;
    while i < s.len()
        invariant
            i <= s@.len(),
            forall|j: int| 0 <= j < i ==> dec_digit(#[trigger] s@[j]),
        decreases s@.len() - i,
    {
        if !('0' <= s[i] && s[i] <= '9') {
            assert(!dec_digit(s@[i as int]));
            return false;
        }
        i += 1;
    }
    true
}

fn lower_equals(s: &[char], word: &str) -> (b: bool)
    ensures
        b == (lower_seq(s@) == word@),
{
    let w = chars_of(word);
    if s.len() != w.len() {
        assert(lower_seq(s@).len() != word@.len());
        return false;
    }
    let mut i: usize = 0;
    while i < s.len()
        invariant
            i <= s@.len(),
            s@.len() == w@.len(),
            w@ == word@,
            forall|j: int| 0 <= j < i ==> lower(s@[j]) == w@[j],
        decreases s@.len() - i,
    {
        if crate::text::to_lower(s[i]) != w[i] {
            assert(lower_seq(s@)[i as int] != word@[i as int]);
            return false;
        }
        i += 1;
    }
    assert(lower_seq(s@) =~= word@);
    true
}

/// The digits and fraction length of a mantissa.
fn read_mantissa(m: &[char]) -> (r: Option<(Vec<char>, usize)>)
    ensures
        r is None <==> mantissa_parts(m@) is None,
        r matches Some(p) ==> mantissa_parts(m@) == Some((p.0@, p.1 as nat)) && p.0@.len()
            <= m@.len() && p.1 <= p.0@.len(),
{
    match first_index(m, '.') {
        Some(k) => {
            assert(k < m.len());
            let int_part = &m[0..k];
            let frac = &m[k + 1..m.len()];
            assert(int_part@ == m@.take(k as int));
            assert(frac@ == m@.skip(k + 1));
            if digits_only(int_part) && digits_only(frac) && int_part.len() + frac.len() > 0 {
                let mut d: Vec<char> = vstd::slice::slice_to_vec(int_part);
                let mut i: usize = 0;
                while i < frac.len()
                    invariant
                        i <= frac@.len(),
                        d@ == int_part@ + frac@.take(i as int),
                    decreases frac@.len() - i,
                {
                    d.push(frac[i]);
                    i += 1;
                    assert(d@ =~= int_part@ + frac@.take(i as int));
                }
                assert(frac@.take(i as int) =~= frac@);
                Some((d, frac.len()))
            } else {
                None
            }
        },
        None => {
            if m.len() > 0 && digits_only(m) {
                Some((vstd::slice::slice_to_vec(m), 0))
            } else {
                None
            }
        },
    }
}

proof fn lemma_dval_grows(s: Seq<char>, n: nat)
    requires
        n < s.len(),
        all_digits(s),
    ensures
        dval_upto(s, n + 1) >= dval_upto(s, n),
        dval_upto(s, n + 1) == dval_upto(s, n) * 10 + dec_value(s[n as int]),
        dec_value(s[n as int]) <= 9,
{
    assert(dec_digit(s[n as int]));
}

/// The exponent: its sign and its magnitude, the magnitude exact while it is
/// at most `cap` and only known to exceed `cap` beyond.
fn read_exponent(x: &[char], cap: u128) -> (r: Option<(bool, u128)>)
    requires
        cap <= 0x1_0000_0000_0000_0000,
    ensures
        r is None <==> exponent_value(x@) is None,
        r matches Some(p) ==> {
            let v = exponent_value(x@)->0;
            &&& p.0 ==> v <= 0
            &&& !p.0 ==> v >= 0
            &&& p.1 <= cap ==> (v == p.1 || v == -p.1)
            &&& p.1 > cap ==> (v > cap || v < -cap)
        },
{
    let signed = x.len() > 0 && (x[0] == '+' || x[0] == '-');
    let neg = x.len() > 0 && x[0] == '-';
    let start: usize = if signed { 1 } else { 0 };
    let d = &x[start..x.len()];
    assert(d@ =~= x@.skip(start as int));
    assert(start == 0 ==> d@ =~= x@);
    if d.len() == 0 || !digits_only(d) {
        return None;
    }
    let mut mag: u128 = 0;
    let mut j: usize = 0;
    while j < d.len()
        invariant
            j <= d@.len(),
            all_digits(d@),
            cap <= 0x1_0000_0000_0000_0000,
            mag <= 10 * cap + 9,
            mag <= cap ==> mag == dval_upto(d@, j as nat),
            mag > cap ==> dval_upto(d@, j as nat) > cap,
        decreases d@.len() - j,
    {
        proof {
            lemma_dval_grows(d@, j as nat);
        }
        if mag <= cap {
            let digit = (d[j] as u32 - '0' as u32) as u128;
            mag = mag * 10 + digit;
        }
        j += 1;
    }
    assert(d@ == x@.skip(start as int));
    Some((neg, mag))
}

/// What `s.parse::<f64>().is_ok_and(|r| r >= 1.0)` answers, decided on the
/// decimal text without floating point.
pub fn parses_at_least_one(s: &[char]) -> (b: bool)
    ensures
        b == float_at_least_one(s@),
{
    if s.len() > 0 && s[0] == '-' {
        return false;
    }
    let start: usize = if s.len() > 0 && s[0] == '+' { 1 } else { 0 };
    let body = &s[start..s.len()];
    assert(start == 0 ==> body@ =~= s@);
    assert(start == 1 ==> body@ =~= s@.skip(1));
    proof {
        reveal_strlit("inf");
        reveal_strlit("infinity");
        reveal_strlit("nan");
        assert("inf"@ =~= seq!['i', 'n', 'f']);
        assert("infinity"@ =~= seq!['i', 'n', 'f', 'i', 'n', 'i', 't', 'y']);
        assert("nan"@ =~= seq!['n', 'a', 'n']);
    }
    if lower_equals(body, "inf") || lower_equals(body, "infinity") {
        return true;
    }
    if lower_equals(body, "nan") {
        return false;
    }
    let ghost e = match numeral_parts(body@) {
        Some((_, _, e0)) => e0,
        None => 0,
    };
    match read_numeral(body) {
        None => false,
        Some((digits, frac_len, exp_neg, mag)) => {
            decide(digits.as_slice(), frac_len, exp_neg, mag, body.len() as u128 + 1, Ghost(e))
        },
    }
}

/// A decimal numeral's digits, fraction length and exponent (sign and
/// magnitude, the magnitude exact up to `body.len() + 1`).
fn read_numeral(body: &[char]) -> (r: Option<(Vec<char>, usize, bool, u128)>)
    ensures
        r is None <==> numeral_parts(body@) is None,
        r matches Some((digits, f, neg, mag)) ==> numeral_parts(body@) matches Some((d0, f0, e0))
            && digits@ == d0 && f as nat == f0 && all_digits(digits@) && f <= digits@.len()
            && digits@.len() <= body@.len() && (neg ==> e0 <= 0) && (!neg ==> e0 >= 0) && (mag
            <= body@.len() + 1 ==> (e0 == mag || e0 == -mag)) && (mag > body@.len() + 1 ==> (e0
            > body@.len() + 1 || e0 < -(body@.len() + 1))),
{
    // Split at the first `e`/`E`.
    let mut k: usize = 0;
    while k < body.len() && body[k] != 'e' && body[k] != 'E'
        invariant
            k <= body@.len(),
            forall|j: int| 0 <= j < k ==> lower_seq(body@)[j] != 'e',
        decreases body@.len() - k,
    {
        k += 1;
    }
    let ghost lb = lower_seq(body@);
    proof {
        lemma_find_first_none(lb, 'e');
    }
    let (mantissa, exponent): (&[char], Option<(bool, u128)>) = if k < body.len() {
        assert(lb[k as int] == 'e');
        assert(find_first(lb, 'e') == Some(k as int));
        let m = &body[0..k];
        assert(m@ == body@.take(k as int));
        let x = &body[k + 1..body.len()];
        assert(x@ == body@.skip(k + 1));
        (m, read_exponent(x, body.len() as u128 + 1))
    } else {
        assert(find_first(lb, 'e') is None);
        (body, Some((false, 0)))
    };
    let parts = read_mantissa(mantissa);
    let (digits, frac_len) = match parts {
        Some(p) => p,
        None => {
            return None;
        },
    };
    let (exp_neg, mag) = match exponent {
        Some(e) => e,
        None => {
            return None;
        },
    };
    proof {
        let (d0, f0) = mantissa_parts(mantissa@)->0;
        lemma_mantissa_digits(mantissa@);
    }
    Some((digits, frac_len, exp_neg, mag))
}

proof fn lemma_mantissa_digits(m: Seq<char>)
    ensures
        mantissa_parts(m) matches Some((d, f)) ==> all_digits(d),
{
    if let Some((d, f)) = mantissa_parts(m) {
        if let Some(k) = find_first(m, '.') {
            let i = m.take(k);
            let fr = m.skip(k + 1);
            assert forall|j: int| 0 <= j < d.len() implies dec_digit(#[trigger] d[j]) by {
                if j < i.len() {
                    assert(d[j] == i[j]);
                } else {
                    assert(d[j] == fr[j - i.len()]);
                }
            }
        }
    }
}

/// Whether `dval(digits) * 10^(e - f)` is at least the threshold, given the
/// exponent as `read_exponent` gives it.
fn decide(digits: &[char], f: usize, exp_neg: bool, mag: u128, cap: u128, Ghost(e): Ghost<int>) -> (b:
    bool)
    requires
        all_digits(digits@),
        f <= digits@.len(),
        digits@.len() < cap <= 0x1_0000_0000_0000_0000,
        exp_neg ==> e <= 0,
        !exp_neg ==> e >= 0,
        mag <= cap ==> (e == mag || e == -mag),
        mag > cap ==> (e > cap || e < -cap),
    ensures
        b == at_least_one(dval(digits@), f as nat, e),
{
    // Leading zeros do not count.
    let mut lz: usize = 0;
    while lz < digits.len() && digits[lz] == '0'
        invariant
            lz <= digits@.len(),
            forall|j: int| 0 <= j < lz ==> digits@[j] == '0',
        decreases digits@.len() - lz,
    {
        lz += 1;
    }
    proof {
        lemma_dval_skip_zeros(digits@, lz as nat, digits@.len());
    }
    if lz == digits.len() {
        proof {
            lemma_dval_zero_prefix(digits@, digits@.len());
            lemma_powers_54();
            lemma_pow10_pos(f as nat);
            if e < 0 {
                lemma_pow10_pos(f as nat + (-e) as nat);
            }
        }
        return false;
    }
    let sig = &digits[lz..digits.len()];
    assert(sig@ == digits@.skip(lz as int));
    let n1 = sig.len();
    assert(all_digits(sig@)) by {
        assert forall|j: int| 0 <= j < sig@.len() implies dec_digit(#[trigger] sig@[j]) by {
            assert(sig@[j] == digits@[j + lz]);
        }
    }
    proof {
        lemma_decide(sig@, f as nat, e);
    }
    assert(dval(digits@) == dval(sig@));
    if mag > cap {
        return !exp_neg;
    }
    let ev: i128 = if exp_neg { -(mag as i128) } else { mag as i128 };
    assert(ev == e);
    let q: i128 = n1 as i128 + ev - f as i128;
    if q > 0 {
        return true;
    }
    if q < 0 {
        return false;
    }
    compare_with_threshold(sig)
}

/// Whether the digits `sig` (first one non-zero), read as a fraction `0.sig`,
/// are at least the threshold's.
fn compare_with_threshold(sig: &[char]) -> (b: bool)
    requires
        all_digits(sig@),
    ensures
        b == (dval(sig@) * pow10(54) >= threshold() * pow10(sig@.len())),
{
    let n1 = sig.len();
    let t = chars_of(THRESHOLD_DIGITS);
    proof {
        lemma_threshold_digits(t@);
    }
    let ghost pl = sig@ + Seq::new(54, |i: int| '0');
    let ghost pr = t@ + Seq::new(n1 as nat, |i: int| '0');
    let ghost total = n1 + 54;
    assert(all_digits(pl)) by {
        assert forall|j: int| 0 <= j < pl.len() implies dec_digit(#[trigger] pl[j]) by {
            if j < n1 {
                assert(pl[j] == sig@[j]);
            }
        }
    }
    assert(all_digits(pr)) by {
        assert forall|j: int| 0 <= j < pr.len() implies dec_digit(#[trigger] pr[j]) by {
            if j < 54 {
                assert(pr[j] == t@[j]);
            }
        }
    }
    proof {
        lemma_dval_prefix(pl, sig@, n1 as nat);
        lemma_dval_pad(pl, n1 as nat, total as nat);
        lemma_dval_prefix(pr, t@, 54);
        lemma_dval_pad(pr, 54, total as nat);
    }
    assert(dval(pl) == dval(sig@) * pow10(54));
    assert(dval(pr) == threshold() * pow10(n1 as nat));
    let mut i: usize = 0;
    while i < n1 || i < 54
        invariant
            i <= total,
            all_digits(pl),
            all_digits(pr),
            total == n1 + 54,
            pl.len() == total,
            pr.len() == total,
            n1 == sig@.len(),
            t@.len() == 54,
            pl == sig@ + Seq::new(54, |i: int| '0'),
            pr == t@ + Seq::new(n1 as nat, |i: int| '0'),
            forall|j: int| 0 <= j < i ==> pl[j] == pr[j],
            dval(pl) == dval(sig@) * pow10(54),
            dval(pr) == threshold() * pow10(n1 as nat),
        decreases total - i,
    {
        assert(i < total);
        let x = if i < n1 { sig[i] } else { '0' };
        let y = if i < 54 { t[i] } else { '0' };
        assert(x == pl[i as int]);
        assert(y == pr[i as int]);
        if x != y {
            if x > y {
                proof {
                    lemma_dval_lex(pl, pr, i as nat, total as nat);
                }
                return true;
            } else {
                proof {
                    lemma_dval_lex(pr, pl, i as nat, total as nat);
                }
                return false;
            }
        }
        i += 1;
    }
    assert forall|j: int| 0 <= j < total implies pl[j] == pr[j] by {
        if j >= i {
            assert(pl[j] == '0');
            assert(pr[j] == '0');
        }
    }
    assert(pl =~= pr);
    true
}

} // verus!
