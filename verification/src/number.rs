//! Exact decimal numbers.
//!
//! A JSON numeric literal is held as a sign, an integer significand with no
//! trailing zeros, and a power of ten, so `12.03e+3` and `12030` denote the
//! same value and compare equal.  Literals whose significand does not fit in
//! sixty-four bits, or whose decimal exponent is out of range, are rejected
//! when parsed; this bounded exact-decimal range is the library's numeric
//! fidelity policy.

use vstd::prelude::*;
use crate::chars::{
    is_digit_char, digit_val, digit_char, is_digit, digit_of, char_of_digit, lemma_digit_char_val,
};
use crate::chars;

verus! {

/// Largest admitted magnitude of the decimal exponent.
pub const EXP_BOUND: i64 = 4_611_686_018_427_387_903;

/// A number as a sign, a significand free of trailing zeros, and a power of
/// ten: the denoted value is `(-1)^neg * mant * 10^exp`.
#[derive(Clone, Copy, Debug, PartialEq, Eq, Structural)]
pub struct JSONNumber {
    /// True for negative values; zero is never negative.
    pub neg: bool,
    /// The significand.
    pub mant: u64,
    /// The decimal exponent.
    pub exp: i64,
}

impl JSONNumber {
    /// Well-formed: normalized significand, bounded exponent, no negative
    /// zero.
    pub open spec fn wf(self) -> bool {
        &&& self.mant == 0 ==> !self.neg && self.exp == 0
        &&& self.mant != 0 ==> self.mant % 10 != 0
        &&& -EXP_BOUND <= self.exp <= EXP_BOUND
    }

    /// The number zero.
    pub fn zero() -> (r: JSONNumber)
        ensures
            r == (JSONNumber { neg: false, mant: 0, exp: 0 }),
    {
        JSONNumber { neg: false, mant: 0, exp: 0 }
    }
}

/// Value of a digit string read as a decimal numeral; leading zeros are
/// allowed and do not change the value.
pub open spec fn val_of_digits(s: Seq<char>) -> int
    decreases s.len(),
{
    if s.len() == 0 {
        0
    } else {
        val_of_digits(s.drop_last()) * 10 + digit_val(s.last())
    }
}

/// The decimal digit string of `n`, without leading zeros (`0` itself is
/// the single digit `0`).
pub open spec fn digits_of(n: nat) -> Seq<char>
    decreases n,
{
    if n < 10 {
        seq![digit_char(n as int)]
    } else {
        digits_of(n / 10).push(digit_char((n % 10) as int))
    }
}

/// `k` zero characters.
pub open spec fn repeat_zeros(k: int) -> Seq<char>
    decreases k,
{
    if k <= 0 {
        Seq::empty()
    } else {
        repeat_zeros(k - 1).push('0')
    }
}

/// The digit string with its trailing zeros removed.
pub open spec fn strip_zeros(d: Seq<char>) -> Seq<char>
    decreases d.len(),
{
    if d.len() > 0 && d.last() == '0' {
        strip_zeros(d.drop_last())
    } else {
        d
    }
}

/// End of the run of digit characters that starts at `i`.
pub open spec fn digit_run_end(s: Seq<char>, i: int) -> int
    decreases s.len() - i,
{
    if i < 0 || i >= s.len() || !is_digit_char(s[i]) {
        i
    } else {
        digit_run_end(s, i + 1)
    }
}

// The positions of the parts of a numeric literal
// `-? digits ( '.' digits )? ( [eE] [+-]? digits )?`.
pub open spec fn num_neg(s: Seq<char>) -> bool {
    s.len() > 0 && s[0] == '-'
}

pub open spec fn int_start(s: Seq<char>) -> int {
    if num_neg(s) {
        1
    } else {
        0
    }
}

pub open spec fn int_end(s: Seq<char>) -> int {
    digit_run_end(s, int_start(s))
}

pub open spec fn has_frac(s: Seq<char>) -> bool {
    int_end(s) < s.len() && s[int_end(s)] == '.'
}

pub open spec fn frac_start(s: Seq<char>) -> int {
    int_end(s) + 1
}

pub open spec fn frac_end(s: Seq<char>) -> int {
    if has_frac(s) {
        digit_run_end(s, frac_start(s))
    } else {
        int_end(s)
    }
}

pub open spec fn frac_len(s: Seq<char>) -> int {
    if has_frac(s) {
        frac_end(s) - frac_start(s)
    } else {
        0
    }
}

pub open spec fn has_exp(s: Seq<char>) -> bool {
    frac_end(s) < s.len() && (s[frac_end(s)] == 'e' || s[frac_end(s)] == 'E')
}

pub open spec fn exp_neg(s: Seq<char>) -> bool {
    has_exp(s) && frac_end(s) + 1 < s.len() && s[frac_end(s) + 1] == '-'
}

pub open spec fn exp_digits_start(s: Seq<char>) -> int {
    if has_exp(s) {
        if frac_end(s) + 1 < s.len() && (s[frac_end(s) + 1] == '+' || s[frac_end(s) + 1] == '-') {
            frac_end(s) + 2
        } else {
            frac_end(s) + 1
        }
    } else {
        frac_end(s)
    }
}

pub open spec fn exp_end(s: Seq<char>) -> int {
    digit_run_end(s, exp_digits_start(s))
}

/// The literal is grammatically a number: a digit run in each present part,
/// and nothing after the last part.
pub open spec fn num_grammar_ok(s: Seq<char>) -> bool {
    &&& int_end(s) > int_start(s)
    &&& has_frac(s) ==> frac_end(s) > frac_start(s)
    &&& has_exp(s) ==> exp_end(s) > exp_digits_start(s)
    &&& exp_end(s) == s.len()
}

/// The significand digits of the literal: integer digits followed by
/// fraction digits.
pub open spec fn sig_digits(s: Seq<char>) -> Seq<char> {
    s.subrange(int_start(s), int_end(s)) + if has_frac(s) {
        s.subrange(frac_start(s), frac_end(s))
    } else {
        Seq::empty()
    }
}

/// Magnitude of the written exponent.
pub open spec fn exp_mag(s: Seq<char>) -> int {
    val_of_digits(s.subrange(exp_digits_start(s), exp_end(s)))
}

/// The decimal exponent before normalization: the written exponent minus
/// the number of fraction digits.
pub open spec fn exp_base(s: Seq<char>) -> int {
    (if exp_neg(s) {
        -exp_mag(s)
    } else {
        exp_mag(s)
    }) - frac_len(s)
}

/// The number denoted by a literal, or nothing when the literal is
/// malformed or out of the admitted range.
pub open spec fn num_of_chars(s: Seq<char>) -> Option<JSONNumber> {
    if !num_grammar_ok(s) {
        None
    } else if exp_mag(s) > i64::MAX as int {
        None
    } else {
        let digs = sig_digits(s);
        let sd = strip_zeros(digs);
        let m = val_of_digits(sd);
        let e = exp_base(s) + (digs.len() - sd.len());
        if m == 0 {
            Some(JSONNumber { neg: false, mant: 0, exp: 0 })
        } else if m > u64::MAX as int {
            None
        } else if e < -EXP_BOUND as int || e > EXP_BOUND as int {
            None
        } else {
            Some(JSONNumber { neg: num_neg(s), mant: m as u64, exp: e as i64 })
        }
    }
}

/// Compact text of a number: the significand digits with the decimal point
/// or padding zeros that the exponent calls for, and a leading minus for
/// negative values.  Integers render without a decimal point.
pub open spec fn num_chars(n: JSONNumber) -> Seq<char> {
    if n.mant == 0 {
        seq!['0']
    } else {
        let d = digits_of(n.mant as nat);
        let body = if n.exp >= 0 {
            d + repeat_zeros(n.exp as int)
        } else if d.len() > -n.exp {
            d.subrange(0, d.len() + n.exp) + seq!['.'] + d.subrange(
                d.len() + n.exp,
                d.len() as int,
            )
        } else {
            seq!['0', '.'] + repeat_zeros(-n.exp - d.len()) + d
        };
        if n.neg {
            seq!['-'] + body
        } else {
            body
        }
    }
}

pub proof fn lemma_digit_run(s: Seq<char>, i: int)
    requires
        0 <= i <= s.len(),
    ensures
        i <= digit_run_end(s, i) <= s.len(),
        forall|j: int| i <= j < digit_run_end(s, i) ==> is_digit_char(#[trigger] s[j]),
        digit_run_end(s, i) < s.len() ==> !is_digit_char(s[digit_run_end(s, i)]),
    decreases s.len() - i,
{
    if i < s.len() && is_digit_char(s[i]) {
        lemma_digit_run(s, i + 1);
    }
}

/// A digit run is exactly the interval its end-point witnesses.
pub proof fn lemma_digit_run_exact(s: Seq<char>, i: int, j: int)
    requires
        0 <= i <= j <= s.len(),
        forall|t: int| i <= t < j ==> is_digit_char(#[trigger] s[t]),
        j < s.len() ==> !is_digit_char(s[j]),
    ensures
        digit_run_end(s, i) == j,
    decreases j - i,
{
    if i < j {
        lemma_digit_run_exact(s, i + 1, j);
    }
}

pub proof fn lemma_val_nonneg(s: Seq<char>)
    requires
        forall|j: int| 0 <= j < s.len() ==> is_digit_char(#[trigger] s[j]),
    ensures
        val_of_digits(s) >= 0,
    decreases s.len(),
{
    if s.len() > 0 {
        lemma_val_nonneg(s.drop_last());
    }
}

/// Extending a digit string to the right can only grow its value.
pub proof fn lemma_val_prefix(s: Seq<char>, i: int)
    requires
        0 <= i <= s.len(),
        forall|j: int| 0 <= j < s.len() ==> is_digit_char(#[trigger] s[j]),
    ensures
        val_of_digits(s.subrange(0, i)) <= val_of_digits(s),
    decreases s.len() - i,
{
    if i == s.len() {
        assert(s.subrange(0, i) =~= s);
    } else {
        lemma_val_prefix(s, i + 1);
        let t = s.subrange(0, i + 1);
        assert(t.drop_last() =~= s.subrange(0, i));
        lemma_val_nonneg(s.subrange(0, i));
    }
}

pub proof fn lemma_val_zeros(z: Seq<char>)
    requires
        forall|j: int| 0 <= j < z.len() ==> #[trigger] z[j] == '0',
    ensures
        val_of_digits(z) == 0,
    decreases z.len(),
{
    if z.len() > 0 {
        lemma_val_zeros(z.drop_last());
    }
}

/// Leading zeros do not change the value of a numeral.
pub proof fn lemma_val_leading_zeros(z: Seq<char>, s: Seq<char>)
    requires
        forall|j: int| 0 <= j < z.len() ==> #[trigger] z[j] == '0',
    ensures
        val_of_digits(z + s) == val_of_digits(s),
    decreases s.len(),
{
    if s.len() == 0 {
        assert(z + s =~= z);
        lemma_val_zeros(z);
    } else {
        lemma_val_leading_zeros(z, s.drop_last());
        assert((z + s).drop_last() =~= z + s.drop_last());
        assert((z + s).last() == s.last());
    }
}

pub proof fn lemma_digits_of_props(n: nat)
    ensures
        digits_of(n).len() >= 1,
        forall|j: int| 0 <= j < digits_of(n).len() ==> is_digit_char(#[trigger] digits_of(n)[j]),
        digits_of(n).last() == digit_char((n % 10) as int),
        n >= 1 ==> digits_of(n)[0] != '0',
    decreases n,
{
    lemma_digit_char_val((n % 10) as int);
    if n < 10 {
        assert(n % 10 == n) by (nonlinear_arith)
            requires
                n < 10,
        ;
    } else {
        lemma_digits_of_props(n / 10);
        assert(n / 10 >= 1) by (nonlinear_arith)
            requires
                n >= 10,
        ;
        assert(digits_of(n) == digits_of(n / 10).push(digit_char((n % 10) as int)));
        assert(digits_of(n)[0] == digits_of(n / 10)[0]);
    }
}

/// Reading back the digit string of `n` yields `n`.
pub proof fn lemma_val_digits_roundtrip(n: nat)
    ensures
        val_of_digits(digits_of(n)) == n,
    decreases n,
{
    if n < 10 {
        lemma_digit_char_val(n as int);
        let d = digits_of(n);
        assert(d == seq![digit_char(n as int)]);
        assert(d.drop_last() =~= Seq::<char>::empty());
        assert(d.last() == digit_char(n as int));
        assert(val_of_digits(d) == val_of_digits(d.drop_last()) * 10 + digit_val(d.last()));
        assert(val_of_digits(d.drop_last()) == 0);
        assert(digit_val(digit_char(n as int)) == n);
    } else {
        lemma_val_digits_roundtrip(n / 10);
        lemma_digit_char_val((n % 10) as int);
        let d = digits_of(n / 10).push(digit_char((n % 10) as int));
        assert(d.drop_last() =~= digits_of(n / 10));
        assert(val_of_digits(d) == (n / 10) * 10 + n % 10);
        assert((n / 10) * 10 + n % 10 == n) by (nonlinear_arith);
    }
}

pub proof fn lemma_repeat_zeros(k: int)
    ensures
        repeat_zeros(k).len() == if k <= 0 { 0int } else { k },
        forall|j: int| 0 <= j < repeat_zeros(k).len() ==> #[trigger] repeat_zeros(k)[j] == '0',
    decreases k,
{
    if k > 0 {
        lemma_repeat_zeros(k - 1);
    }
}

/// Stripping decomposes a digit string into its stripped form plus the
/// removed zeros.
pub proof fn lemma_strip_props(d: Seq<char>)
    ensures
        strip_zeros(d).len() <= d.len(),
        strip_zeros(d) =~= d.subrange(0, strip_zeros(d).len() as int),
        strip_zeros(d).len() > 0 ==> strip_zeros(d).last() != '0',
        forall|j: int| strip_zeros(d).len() <= j < d.len() ==> #[trigger] d[j] == '0',
    decreases d.len(),
{
    if d.len() > 0 && d.last() == '0' {
        lemma_strip_props(d.drop_last());
        assert(strip_zeros(d) == strip_zeros(d.drop_last()));
        assert(d.drop_last().subrange(0, strip_zeros(d).len() as int) =~= d.subrange(
            0,
            strip_zeros(d).len() as int,
        ));
        assert forall|j: int| strip_zeros(d).len() <= j < d.len() implies #[trigger] d[j]
            == '0' by {
            if j < d.len() - 1 {
                assert(d.drop_last()[j] == '0');
            }
        }
    }
}

/// Appending zeros and stripping them back is the identity on a string that
/// does not end in zero.
pub proof fn lemma_strip_appended_zeros(s: Seq<char>, k: int)
    requires
        s.len() == 0 || s.last() != '0',
        k >= 0,
    ensures
        strip_zeros(s + repeat_zeros(k)) == s,
    decreases k,
{
    lemma_repeat_zeros(k);
    if k == 0 {
        assert(s + repeat_zeros(0) =~= s);
        if s.len() > 0 {
            assert(strip_zeros(s) == s);
        }
    } else {
        lemma_strip_appended_zeros(s, k - 1);
        let w = s + repeat_zeros(k);
        assert(w.last() == '0');
        assert(w.drop_last() =~= s + repeat_zeros(k - 1));
    }
}

/// A numeral that does not end in zero has a value that does not end in
/// zero either.
pub proof fn lemma_val_last_digit(s: Seq<char>)
    requires
        s.len() > 0,
        forall|j: int| 0 <= j < s.len() ==> is_digit_char(#[trigger] s[j]),
        s.last() != '0',
    ensures
        val_of_digits(s) % 10 == digit_val(s.last()),
        val_of_digits(s) % 10 != 0,
        val_of_digits(s) > 0,
{
    lemma_val_nonneg(s.drop_last());
    let p = val_of_digits(s.drop_last());
    let d = digit_val(s.last());
    assert(0 < d < 10);
    assert((p * 10 + d) % 10 == d) by (nonlinear_arith)
        requires
            p >= 0 && 0 < d < 10,
    ;
    assert(p * 10 + d > 0) by (nonlinear_arith)
        requires
            p >= 0 && d > 0,
    ;
}

impl JSONNumber {
    /// Parses the characters of a numeric literal; `None` when the literal
    /// is malformed or out of the admitted range.
    #[verifier::rlimit(100)]
    pub fn from_chars(v: &Vec<char>) -> (r: Option<JSONNumber>)
        ensures
            r == num_of_chars(v@),
            r matches Some(m) ==> m.wf(),
    {
        let ghost s = v@;
        let n = v.len();
        let neg = n > 0 && v[0] == '-';
        proof {
            assert(neg == num_neg(s));
        }
        let i0: usize = if neg {
            1
        } else {
            0
        };
        // Integer digit run.
        let mut p: usize = i0;
        while p < n && is_digit(v[p])
            invariant
                v@ == s,
                n == s.len(),
                i0 <= p <= n,
                forall|t: int| i0 <= t < p ==> is_digit_char(#[trigger] s[t]),
            decreases n - p,
        {
            p = p + 1;
        }
        proof {
            lemma_digit_run_exact(s, i0 as int, p as int);
            assert(int_end(s) == p);
        }
        if p == i0 {
            return None;
        }
        // The significand digits, integer part first.
        let mut digs: Vec<char> = Vec::new();
        let mut j: usize = i0;
        while j < p
            invariant
                v@ == s,
                n == s.len(),
                i0 <= j <= p <= n,
                digs@ == s.subrange(i0 as int, j as int),
            decreases p - j,
        {
            digs.push(v[j]);
            j = j + 1;
            proof {
                assert(digs@ =~= s.subrange(i0 as int, j as int));
            }
        }
        // Fraction digits.
        let mut fl: usize = 0;
        if p < n && v[p] == '.' {
            let fs = p + 1;
            let mut q: usize = fs;
            while q < n && is_digit(v[q])
                invariant
                    v@ == s,
                    n == s.len(),
                    fs <= q <= n,
                    forall|t: int| fs <= t < q ==> is_digit_char(#[trigger] s[t]),
                decreases n - q,
            {
                q = q + 1;
            }
            proof {
                lemma_digit_run_exact(s, fs as int, q as int);
                assert(has_frac(s));
                assert(frac_end(s) == q);
            }
            if q == fs {
                return None;
            }
            let mut t: usize = fs;
            while t < q
                invariant
                    v@ == s,
                    n == s.len(),
                    fs <= t <= q <= n,
                    digs@ == s.subrange(i0 as int, p as int) + s.subrange(fs as int, t as int),
                decreases q - t,
            {
                digs.push(v[t]);
                t = t + 1;
                proof {
                    assert(digs@ =~= s.subrange(i0 as int, p as int) + s.subrange(
                        fs as int,
                        t as int,
                    ));
                }
            }
            fl = q - fs;
            p = q;
        } else {
            proof {
                assert(!has_frac(s));
                assert(digs@ =~= s.subrange(i0 as int, int_end(s)) + Seq::<char>::empty());
            }
        }
        proof {
            assert(digs@ == sig_digits(s));
            assert(fl == frac_len(s));
            assert(p == frac_end(s));
        }
        // Exponent part.
        let mut eneg = false;
        let mut emag: u64 = 0;
        if p < n && (v[p] == 'e' || v[p] == 'E') {
            proof {
                assert(has_exp(s));
            }
            let mut es = p + 1;
            if es < n && (v[es] == '+' || v[es] == '-') {
                eneg = v[es] == '-';
                es = es + 1;
            }
            proof {
                assert(es == exp_digits_start(s));
                assert(eneg == exp_neg(s));
            }
            let mut q: usize = es;
            while q < n && is_digit(v[q])
                invariant
                    v@ == s,
                    n == s.len(),
                    es <= q <= n,
                    es == exp_digits_start(s),
                    forall|t: int| es <= t < q ==> is_digit_char(#[trigger] s[t]),
                    emag == val_of_digits(s.subrange(es as int, q as int)),
                decreases n - q,
            {
                let d = digit_of(v[q]);
                let step = match emag.checked_mul(10) {
                    Some(x) => x.checked_add(d),
                    None => None,
                };
                match step {
                    Some(y) => {
                        proof {
                            let pre = s.subrange(es as int, q as int);
                            let ext = s.subrange(es as int, q + 1);
                            assert(ext.drop_last() =~= pre);
                            assert(ext.last() == s[q as int]);
                        }
                        emag = y;
                        q = q + 1;
                    },
                    None => {
                        // The written exponent exceeds the admitted range:
                        // the rest of the run can only make it larger.
                        proof {
                            lemma_digit_run(s, es as int);
                            let run = digit_run_end(s, es as int);
                            assert(q < run) by {
                                if run <= q {
                                    assert(!is_digit_char(s[run]));
                                }
                            }
                            let w = s.subrange(es as int, run);
                            lemma_val_prefix(w, q + 1 - es);
                            assert(w.subrange(0, q + 1 - es) =~= s.subrange(es as int, q + 1));
                            let pre = s.subrange(es as int, q as int);
                            let ext = s.subrange(es as int, q + 1);
                            assert(ext.drop_last() =~= pre);
                            assert(ext.last() == s[q as int]);
                            assert(val_of_digits(ext) > u64::MAX as int);
                            assert(exp_end(s) == run);
                            assert(exp_mag(s) > i64::MAX as int);
                        }
                        return None;
                    },
                }
            }
            proof {
                lemma_digit_run_exact(s, es as int, q as int);
                assert(exp_end(s) == q);
            }
            if q == es {
                return None;
            }
            p = q;
            if emag > i64::MAX as u64 {
                return None;
            }
        } else {
            proof {
                assert(!has_exp(s));
                assert(exp_digits_start(s) == frac_end(s));
                lemma_digit_run_exact(s, frac_end(s), frac_end(s));
                assert(exp_end(s) == frac_end(s));
                assert(s.subrange(frac_end(s), frac_end(s)) =~= Seq::<char>::empty());
                assert(emag == exp_mag(s));
            }
        }
        proof {
            assert(eneg == exp_neg(s));
            assert(emag == exp_mag(s));
            assert(p == exp_end(s));
        }
        if p != n {
            return None;
        }
        proof {
            assert(num_grammar_ok(s));
            lemma_digit_run(s, int_start(s));
            if has_frac(s) {
                lemma_digit_run(s, frac_start(s));
            }
            assert(forall|t: int|
                0 <= t < sig_digits(s).len() ==> is_digit_char(#[trigger] sig_digits(s)[t]));
        }
        // Normalize: drop trailing zeros of the significand into the
        // exponent.
        let ghost digs0 = digs@;
        let mut z: usize = 0;
        while digs.len() > 0 && digs[digs.len() - 1] == '0'
            invariant
                strip_zeros(digs0) == strip_zeros(digs@),
                digs0.len() <= usize::MAX,
                digs0.len() == digs@.len() + z,
                digs@ =~= digs0.subrange(0, digs@.len() as int),
            decreases digs@.len(),
        {
            proof {
                assert(strip_zeros(digs@) == strip_zeros(digs@.drop_last()));
            }
            digs.pop();
            z = z + 1;
            proof {
                assert(digs@ =~= digs0.subrange(0, digs@.len() as int));
            }
        }
        proof {
            assert(strip_zeros(digs@) == digs@);
            assert(digs@ == strip_zeros(digs0));
            lemma_strip_props(digs0);
        }
        if digs.len() == 0 {
            proof {
                assert(val_of_digits(strip_zeros(sig_digits(s))) == 0);
            }
            return Some(Self::zero());
        }
        // The significand value.
        let ghost sd = digs@;
        let mut m: u64 = 0;
        let mut t: usize = 0;
        proof {
            assert(sd.subrange(0, 0) =~= Seq::<char>::empty());
            assert(forall|u: int| 0 <= u < sd.len() ==> is_digit_char(#[trigger] sd[u]));
        }
        while t < digs.len()
            invariant
                digs@ == sd,
                t <= sd.len(),
                s == v@,
                num_grammar_ok(s),
                sd == strip_zeros(sig_digits(s)),
                exp_mag(s) <= i64::MAX as int,
                forall|u: int| 0 <= u < sd.len() ==> is_digit_char(#[trigger] sd[u]),
                m == val_of_digits(sd.subrange(0, t as int)),
            decreases sd.len() - t,
        {
            let d = digit_of(digs[t]);
            let step = match m.checked_mul(10) {
                Some(x) => x.checked_add(d),
                None => None,
            };
            match step {
                Some(y) => {
                    proof {
                        let pre = sd.subrange(0, t as int);
                        let ext = sd.subrange(0, t + 1);
                        assert(ext.drop_last() =~= pre);
                        assert(ext.last() == sd[t as int]);
                    }
                    m = y;
                    t = t + 1;
                },
                None => {
                    proof {
                        let pre = sd.subrange(0, t as int);
                        let ext = sd.subrange(0, t + 1);
                        assert(ext.drop_last() =~= pre);
                        assert(ext.last() == sd[t as int]);
                        assert(val_of_digits(ext) > u64::MAX as int);
                        lemma_val_prefix(sd, t + 1);
                        assert(val_of_digits(sd) > u64::MAX as int);
                        lemma_val_nonneg(sd);
                        assert(sd == strip_zeros(sig_digits(s)));
                        assert(num_grammar_ok(s));
                        assert(exp_mag(s) <= i64::MAX as int);
                        assert(num_of_chars(s) is None);
                    }
                    return None;
                },
            }
        }
        proof {
            assert(sd.subrange(0, sd.len() as int) =~= sd);
            assert(m == val_of_digits(sd));
            lemma_val_last_digit(sd);
        }
        // The decimal exponent.
        let e1: i64 = if eneg {
            -(emag as i64)
        } else {
            emag as i64
        };
        let e: i128 = e1 as i128 - fl as i128 + z as i128;
        if e < -(EXP_BOUND as i128) || e > EXP_BOUND as i128 {
            return None;
        }
        proof {
            assert(e == exp_base(s) + (digs0.len() - sd.len()));
        }
        Some(JSONNumber { neg, mant: m, exp: e as i64 })
    }
}

/// Ten to the power `k`.
pub open spec fn pow10(k: nat) -> int
    decreases k,
{
    if k == 0 {
        1
    } else {
        10 * pow10((k - 1) as nat)
    }
}

pub proof fn lemma_pow10_ge(k: nat)
    ensures
        pow10(k) >= k + 1,
    decreases k,
{
    if k > 0 {
        lemma_pow10_ge((k - 1) as nat);
    }
}

pub proof fn lemma_pow10_monotone(a: nat, b: nat)
    requires
        a <= b,
    ensures
        pow10(a) <= pow10(b),
    decreases b,
{
    lemma_pow10_ge(a);
    if a < b {
        lemma_pow10_monotone(a, (b - 1) as nat);
    }
}

pub proof fn lemma_pow10_20()
    ensures
        pow10(20) > u64::MAX as int,
{
    reveal_with_fuel(pow10, 21);
}

/// Repeated removal of trailing zero digits; zero itself normalizes to
/// `(0, 0)`.
pub open spec fn norm_decimal(m: nat, e: int) -> (nat, int)
    decreases m,
{
    if m == 0 {
        (0nat, 0int)
    } else if m % 10 == 0 {
        norm_decimal(m / 10, e + 1)
    } else {
        (m, e)
    }
}

/// The number denoting a given integer.
pub open spec fn num_of_int(v: int) -> JSONNumber {
    if v == 0 {
        JSONNumber { neg: false, mant: 0, exp: 0 }
    } else {
        let mag = if v < 0 {
            (-v) as nat
        } else {
            v as nat
        };
        let me = norm_decimal(mag, 0);
        JSONNumber { neg: v < 0, mant: me.0 as u64, exp: me.1 as i64 }
    }
}

/// Appends the digit characters of `m` to `out`.
pub(crate) fn push_digits(m: u64, out: &mut Vec<char>)
    ensures
        final(out)@ == old(out)@ + digits_of(m as nat),
    decreases m,
{
    if m < 10 {
        out.push(char_of_digit(m));
        proof {
            assert(out@ =~= old(out)@ + digits_of(m as nat));
        }
    } else {
        push_digits(m / 10, out);
        out.push(char_of_digit(m % 10));
        proof {
            assert(out@ =~= old(out)@ + digits_of(m as nat));
        }
    }
}

/// Appends `k` zero characters to `out`.
fn push_zeros(k: u64, out: &mut Vec<char>)
    ensures
        final(out)@ == old(out)@ + repeat_zeros(k as int),
{
    let mut i: u64 = 0;
    while i < k
        invariant
            i <= k,
            out@ == old(out)@ + repeat_zeros(i as int),
        decreases k - i,
    {
        out.push('0');
        i = i + 1;
    }
}

impl JSONNumber {
    /// The compact text of the number, as characters.
    pub fn to_chars(&self) -> (r: Vec<char>)
        requires
            self.wf(),
        ensures
            r@ == num_chars(*self),
    {
        if self.mant == 0 {
            let mut out: Vec<char> = Vec::new();
            out.push('0');
            proof {
                assert(out@ =~= seq!['0']);
            }
            return out;
        }
        let mut out: Vec<char> = Vec::new();
        if self.neg {
            out.push('-');
        }
        let ghost lead = out@;
        let ghost d = digits_of(self.mant as nat);
        if self.exp >= 0 {
            push_digits(self.mant, &mut out);
            push_zeros(self.exp as u64, &mut out);
            proof {
                assert(out@ =~= lead + (d + repeat_zeros(self.exp as int)));
                assert(out@ =~= num_chars(*self));
            }
        } else {
            let k = (-self.exp) as u64;
            let mut dv: Vec<char> = Vec::new();
            push_digits(self.mant, &mut dv);
            proof {
                assert(dv@ == d);
            }
            if (dv.len() as u64) > k {
                let cut = dv.len() - (k as usize);
                let mut i: usize = 0;
                while i < cut
                    invariant
                        cut <= dv@.len(),
                        i <= cut,
                        dv@ == d,
                        out@ == lead + d.subrange(0, i as int),
                    decreases cut - i,
                {
                    out.push(dv[i]);
                    i = i + 1;
                    proof {
                        assert(out@ =~= lead + d.subrange(0, i as int));
                    }
                }
                out.push('.');
                let ghost mid = out@;
                while i < dv.len()
                    invariant
                        cut <= i <= dv@.len(),
                        dv@ == d,
                        mid == lead + d.subrange(0, cut as int) + seq!['.'],
                        out@ == mid + d.subrange(cut as int, i as int),
                    decreases dv@.len() - i,
                {
                    out.push(dv[i]);
                    i = i + 1;
                    proof {
                        assert(out@ =~= mid + d.subrange(cut as int, i as int));
                    }
                }
                proof {
                    assert(d.subrange(cut as int, d.len() as int) == d.subrange(
                        d.len() + self.exp,
                        d.len() as int,
                    ));
                    assert(out@ =~= lead + (d.subrange(0, d.len() + self.exp) + seq!['.']
                        + d.subrange(d.len() + self.exp, d.len() as int)));
                    assert(out@ =~= num_chars(*self));
                }
            } else {
                out.push('0');
                out.push('.');
                let ghost mid = out@;
                proof {
                    assert(mid =~= lead + seq!['0', '.']);
                }
                push_zeros(k - (dv.len() as u64), &mut out);
                let mut i: usize = 0;
                let ghost mid2 = out@;
                while i < dv.len()
                    invariant
                        i <= dv@.len(),
                        dv@ == d,
                        out@ == mid2 + d.subrange(0, i as int),
                    decreases dv@.len() - i,
                {
                    out.push(dv[i]);
                    i = i + 1;
                    proof {
                        assert(out@ =~= mid2 + d.subrange(0, i as int));
                    }
                }
                proof {
                    assert(d.subrange(0, d.len() as int) =~= d);
                    assert(out@ =~= lead + (seq!['0', '.'] + repeat_zeros(-self.exp - d.len())
                        + d));
                    assert(out@ =~= num_chars(*self));
                }
            }
        }
        out
    }

    /// The compact text of the number.
    pub fn to_text(&self) -> (r: String)
        requires
            self.wf(),
        ensures
            r@ == num_chars(*self),
    {
        let cv = self.to_chars();
        chars::string_of(&cv)
    }

    /// The number denoting an integer.
    pub fn from_i64(v: i64) -> (r: JSONNumber)
        ensures
            r == num_of_int(v as int),
            r.wf(),
    {
        if v == 0 {
            return Self::zero();
        }
        let neg = v < 0;
        let mag: u64 = if neg {
            (-(v as i128)) as u64
        } else {
            v as u64
        };
        let mut m: u64 = mag;
        let mut e: i64 = 0;
        while m % 10 == 0
            invariant
                1 <= m <= mag,
                0 <= e,
                m as int * pow10(e as nat) == mag as int,
                norm_decimal(m as nat, e as int) == norm_decimal(mag as nat, 0),
            decreases m,
        {
            proof {
                lemma_pow10_ge(e as nat);
                assert(pow10(e as nat) <= mag as int) by (nonlinear_arith)
                    requires
                        m as int * pow10(e as nat) == mag as int && m >= 1 && pow10(e as nat) >= 1,
                ;
                if e >= 20 {
                    lemma_pow10_monotone(20, e as nat);
                    lemma_pow10_20();
                    assert(false);
                }
                assert((m as int / 10) * 10 == m as int) by (nonlinear_arith)
                    requires
                        m as int % 10 == 0 && m >= 1,
                ;
                assert((m as int / 10) * pow10((e + 1) as nat) == mag as int) by (nonlinear_arith)
                    requires
                        (m as int / 10) * 10 == m as int && m as int * pow10(e as nat)
                            == mag as int && pow10((e + 1) as nat) == 10 * pow10(e as nat),
                ;
            }
            m = m / 10;
            e = e + 1;
        }
        proof {
            lemma_pow10_ge(e as nat);
            assert(pow10(e as nat) <= mag as int) by (nonlinear_arith)
                requires
                    m as int * pow10(e as nat) == mag as int && m >= 1 && pow10(e as nat) >= 1,
            ;
            if e >= 20 {
                lemma_pow10_monotone(20, e as nat);
                lemma_pow10_20();
                assert(false);
            }
        }
        JSONNumber { neg, mant: m, exp: e }
    }
}

/// The integer part of the denoted value, truncated toward zero and
/// saturated to the sixty-four-bit signed range.
pub open spec fn trunc_spec(n: JSONNumber) -> int {
    let mag = if n.exp >= 0 {
        n.mant * pow10(n.exp as nat)
    } else {
        n.mant as int / pow10((-n.exp) as nat)
    };
    let v = if n.neg {
        -mag
    } else {
        mag
    };
    if v < i64::MIN as int {
        i64::MIN as int
    } else if v > i64::MAX as int {
        i64::MAX as int
    } else {
        v
    }
}

impl JSONNumber {
    /// The denoted value truncated toward zero, saturating at the signed
    /// sixty-four-bit bounds.
    #[verifier::rlimit(100)]
    pub fn trunc_i64(&self) -> (r: i64)
        requires
            self.exp != i64::MIN,
        ensures
            r as int == trunc_spec(*self),
    {
        let n = *self;
        if n.mant == 0 {
            proof {
                lemma_pow10_ge(if n.exp >= 0 {
                    n.exp as nat
                } else {
                    (-n.exp) as nat
                });
                if n.exp >= 0 {
                    assert(n.mant * pow10(n.exp as nat) == 0) by (nonlinear_arith)
                        requires
                            n.mant == 0,
                    ;
                } else {
                    vstd::arithmetic::div_mod::lemma_basic_div(0, pow10((-n.exp) as nat));
                }
            }
            return 0;
        }
        if n.exp >= 0 {
            let mut acc: u64 = n.mant;
            let mut k: i64 = n.exp;
            while k > 0
                invariant
                    n == *self,
                    0 <= k <= n.exp,
                    acc >= 1,
                    n.mant >= 1,
                    acc * pow10(k as nat) == n.mant * pow10(n.exp as nat),
                decreases k,
            {
                match acc.checked_mul(10) {
                    Some(x) => {
                        proof {
                            assert(pow10(k as nat) == 10 * pow10((k - 1) as nat));
                            assert((acc * 10) * pow10((k - 1) as nat) == acc * pow10(k as nat))
                                by (nonlinear_arith)
                                requires
                                    pow10(k as nat) == 10 * pow10((k - 1) as nat),
                            ;
                        }
                        acc = x;
                        k = k - 1;
                    },
                    None => {
                        // Overflow: the true product is past the signed
                        // range in either direction.
                        proof {
                            lemma_pow10_ge((k - 1) as nat);
                            assert(pow10(k as nat) == 10 * pow10((k - 1) as nat));
                            assert(acc * pow10(k as nat) >= acc * 10) by (nonlinear_arith)
                                requires
                                    pow10(k as nat) == 10 * pow10((k - 1) as nat) && pow10(
                                        (k - 1) as nat,
                                    ) >= 1 && acc >= 1,
                            ;
                            assert(acc * 10 > u64::MAX);
                            assert(n.mant * pow10(n.exp as nat) > u64::MAX as int);
                        }
                        if n.neg {
                            return i64::MIN;
                        } else {
                            return i64::MAX;
                        }
                    },
                }
            }
            proof {
                assert(pow10(0) == 1);
                assert(acc as int == n.mant * pow10(n.exp as nat));
            }
            if n.neg {
                if acc >= 9223372036854775808u64 {
                    i64::MIN
                } else {
                    -(acc as i64)
                }
            } else {
                if acc > i64::MAX as u64 {
                    i64::MAX
                } else {
                    acc as i64
                }
            }
        } else {
            let mut acc: u64 = n.mant;
            let mut k: i64 = -n.exp;
            let ghost kk = -n.exp;
            while k > 0 && acc > 0
                invariant
                    n == *self,
                    kk == -n.exp,
                    n.exp < 0,
                    0 <= k <= kk,
                    acc as int == n.mant as int / pow10((kk - k) as nat),
                decreases k,
            {
                proof {
                    lemma_pow10_ge((kk - k) as nat);
                    vstd::arithmetic::div_mod::lemma_div_denominator(
                        n.mant as int,
                        pow10((kk - k) as nat),
                        10,
                    );
                    assert(pow10((kk - k) as nat) * 10 == pow10((kk - k + 1) as nat));
                }
                acc = acc / 10;
                k = k - 1;
            }
            if acc == 0 {
                proof {
                    lemma_pow10_ge((kk - k) as nat);
                    lemma_pow10_monotone((kk - k) as nat, kk as nat);
                    assert(n.mant as int / pow10(kk as nat) == 0) by {
                        assert(n.mant as int / pow10((kk - k) as nat) == 0);
                        vstd::arithmetic::div_mod::lemma_fundamental_div_mod(
                            n.mant as int,
                            pow10((kk - k) as nat),
                        );
                        vstd::arithmetic::div_mod::lemma_mod_division_less_than_divisor(
                            n.mant as int,
                            pow10((kk - k) as nat),
                        );
                        assert(n.mant < pow10((kk - k) as nat));
                        vstd::arithmetic::div_mod::lemma_basic_div(n.mant as int, pow10(kk as nat));
                    }
                }
                return 0;
            }
            proof {
                assert(acc as int == n.mant as int / pow10(kk as nat));
                lemma_pow10_ge(kk as nat);
                assert(kk >= 1);
                vstd::arithmetic::div_mod::lemma_div_nonincreasing(n.mant as int, pow10(kk as nat));
                vstd::arithmetic::div_mod::lemma_div_pos_is_pos(n.mant as int, pow10(kk as nat));
                assert(acc as int <= n.mant as int / 10) by {
                    vstd::arithmetic::div_mod::lemma_div_denominator(n.mant as int, 10, pow10(kk as nat) / 10);
                    lemma_pow10_monotone(1, kk as nat);
                    assert(pow10(1) == 10);
                    vstd::arithmetic::div_mod::lemma_div_is_ordered_by_denominator(
                        n.mant as int,
                        10,
                        pow10(kk as nat),
                    );
                }
                assert(n.mant as int / 10 < 9223372036854775808) by (nonlinear_arith)
                    requires
                        n.mant <= u64::MAX,
                ;
            }
            if n.neg {
                -(acc as i64)
            } else {
                acc as i64
            }
        }
    }
}

/// A run of digits is unmoved by appending a non-digit.
pub proof fn lemma_digit_run_extend(w: Seq<char>, c: char, i: int)
    requires
        0 <= i <= w.len(),
        !is_digit_char(c),
    ensures
        digit_run_end(w.push(c), i) == digit_run_end(w, i),
{
    lemma_digit_run(w, i);
    let j = digit_run_end(w, i);
    assert(forall|t: int| 0 <= t < w.len() ==> #[trigger] w.push(c)[t] == w[t]);
    assert(w.push(c)[w.len() as int] == c);
    lemma_digit_run_exact(w.push(c), i, j);
}

/// The rendered text of a number holds only digits, a minus and a point,
/// and starts with a digit or a minus.
pub proof fn lemma_num_chars_shape(n: JSONNumber)
    requires
        n.wf(),
    ensures
        num_chars(n).len() >= 1,
        is_digit_char(num_chars(n)[0]) || num_chars(n)[0] == '-',
        forall|j: int|
            0 <= j < num_chars(n).len() ==> (is_digit_char(#[trigger] num_chars(n)[j])
                || num_chars(n)[j] == '-' || num_chars(n)[j] == '.'),
{
    let s = num_chars(n);
    if n.mant == 0 {
        assert(s == seq!['0']);
    } else {
        let d = digits_of(n.mant as nat);
        let l = d.len() as int;
        lemma_digits_of_props(n.mant as nat);
        let off: int = if n.neg {
            1
        } else {
            0
        };
        if n.exp >= 0 {
            lemma_repeat_zeros(n.exp as int);
            let body = d + repeat_zeros(n.exp as int);
            assert(forall|j: int| off <= j < s.len() ==> #[trigger] s[j] == body[j - off]);
            assert(forall|j: int|
                0 <= j < body.len() ==> is_digit_char(#[trigger] body[j]));
        } else if l > -n.exp {
            let body = d.subrange(0, l + n.exp) + seq!['.'] + d.subrange(l + n.exp, l);
            assert(forall|j: int| off <= j < s.len() ==> #[trigger] s[j] == body[j - off]);
            assert(forall|j: int|
                0 <= j < body.len() ==> (is_digit_char(#[trigger] body[j]) || body[j] == '.'));
        } else {
            lemma_repeat_zeros(-n.exp - l);
            let body = seq!['0', '.'] + repeat_zeros(-n.exp - l) + d;
            assert(forall|j: int| off <= j < s.len() ==> #[trigger] s[j] == body[j - off]);
            assert(forall|j: int|
                0 <= j < body.len() ==> (is_digit_char(#[trigger] body[j]) || body[j] == '.'));
        }
    }
}

/// A digit character is never a sign, a point, or an exponent marker.
proof fn lemma_digit_char_shape(c: char)
    requires
        is_digit_char(c),
    ensures
        c != '-' && c != '.' && c != 'e' && c != 'E' && c != '+',
{
}

/// Parsing the rendered text of a well-formed number yields that number
/// again: serialization loses nothing.
/// One case of the number round trip: a nonnegative exponent renders as an integer.
#[verifier::rlimit(100)]
proof fn lemma_round_trip_grown(n: JSONNumber)
    requires
        n.wf(),
        n.mant != 0,
        n.exp >= 0,
    ensures
        num_of_chars(num_chars(n)) == Some(n),
{
    let s = num_chars(n);
    let d = digits_of(n.mant as nat);
    let l = d.len() as int;
    lemma_digits_of_props(n.mant as nat);
    lemma_val_digits_roundtrip(n.mant as nat);
    assert(n.mant as nat % 10 != 0);
    lemma_digit_char_val((n.mant as nat % 10) as int);
    assert(digit_val(d.last()) != 0);
    assert(d.last() != '0');
    let off: int = if n.neg {
        1
    } else {
        0
    };
    assert(n.neg ==> s[0] == '-');
        let body = d + repeat_zeros(n.exp as int);
        lemma_repeat_zeros(n.exp as int);
        assert(forall|j: int| 0 <= j < body.len() ==> is_digit_char(#[trigger] body[j]));
        assert(forall|j: int| off <= j < s.len() ==> #[trigger] s[j] == body[j - off]);
        if !n.neg {
            lemma_digit_char_shape(s[0]);
        }
        assert(num_neg(s) == n.neg);
        assert(int_start(s) == off);
        lemma_digit_run_exact(s, off, s.len() as int);
        assert(int_end(s) == s.len());
        assert(!has_frac(s) && !has_exp(s));
        lemma_digit_run_exact(s, s.len() as int, s.len() as int);
        assert(exp_end(s) == s.len());
        assert(num_grammar_ok(s));
        assert(s.subrange(s.len() as int, s.len() as int) =~= Seq::<char>::empty());
        assert(exp_mag(s) == 0);
        assert(frac_len(s) == 0);
        assert(exp_base(s) == 0);
        let digs = sig_digits(s);
        assert(digs =~= body);
        lemma_strip_appended_zeros(d, n.exp as int);
        assert(strip_zeros(digs) == d);
        assert(val_of_digits(strip_zeros(digs)) == n.mant);
        assert(digs.len() - strip_zeros(digs).len() == n.exp);
        assert(num_of_chars(s) == Some(n));
}

/// One case of the number round trip: a negative exponent that splits the digits around a point.
#[verifier::rlimit(100)]
proof fn lemma_round_trip_split(n: JSONNumber)
    requires
        n.wf(),
        n.mant != 0,
        n.exp < 0 && digits_of(n.mant as nat).len() as int > -n.exp,
    ensures
        num_of_chars(num_chars(n)) == Some(n),
{
    let s = num_chars(n);
    let d = digits_of(n.mant as nat);
    let l = d.len() as int;
    lemma_digits_of_props(n.mant as nat);
    lemma_val_digits_roundtrip(n.mant as nat);
    assert(n.mant as nat % 10 != 0);
    lemma_digit_char_val((n.mant as nat % 10) as int);
    assert(digit_val(d.last()) != 0);
    assert(d.last() != '0');
    let off: int = if n.neg {
        1
    } else {
        0
    };
    assert(n.neg ==> s[0] == '-');
        let d1 = d.subrange(0, l + n.exp);
        let d2 = d.subrange(l + n.exp, l);
        let body = d1 + seq!['.'] + d2;
        assert(forall|j: int| off <= j < s.len() ==> #[trigger] s[j] == body[j - off]);
        if !n.neg {
            lemma_digit_char_shape(s[0]);
        }
        assert(num_neg(s) == n.neg);
        assert(int_start(s) == off);
        let ie = off + d1.len();
        assert(forall|t: int| off <= t < ie ==> is_digit_char(#[trigger] s[t]));
        assert(s[ie] == '.');
        assert(!is_digit_char('.'));
        lemma_digit_run_exact(s, off, ie);
        assert(int_end(s) == ie);
        assert(has_frac(s));
        assert(forall|t: int| ie + 1 <= t < s.len() ==> is_digit_char(#[trigger] s[t]));
        lemma_digit_run_exact(s, ie + 1, s.len() as int);
        assert(frac_end(s) == s.len());
        assert(!has_exp(s));
        lemma_digit_run_exact(s, s.len() as int, s.len() as int);
        assert(exp_end(s) == s.len());
        assert(num_grammar_ok(s));
        assert(s.subrange(s.len() as int, s.len() as int) =~= Seq::<char>::empty());
        assert(exp_mag(s) == 0);
        assert(frac_len(s) == -n.exp);
        assert(exp_base(s) == n.exp);
        let digs = sig_digits(s);
        assert(digs =~= d);
        assert(strip_zeros(digs) == digs);
        assert(val_of_digits(strip_zeros(digs)) == n.mant);
        assert(num_of_chars(s) == Some(n));
}

/// One case of the number round trip: a negative exponent that pushes every digit behind the point.
#[verifier::rlimit(100)]
proof fn lemma_round_trip_fraction(n: JSONNumber)
    requires
        n.wf(),
        n.mant != 0,
        n.exp < 0 && digits_of(n.mant as nat).len() as int <= -n.exp,
    ensures
        num_of_chars(num_chars(n)) == Some(n),
{
    let s = num_chars(n);
    let d = digits_of(n.mant as nat);
    let l = d.len() as int;
    lemma_digits_of_props(n.mant as nat);
    lemma_val_digits_roundtrip(n.mant as nat);
    assert(n.mant as nat % 10 != 0);
    lemma_digit_char_val((n.mant as nat % 10) as int);
    assert(digit_val(d.last()) != 0);
    assert(d.last() != '0');
    let off: int = if n.neg {
        1
    } else {
        0
    };
    assert(n.neg ==> s[0] == '-');
        let k = -n.exp;
        let zs = repeat_zeros(k - l);
        lemma_repeat_zeros(k - l);
        let body = seq!['0', '.'] + zs + d;
        assert(forall|j: int| off <= j < s.len() ==> #[trigger] s[j] == body[j - off]);
        if !n.neg {
            lemma_digit_char_shape(s[0]);
        }
        assert(num_neg(s) == n.neg);
        assert(int_start(s) == off);
        assert(s[off] == '0');
        assert(s[off + 1] == '.');
        lemma_digit_run_exact(s, off, off + 1);
        assert(int_end(s) == off + 1);
        assert(has_frac(s));
        assert(forall|t: int| off + 2 <= t < s.len() ==> is_digit_char(#[trigger] s[t]));
        lemma_digit_run_exact(s, off + 2, s.len() as int);
        assert(frac_end(s) == s.len());
        assert(!has_exp(s));
        lemma_digit_run_exact(s, s.len() as int, s.len() as int);
        assert(exp_end(s) == s.len());
        assert(num_grammar_ok(s));
        assert(s.subrange(s.len() as int, s.len() as int) =~= Seq::<char>::empty());
        assert(exp_mag(s) == 0);
        assert(frac_len(s) == s.len() - (off + 2));
        assert(frac_len(s) == k);
        assert(exp_base(s) == n.exp);
        let digs = sig_digits(s);
        let z0 = seq!['0'] + zs;
        assert(digs =~= z0 + d);
        assert(forall|j: int| 0 <= j < z0.len() ==> #[trigger] z0[j] == '0');
        assert(digs.last() == d.last());
        assert(strip_zeros(digs) == digs);
        lemma_val_leading_zeros(z0, d);
        assert(val_of_digits(strip_zeros(digs)) == n.mant);
        assert(num_of_chars(s) == Some(n));
}

#[verifier::rlimit(100)]
pub proof fn lemma_number_round_trip(n: JSONNumber)
    requires
        n.wf(),
    ensures
        num_of_chars(num_chars(n)) == Some(n),
{
    let s = num_chars(n);
    if n.mant == 0 {
        assert(s == seq!['0']);
        assert(is_digit_char(s[0]));
        lemma_digit_run_exact(s, 0, 1);
        assert(int_end(s) == 1);
        assert(!has_frac(s) && !has_exp(s));
        lemma_digit_run_exact(s, 1, 1);
        assert(exp_end(s) == 1);
        assert(num_grammar_ok(s));
        assert(s.subrange(1, 1) =~= Seq::<char>::empty());
        assert(exp_mag(s) == 0);
        let digs = sig_digits(s);
        assert(digs =~= seq!['0']);
        assert(digs.drop_last() =~= Seq::<char>::empty());
        assert(strip_zeros(digs) == strip_zeros(digs.drop_last()));
        assert(strip_zeros(Seq::<char>::empty()) =~= Seq::<char>::empty());
        assert(strip_zeros(digs) == Seq::<char>::empty());
        assert(val_of_digits(strip_zeros(digs)) == 0);
        assert(num_of_chars(s) == Some(n));
    } else {
        if n.exp >= 0 {
            lemma_round_trip_grown(n);
        } else if digits_of(n.mant as nat).len() as int > -n.exp {
            lemma_round_trip_split(n);
        } else {
            lemma_round_trip_fraction(n);
        }
    }
}

} // verus!
