//! Exact decimal scalars: the numeric values of a cloud descriptor, held as
//! sign, mantissa and power-of-ten exponent in canonical form, so that field
//! values round-trip exactly and the hydrogen invariant is an exact test.

use crate::text::{
    digit_val, digits_end, is_digit, is_digit_char, skip_spaces, skip_spaces_from,
};
use vstd::arithmetic::power::{
    lemma_pow_adds, lemma_pow_positive, lemma_pow_strictly_increases, pow,
};
use vstd::prelude::*;

verus! {

/// Largest mantissa magnitude a descriptor value may carry (36 digits).
pub const MANT_CAP: u128 = 1000000000000000000000000000000000000;

/// Largest exponent-part magnitude a descriptor value may carry.
pub const EXP_PART_CAP: i64 = 100000;

/// Bound on the canonical exponent of a well-formed scalar.
pub const EXP_CAP: i64 = 200100;

/// One exactly-represented decimal number: `(-1)^neg * mag * 10^exp`.
#[derive(Clone, Copy, Debug, PartialEq, Eq, Structural)]
pub struct Scalar {
    pub neg: bool,
    pub mag: u128,
    pub exp: i64,
}

/// `10^n` as a mathematical integer.
pub open spec fn pow10(n: nat) -> int {
    pow(10, n)
}

pub proof fn lemma_pow10_pos(n: nat)
    ensures
        pow10(n) >= 1,
{
    lemma_pow_positive(10, n);
}

pub proof fn lemma_pow10_add(a: nat, b: nat)
    ensures
        pow10(a + b) == pow10(a) * pow10(b),
{
    lemma_pow_adds(10, a, b);
}

pub proof fn lemma_pow10_cap()
    ensures
        pow10(36) == MANT_CAP as int,
        pow10(1) == 10,
        pow10(0) == 1,
{
    assert(pow10(36) == MANT_CAP as int) by {
        reveal_with_fuel(pow, 37);
    };
    assert(pow10(1) == 10) by {
        reveal_with_fuel(pow, 2);
    };
    assert(pow10(0) == 1) by {
        reveal_with_fuel(pow, 1);
    };
}

impl Scalar {
    /// The signed mantissa as a mathematical integer.
    pub open spec fn signed_mag(self) -> int {
        if self.neg {
            -(self.mag as int)
        } else {
            self.mag as int
        }
    }

    /// Canonical form: zero is `+0 * 10^0`, and a nonzero mantissa carries no
    /// trailing decimal zero, so equal values have equal representations.
    pub open spec fn canonical(self) -> bool {
        &&& (self.mag == 0 ==> !self.neg && self.exp == 0)
        &&& (self.mag != 0 ==> self.mag % 10 != 0)
    }

    /// Well-formed: canonical and within the bounds the parser guarantees.
    pub open spec fn wf(self) -> bool {
        &&& self.canonical()
        &&& self.mag <= MANT_CAP
        &&& -EXP_CAP <= self.exp <= EXP_CAP
    }

    /// True of a strictly positive value.
    pub open spec fn is_positive(self) -> bool {
        !self.neg && self.mag > 0
    }

    /// The zero scalar.
    pub fn zero() -> (r: Scalar)
        ensures
            r == (Scalar { neg: false, mag: 0, exp: 0 }),
            r.wf(),
    {
        Scalar { neg: false, mag: 0, exp: 0 }
    }

    /// Builds the canonical scalar of value `(-1)^neg * mag * 10^exp`, or
    /// `None` when the value lies outside the representable bounds.
    pub fn new(neg: bool, mag: u128, exp: i64) -> (r: Option<Scalar>)
        ensures
            match r {
                Option::Some(s) => {
                    &&& s.wf()
                    &&& mag <= MANT_CAP
                    &&& -EXP_PART_CAP <= exp <= EXP_PART_CAP
                    &&& s == spec_canonical(neg, mag as int, exp as int)
                },
                Option::None => mag > MANT_CAP || exp < -EXP_PART_CAP || exp > EXP_PART_CAP,
            },
    {
        if mag > MANT_CAP || exp < -EXP_PART_CAP || exp > EXP_PART_CAP {
            return Option::None;
        }
        let r = canonical_scalar(neg, mag, exp);
        proof {
            if mag != 0 {
                if neg {
                    assert(-(r.mag as int) * pow10((r.exp - exp) as nat) == -((r.mag as int)
                        * pow10((r.exp - exp) as nat))) by (nonlinear_arith);
                }
                lemma_strip_tail_agrees(neg, mag as int, exp as int, r);
            }
        }
        Option::Some(r)
    }
}

/// Strips trailing decimal zeros from `mag`, raising `exp` accordingly, and
/// maps zero to the canonical zero scalar.
pub(crate) fn canonical_scalar(neg: bool, mag: u128, exp: i64) -> (r: Scalar)
    requires
        mag <= MANT_CAP,
        -EXP_CAP + 40 <= exp <= EXP_CAP - 40,
    ensures
        r.wf(),
        r.signed_mag() * pow10((r.exp - exp) as nat) == (if neg {
            -(mag as int)
        } else {
            mag as int
        }),
        mag != 0 ==> r.exp >= exp,
        mag == 0 ==> r == (Scalar { neg: false, mag: 0, exp: 0 }),
        mag != 0 ==> r.mag != 0 && r.mag % 10 != 0 && r.neg == neg,
{
    if mag == 0 {
        let r = Scalar { neg: false, mag: 0, exp: 0 };
        proof {
            assert(r.signed_mag() == 0);
            assert(r.signed_mag() * pow10((r.exp - exp) as nat) == 0) by (nonlinear_arith)
                requires
                    r.signed_mag() == 0,
            ;
        }
        return r;
    }
    let mut m = mag;
    let mut e = exp;
    proof {
        lemma_pow10_cap();
    }
    while m % 10 == 0
        invariant
            1 <= m <= MANT_CAP,
            exp <= e,
            -EXP_CAP + 40 <= exp <= EXP_CAP - 40,
            1 <= mag <= MANT_CAP,
            (m as int) * pow10((e - exp) as nat) == mag as int,
            pow10((e - exp) as nat) <= MANT_CAP as int,
            e - exp <= 36,
        decreases m,
    {
        proof {
            lemma_pow10_cap();
            lemma_pow10_add((e - exp) as nat, 1);
            lemma_pow10_pos((e - exp) as nat);
            assert(pow10((e + 1 - exp) as nat) == pow10((e - exp) as nat) * 10);
            lemma_strip_step(m as int, pow10((e - exp) as nat), mag as int);
            assert(e + 1 - exp <= 36) by {
                if e + 1 - exp > 36 {
                    lemma_pow_strictly_increases(10, 36, (e + 1 - exp) as nat);
                    assert(false);
                }
            };
        }
        m = m / 10;
        e = e + 1;
    }
    let r = Scalar { neg, mag: m, exp: e };
    proof {
        lemma_pow10_cap();
        if neg {
            assert(-(m as int) * pow10((e - exp) as nat) == -((m as int) * pow10(
                (e - exp) as nat,
            ))) by (nonlinear_arith);
        }
    }
    r
}

/// One trailing-zero strip step: dividing the mantissa by ten and scaling the
/// power by ten keeps the product, and bounds the power by the product.
proof fn lemma_strip_step(m: int, p: int, mag: int)
    requires
        m >= 1,
        m % 10 == 0,
        p >= 1,
        m * p == mag,
    ensures
        m / 10 >= 1,
        (m / 10) * (p * 10) == mag,
        p * 10 <= mag,
{
    vstd::arithmetic::div_mod::lemma_fundamental_div_mod(m, 10);
    let q = m / 10;
    assert(m == 10 * q);
    assert(q >= 1);
    assert(q * (p * 10) == (10 * q) * p) by (nonlinear_arith);
    assert(p * 10 <= q * (p * 10)) by (nonlinear_arith)
        requires
            q >= 1,
            p >= 1,
    ;
}

/// Canonicalization at the specification level.
pub open spec fn spec_canonical(neg: bool, m: int, e: int) -> Scalar {
    if m == 0 {
        Scalar { neg: false, mag: 0, exp: 0 }
    } else {
        strip_tail(neg, m, e)
    }
}

pub open spec fn strip_tail(neg: bool, m: int, e: int) -> Scalar
    decreases m,
{
    if m <= 0 {
        Scalar { neg: false, mag: 0, exp: 0 }
    } else if m % 10 == 0 {
        strip_tail(neg, m / 10, e + 1)
    } else {
        Scalar { neg, mag: m as u128, exp: e as i64 }
    }
}

/// A canonical result whose value matches `(-1)^neg * m * 10^e` is exactly
/// what `strip_tail` computes.
proof fn lemma_strip_tail_agrees(neg: bool, m: int, e: int, r: Scalar)
    requires
        1 <= m,
        r.mag != 0,
        r.mag % 10 != 0,
        r.neg == neg,
        r.exp >= e,
        i64::MIN <= e <= i64::MAX,
        (r.mag as int) * pow10((r.exp - e) as nat) == m,
    ensures
        r == strip_tail(neg, m, e),
    decreases m,
{
    lemma_pow10_cap();
    if r.exp == e {
        assert(r.mag as int == m);
    } else {
        lemma_pow10_add(1, (r.exp - e - 1) as nat);
        assert(m == ((r.mag as int) * pow10((r.exp - (e + 1)) as nat)) * 10) by {
            assert(pow10((r.exp - e) as nat) == 10 * pow10((r.exp - (e + 1)) as nat));
            assert((r.mag as int) * (10 * pow10((r.exp - (e + 1)) as nat)) == ((r.mag as int)
                * pow10((r.exp - (e + 1)) as nat)) * 10) by (nonlinear_arith);
        };
        assert(m % 10 == 0) by {
            vstd::arithmetic::div_mod::lemma_mod_multiples_basic(
                (r.mag as int) * pow10((r.exp - (e + 1)) as nat),
                10,
            );
        };
        assert(m / 10 == (r.mag as int) * pow10((r.exp - (e + 1)) as nat)) by {
            vstd::arithmetic::div_mod::lemma_div_multiples_vanish(
                (r.mag as int) * pow10((r.exp - (e + 1)) as nat),
                10,
            );
        };
        assert(m / 10 >= 1) by {
            lemma_pow10_pos((r.exp - (e + 1)) as nat);
            assert((r.mag as int) * pow10((r.exp - (e + 1)) as nat) >= 1) by (nonlinear_arith)
                requires
                    r.mag as int >= 1,
                    pow10((r.exp - (e + 1)) as nat) >= 1,
            ;
        };
        lemma_strip_tail_agrees(neg, m / 10, e + 1, r);
    }
}

/// A negated mantissa keeps a nonzero remainder modulo ten.
pub proof fn lemma_neg_mod(mag: int)
    requires
        mag >= 1,
        mag % 10 != 0,
    ensures
        (-mag) % 10 != 0,
{
    if (-mag) % 10 == 0 {
        vstd::arithmetic::div_mod::lemma_fundamental_div_mod(-mag, 10);
        let q = (-mag) / 10;
        assert(mag == (-q) * 10);
        vstd::arithmetic::div_mod::lemma_mod_multiples_basic(-q, 10);
    }
}

/// Canonical representations are unique: two canonical scalars of equal
/// rational value are equal representations, so `==` on parsed values is
/// exact value equality.
pub proof fn law_canonical_unique(a: Scalar, b: Scalar)
    requires
        a.canonical(),
        b.canonical(),
        a.exp <= b.exp,
        a.signed_mag() == b.signed_mag() * pow10((b.exp - a.exp) as nat),
    ensures
        a == b,
{
    lemma_pow10_cap();
    if a.exp == b.exp {
        assert(a.signed_mag() == b.signed_mag());
        if a.mag == 0 {
            assert(b.signed_mag() == 0);
            assert(b.mag == 0);
        } else {
            assert(a.mag == b.mag && a.neg == b.neg);
        }
    } else {
        let k = (b.exp - a.exp) as nat;
        lemma_pow10_add(1, (k - 1) as nat);
        assert(pow10(k) == 10 * pow10((k - 1) as nat));
        assert(a.signed_mag() == (b.signed_mag() * pow10((k - 1) as nat)) * 10) by {
            assert(b.signed_mag() * (10 * pow10((k - 1) as nat)) == (b.signed_mag() * pow10(
                (k - 1) as nat,
            )) * 10) by (nonlinear_arith);
        };
        vstd::arithmetic::div_mod::lemma_mod_multiples_basic(
            b.signed_mag() * pow10((k - 1) as nat),
            10,
        );
        assert(a.signed_mag() % 10 == 0);
        if a.mag == 0 {
            assert(b.signed_mag() * pow10(k) == 0);
            lemma_pow10_pos(k);
            assert(b.signed_mag() == 0) by (nonlinear_arith)
                requires
                    b.signed_mag() * pow10(k) == 0,
                    pow10(k) >= 1,
            ;
            assert(b.mag == 0);
            assert(b.exp == 0 && a.exp == 0);
            assert(false);
        } else {
            if a.neg {
                lemma_neg_mod(a.mag as int);
            }
            assert(false);
        }
    }
}

/// Digits of `s[i..j)` folded onto `acc` as a base-10 accumulator.
pub open spec fn digits_fold(s: Seq<char>, i: int, j: int, acc: int) -> int
    decreases j - i,
{
    if i < 0 || i >= j || j > s.len() {
        acc
    } else {
        digits_fold(s, i + 1, j, acc * 10 + digit_val(s[i]))
    }
}

pub proof fn lemma_digits_fold_lb(s: Seq<char>, i: int, j: int, acc: int)
    requires
        0 <= i,
        j <= s.len(),
        acc >= 0,
        forall|k: int| i <= k < j ==> is_digit_char(s[k]),
    ensures
        digits_fold(s, i, j, acc) >= acc,
    decreases j - i,
{
    if 0 <= i && i < j && j <= s.len() {
        assert(digit_val(s[i]) >= 0);
        lemma_digits_fold_lb(s, i + 1, j, acc * 10 + digit_val(s[i]));
    }
}

/// The parse of a descriptor number: optional surrounding whitespace, an
/// optional sign, a decimal mantissa with an optional fraction, and an
/// optional decimal exponent. The result is canonical; `None` when the text
/// is not such a number or the value lies outside the representable bounds.
pub open spec fn spec_parse_scalar(s: Seq<char>) -> Option<Scalar> {
    let n = s.len() as int;
    let a = skip_spaces_from(s, 0);
    let neg = a < n && s[a] == '-';
    let b = if a < n && (s[a] == '+' || s[a] == '-') {
        a + 1
    } else {
        a
    };
    let ie = digits_end(s, b);
    let fs = if ie < n && s[ie] == '.' {
        ie + 1
    } else {
        ie
    };
    let fe = digits_end(s, fs);
    if ie == b && fe == fs {
        Option::None
    } else {
        let m = digits_fold(s, fs, fe, digits_fold(s, b, ie, 0));
        if fe < n && (s[fe] == 'e' || s[fe] == 'E') {
            let eneg = fe + 1 < n && s[fe + 1] == '-';
            let c = if fe + 1 < n && (s[fe + 1] == '+' || s[fe + 1] == '-') {
                fe + 2
            } else {
                fe + 1
            };
            let ee = digits_end(s, c);
            if ee == c {
                Option::None
            } else {
                let ev = digits_fold(s, c, ee, 0);
                finish_parse(s, neg, m, fe - fs, if eneg {
                    -ev
                } else {
                    ev
                }, ee)
            }
        } else {
            finish_parse(s, neg, m, fe - fs, 0, fe)
        }
    }
}

/// Final range checks and canonicalization of a parsed number.
pub open spec fn finish_parse(
    s: Seq<char>,
    neg: bool,
    m: int,
    fcount: int,
    ex: int,
    p: int,
) -> Option<Scalar> {
    if skip_spaces_from(s, p) != s.len() {
        Option::None
    } else if m > MANT_CAP as int {
        Option::None
    } else if ex < -EXP_PART_CAP || ex > EXP_PART_CAP {
        Option::None
    } else if fcount > EXP_PART_CAP {
        Option::None
    } else {
        Option::Some(spec_canonical(neg, m, ex - fcount))
    }
}

/// Parses a descriptor number from `s`, exactly as `spec_parse_scalar` says.
pub fn parse_scalar(s: &str) -> (r: Option<Scalar>)
    ensures
        r == spec_parse_scalar(s@),
        match r {
            Option::Some(v) => v.wf(),
            Option::None => true,
        },
{
    let n = s.unicode_len();
    let a = skip_spaces(s, 0);
    let mut neg = false;
    let mut b = a;
    if a < n {
        let c0 = s.get_char(a);
        if c0 == '-' {
            neg = true;
            b = a + 1;
        } else if c0 == '+' {
            b = a + 1;
        }
    }
    // integer digits
    let ghost ie_g = digits_end(s@, b as int);
    let mut m: u128 = 0;
    let mut over = false;
    let mut i = b;
    while i < n && is_digit(s.get_char(i))
        invariant
            b <= i <= n,
            n == s@.len(),
            m <= MANT_CAP,
            ie_g == digits_end(s@, b as int),
            digits_end(s@, i as int) == ie_g,
            !over ==> digits_fold(s@, b as int, ie_g, 0) == digits_fold(s@, i as int, ie_g, m as int),
            over ==> digits_fold(s@, b as int, ie_g, 0) > MANT_CAP as int,
        decreases n - i,
    {
        proof {
            crate::text::lemma_digits_end(s@, i as int);
            assert(i < ie_g);
        }
        if !over {
            let d = s.get_char(i) as u128 - 48;
            let m2 = m * 10 + d;
            if m2 > MANT_CAP {
                proof {
                    crate::text::lemma_digits_end(s@, i as int);
                    lemma_digits_fold_lb(
                        s@,
                        i as int + 1,
                        ie_g,
                        m as int * 10 + digit_val(s@[i as int]),
                    );
                }
                over = true;
            } else {
                m = m2;
            }
        }
        i = i + 1;
    }
    let ie = i;
    proof {
        assert(ie as int == ie_g);
    }
    // fraction digits
    let mut fs = ie;
    if ie < n && s.get_char(ie) == '.' {
        fs = ie + 1;
    }
    let ghost fe_g = digits_end(s@, fs as int);
    let ghost m_int = digits_fold(s@, b as int, ie_g, 0);
    proof {
        if over {
            crate::text::lemma_digits_end(s@, fs as int);
            lemma_digits_fold_lb(s@, fs as int, fe_g, m_int);
        }
    }
    let mut j = fs;
    while j < n && is_digit(s.get_char(j))
        invariant
            fs <= j <= n,
            n == s@.len(),
            m <= MANT_CAP,
            fe_g == digits_end(s@, fs as int),
            digits_end(s@, j as int) == fe_g,
            m_int == digits_fold(s@, b as int, ie_g, 0),
            !over ==> digits_fold(s@, fs as int, fe_g, m_int) == digits_fold(
                s@,
                j as int,
                fe_g,
                m as int,
            ),
            over ==> digits_fold(s@, fs as int, fe_g, m_int) > MANT_CAP as int,
        decreases n - j,
    {
        proof {
            crate::text::lemma_digits_end(s@, j as int);
            assert(j < fe_g);
        }
        if !over {
            let d = s.get_char(j) as u128 - 48;
            let m2 = m * 10 + d;
            if m2 > MANT_CAP {
                proof {
                    lemma_digits_fold_lb(
                        s@,
                        j as int + 1,
                        fe_g,
                        m as int * 10 + digit_val(s@[j as int]),
                    );
                }
                over = true;
            } else {
                m = m2;
            }
        }
        j = j + 1;
    }
    let fe = j;
    proof {
        assert(fe as int == fe_g);
    }
    if ie == b && fe == fs {
        return Option::None;
    }
    // exponent part
    let mut ex: i64 = 0;
    let mut p = fe;
    if fe < n && (s.get_char(fe) == 'e' || s.get_char(fe) == 'E') {
        let mut eneg = false;
        let mut c = fe + 1;
        if fe + 1 < n {
            let sc = s.get_char(fe + 1);
            if sc == '-' {
                eneg = true;
                c = fe + 2;
            } else if sc == '+' {
                c = fe + 2;
            }
        }
        let ghost ee_g = digits_end(s@, c as int);
        let mut ev: i64 = 0;
        let mut eover = false;
        let mut k = c;
        while k < n && is_digit(s.get_char(k))
            invariant
                c <= k <= n,
                n == s@.len(),
                0 <= ev <= EXP_PART_CAP,
                ee_g == digits_end(s@, c as int),
                digits_end(s@, k as int) == ee_g,
                !eover ==> digits_fold(s@, c as int, ee_g, 0) == digits_fold(
                    s@,
                    k as int,
                    ee_g,
                    ev as int,
                ),
                eover ==> digits_fold(s@, c as int, ee_g, 0) > EXP_PART_CAP as int,
            decreases n - k,
        {
            proof {
                crate::text::lemma_digits_end(s@, k as int);
                assert(k < ee_g);
            }
            if !eover {
                let d = s.get_char(k) as i64 - 48;
                let ev2 = ev * 10 + d;
                if ev2 > EXP_PART_CAP {
                    proof {
                        lemma_digits_fold_lb(
                            s@,
                            k as int + 1,
                            ee_g,
                            ev as int * 10 + digit_val(s@[k as int]),
                        );
                    }
                    eover = true;
                } else {
                    ev = ev2;
                }
            }
            k = k + 1;
        }
        let ee = k;
        proof {
            assert(ee as int == ee_g);
        }
        if ee == c {
            return Option::None;
        }
        if eover {
            // the exponent part exceeds its cap, so the value is out of range
            return Option::None;
        }
        ex = if eneg {
            -ev
        } else {
            ev
        };
        p = ee;
    }
    let rest = skip_spaces(s, p);
    if rest != n {
        return Option::None;
    }
    if over {
        return Option::None;
    }
    if fe - fs > EXP_PART_CAP as usize {
        return Option::None;
    }
    let fcount = (fe - fs) as i64;
    let r = canonical_scalar(neg, m, ex - fcount);
    proof {
        if m != 0 {
            if neg {
                assert(-(r.mag as int) * pow10((r.exp - (ex - fcount)) as nat) == -((r.mag as int)
                    * pow10((r.exp - (ex - fcount)) as nat))) by (nonlinear_arith);
            }
            lemma_strip_tail_agrees(neg, m as int, (ex - fcount) as int, r);
        }
    }
    Option::Some(r)
}

} // verus!
