//! The hydrogen bookkeeping invariant: an exact test that
//! `xHI + xH+ + 2*(xpH2 + xoH2) == 1` over canonical decimal scalars.
//!
//! The test rewrites the sum as a list of decimal terms and merges terms of
//! equal exponent: once all exponents are distinct, a nonempty list cannot
//! sum to zero, because the smallest term's mantissa is not divisible by ten.

use crate::scalar::{
    lemma_neg_mod, lemma_pow10_add, lemma_pow10_cap, lemma_pow10_pos, pow10, Scalar, EXP_CAP,
    MANT_CAP,
};
use vstd::arithmetic::div_mod::{
    lemma_fundamental_div_mod, lemma_mod_multiples_basic, lemma_mod_multiples_vanish,
};
use vstd::arithmetic::power::lemma_pow_strictly_increases;
use vstd::prelude::*;

verus! {

/// Bound on a merged term's mantissa: the sum of all initial mantissas.
pub const TERM_CAP: u128 = 8 * MANT_CAP;

/// Bound on a merged term's exponent.
pub const TERM_EXP_CAP: i64 = EXP_CAP + 300;

/// The value of `s` rescaled to the base exponent `b`, as an integer;
/// meaningful when `b <= s.exp`.
pub open spec fn lift(s: Scalar, b: int) -> int {
    s.signed_mag() * pow10((s.exp - b) as nat)
}

/// Sum of a term list, rescaled to base exponent `b`.
pub open spec fn sum_at(ts: Seq<Scalar>, b: int) -> int
    decreases ts.len(),
{
    if ts.len() == 0 {
        0
    } else {
        sum_at(ts.drop_last(), b) + lift(ts.last(), b)
    }
}

/// Sum of the mantissa magnitudes of a term list.
pub open spec fn mags_sum(ts: Seq<Scalar>) -> int
    decreases ts.len(),
{
    if ts.len() == 0 {
        0
    } else {
        mags_sum(ts.drop_last()) + ts.last().mag as int
    }
}

pub open spec fn min2(a: int, b: int) -> int {
    if a <= b {
        a
    } else {
        b
    }
}

/// The common base exponent of the hydrogen sum: the least exponent among the
/// four abundance terms and the unity constant.
pub open spec fn hydrogen_base(xhi: Scalar, xhp: Scalar, xph2: Scalar, xoh2: Scalar) -> int {
    min2(min2(xhi.exp as int, xhp.exp as int), min2(min2(xph2.exp as int, xoh2.exp as int), 0))
}

/// The hydrogen bookkeeping invariant, exactly:
/// `xHI + xH+ + 2*(xpH2 + xoH2) == 1` as rational numbers.
pub open spec fn hydrogen_sum_is_unity(xhi: Scalar, xhp: Scalar, xph2: Scalar, xoh2: Scalar) -> bool {
    let b = hydrogen_base(xhi, xhp, xph2, xoh2);
    lift(xhi, b) + lift(xhp, b) + 2 * lift(xph2, b) + 2 * lift(xoh2, b) == pow10((0 - b) as nat)
}

proof fn lemma_sum_remove(ts: Seq<Scalar>, b: int, i: int)
    requires
        0 <= i < ts.len(),
    ensures
        sum_at(ts.remove(i), b) == sum_at(ts, b) - lift(ts[i], b),
    decreases ts.len(),
{
    if i == ts.len() - 1 {
        assert(ts.remove(i) =~= ts.drop_last());
    } else {
        lemma_sum_remove(ts.drop_last(), b, i);
        assert(ts.remove(i).drop_last() =~= ts.drop_last().remove(i));
        assert(ts.remove(i).last() == ts.last());
    }
}

proof fn lemma_mags_remove(ts: Seq<Scalar>, i: int)
    requires
        0 <= i < ts.len(),
    ensures
        mags_sum(ts.remove(i)) == mags_sum(ts) - ts[i].mag as int,
    decreases ts.len(),
{
    if i == ts.len() - 1 {
        assert(ts.remove(i) =~= ts.drop_last());
    } else {
        lemma_mags_remove(ts.drop_last(), i);
        assert(ts.remove(i).drop_last() =~= ts.drop_last().remove(i));
        assert(ts.remove(i).last() == ts.last());
    }
}

proof fn lemma_mags_nonneg(ts: Seq<Scalar>)
    ensures
        mags_sum(ts) >= 0,
    decreases ts.len(),
{
    if ts.len() > 0 {
        lemma_mags_nonneg(ts.drop_last());
    }
}

/// Any single mantissa is at most the mantissa sum.
proof fn lemma_mags_elem(ts: Seq<Scalar>, i: int)
    requires
        0 <= i < ts.len(),
    ensures
        ts[i].mag as int <= mags_sum(ts),
{
    lemma_mags_remove(ts, i);
    lemma_mags_nonneg(ts.remove(i));
}

/// Rescaling a lift to a lower base multiplies it by the power of the gap.
proof fn lemma_lift_rebase(s: Scalar, e: int, b: int)
    requires
        b <= e <= s.exp,
    ensures
        lift(s, b) == pow10((e - b) as nat) * lift(s, e),
{
    lemma_pow10_add((e - b) as nat, (s.exp - e) as nat);
    assert(s.signed_mag() * (pow10((e - b) as nat) * pow10((s.exp - e) as nat)) == pow10(
        (e - b) as nat,
    ) * (s.signed_mag() * pow10((s.exp - e) as nat))) by (nonlinear_arith);
}

/// A sum whose terms all sit at exponent `e` or above is the power of the gap
/// times the sum rescaled to `e`.
proof fn lemma_sum_factor(ts: Seq<Scalar>, b: int, e: int)
    requires
        b <= e,
        forall|t: int| 0 <= t < ts.len() ==> e <= (#[trigger] ts[t]).exp,
    ensures
        sum_at(ts, b) == pow10((e - b) as nat) * sum_at(ts, e),
    decreases ts.len(),
{
    if ts.len() == 0 {
        assert(pow10((e - b) as nat) * 0 == 0) by (nonlinear_arith);
    } else {
        lemma_sum_factor(ts.drop_last(), b, e);
        lemma_lift_rebase(ts.last(), e, b);
        assert(pow10((e - b) as nat) * (sum_at(ts.drop_last(), e) + lift(ts.last(), e)) == pow10(
            (e - b) as nat,
        ) * sum_at(ts.drop_last(), e) + pow10((e - b) as nat) * lift(ts.last(), e))
            by (nonlinear_arith);
    }
}

/// `ts[k]` has the least exponent of the list.
pub open spec fn is_min_at(ts: Seq<Scalar>, k: int) -> bool {
    0 <= k < ts.len() && forall|t: int| 0 <= t < ts.len() ==> (#[trigger] ts[t]).exp >= ts[k].exp
}

proof fn lemma_exists_min(ts: Seq<Scalar>)
    requires
        ts.len() >= 1,
    ensures
        exists|k: int| #[trigger] is_min_at(ts, k),
    decreases ts.len(),
{
    if ts.len() == 1 {
        assert(is_min_at(ts, 0));
    } else {
        lemma_exists_min(ts.drop_last());
        let k0 = choose|k: int| #[trigger] is_min_at(ts.drop_last(), k);
        if ts.last().exp < ts[k0].exp {
            assert(is_min_at(ts, ts.len() - 1)) by {
                assert(forall|t: int|
                    0 <= t < ts.len() - 1 ==> (#[trigger] ts[t]).exp == ts.drop_last()[t].exp);
            };
        } else {
            assert(is_min_at(ts, k0)) by {
                assert(forall|t: int|
                    0 <= t < ts.len() - 1 ==> (#[trigger] ts[t]).exp == ts.drop_last()[t].exp);
            };
        }
    }
}

/// With every mantissa nonzero and indivisible by ten, and all exponents
/// distinct, a nonempty term list cannot sum to zero: the least exponent's
/// term survives modulo ten.
proof fn lemma_nonzero_sum(ts: Seq<Scalar>, b: int)
    requires
        ts.len() >= 1,
        forall|t: int|
            0 <= t < ts.len() ==> {
                let s = #[trigger] ts[t];
                s.mag >= 1 && s.mag % 10 != 0 && b <= s.exp
            },
        forall|t1: int, t2: int|
            0 <= t1 < t2 < ts.len() ==> (#[trigger] ts[t1]).exp != (#[trigger] ts[t2]).exp,
    ensures
        sum_at(ts, b) != 0,
{
    lemma_exists_min(ts);
    let k = choose|k: int| #[trigger] is_min_at(ts, k);
    let s = ts[k];
    let e0 = s.exp as int;
    let rest = ts.remove(k);
    lemma_sum_remove(ts, b, k);
    assert(forall|t: int| 0 <= t < rest.len() ==> e0 + 1 <= (#[trigger] rest[t]).exp) by {
        assert(forall|t: int|
            0 <= t < rest.len() ==> #[trigger] rest[t] == (if t < k {
                ts[t]
            } else {
                ts[t + 1]
            }));
    };
    lemma_sum_factor(rest, b, e0 + 1);
    let r = sum_at(rest, e0 + 1);
    let p = pow10((e0 - b) as nat);
    lemma_pow10_pos((e0 - b) as nat);
    lemma_pow10_add((e0 - b) as nat, 1);
    lemma_pow10_cap();
    let sk = s.signed_mag();
    assert(lift(s, b) == sk * p);
    assert(sum_at(ts, b) == sk * p + (p * 10) * r);
    assert(sk * p + (p * 10) * r == p * (sk + 10 * r)) by (nonlinear_arith);
    assert(sk % 10 != 0) by {
        if s.neg {
            lemma_neg_mod(s.mag as int);
        }
    };
    assert((sk + 10 * r) % 10 == sk % 10) by {
        lemma_mod_multiples_vanish(r, sk, 10);
    };
    assert(sk + 10 * r != 0);
    assert(p * (sk + 10 * r) != 0) by (nonlinear_arith)
        requires
            p >= 1,
            sk + 10 * r != 0,
    ;
}

/// A term fit to enter the merge list.
pub open spec fn term_ok(s: Scalar, b: int) -> bool {
    &&& s.mag >= 1
    &&& s.mag % 10 != 0
    &&& s.mag <= TERM_CAP
    &&& b <= s.exp <= TERM_EXP_CAP
}

/// Strips trailing decimal zeros from a merged term.
fn strip_term(neg: bool, mag: u128, e: i64) -> (r: Scalar)
    requires
        1 <= mag <= TERM_CAP,
        -EXP_CAP - 10 <= e <= TERM_EXP_CAP - 40,
    ensures
        r.mag >= 1,
        r.mag % 10 != 0,
        r.mag <= mag,
        r.neg == neg,
        e <= r.exp <= e + 38,
        r.signed_mag() * pow10((r.exp - e) as nat) == (if neg {
            -(mag as int)
        } else {
            mag as int
        }),
{
    let mut m = mag;
    let mut x = e;
    proof {
        lemma_pow10_cap();
        lemma_pow10_cap38();
    }
    while m % 10 == 0
        invariant
            1 <= m <= mag <= TERM_CAP,
            -EXP_CAP - 10 <= e <= TERM_EXP_CAP - 40,
            e <= x,
            (m as int) * pow10((x - e) as nat) == mag as int,
            pow10((x - e) as nat) <= TERM_CAP as int,
            x - e <= 38,
        decreases m,
    {
        proof {
            lemma_pow10_cap();
            lemma_pow10_cap38();
            lemma_pow10_add((x - e) as nat, 1);
            lemma_pow10_pos((x - e) as nat);
            assert(pow10((x + 1 - e) as nat) == pow10((x - e) as nat) * 10);
            lemma_term_strip_step(m as int, pow10((x - e) as nat), mag as int);
            assert(x + 1 - e <= 38) by {
                if x + 1 - e > 38 {
                    lemma_pow_strictly_increases(10, 38, (x + 1 - e) as nat);
                    assert(false);
                }
            };
        }
        m = m / 10;
        x = x + 1;
    }
    let r = Scalar { neg, mag: m, exp: x };
    proof {
        if neg {
            assert(-(m as int) * pow10((x - e) as nat) == -((m as int) * pow10((x - e) as nat)))
                by (nonlinear_arith);
        }
    }
    r
}

proof fn lemma_pow10_cap38()
    ensures
        pow10(38) > TERM_CAP as int,
{
    assert(pow10(38) == 100000000000000000000000000000000000000) by {
        vstd::arithmetic::power::lemma_pow_adds(10, 36, 2);
        lemma_pow10_cap();
        assert(pow10(2) == 100) by {
            vstd::arithmetic::power::lemma_pow_adds(10, 1, 1);
            lemma_pow10_cap();
        };
    };
}

proof fn lemma_term_strip_step(m: int, p: int, mag: int)
    requires
        m >= 1,
        m % 10 == 0,
        p >= 1,
        m * p == mag,
    ensures
        m / 10 >= 1,
        m / 10 < m,
        (m / 10) * (p * 10) == mag,
        p * 10 <= mag,
{
    lemma_fundamental_div_mod(m, 10);
    let q = m / 10;
    assert(m == 10 * q);
    assert(q >= 1);
    assert(q * (p * 10) == (10 * q) * p) by (nonlinear_arith);
    assert(p * 10 <= q * (p * 10)) by (nonlinear_arith)
        requires
            q >= 1,
            p >= 1,
    ;
}

/// Scans for a later term with the same exponent as `ts[i]`.
fn find_match(ts: &Vec<Scalar>, i: usize) -> (r: Option<usize>)
    requires
        i < ts@.len(),
    ensures
        match r {
            Option::Some(j) => i < j < ts@.len() && ts@[i as int].exp == ts@[j as int].exp,
            Option::None => forall|j: int| i < j < ts@.len() ==> ts@[i as int].exp != (#[trigger] ts@[j]).exp,
        },
{
    let n = ts.len();
    let mut j = i + 1;
    while j < n
        invariant
            i < j <= n,
            n == ts@.len(),
            forall|t: int| i < t < j ==> ts@[i as int].exp != (#[trigger] ts@[t]).exp,
        decreases n - j,
    {
        if ts[i].exp == ts[j].exp {
            return Option::Some(j);
        }
        j = j + 1;
    }
    Option::None
}

/// Scans for any two terms with equal exponents.
fn find_pair(ts: &Vec<Scalar>) -> (r: Option<(usize, usize)>)
    ensures
        match r {
            Option::Some(p) => p.0 < p.1 < ts@.len() && ts@[p.0 as int].exp == ts@[p.1 as int].exp,
            Option::None => forall|t1: int, t2: int|
                0 <= t1 < t2 < ts@.len() ==> (#[trigger] ts@[t1]).exp != (#[trigger] ts@[t2]).exp,
        },
{
    let mut i: usize = 0;
    while i < ts.len()
        invariant
            i <= ts@.len(),
            forall|t1: int, t2: int|
                0 <= t1 < t2 < ts@.len() && t1 < i ==> (#[trigger] ts@[t1]).exp != (
                #[trigger] ts@[t2]).exp,
        decreases ts@.len() - i,
    {
        match find_match(ts, i) {
            Option::Some(j) => {
                return Option::Some((i, j));
            },
            Option::None => {},
        }
        i = i + 1;
    }
    Option::None
}

/// Appends a nonzero canonical scalar as a term; a zero scalar adds nothing.
fn push_term(ts: &mut Vec<Scalar>, s: Scalar, Ghost(b): Ghost<int>)
    requires
        s.wf(),
        b <= s.exp,
        b <= 0,
    ensures
        sum_at(final(ts)@, b) == sum_at(old(ts)@, b) + lift(s, b),
        mags_sum(final(ts)@) == mags_sum(old(ts)@) + s.mag as int,
        s.mag != 0 ==> final(ts)@ == old(ts)@.push(s) && term_ok(s, b),
        s.mag == 0 ==> final(ts)@ == old(ts)@,
{
    if s.mag == 0 {
        proof {
            assert(s.signed_mag() == 0);
            assert(lift(s, b) == 0) by (nonlinear_arith)
                requires
                    s.signed_mag() == 0,
                    lift(s, b) == s.signed_mag() * pow10((s.exp - b) as nat),
            ;
        }
        return ;
    }
    let ghost pre = ts@;
    ts.push(s);
    proof {
        assert(ts@.drop_last() =~= pre);
        assert(ts@.last() == s);
    }
}

/// Decides the hydrogen bookkeeping invariant exactly.
pub fn check_hydrogen_sum(xhi: Scalar, xhp: Scalar, xph2: Scalar, xoh2: Scalar) -> (r: bool)
    requires
        xhi.wf(),
        xhp.wf(),
        xph2.wf(),
        xoh2.wf(),
    ensures
        r == hydrogen_sum_is_unity(xhi, xhp, xph2, xoh2),
{
    let ghost b = hydrogen_base(xhi, xhp, xph2, xoh2);
    let mut ts: Vec<Scalar> = Vec::new();
    push_term(&mut ts, xhi, Ghost(b));
    push_term(&mut ts, xhp, Ghost(b));
    push_term(&mut ts, xph2, Ghost(b));
    push_term(&mut ts, xph2, Ghost(b));
    push_term(&mut ts, xoh2, Ghost(b));
    push_term(&mut ts, xoh2, Ghost(b));
    let unity = Scalar { neg: true, mag: 1, exp: 0 };
    proof {
        assert(unity.wf());
    }
    push_term(&mut ts, unity, Ghost(b));
    let ghost target = lift(xhi, b) + lift(xhp, b) + 2 * lift(xph2, b) + 2 * lift(xoh2, b) - pow10(
        (0 - b) as nat,
    );
    proof {
        lemma_pow10_cap();
        assert(lift(unity, b) == -pow10((0 - b) as nat)) by {
            assert(unity.signed_mag() == -1);
            assert((-1) * pow10((0 - b) as nat) == -pow10((0 - b) as nat)) by (nonlinear_arith);
        };
        assert(sum_at(ts@, b) == target);
        assert(mags_sum(ts@) <= TERM_CAP as int);
        assert(forall|t: int| 0 <= t < ts@.len() ==> term_ok(#[trigger] ts@[t], b));
        assert(ts@.len() <= 7);
        assert(forall|t: int|
            0 <= t < ts@.len() ==> (#[trigger] ts@[t]).exp <= EXP_CAP);
        assert(forall|t: int|
            0 <= t < ts@.len() ==> (#[trigger] ts@[t]).exp <= TERM_EXP_CAP - 38 * ts@.len());
    }
    let mut done = false;
    while !done
        invariant
            sum_at(ts@, b) == target,
            mags_sum(ts@) <= TERM_CAP as int,
            forall|t: int| 0 <= t < ts@.len() ==> term_ok(#[trigger] ts@[t], b),
            forall|t: int|
                0 <= t < ts@.len() ==> (#[trigger] ts@[t]).exp <= TERM_EXP_CAP - 38 * ts@.len(),
            b <= 0,
            -EXP_CAP <= b,
            done ==> forall|t1: int, t2: int|
                0 <= t1 < t2 < ts@.len() ==> (#[trigger] ts@[t1]).exp != (#[trigger] ts@[t2]).exp,
        decreases ts@.len(), (if done {
            0int
        } else {
            1int
        }),
    {
        match find_pair(&ts) {
            Option::None => {
                done = true;
            },
            Option::Some((i, j)) => {
                let a = ts[i];
                let c = ts[j];
                proof {
                    lemma_mags_remove(ts@, j as int);
                    lemma_mags_nonneg(ts@.remove(j as int));
                    lemma_mags_elem(ts@.remove(j as int), i as int);
                    assert(ts@.remove(j as int)[i as int] == a);
                    lemma_mags_elem(ts@, j as int);
                }
                // the two mantissas together stay within the term cap
                let (neg2, mag2) = if a.neg == c.neg {
                    (a.neg, a.mag + c.mag)
                } else if a.mag >= c.mag {
                    (a.neg, a.mag - c.mag)
                } else {
                    (c.neg, c.mag - a.mag)
                };
                proof {
                    assert(if neg2 {
                        -(mag2 as int)
                    } else {
                        mag2 as int
                    } == a.signed_mag() + c.signed_mag());
                }
                let ghost pre = ts@;
                let ghost mid = pre.remove(j as int);
                let ghost base2 = mid.remove(i as int);
                proof {
                    lemma_sum_remove(pre, b, j as int);
                    lemma_sum_remove(mid, b, i as int);
                    lemma_mags_remove(pre, j as int);
                    lemma_mags_remove(mid, i as int);
                    assert(mid[i as int] == a);
                    assert(forall|t: int|
                        0 <= t < base2.len() ==> term_ok(#[trigger] base2[t], b)) by {
                        assert(forall|t: int|
                            0 <= t < mid.len() ==> #[trigger] mid[t] == (if t < j {
                                pre[t]
                            } else {
                                pre[t + 1]
                            }));
                        assert(forall|t: int|
                            0 <= t < base2.len() ==> #[trigger] base2[t] == (if t < i {
                                mid[t]
                            } else {
                                mid[t + 1]
                            }));
                    };
                    lemma_mags_nonneg(base2);
                }
                ts.remove(j);
                ts.remove(i);
                proof {
                    assert(ts@ == base2);
                }
                if mag2 != 0 {
                    let nt = strip_term(neg2, mag2, a.exp);
                    proof {
                        lemma_lift_rebase(nt, a.exp as int, b);
                        assert(lift(nt, a.exp as int) == nt.signed_mag() * pow10(
                            (nt.exp - a.exp) as nat,
                        )) by {
                            lemma_pow10_cap();
                        };
                        assert(lift(a, b) + lift(c, b) == (a.signed_mag() + c.signed_mag())
                            * pow10((a.exp - b) as nat)) by (nonlinear_arith)
                            requires
                                lift(a, b) == a.signed_mag() * pow10((a.exp - b) as nat),
                                lift(c, b) == c.signed_mag() * pow10((c.exp - b) as nat),
                                a.exp == c.exp,
                        ;
                    }
                    let ghost pre2 = ts@;
                    ts.push(nt);
                    proof {
                        assert(ts@.drop_last() =~= pre2);
                        assert(ts@.last() == nt);
                        assert(lift(nt, b) == lift(a, b) + lift(c, b)) by {
                            assert(lift(nt, b) == pow10((a.exp - b) as nat) * lift(
                                nt,
                                a.exp as int,
                            ));
                            assert(pow10((a.exp - b) as nat) * (nt.signed_mag() * pow10(
                                (nt.exp - a.exp) as nat,
                            )) == (nt.signed_mag() * pow10((nt.exp - a.exp) as nat)) * pow10(
                                (a.exp - b) as nat,
                            )) by (nonlinear_arith);
                        };
                    }
                } else {
                    proof {
                        assert(a.signed_mag() + c.signed_mag() == 0);
                        assert(lift(a, b) + lift(c, b) == 0) by (nonlinear_arith)
                            requires
                                lift(a, b) == a.signed_mag() * pow10((a.exp - b) as nat),
                                lift(c, b) == c.signed_mag() * pow10((c.exp - b) as nat),
                                a.exp == c.exp,
                                a.signed_mag() + c.signed_mag() == 0,
                        ;
                    }
                }
            },
        }
    }
    let empty = ts.len() == 0;
    proof {
        if !empty {
            lemma_nonzero_sum(ts@, b);
        }
    }
    empty
}

} // verus!
