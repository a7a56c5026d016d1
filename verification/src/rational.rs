//! Mathematical model of exact decimal arithmetic: rational numbers
//! represented as integer fractions, together with the congruence lemmas
//! that let equal values be substituted for one another.
use vstd::prelude::*;

verus! {

/// A rational number `num / den`, the mathematical value of a decimal.
pub struct Rat {
    pub num: int,
    pub den: int,
}

/// A fraction makes sense only with a nonzero denominator.
pub open spec fn rat_wf(q: Rat) -> bool {
    q.den != 0
}

/// Ten to the power `n`.
pub open spec fn pow10(n: nat) -> int
    decreases n,
{
    if n == 0 {
        1
    } else {
        10 * pow10((n - 1) as nat)
    }
}

pub proof fn lemma_pow10_pos(n: nat)
    ensures
        pow10(n) >= 1,
    decreases n,
{
    if n > 0 {
        lemma_pow10_pos((n - 1) as nat);
    }
}

/// Two fractions denote the same rational number.
pub open spec fn rat_eq(a: Rat, b: Rat) -> bool {
    a.num * b.den == b.num * a.den
}

pub open spec fn rat_add(a: Rat, b: Rat) -> Rat {
    Rat { num: a.num * b.den + b.num * a.den, den: a.den * b.den }
}

pub open spec fn rat_sub(a: Rat, b: Rat) -> Rat {
    Rat { num: a.num * b.den - b.num * a.den, den: a.den * b.den }
}

pub open spec fn rat_mul(a: Rat, b: Rat) -> Rat {
    Rat { num: a.num * b.num, den: a.den * b.den }
}

/// Exact rational division; well-formed whenever `b.num != 0`.
pub open spec fn rat_div(a: Rat, b: Rat) -> Rat {
    Rat { num: a.num * b.den, den: a.den * b.num }
}

pub open spec fn int_abs(x: int) -> int {
    if x < 0 {
        -x
    } else {
        x
    }
}

pub open spec fn rat_neg(a: Rat) -> Rat {
    Rat { num: -a.num, den: a.den }
}

pub open spec fn rat_abs(a: Rat) -> Rat {
    Rat { num: int_abs(a.num), den: int_abs(a.den) }
}

/// A fraction denotes zero exactly when its numerator is zero.
pub open spec fn rat_is_zero(a: Rat) -> bool {
    a.num == 0
}

/// `m / 10^s` equals `q`, with both mantissa and scale small enough that a
/// 100-significant-digit long division is certain to terminate exactly.
pub open spec fn is_rep_pair(m: int, s: nat, q: Rat) -> bool {
    s <= 25 && -pow10(25) <= m <= pow10(25) && m * q.den == q.num * pow10(s)
}

/// `q` has a finite decimal representation of modest size.
pub open spec fn rat_representable(q: Rat) -> bool {
    exists|m: int, s: nat| is_rep_pair(m, s, q)
}

pub proof fn lemma_mul_nonzero(x: int, y: int)
    requires
        x != 0,
        y != 0,
    ensures
        x * y != 0,
{
    assert(x * y != 0) by (nonlinear_arith)
        requires
            x != 0,
            y != 0,
    ;
}

pub proof fn lemma_rat_eq_refl(a: Rat)
    ensures
        rat_eq(a, a),
{
}

pub proof fn lemma_rat_eq_sym(a: Rat, b: Rat)
    requires
        rat_eq(a, b),
    ensures
        rat_eq(b, a),
{
}

pub proof fn lemma_rat_eq_trans(a: Rat, b: Rat, c: Rat)
    requires
        rat_wf(b),
        rat_eq(a, b),
        rat_eq(b, c),
    ensures
        rat_eq(a, c),
{
    assert(a.num * c.den == c.num * a.den) by (nonlinear_arith)
        requires
            b.den != 0,
            a.num * b.den == b.num * a.den,
            b.num * c.den == c.num * b.den,
    ;
}

proof fn lemma_cross_product(an: int, ad: int, a2n: int, a2d: int, bn: int, bd: int, b2n: int, b2d: int)
    requires
        an * a2d == a2n * ad,
        bn * b2d == b2n * bd,
    ensures
        (an * bd) * (a2d * b2d) == (a2n * b2d) * (ad * bd),
        (bn * ad) * (a2d * b2d) == (b2n * a2d) * (ad * bd),
{
    assert((an * bd) * (a2d * b2d) == (an * a2d) * (bd * b2d)) by (nonlinear_arith);
    assert((an * a2d) * (bd * b2d) == (a2n * ad) * (bd * b2d)) by (nonlinear_arith)
        requires
            an * a2d == a2n * ad,
    ;
    assert((a2n * ad) * (bd * b2d) == (a2n * b2d) * (ad * bd)) by (nonlinear_arith);
    assert((bn * ad) * (a2d * b2d) == (bn * b2d) * (ad * a2d)) by (nonlinear_arith);
    assert((bn * b2d) * (ad * a2d) == (b2n * bd) * (ad * a2d)) by (nonlinear_arith)
        requires
            bn * b2d == b2n * bd,
    ;
    assert((b2n * bd) * (ad * a2d) == (b2n * a2d) * (ad * bd)) by (nonlinear_arith);
}

pub proof fn lemma_rat_add_cong(a: Rat, b: Rat, a2: Rat, b2: Rat)
    requires
        rat_eq(a, a2),
        rat_eq(b, b2),
    ensures
        rat_eq(rat_add(a, b), rat_add(a2, b2)),
{
    lemma_cross_product(a.num, a.den, a2.num, a2.den, b.num, b.den, b2.num, b2.den);
    assert((a.num * b.den + b.num * a.den) * (a2.den * b2.den) == (a2.num * b2.den + b2.num
        * a2.den) * (a.den * b.den)) by (nonlinear_arith)
        requires
            (a.num * b.den) * (a2.den * b2.den) == (a2.num * b2.den) * (a.den * b.den),
            (b.num * a.den) * (a2.den * b2.den) == (b2.num * a2.den) * (a.den * b.den),
    ;
}

pub proof fn lemma_rat_sub_cong(a: Rat, b: Rat, a2: Rat, b2: Rat)
    requires
        rat_eq(a, a2),
        rat_eq(b, b2),
    ensures
        rat_eq(rat_sub(a, b), rat_sub(a2, b2)),
{
    lemma_cross_product(a.num, a.den, a2.num, a2.den, b.num, b.den, b2.num, b2.den);
    assert((a.num * b.den - b.num * a.den) * (a2.den * b2.den) == (a2.num * b2.den - b2.num
        * a2.den) * (a.den * b.den)) by (nonlinear_arith)
        requires
            (a.num * b.den) * (a2.den * b2.den) == (a2.num * b2.den) * (a.den * b.den),
            (b.num * a.den) * (a2.den * b2.den) == (b2.num * a2.den) * (a.den * b.den),
    ;
}

pub proof fn lemma_rat_mul_cong(a: Rat, b: Rat, a2: Rat, b2: Rat)
    requires
        rat_eq(a, a2),
        rat_eq(b, b2),
    ensures
        rat_eq(rat_mul(a, b), rat_mul(a2, b2)),
{
    assert((a.num * b.num) * (a2.den * b2.den) == (a2.num * b2.num) * (a.den * b.den))
        by (nonlinear_arith)
        requires
            a.num * a2.den == a2.num * a.den,
            b.num * b2.den == b2.num * b.den,
    ;
}

pub proof fn lemma_rat_div_cong(a: Rat, b: Rat, a2: Rat, b2: Rat)
    requires
        rat_eq(a, a2),
        rat_eq(b, b2),
    ensures
        rat_eq(rat_div(a, b), rat_div(a2, b2)),
{
    assert((a.num * b.den) * (a2.den * b2.num) == (a2.num * b2.den) * (a.den * b.num))
        by (nonlinear_arith)
        requires
            a.num * a2.den == a2.num * a.den,
            b.num * b2.den == b2.num * b.den,
    ;
}

pub proof fn lemma_rat_neg_cong(a: Rat, a2: Rat)
    requires
        rat_eq(a, a2),
    ensures
        rat_eq(rat_neg(a), rat_neg(a2)),
{
    assert((-a.num) * a2.den == (-a2.num) * a.den) by (nonlinear_arith)
        requires
            a.num * a2.den == a2.num * a.den,
    ;
}

pub proof fn lemma_rat_abs_cong(a: Rat, a2: Rat)
    requires
        rat_eq(a, a2),
    ensures
        rat_eq(rat_abs(a), rat_abs(a2)),
{
    assert(int_abs(a.num) * int_abs(a2.den) == int_abs(a2.num) * int_abs(a.den))
        by (nonlinear_arith)
        requires
            a.num * a2.den == a2.num * a.den,
    ;
}

pub proof fn lemma_rat_zero_cong(a: Rat, a2: Rat)
    requires
        rat_wf(a),
        rat_wf(a2),
        rat_eq(a, a2),
    ensures
        rat_is_zero(a) == rat_is_zero(a2),
{
    assert((a.num == 0) == (a2.num == 0)) by (nonlinear_arith)
        requires
            a.den != 0,
            a2.den != 0,
            a.num * a2.den == a2.num * a.den,
    ;
}

pub proof fn lemma_rat_representable_cong(q: Rat, q2: Rat)
    requires
        rat_wf(q),
        rat_wf(q2),
        rat_eq(q, q2),
        rat_representable(q),
    ensures
        rat_representable(q2),
{
    let (m, s): (int, nat) = choose|m: int, s: nat| is_rep_pair(m, s, q);
    assert(is_rep_pair(m, s, q));
    assert(m * q2.den == q2.num * pow10(s)) by (nonlinear_arith)
        requires
            q.den != 0,
            m * q.den == q.num * pow10(s),
            q.num * q2.den == q2.num * q.den,
    ;
    assert(is_rep_pair(m, s, q2));
}

} // verus!
