//! Arbitrary-precision decimal values, carried as plain decimal literals.
//!
//! A value is stored as its text (an optional `-`, digits, at most one `.`),
//! and its mathematical meaning is the rational `mantissa / 10^scale`.  The
//! arithmetic itself is done by the bigdecimal crate behind trusted wrappers
//! from literal to literal.
use vstd::prelude::*;

use crate::rational::{
    rat_representable, pow10, rat_abs, rat_add, rat_div, rat_eq, rat_mul, rat_neg, rat_sub,
    rat_wf, Rat,
};
use std::str::FromStr;

verus! {

pub open spec fn is_digit_char(c: char) -> bool {
    48 <= (c as int) && (c as int) <= 57
}

pub open spec fn digit_char_val(c: char) -> int {
    (c as int) - 48
}

/// Index of the first `.` in `b`, or `b.len()` if there is none.
pub open spec fn dot_pos(b: Seq<char>) -> int
    decreases b.len(),
{
    if b.len() == 0 {
        0
    } else if b[0] == '.' {
        0
    } else {
        1 + dot_pos(b.skip(1))
    }
}

pub proof fn lemma_dot_pos(b: Seq<char>)
    ensures
        0 <= dot_pos(b) <= b.len(),
        dot_pos(b) < b.len() ==> b[dot_pos(b)] == '.',
        forall|j: int| 0 <= j < dot_pos(b) ==> b[j] != '.',
    decreases b.len(),
{
    if b.len() > 0 && b[0] != '.' {
        lemma_dot_pos(b.skip(1));
        assert forall|j: int| 0 <= j < dot_pos(b) implies b[j] != '.' by {
            if j > 0 {
                assert(b.skip(1)[j - 1] != '.');
            }
        }
    }
}

/// The literal with a leading minus sign removed.
pub open spec fn lit_body(s: Seq<char>) -> Seq<char> {
    if s.len() > 0 && s[0] == '-' {
        s.skip(1)
    } else {
        s
    }
}

/// An unsigned decimal literal: digits with at most one `.`, at least one
/// digit somewhere.
pub open spec fn is_unsigned_lit(b: Seq<char>) -> bool {
    &&& b.len() > 0
    &&& (dot_pos(b) < b.len() ==> b.len() >= 2)
    &&& forall|j: int| 0 <= j < b.len() && j != dot_pos(b) ==> is_digit_char(b[j])
}

/// A decimal literal: an optional `-`, then an unsigned literal.
pub open spec fn is_decimal_lit(s: Seq<char>) -> bool {
    is_unsigned_lit(lit_body(s))
}

/// The digits of `b` with the dot removed.
pub open spec fn digits_of(b: Seq<char>) -> Seq<char> {
    if dot_pos(b) < b.len() {
        b.take(dot_pos(b)) + b.skip(dot_pos(b) + 1)
    } else {
        b
    }
}

/// The integer denoted by a digit sequence, most significant digit first.
pub open spec fn digits_val(ds: Seq<char>) -> int
    decreases ds.len(),
{
    if ds.len() == 0 {
        0
    } else {
        digits_val(ds.drop_last()) * 10 + digit_char_val(ds.last())
    }
}

/// The number of digits after the dot.
pub open spec fn lit_scale(b: Seq<char>) -> nat {
    if dot_pos(b) < b.len() {
        (b.len() - dot_pos(b) - 1) as nat
    } else {
        0
    }
}

/// The signed integer the literal's digits spell, the dot ignored.
pub open spec fn dec_mantissa(s: Seq<char>) -> int {
    if s.len() > 0 && s[0] == '-' {
        -digits_val(digits_of(lit_body(s)))
    } else {
        digits_val(digits_of(s))
    }
}

pub open spec fn dec_scale(s: Seq<char>) -> nat {
    lit_scale(lit_body(s))
}

/// The rational number a decimal literal denotes: `mantissa / 10^scale`.
pub open spec fn dec_rat(s: Seq<char>) -> Rat {
    Rat { num: dec_mantissa(s), den: pow10(dec_scale(s)) }
}

pub proof fn lemma_dec_rat_wf(s: Seq<char>)
    ensures
        dec_rat(s).den >= 1,
        rat_wf(dec_rat(s)),
{
    crate::rational::lemma_pow10_pos(dec_scale(s));
}

/// An exact decimal value.
#[derive(Debug)]
pub struct Decimal {
    text: String,
}

impl View for Decimal {
    type V = Seq<char>;

    closed spec fn view(&self) -> Seq<char> {
        self.text@
    }
}

impl Clone for Decimal {
    fn clone(&self) -> (r: Self)
        ensures
            r@ == self@,
    {
        Decimal { text: self.text.clone() }
    }
}

impl Decimal {
    /// The text is a well-formed decimal literal.
    pub open spec fn wf(&self) -> bool {
        is_decimal_lit(self@)
    }

    /// Validates a candidate literal; accepts exactly the well-formed ones.
    pub fn from_text(s: &str) -> (r: Option<Decimal>)
        ensures
            match r {
                Some(d) => d@ == s@ && d.wf(),
                None => !is_decimal_lit(s@),
            },
    {
        if literal_ok(s) {
            Some(Decimal { text: s.to_owned() })
        } else {
            None
        }
    }

    /// Whether this value's text is a well-formed literal.  It always is;
    /// the check lets an unverified caller establish it at run time.
    pub fn is_wf(&self) -> (r: bool)
        ensures
            r == self.wf(),
    {
        literal_ok(self.text.as_str())
    }
}

/// Decides whether `s` is a well-formed decimal literal.
fn literal_ok(s: &str) -> (r: bool)
    ensures
        r == is_decimal_lit(s@),
{
    let len = s.unicode_len();
    let start: usize = if len > 0 && s.get_char(0) == '-' {
        1
    } else {
        0
    };
    let ghost body = lit_body(s@);
    proof {
        assert(body =~= s@.skip(start as int));
        lemma_dot_pos(body);
    }
    if start == len {
        return false;
    }
    let mut i = start;
    let mut dot: Option<usize> = None;
    while i < len
        invariant
            start <= i <= len,
            len == s@.len(),
            start <= 1,
            body == lit_body(s@),
            body == s@.skip(start as int),
            body.len() == len - start,
            match dot {
                None => forall|j: int| start <= j < i ==> is_digit_char(s@[j]),
                Some(d) => start <= d < i && s@[d as int] == '.' && forall|j: int|
                    start <= j < i && j != d ==> is_digit_char(s@[j]),
            },
        decreases len - i,
    {
        let c = s.get_char(i);
        if (c as u32) == 46 {
            proof {
                assert(c == '.');
            }
            if dot.is_some() {
                proof {
                    lemma_dot_pos(body);
                    let d = dot.unwrap() as int;
                    if is_unsigned_lit(body) {
                        assert(!is_digit_char(body[d - start]));
                        assert(!is_digit_char(body[i - start]));
                        assert(false);
                    }
                }
                return false;
            }
            dot = Some(i);
        } else if 48 <= (c as u32) && (c as u32) <= 57 {
            proof {
                assert(is_digit_char(s@[i as int]));
            }
        } else {
            proof {
                lemma_dot_pos(body);
                if is_unsigned_lit(body) {
                    let j = i - start;
                    if j == dot_pos(body) {
                        assert(body[j] == '.');
                    } else {
                        assert(is_digit_char(body[j]));
                    }
                    assert(false);
                }
            }
            return false;
        }
        i = i + 1;
    }
    match dot {
        Some(d) => {
            if len - start == 1 {
                proof {
                    if is_unsigned_lit(body) {
                        assert(body.len() == 1);
                        assert(body[0] == '.');
                        if dot_pos(body) != 0 {
                            assert(is_digit_char(body[0]));
                        }
                        assert(false);
                    }
                }
                return false;
            }
            proof {
                let p = d - start;
                if dot_pos(body) < body.len() && dot_pos(body) != p {
                    assert(body[dot_pos(body)] == '.');
                    assert(is_digit_char(s@[dot_pos(body) + start]));
                    assert(false);
                }
                if dot_pos(body) == body.len() {
                    assert(body[p] != '.');
                    assert(false);
                }
                assert(dot_pos(body) == p);
                assert(is_unsigned_lit(body));
            }
        },
        None => {
            proof {
                if dot_pos(body) < body.len() {
                    assert(body[dot_pos(body)] == '.');
                    assert(is_digit_char(s@[dot_pos(body) + start]));
                    assert(false);
                }
                assert(is_unsigned_lit(body));
            }
        },
    }
    true
}

impl Decimal {
    /// Wraps text already known to be a well-formed literal.
    pub(crate) fn from_literal(text: String) -> (r: Decimal)
        requires
            is_decimal_lit(text@),
        ensures
            r@ == text@,
            r.wf(),
    {
        Decimal { text }
    }

    /// The literal itself.
    pub fn as_text(&self) -> (r: &str)
        ensures
            r@ == self@,
    {
        self.text.as_str()
    }

    /// Relies on bigdecimal's `FromStr` and `PartialEq`: equality of the
    /// denoted values, scales aligned.
    #[verifier::external_body]
    pub fn eq_value(&self, other: &Decimal) -> (r: bool)
        requires
            self.wf(),
            other.wf(),
        ensures
            r == rat_eq(dec_rat(self@), dec_rat(other@)),
    {
        let x = bigdecimal::BigDecimal::from_str(&self.text).unwrap();
        let y = bigdecimal::BigDecimal::from_str(&other.text).unwrap();
        x == y
    }
}

/// Relies on bigdecimal's `Add` (exact arbitrary-precision addition) and
/// `to_plain_string` (plain positional rendering of the exact value).
#[verifier::external_body]
pub(crate) fn dec_add(a: &Decimal, b: &Decimal) -> (r: Decimal)
    requires
        a.wf(),
        b.wf(),
    ensures
        r.wf(),
        rat_eq(dec_rat(r@), rat_add(dec_rat(a@), dec_rat(b@))),
{
    let x = bigdecimal::BigDecimal::from_str(&a.text).unwrap();
    let y = bigdecimal::BigDecimal::from_str(&b.text).unwrap();
    Decimal { text: (x + y).to_plain_string() }
}

/// Relies on bigdecimal's `Sub` (exact arbitrary-precision subtraction).
#[verifier::external_body]
pub(crate) fn dec_sub(a: &Decimal, b: &Decimal) -> (r: Decimal)
    requires
        a.wf(),
        b.wf(),
    ensures
        r.wf(),
        rat_eq(dec_rat(r@), rat_sub(dec_rat(a@), dec_rat(b@))),
{
    let x = bigdecimal::BigDecimal::from_str(&a.text).unwrap();
    let y = bigdecimal::BigDecimal::from_str(&b.text).unwrap();
    Decimal { text: (x - y).to_plain_string() }
}

/// Relies on bigdecimal's `Mul` (exact arbitrary-precision multiplication).
#[verifier::external_body]
pub(crate) fn dec_mul(a: &Decimal, b: &Decimal) -> (r: Decimal)
    requires
        a.wf(),
        b.wf(),
    ensures
        r.wf(),
        rat_eq(dec_rat(r@), rat_mul(dec_rat(a@), dec_rat(b@))),
{
    let x = bigdecimal::BigDecimal::from_str(&a.text).unwrap();
    let y = bigdecimal::BigDecimal::from_str(&b.text).unwrap();
    Decimal { text: (x * y).to_plain_string() }
}

/// Relies on bigdecimal's `Div`: long division to 100 significant digits,
/// which is exact whenever the exact quotient is a decimal of modest size.
/// The divisor must not be zero, since bigdecimal panics on it.
#[verifier::external_body]
pub(crate) fn dec_div(a: &Decimal, b: &Decimal) -> (r: Decimal)
    requires
        a.wf(),
        b.wf(),
        dec_mantissa(b@) != 0,
    ensures
        r.wf(),
        rat_representable(rat_div(dec_rat(a@), dec_rat(b@))) ==> rat_eq(
            dec_rat(r@),
            rat_div(dec_rat(a@), dec_rat(b@)),
        ),
{
    let x = bigdecimal::BigDecimal::from_str(&a.text).unwrap();
    let y = bigdecimal::BigDecimal::from_str(&b.text).unwrap();
    Decimal { text: (x / y).to_plain_string() }
}

/// Relies on bigdecimal's `Neg` (exact negation).
#[verifier::external_body]
pub(crate) fn dec_neg(a: &Decimal) -> (r: Decimal)
    requires
        a.wf(),
    ensures
        r.wf(),
        rat_eq(dec_rat(r@), rat_neg(dec_rat(a@))),
{
    let x = bigdecimal::BigDecimal::from_str(&a.text).unwrap();
    Decimal { text: (-x).to_plain_string() }
}

/// Relies on bigdecimal's `abs` (exact absolute value).
#[verifier::external_body]
pub(crate) fn dec_abs(a: &Decimal) -> (r: Decimal)
    requires
        a.wf(),
    ensures
        r.wf(),
        rat_eq(dec_rat(r@), rat_abs(dec_rat(a@))),
{
    let x = bigdecimal::BigDecimal::from_str(&a.text).unwrap();
    Decimal { text: x.abs().to_plain_string() }
}

proof fn lemma_digits_val_zero(ds: Seq<char>)
    requires
        forall|i: int| 0 <= i < ds.len() ==> is_digit_char(#[trigger] ds[i]),
    ensures
        digits_val(ds) >= 0,
        (digits_val(ds) == 0) <==> (forall|i: int| 0 <= i < ds.len() ==> #[trigger] ds[i] == '0'),
    decreases ds.len(),
{
    if ds.len() > 0 {
        assert forall|i: int| 0 <= i < ds.drop_last().len() implies is_digit_char(
            #[trigger] ds.drop_last()[i],
        ) by {
            assert(is_digit_char(ds[i]));
        }
        lemma_digits_val_zero(ds.drop_last());
        assert(is_digit_char(ds.last()));
        assert(digits_val(ds.drop_last()) * 10 >= 0);
        if digits_val(ds) == 0 {
            assert(digits_val(ds.drop_last()) == 0);
            assert(digit_char_val(ds.last()) == 0);
            assert(ds.last() == '0');
            assert forall|i: int| 0 <= i < ds.len() implies #[trigger] ds[i] == '0' by {
                if i < ds.len() - 1 {
                    assert(ds.drop_last()[i] == '0');
                }
            }
        }
        if forall|i: int| 0 <= i < ds.len() ==> #[trigger] ds[i] == '0' {
            assert forall|i: int| 0 <= i < ds.drop_last().len() implies #[trigger] ds.drop_last()[
                i
            ] == '0' by {
                assert(ds[i] == '0');
            }
            assert(digits_val(ds.drop_last()) == 0);
            assert(ds.last() == '0');
        }
    }
}

/// The mantissa of a literal is zero exactly when every digit in it is `0`.
proof fn lemma_mantissa_zero(s: Seq<char>)
    requires
        is_decimal_lit(s),
    ensures
        (dec_mantissa(s) == 0) <==> (forall|i: int|
            0 <= i < s.len() && is_digit_char(#[trigger] s[i]) ==> s[i] == '0'),
{
    let body = lit_body(s);
    let p = dot_pos(body);
    let start: int = if s.len() > 0 && s[0] == '-' {
        1
    } else {
        0
    };
    lemma_dot_pos(body);
    let ds = digits_of(body);
    assert forall|i: int| 0 <= i < ds.len() implies is_digit_char(#[trigger] ds[i]) by {
        if p < body.len() && i >= p {
            assert(ds[i] == body[i + 1]);
        } else {
            assert(ds[i] == body[i]);
        }
    }
    lemma_digits_val_zero(ds);
    assert(dec_mantissa(s) == 0 <==> digits_val(ds) == 0);
    if forall|i: int| 0 <= i < ds.len() ==> #[trigger] ds[i] == '0' {
        assert forall|i: int| 0 <= i < s.len() && is_digit_char(#[trigger] s[i]) implies s[i]
            == '0' by {
            let j = i - start;
            assert(body[j] == s[i]);
            assert(j != p);
            if p < body.len() && j > p {
                assert(ds[j - 1] == body[j]);
                assert(ds[j - 1] == '0');
            } else {
                assert(ds[j] == body[j]);
                assert(ds[j] == '0');
            }
        }
    }
    if forall|i: int| 0 <= i < s.len() && is_digit_char(#[trigger] s[i]) ==> s[i] == '0' {
        assert forall|i: int| 0 <= i < ds.len() implies #[trigger] ds[i] == '0' by {
            if p < body.len() && i >= p {
                assert(ds[i] == body[i + 1]);
                assert(body[i + 1] == s[i + 1 + start]);
            } else {
                assert(ds[i] == body[i]);
                assert(body[i] == s[i + start]);
            }
        }
    }
}

/// True exactly when the literal's mantissa is zero: every digit in it is
/// `0`.
pub(crate) fn dec_is_zero(a: &Decimal) -> (r: bool)
    requires
        a.wf(),
    ensures
        r == (dec_mantissa(a@) == 0),
{
    let s = a.text.as_str();
    let len = s.unicode_len();
    let mut i: usize = 0;
    while i < len
        invariant
            i <= len,
            len == s@.len(),
            s@ == a@,
            a.wf(),
            forall|j: int| 0 <= j < i && is_digit_char(#[trigger] s@[j]) ==> s@[j] == '0',
        decreases len - i,
    {
        let c = s.get_char(i);
        if 49 <= (c as u32) && (c as u32) <= 57 {
            proof {
                assert(is_digit_char(s@[i as int]) && s@[i as int] != '0');
                lemma_mantissa_zero(a@);
            }
            return false;
        }
        proof {
            assert(is_digit_char(s@[i as int]) ==> s@[i as int] == '0');
        }
        i = i + 1;
    }
    proof {
        lemma_mantissa_zero(a@);
    }
    true
}

} // verus!
