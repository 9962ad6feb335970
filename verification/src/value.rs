//! Values of the ledger: a number, or a closed interval of numbers, and the
//! arithmetic that the running balance needs.

use crate::decimal::{difference, pow10, product, quotient, Decimal};
use vstd::prelude::*;

verus! {

/// A number, or the closed interval from a lower to an upper bound. Nothing
/// asks that the lower bound is the smaller one.
#[derive(Clone, Copy, Debug, PartialEq, Eq, Structural)]
pub enum Value {
    Number(Decimal),
    Interval(Decimal, Decimal),
}

/// Why a value could not be computed.
#[derive(Clone, Copy, Debug, PartialEq, Eq, Structural)]
pub enum EvalError {
    /// The result is more than a decimal can hold.
    Overflow,
    /// The divisor is zero.
    DivisionByZero,
    /// Interval arithmetic does not define the operation on these operands.
    Unsupported,
}

/// A value as mathematics sees it: each decimal by its mantissa and scale.
pub ghost enum ValueView {
    Number((int, nat)),
    Interval((int, nat), (int, nat)),
}

impl View for Value {
    type V = ValueView;

    open spec fn view(&self) -> ValueView {
        match *self {
            Value::Number(n) => ValueView::Number(n@),
            Value::Interval(lo, hi) => ValueView::Interval(lo@, hi@),
        }
    }
}

/// The view of a computed value, or the error.
pub open spec fn outcome(r: Result<Value, EvalError>) -> Result<ValueView, EvalError> {
    match r {
        Ok(v) => Ok(v@),
        Err(e) => Err(e),
    }
}

/// `a - b`, or the overflow.
pub open spec fn minus(a: (int, nat), b: (int, nat)) -> Result<(int, nat), EvalError> {
    match difference(a, b) {
        Some(d) => Ok(d),
        None => Err(EvalError::Overflow),
    }
}

/// `a * b`, or the overflow.
pub open spec fn times(a: (int, nat), b: (int, nat)) -> Result<(int, nat), EvalError> {
    match product(a, b) {
        Some(d) => Ok(d),
        None => Err(EvalError::Overflow),
    }
}

/// `a / b`: no number is divided by zero, and the rest may overflow.
pub open spec fn over(a: (int, nat), b: (int, nat)) -> Result<(int, nat), EvalError> {
    if b.0 == 0 {
        Err(EvalError::DivisionByZero)
    } else {
        match quotient(a, b) {
            Some(d) => Ok(d),
            None => Err(EvalError::Overflow),
        }
    }
}

/// The number `n`, where it could be computed.
pub open spec fn number_of(n: Result<(int, nat), EvalError>) -> Result<ValueView, EvalError> {
    match n {
        Ok(n) => Ok(ValueView::Number(n)),
        Err(e) => Err(e),
    }
}

/// The interval from `lo` to `hi`, where both could be computed; else the
/// error of the lower bound, or that of the upper one.
pub open spec fn interval_of(
    lo: Result<(int, nat), EvalError>,
    hi: Result<(int, nat), EvalError>,
) -> Result<ValueView, EvalError> {
    match lo {
        Ok(lo) => match hi {
            Ok(hi) => Ok(ValueView::Interval(lo, hi)),
            Err(e) => Err(e),
        },
        Err(e) => Err(e),
    }
}

/// `a - b`. Subtracting an interval swaps its bounds: the larger bound gives
/// the smaller difference.
pub open spec fn subtract(a: ValueView, b: ValueView) -> Result<ValueView, EvalError> {
    match (a, b) {
        (ValueView::Number(n), ValueView::Number(m)) => number_of(minus(n, m)),
        (ValueView::Number(n), ValueView::Interval(lo, hi)) => interval_of(
            minus(n, hi),
            minus(n, lo),
        ),
        (ValueView::Interval(lo, hi), ValueView::Number(n)) => interval_of(
            minus(lo, n),
            minus(hi, n),
        ),
        (ValueView::Interval(a_lo, a_hi), ValueView::Interval(b_lo, b_hi)) => interval_of(
            minus(a_lo, b_hi),
            minus(a_hi, b_lo),
        ),
    }
}

/// `a * b`. A number scales both bounds of an interval, whatever its sign.
/// Two intervals are multiplied bound by bound where both lower bounds are at
/// least zero, and not at all otherwise.
pub open spec fn multiply(a: ValueView, b: ValueView) -> Result<ValueView, EvalError> {
    match (a, b) {
        (ValueView::Number(n), ValueView::Number(m)) => number_of(times(n, m)),
        (ValueView::Number(n), ValueView::Interval(lo, hi)) => interval_of(
            times(n, lo),
            times(n, hi),
        ),
        (ValueView::Interval(lo, hi), ValueView::Number(n)) => interval_of(
            times(lo, n),
            times(hi, n),
        ),
        (ValueView::Interval(a_lo, a_hi), ValueView::Interval(b_lo, b_hi)) => {
            if a_lo.0 >= 0 && b_lo.0 >= 0 {
                interval_of(times(a_lo, b_lo), times(a_hi, b_hi))
            } else {
                Err(EvalError::Unsupported)
            }
        },
    }
}

/// `a / b`. The bounds keep their places, whatever the signs. No interval is
/// divided by an interval.
pub open spec fn divide(a: ValueView, b: ValueView) -> Result<ValueView, EvalError> {
    match (a, b) {
        (ValueView::Number(n), ValueView::Number(m)) => number_of(over(n, m)),
        (ValueView::Number(n), ValueView::Interval(lo, hi)) => interval_of(
            over(n, lo),
            over(n, hi),
        ),
        (ValueView::Interval(lo, hi), ValueView::Number(n)) => interval_of(
            over(lo, n),
            over(hi, n),
        ),
        (ValueView::Interval(_, _), ValueView::Interval(_, _)) => Err(EvalError::Unsupported),
    }
}

/// The decimal that was computed, or the overflow where there is none.
pub fn or_overflow(d: Option<Decimal>) -> (r: Result<Decimal, EvalError>)
    ensures
        d matches Some(x) ==> r == Ok::<Decimal, EvalError>(x),
        d is None ==> r == Err::<Decimal, EvalError>(EvalError::Overflow),
{
    match d {
        Some(d) => Ok(d),
        None => Err(EvalError::Overflow),
    }
}

fn decimal_minus(a: Decimal, b: Decimal) -> (r: Result<Decimal, EvalError>)
    ensures
        r matches Ok(d) ==> minus(a@, b@) == Ok::<(int, nat), EvalError>(d@),
        r matches Err(e) ==> minus(a@, b@) == Err::<(int, nat), EvalError>(e),
{
    or_overflow(a.checked_sub(b))
}

fn decimal_times(a: Decimal, b: Decimal) -> (r: Result<Decimal, EvalError>)
    ensures
        r matches Ok(d) ==> times(a@, b@) == Ok::<(int, nat), EvalError>(d@),
        r matches Err(e) ==> times(a@, b@) == Err::<(int, nat), EvalError>(e),
{
    or_overflow(a.checked_mul(b))
}

fn decimal_over(a: Decimal, b: Decimal) -> (r: Result<Decimal, EvalError>)
    ensures
        r matches Ok(d) ==> over(a@, b@) == Ok::<(int, nat), EvalError>(d@),
        r matches Err(e) ==> over(a@, b@) == Err::<(int, nat), EvalError>(e),
{
    if b.mantissa() == 0 {
        return Err(EvalError::DivisionByZero);
    }
    or_overflow(a.checked_div(b))
}

impl Value {
    /// The number `n`, where it was computed; else its error.
    pub fn number(n: Result<Decimal, EvalError>) -> (r: Result<Value, EvalError>)
        ensures
            n matches Ok(d) ==> r == Ok::<Value, EvalError>(Value::Number(d)),
            n matches Err(e) ==> r == Err::<Value, EvalError>(e),
    {
        match n {
            Ok(d) => Ok(Value::Number(d)),
            Err(e) => Err(e),
        }
    }

    /// The interval from `lo` to `hi`, where both were computed; else the
    /// error of the lower bound, or that of the upper one.
    pub fn interval(lo: Result<Decimal, EvalError>, hi: Result<Decimal, EvalError>) -> (r:
        Result<Value, EvalError>)
        ensures
            lo matches Err(e) ==> r == Err::<Value, EvalError>(e),
            lo is Ok ==> (hi matches Err(e) ==> r == Err::<Value, EvalError>(e)),
            lo matches Ok(l) ==> (hi matches Ok(h) ==> r == Ok::<Value, EvalError>(
                Value::Interval(l, h),
            )),
    {
        match lo {
            Ok(l) => match hi {
                Ok(h) => Ok(Value::Interval(l, h)),
                Err(e) => Err(e),
            },
            Err(e) => Err(e),
        }
    }

    /// `self - other`.
    pub fn sub(self, other: Value) -> (r: Result<Value, EvalError>)
        ensures
            outcome(r) == subtract(self@, other@),
    {
        match (self, other) {
            (Value::Number(n), Value::Number(m)) => Value::number(decimal_minus(n, m)),
            (Value::Number(n), Value::Interval(lo, hi)) => Value::interval(
                decimal_minus(n, hi),
                decimal_minus(n, lo),
            ),
            (Value::Interval(lo, hi), Value::Number(n)) => Value::interval(
                decimal_minus(lo, n),
                decimal_minus(hi, n),
            ),
            (Value::Interval(a_lo, a_hi), Value::Interval(b_lo, b_hi)) => Value::interval(
                decimal_minus(a_lo, b_hi),
                decimal_minus(a_hi, b_lo),
            ),
        }
    }

    /// `self * other`.
    pub fn mul(&self, other: Value) -> (r: Result<Value, EvalError>)
        ensures
            outcome(r) == multiply(self@, other@),
    {
        match (*self, other) {
            (Value::Number(n), Value::Number(m)) => Value::number(decimal_times(n, m)),
            (Value::Number(n), Value::Interval(lo, hi)) => Value::interval(
                decimal_times(n, lo),
                decimal_times(n, hi),
            ),
            (Value::Interval(lo, hi), Value::Number(n)) => Value::interval(
                decimal_times(lo, n),
                decimal_times(hi, n),
            ),
            (Value::Interval(a_lo, a_hi), Value::Interval(b_lo, b_hi)) => {
                if a_lo.mantissa() >= 0 && b_lo.mantissa() >= 0 {
                    Value::interval(decimal_times(a_lo, b_lo), decimal_times(a_hi, b_hi))
                } else {
                    Err(EvalError::Unsupported)
                }
            },
        }
    }

    /// `self / other`.
    pub fn div(&self, other: Value) -> (r: Result<Value, EvalError>)
        ensures
            outcome(r) == divide(self@, other@),
    {
        match (*self, other) {
            (Value::Number(n), Value::Number(m)) => Value::number(decimal_over(n, m)),
            (Value::Number(n), Value::Interval(lo, hi)) => Value::interval(
                decimal_over(n, lo),
                decimal_over(n, hi),
            ),
            (Value::Interval(lo, hi), Value::Number(n)) => Value::interval(
                decimal_over(lo, n),
                decimal_over(hi, n),
            ),
            (Value::Interval(_, _), Value::Interval(_, _)) => Err(EvalError::Unsupported),
        }
    }
}

/// Whether the number `a` is at most the number `b`: both are brought to the
/// same scale and their mantissas compared.
pub open spec fn at_most(a: (int, nat), b: (int, nat)) -> bool {
    a.0 * pow10(b.1) <= b.0 * pow10(a.1)
}

/// Whether the number `r` is `a - b` exactly, with nothing rounded away.
pub open spec fn is_exact_difference(r: (int, nat), a: (int, nat), b: (int, nat)) -> bool {
    r.0 * (pow10(a.1) * pow10(b.1)) == (a.0 * pow10(b.1) - b.0 * pow10(a.1)) * pow10(r.1)
}

/// A number less a number is a number: the difference of the two decimals.
pub proof fn law_number_minus_number(n: (int, nat), m: (int, nat))
    ensures
        subtract(ValueView::Number(n), ValueView::Number(m)) == number_of(minus(n, m)),
{
}

/// A number less an interval is the interval from the number less the upper
/// bound to the number less the lower bound.
pub proof fn law_number_minus_interval(n: (int, nat), lo: (int, nat), hi: (int, nat))
    ensures
        subtract(ValueView::Number(n), ValueView::Interval(lo, hi)) == interval_of(
            minus(n, hi),
            minus(n, lo),
        ),
{
}

/// Two intervals whose lower bounds are at least zero multiply bound by
/// bound. Where a lower bound is below zero there is no product.
pub proof fn law_interval_times_interval(
    a_lo: (int, nat),
    a_hi: (int, nat),
    b_lo: (int, nat),
    b_hi: (int, nat),
)
    ensures
        a_lo.0 >= 0 && b_lo.0 >= 0 ==> multiply(
            ValueView::Interval(a_lo, a_hi),
            ValueView::Interval(b_lo, b_hi),
        ) == interval_of(times(a_lo, b_lo), times(a_hi, b_hi)),
        a_lo.0 < 0 || b_lo.0 < 0 ==> multiply(
            ValueView::Interval(a_lo, a_hi),
            ValueView::Interval(b_lo, b_hi),
        ) == Err::<ValueView, EvalError>(EvalError::Unsupported),
{
}

/// No interval is divided by an interval.
pub proof fn law_interval_over_interval(a: ValueView, b: ValueView)
    requires
        a is Interval,
        b is Interval,
    ensures
        divide(a, b) == Err::<ValueView, EvalError>(EvalError::Unsupported),
{
}

proof fn lemma_pow10_positive(n: nat)
    ensures
        pow10(n) > 0,
    decreases n,
{
    if n > 0 {
        lemma_pow10_positive((n - 1) as nat);
    }
}

/// Where a number less an interval is computed with nothing rounded away, and
/// the interval's lower bound is at most its upper bound, the same holds of
/// the result.
pub proof fn law_number_minus_interval_keeps_order(
    n: (int, nat),
    lo: (int, nat),
    hi: (int, nat),
    r_lo: (int, nat),
    r_hi: (int, nat),
)
    requires
        subtract(ValueView::Number(n), ValueView::Interval(lo, hi)) == Ok::<
            ValueView,
            EvalError,
        >(ValueView::Interval(r_lo, r_hi)),
        is_exact_difference(r_lo, n, hi),
        is_exact_difference(r_hi, n, lo),
        at_most(lo, hi),
    ensures
        at_most(r_lo, r_hi),
{
    lemma_pow10_positive(n.1);
    lemma_pow10_positive(lo.1);
    lemma_pow10_positive(hi.1);
    lemma_pow10_positive(r_lo.1);
    lemma_pow10_positive(r_hi.1);
    lemma_order_of_differences(
        n.0,
        pow10(n.1) as int,
        lo.0,
        pow10(lo.1) as int,
        hi.0,
        pow10(hi.1) as int,
        r_lo.0,
        pow10(r_lo.1) as int,
        r_hi.0,
        pow10(r_hi.1) as int,
    );
}

/// With `x / p` for each number: if `l <= h`, `rl = n - h` and `rh = n - l`,
/// then `rl <= rh`.
proof fn lemma_order_of_differences(
    n: int,
    pn: int,
    l: int,
    pl: int,
    h: int,
    ph: int,
    rl: int,
    prl: int,
    rh: int,
    prh: int,
)
    requires
        pn > 0,
        pl > 0,
        ph > 0,
        prl > 0,
        prh > 0,
        l * ph <= h * pl,
        rl * (pn * ph) == (n * ph - h * pn) * prl,
        rh * (pn * pl) == (n * pl - l * pn) * prh,
    ensures
        rl * prh <= rh * prl,
{
    let k = pn * ph * pl;
    assert(k > 0) by (nonlinear_arith)
        requires
            k == pn * ph * pl,
            pn > 0,
            ph > 0,
            pl > 0,
    ;
    assert((rl * prh) * k == (n * ph - h * pn) * pl * (prl * prh)) by (nonlinear_arith)
        requires
            k == pn * ph * pl,
            rl * (pn * ph) == (n * ph - h * pn) * prl,
    ;
    assert((rh * prl) * k == (n * pl - l * pn) * ph * (prl * prh)) by (nonlinear_arith)
        requires
            k == pn * ph * pl,
            rh * (pn * pl) == (n * pl - l * pn) * prh,
    ;
    assert((n * ph - h * pn) * pl <= (n * pl - l * pn) * ph) by (nonlinear_arith)
        requires
            l * ph <= h * pl,
            pn > 0,
    ;
    assert((n * ph - h * pn) * pl * (prl * prh) <= (n * pl - l * pn) * ph * (prl * prh))
        by (nonlinear_arith)
        requires
            (n * ph - h * pn) * pl <= (n * pl - l * pn) * ph,
            prl > 0,
            prh > 0,
    ;
    assert(rl * prh <= rh * prl) by (nonlinear_arith)
        requires
            (rl * prh) * k <= (rh * prl) * k,
            k > 0,
    ;
}

} // verus!
