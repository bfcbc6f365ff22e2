//! Edit costs as exact non-negative rationals.
//!
//! The alignment engine compares and adds costs that are either whole units
//! (an inserted or deleted element costs 1) or ratios produced by the
//! string-closeness metric. A cost is kept as a numerator/denominator pair
//! of `u64`, compared exactly by cross-multiplication. Addition that would
//! leave the representable range saturates at the largest whole cost; the
//! specification-level arithmetic mirrors that saturation exactly, so every
//! executable result is pinned by its specification.

use vstd::prelude::*;

verus! {

/// The largest representable numerator or denominator.
pub open spec fn cost_limit() -> int {
    u64::MAX as int
}

/// Specification-level cost value: a numerator/denominator pair over `int`.
pub open spec fn cost_wf(c: (int, int)) -> bool {
    0 <= c.0 <= cost_limit() && 1 <= c.1 <= cost_limit()
}

/// The zero cost.
pub open spec fn cost_zero() -> (int, int) {
    (0int, 1int)
}

/// The unit cost of inserting or deleting one element.
pub open spec fn cost_one() -> (int, int) {
    (1int, 1int)
}

/// Exact comparison of two rational costs by cross-multiplication.
pub open spec fn cost_le(a: (int, int), b: (int, int)) -> bool {
    a.0 * b.1 <= b.0 * a.1
}

/// Exact rational addition, saturating at `cost_limit()` whole units when
/// the unreduced sum would not fit the representation.
pub open spec fn cost_add(a: (int, int), b: (int, int)) -> (int, int) {
    let n = a.0 * b.1 + b.0 * a.1;
    let d = a.1 * b.1;
    if n <= cost_limit() && d <= cost_limit() {
        (n, d)
    } else {
        (cost_limit(), 1int)
    }
}

/// Adding well-formed costs yields a well-formed cost.
pub proof fn lemma_cost_add_wf(a: (int, int), b: (int, int))
    requires
        cost_wf(a),
        cost_wf(b),
    ensures
        cost_wf(cost_add(a, b)),
{
    assert(a.0 * b.1 >= 0 && b.0 * a.1 >= 0 && a.1 * b.1 >= 1) by (nonlinear_arith)
        requires
            a.0 >= 0 && a.1 >= 1 && b.0 >= 0 && b.1 >= 1,
    ;
}

/// Comparison of well-formed costs is transitive.
pub proof fn lemma_cost_le_trans(a: (int, int), b: (int, int), c: (int, int))
    requires
        cost_wf(a),
        cost_wf(b),
        cost_wf(c),
        cost_le(a, b),
        cost_le(b, c),
    ensures
        cost_le(a, c),
{
    assert(a.0 * c.1 <= c.0 * a.1) by (nonlinear_arith)
        requires
            a.1 >= 1 && b.1 >= 1 && c.1 >= 1 && a.0 * b.1 <= b.0 * a.1 && b.0 * c.1 <= c.0 * b.1,
    ;
}

/// Adding two whole costs within range adds their numerators.
pub proof fn lemma_cost_add_den1(a: (int, int), b: (int, int))
    requires
        a.1 == 1,
        b.1 == 1,
        0 <= a.0,
        0 <= b.0,
        a.0 + b.0 <= cost_limit(),
    ensures
        cost_add(a, b) == (a.0 + b.0, 1int),
{
    assert(a.0 * b.1 == a.0 && b.0 * a.1 == b.0 && a.1 * b.1 == 1) by (nonlinear_arith)
        requires
            a.1 == 1 && b.1 == 1,
    ;
}

/// A non-negative rational edit cost.
///
/// The denominator is always at least 1; see [`Cost::wf`].
#[derive(Clone, Copy, Debug, PartialEq, Eq, Structural)]
pub struct Cost {
    pub num: u64,
    pub den: u64,
}

impl View for Cost {
    type V = (int, int);

    open spec fn view(&self) -> (int, int) {
        (self.num as int, self.den as int)
    }
}

impl Cost {
    /// Well-formedness: the denominator is positive, so the value is defined.
    pub open spec fn wf(&self) -> bool {
        self.den >= 1
    }

    /// The zero cost.
    pub fn zero() -> (c: Cost)
        ensures
            c.wf(),
            c@ == cost_zero(),
    {
        Cost { num: 0, den: 1 }
    }

    /// The unit cost.
    pub fn one() -> (c: Cost)
        ensures
            c.wf(),
            c@ == cost_one(),
    {
        Cost { num: 1, den: 1 }
    }

    /// A whole number of cost units.
    pub fn from_units(n: u64) -> (c: Cost)
        ensures
            c.wf(),
            c@ == (n as int, 1int),
    {
        Cost { num: n, den: 1 }
    }

    /// Exact rational addition, saturating as [`cost_add`] does.
    pub fn add(&self, other: &Cost) -> (r: Cost)
        requires
            self.wf(),
            other.wf(),
        ensures
            r.wf(),
            r@ == cost_add(self@, other@),
    {
        proof {
            lemma_mul_fits_u128(self.num as int, other.den as int);
            lemma_mul_fits_u128(other.num as int, self.den as int);
            lemma_mul_fits_u128(self.den as int, other.den as int);
        }
        let p1: u128 = (self.num as u128) * (other.den as u128);
        let p2: u128 = (other.num as u128) * (self.den as u128);
        let d: u128 = (self.den as u128) * (other.den as u128);
        if p1 <= u64::MAX as u128 && p2 <= u64::MAX as u128 {
            let n: u128 = p1 + p2;
            if n <= u64::MAX as u128 && d <= u64::MAX as u128 {
                proof {
                    assert(self.den as int * (other.den as int) >= 1) by (nonlinear_arith)
                        requires
                            self.den >= 1 && other.den >= 1,
                    ;
                }
                return Cost { num: n as u64, den: d as u64 };
            }
        }
        Cost { num: u64::MAX, den: 1 }
    }

    /// Exact comparison by cross-multiplication.
    pub fn le(&self, other: &Cost) -> (r: bool)
        ensures
            r == cost_le(self@, other@),
    {
        proof {
            lemma_mul_fits_u128(self.num as int, other.den as int);
            lemma_mul_fits_u128(other.num as int, self.den as int);
        }
        (self.num as u128) * (other.den as u128) <= (other.num as u128) * (self.den as u128)
    }
}

/// A product of two `u64`-sized factors fits in a `u128`.
proof fn lemma_mul_fits_u128(a: int, b: int)
    requires
        0 <= a <= u64::MAX,
        0 <= b <= u64::MAX,
    ensures
        0 <= a * b <= u64::MAX * u64::MAX,
        a * b <= u128::MAX,
{
    assert(0 <= a * b && a * b <= u64::MAX * u64::MAX) by (nonlinear_arith)
        requires
            0 <= a <= u64::MAX && 0 <= b <= u64::MAX,
    ;
}

} // verus!
