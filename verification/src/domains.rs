//! The interval domain over `i64` and a union-find over dense class ids.
use vstd::prelude::*;

use crate::ast::{BinaryOp, UnaryOp, binary_spec, unary_spec, bool_int};

verus! {

/// Identifier of an e-class (and of the SSA value that introduced it).
pub type ClassId = usize;

/// A set of `i64` values `{x | low <= x <= high}`. The empty interval has the
/// single representation `low == i64::MAX, high == i64::MIN`, so that `==`
/// on intervals is equality of the sets they denote.
#[derive(Debug, Clone, Copy, PartialEq, Eq, Hash, Structural)]
pub struct Interval {
    pub low: i64,
    pub high: i64,
}

/// Clamps a wide integer into the `i64` range.
pub open spec fn clamp_spec(x: int) -> i64 {
    if x < i64::MIN {
        i64::MIN
    } else if x > i64::MAX {
        i64::MAX
    } else {
        x as i64
    }
}

/// The smaller of two integers.
pub open spec fn min_int(a: int, b: int) -> int {
    if a <= b {
        a
    } else {
        b
    }
}

/// The larger of two integers.
pub open spec fn max_int(a: int, b: int) -> int {
    if a >= b {
        a
    } else {
        b
    }
}

/// The least of four integers.
pub open spec fn min4(a: int, b: int, c: int, d: int) -> int {
    min_int(min_int(a, b), min_int(c, d))
}

/// The greatest of four integers.
pub open spec fn max4(a: int, b: int, c: int, d: int) -> int {
    max_int(max_int(a, b), max_int(c, d))
}

/// The empty interval in its single representation.
pub open spec fn empty_interval() -> Interval {
    Interval { low: i64::MAX, high: i64::MIN }
}

/// The whole `i64` range.
pub open spec fn full_interval() -> Interval {
    Interval { low: i64::MIN, high: i64::MAX }
}

/// The interval `[low, high]`, or the empty interval when `low > high`.
pub open spec fn make_interval(low: int, high: int) -> Interval {
    if low > high {
        empty_interval()
    } else {
        Interval { low: clamp_spec(low), high: clamp_spec(high) }
    }
}

/// The interval of booleans `{0, 1}` restricted to what may hold.
pub open spec fn bool_interval(may_be_true: bool, may_be_false: bool) -> Interval {
    if may_be_true && may_be_false {
        Interval { low: 0, high: 1 }
    } else if may_be_true {
        Interval { low: 1, high: 1 }
    } else {
        Interval { low: 0, high: 0 }
    }
}

impl Interval {
    /// Well-formed: a nonempty range, or the canonical empty interval.
    pub open spec fn wf(self) -> bool {
        self.low <= self.high || self == empty_interval()
    }

    /// Whether `x` lies in the interval.
    pub open spec fn contains(self, x: int) -> bool {
        self.low <= x <= self.high
    }

    /// Whether the interval holds no value.
    pub open spec fn is_empty(self) -> bool {
        self.low > self.high
    }

    /// Inclusion of the sets of values.
    pub open spec fn subset_of(self, other: Interval) -> bool {
        forall|x: int| self.contains(x) ==> other.contains(x)
    }

    /// The smallest interval holding both.
    pub open spec fn join_spec(self, other: Interval) -> Interval {
        if self.is_empty() {
            other
        } else if other.is_empty() {
            self
        } else {
            Interval {
                low: min_int(self.low as int, other.low as int) as i64,
                high: max_int(self.high as int, other.high as int) as i64,
            }
        }
    }

    /// The intersection.
    pub open spec fn meet_spec(self, other: Interval) -> Interval {
        make_interval(
            max_int(self.low as int, other.low as int),
            min_int(self.high as int, other.high as int),
        )
    }

    /// Widening of `self` (the value of an earlier iteration) by `new`: a
    /// bound that moved outwards jumps to the end of the `i64` range.
    pub open spec fn widen_spec(self, new: Interval) -> Interval {
        if self.is_empty() {
            new
        } else if new.is_empty() {
            self
        } else {
            Interval {
                low: if new.low < self.low {
                    i64::MIN
                } else {
                    self.low
                },
                high: if new.high > self.high {
                    i64::MAX
                } else {
                    self.high
                },
            }
        }
    }

    /// The interval of a unary operator applied to the values of `self`.
    pub open spec fn unary_spec(self, op: UnaryOp) -> Interval {
        if self.is_empty() {
            empty_interval()
        } else {
            match op {
                UnaryOp::Neg => if self.low == i64::MIN {
                    full_interval()
                } else {
                    Interval { low: (-self.high) as i64, high: (-self.low) as i64 }
                },
                UnaryOp::Not => bool_interval(self.contains(0), !(self.low == 0 && self.high == 0)),
            }
        }
    }

    /// The interval of a binary operator applied to the values of `self`
    /// and `rhs`; additions, subtractions and products are clamped to the
    /// `i64` range, comparisons give zero, one, or both.
    pub open spec fn binary_spec(self, rhs: Interval, op: BinaryOp) -> Interval {
        let (a, b, c, d) = (self.low as int, self.high as int, rhs.low as int, rhs.high as int);
        if self.is_empty() || rhs.is_empty() {
            empty_interval()
        } else {
            match op {
                BinaryOp::Add => Interval { low: clamp_spec(a + c), high: clamp_spec(b + d) },
                BinaryOp::Sub => Interval { low: clamp_spec(a - d), high: clamp_spec(b - c) },
                BinaryOp::Mul => Interval {
                    low: clamp_spec(min4(a * c, a * d, b * c, b * d)),
                    high: clamp_spec(max4(a * c, a * d, b * c, b * d)),
                },
                BinaryOp::EE => bool_interval(
                    !(b < c || d < a),
                    !(a == b && c == d && a == c),
                ),
                BinaryOp::NE => bool_interval(
                    !(a == b && c == d && a == c),
                    !(b < c || d < a),
                ),
                BinaryOp::LT => bool_interval(a < d, b >= c),
                BinaryOp::LE => bool_interval(a <= d, b > c),
                BinaryOp::GT => bool_interval(b > c, a <= d),
                BinaryOp::GE => bool_interval(b >= c, a < d),
            }
        }
    }

    /// The whole `i64` range.
    pub fn top() -> (r: Interval)
        ensures
            r == full_interval(),
            r.wf(),
    {
        Interval { low: i64::MIN, high: i64::MAX }
    }

    /// The empty interval.
    pub fn bottom() -> (r: Interval)
        ensures
            r == empty_interval(),
            r.wf(),
    {
        Interval { low: i64::MAX, high: i64::MIN }
    }

    /// The interval holding exactly `cons`.
    pub fn from_constant(cons: i64) -> (r: Interval)
        ensures
            r == (Interval { low: cons, high: cons }),
            r.wf(),
    {
        Interval { low: cons, high: cons }
    }

    /// The interval of all values at least `low`.
    pub fn from_low(low: i64) -> (r: Interval)
        ensures
            r == (Interval { low: low, high: i64::MAX }),
            r.wf(),
    {
        Interval { low, high: i64::MAX }
    }

    /// The interval of all values at most `high`.
    pub fn from_high(high: i64) -> (r: Interval)
        ensures
            r == (Interval { low: i64::MIN, high: high }),
            r.wf(),
    {
        Interval { low: i64::MIN, high }
    }

    /// The interval between two optional bounds, a missing bound standing for
    /// the end of the `i64` range; empty when the low bound exceeds the high one.
    pub fn from_option_low_high(low: Option<i64>, high: Option<i64>) -> (r: Interval)
        ensures
            r == make_interval(
                match low {
                    Some(l) => l as int,
                    None => i64::MIN as int,
                },
                match high {
                    Some(h) => h as int,
                    None => i64::MAX as int,
                },
            ),
            r.wf(),
    {
        let l: i64 = match low {
            Some(l) => l,
            None => i64::MIN,
        };
        let h: i64 = match high {
            Some(h) => h,
            None => i64::MAX,
        };
        if l > h {
            Interval::bottom()
        } else {
            Interval { low: l, high: h }
        }
    }

    /// Whether the interval is empty.
    pub fn is_bottom(&self) -> (r: bool)
        ensures
            r == self.is_empty(),
    {
        self.low > self.high
    }

    /// Whether every value of the interval is zero (so an empty interval is).
    pub fn is_zero(&self) -> (r: bool)
        ensures
            r == (forall|x: int| self.contains(x) ==> x == 0),
            r == (self.is_empty() || (self.low == 0 && self.high == 0)),
    {
        let r = self.low > self.high || (self.low == 0 && self.high == 0);
        proof {
            if !r {
                if self.low != 0 {
                    assert(self.contains(self.low as int));
                } else {
                    assert(self.contains(self.high as int));
                }
            }
        }
        r
    }

    /// Whether the interval holds exactly the value `cons`.
    pub fn is_cons(&self, cons: i64) -> (r: bool)
        ensures
            r == (self.low == cons && self.high == cons),
            r == (forall|x: int| self.contains(x) <==> x == cons),
    {
        let r = self.low == cons && self.high == cons;
        proof {
            if !r {
                if !self.contains(cons as int) {
                } else if self.low != cons {
                    assert(self.contains(self.low as int));
                } else {
                    assert(self.contains(self.high as int));
                }
            }
        }
        r
    }

    /// Inclusion of intervals as sets.
    pub fn leq(&self, other: &Interval) -> (r: bool)
        ensures
            r == self.subset_of(*other),
    {
        let r = self.low > self.high || (other.low <= self.low && self.high <= other.high);
        proof {
            if !r {
                if !other.contains(self.low as int) {
                    assert(self.contains(self.low as int));
                } else {
                    assert(self.contains(self.high as int));
                }
            }
        }
        r
    }

    /// The smallest interval holding both.
    pub fn join(&self, other: &Interval) -> (r: Interval)
        ensures
            r == self.join_spec(*other),
            self.wf() && other.wf() ==> r.wf(),
    {
        if self.low > self.high {
            *other
        } else if other.low > other.high {
            *self
        } else {
            Interval {
                low: if self.low <= other.low {
                    self.low
                } else {
                    other.low
                },
                high: if self.high >= other.high {
                    self.high
                } else {
                    other.high
                },
            }
        }
    }

    /// The intersection.
    pub fn meet(&self, other: &Interval) -> (r: Interval)
        ensures
            r == self.meet_spec(*other),
            r.wf(),
    {
        let low = if self.low >= other.low {
            self.low
        } else {
            other.low
        };
        let high = if self.high <= other.high {
            self.high
        } else {
            other.high
        };
        if low > high {
            Interval::bottom()
        } else {
            Interval { low, high }
        }
    }

    /// Widens `self`, the value of an earlier iteration, by `new`.
    pub fn widen(&self, new: &Interval) -> (r: Interval)
        ensures
            r == self.widen_spec(*new),
            self.wf() && new.wf() ==> r.wf(),
    {
        if self.low > self.high {
            *new
        } else if new.low > new.high {
            *self
        } else {
            Interval {
                low: if new.low < self.low {
                    i64::MIN
                } else {
                    self.low
                },
                high: if new.high > self.high {
                    i64::MAX
                } else {
                    self.high
                },
            }
        }
    }

    /// The interval of the results of a unary operator on the values of `self`.
    pub fn forward_unary(&self, op: UnaryOp) -> (r: Interval)
        ensures
            r == self.unary_spec(op),
            r.wf(),
    {
        if self.low > self.high {
            return Interval::bottom();
        }
        match op {
            UnaryOp::Neg => if self.low == i64::MIN {
                Interval::top()
            } else {
                Interval { low: -self.high, high: -self.low }
            },
            UnaryOp::Not => make_bool_interval(
                self.low <= 0 && 0 <= self.high,
                !(self.low == 0 && self.high == 0),
            ),
        }
    }

    /// The interval of the results of a binary operator on the values of
    /// `self` and `rhs`.
    pub fn forward_binary(&self, rhs: &Interval, op: BinaryOp) -> (r: Interval)
        ensures
            r == self.binary_spec(*rhs, op),
            r.wf(),
    {
        if self.low > self.high || rhs.low > rhs.high {
            return Interval::bottom();
        }
        let a: i128 = self.low as i128;
        let b: i128 = self.high as i128;
        let c: i128 = rhs.low as i128;
        let d: i128 = rhs.high as i128;
        match op {
            BinaryOp::Add => Interval { low: clamp(a + c), high: clamp(b + d) },
            BinaryOp::Sub => Interval { low: clamp(a - d), high: clamp(b - c) },
            BinaryOp::Mul => {
                proof {
                    lemma_i64_product_fits(a as int, c as int);
                    lemma_i64_product_fits(a as int, d as int);
                    lemma_i64_product_fits(b as int, c as int);
                    lemma_i64_product_fits(b as int, d as int);
                }
                let ac: i128 = a * c;
                let ad: i128 = a * d;
                let bc: i128 = b * c;
                let bd: i128 = b * d;
                Interval {
                    low: clamp(min_i128(min_i128(ac, ad), min_i128(bc, bd))),
                    high: clamp(max_i128(max_i128(ac, ad), max_i128(bc, bd))),
                }
            },
            BinaryOp::EE => make_bool_interval(
                !(b < c || d < a),
                !(a == b && c == d && a == c),
            ),
            BinaryOp::NE => make_bool_interval(
                !(a == b && c == d && a == c),
                !(b < c || d < a),
            ),
            BinaryOp::LT => make_bool_interval(a < d, b >= c),
            BinaryOp::LE => make_bool_interval(a <= d, b > c),
            BinaryOp::GT => make_bool_interval(b > c, a <= d),
            BinaryOp::GE => make_bool_interval(b >= c, a < d),
        }
    }
}

fn make_bool_interval(may_be_true: bool, may_be_false: bool) -> (r: Interval)
    ensures
        r == bool_interval(may_be_true, may_be_false),
{
    if may_be_true && may_be_false {
        Interval { low: 0, high: 1 }
    } else if may_be_true {
        Interval { low: 1, high: 1 }
    } else {
        Interval { low: 0, high: 0 }
    }
}

fn clamp(x: i128) -> (r: i64)
    ensures
        r == clamp_spec(x as int),
{
    if x < i64::MIN as i128 {
        i64::MIN
    } else if x > i64::MAX as i128 {
        i64::MAX
    } else {
        x as i64
    }
}

fn min_i128(x: i128, y: i128) -> (r: i128)
    ensures
        r == min_int(x as int, y as int),
{
    if x <= y {
        x
    } else {
        y
    }
}

fn max_i128(x: i128, y: i128) -> (r: i128)
    ensures
        r == max_int(x as int, y as int),
{
    if x >= y {
        x
    } else {
        y
    }
}

proof fn lemma_i64_product_fits(x: int, y: int)
    requires
        i64::MIN <= x <= i64::MAX,
        i64::MIN <= y <= i64::MAX,
    ensures
        i128::MIN <= x * y <= i128::MAX,
{
    assert(-0x8000_0000_0000_0000 <= x <= 0x8000_0000_0000_0000);
    assert(-0x8000_0000_0000_0000 <= y <= 0x8000_0000_0000_0000);
    assert(x * y <= 0x8000_0000_0000_0000 * 0x8000_0000_0000_0000) by (nonlinear_arith)
        requires
            -0x8000_0000_0000_0000 <= x <= 0x8000_0000_0000_0000,
            -0x8000_0000_0000_0000 <= y <= 0x8000_0000_0000_0000,
    ;
    assert(x * y >= -(0x8000_0000_0000_0000 * 0x8000_0000_0000_0000)) by (nonlinear_arith)
        requires
            -0x8000_0000_0000_0000 <= x <= 0x8000_0000_0000_0000,
            -0x8000_0000_0000_0000 <= y <= 0x8000_0000_0000_0000,
    ;
}

/// Between two bounds, a product lies between the products with the bounds.
proof fn lemma_mul_between(x: int, a: int, b: int, y: int)
    requires
        a <= x <= b,
    ensures
        min_int(a * y, b * y) <= x * y <= max_int(a * y, b * y),
{
    if y >= 0 {
        assert(a * y <= x * y <= b * y) by (nonlinear_arith)
            requires
                a <= x <= b,
                y >= 0,
        ;
    } else {
        assert(b * y <= x * y <= a * y) by (nonlinear_arith)
            requires
                a <= x <= b,
                y < 0,
        ;
    }
}

/// Law: the join of two intervals holds both, and is held by every interval
/// that holds both.
pub proof fn lemma_join_least_upper_bound(a: Interval, b: Interval, c: Interval)
    requires
        a.wf(),
        b.wf(),
    ensures
        a.join_spec(b).wf(),
        a.subset_of(a.join_spec(b)),
        b.subset_of(a.join_spec(b)),
        a.subset_of(c) && b.subset_of(c) ==> a.join_spec(b).subset_of(c),
{
    if !a.is_empty() && !b.is_empty() && a.subset_of(c) && b.subset_of(c) {
        assert(a.contains(a.low as int) && a.contains(a.high as int));
        assert(b.contains(b.low as int) && b.contains(b.high as int));
    }
}

/// Law: the meet of two intervals is exactly their intersection.
pub proof fn lemma_meet_is_intersection(a: Interval, b: Interval)
    ensures
        a.meet_spec(b).wf(),
        forall|x: int| a.meet_spec(b).contains(x) <==> (a.contains(x) && b.contains(x)),
{
}

/// Law: widening yields an interval that holds both the old and the new
/// interval, and leaves the old interval unchanged when it already holds the
/// new one.
pub proof fn lemma_widen_upper_bound(old: Interval, new: Interval)
    requires
        old.wf(),
        new.wf(),
    ensures
        old.widen_spec(new).wf(),
        old.subset_of(old.widen_spec(new)),
        new.subset_of(old.widen_spec(new)),
        new.subset_of(old) ==> old.widen_spec(new) == old,
{
    if !new.is_empty() && new.subset_of(old) {
        assert(new.contains(new.low as int) && new.contains(new.high as int));
    }
}

/// Law: the interval of a unary operator holds the result of the operator on
/// every value of its operand interval.
pub proof fn lemma_forward_unary_sound(a: Interval, op: UnaryOp, x: i64)
    requires
        a.contains(x as int),
    ensures
        a.unary_spec(op).contains(unary_spec(op, x) as int),
{
}

/// Law: the interval of a binary operator holds the result of the operator on
/// every pair of values of its operand intervals, wherever that result is
/// defined.
pub proof fn lemma_forward_binary_sound(a: Interval, b: Interval, op: BinaryOp, x: i64, y: i64)
    requires
        a.contains(x as int),
        b.contains(y as int),
        binary_spec(op, x, y) is Some,
    ensures
        a.binary_spec(b, op).contains(binary_spec(op, x, y)->0 as int),
{
    if op == BinaryOp::Mul {
        let (lo, hi, lo2, hi2) = (a.low as int, a.high as int, b.low as int, b.high as int);
        lemma_mul_between(x as int, lo, hi, y as int);
        lemma_mul_between(y as int, lo2, hi2, lo);
        lemma_mul_between(y as int, lo2, hi2, hi);
        assert(lo * (y as int) == (y as int) * lo) by (nonlinear_arith);
        assert(hi * (y as int) == (y as int) * hi) by (nonlinear_arith);
        assert(lo2 * lo == lo * lo2) by (nonlinear_arith);
        assert(hi2 * lo == lo * hi2) by (nonlinear_arith);
        assert(lo2 * hi == hi * lo2) by (nonlinear_arith);
        assert(hi2 * hi == hi * hi2) by (nonlinear_arith);
    }
}

/// Law: on comparisons the interval is exact: it holds a truth value only
/// if some pair of values of the operand intervals gives that value.
/// Together with `lemma_forward_binary_sound`, a comparison's interval holds
/// 1 exactly when it may be true and 0 exactly when it may be false.
pub proof fn lemma_forward_comparison_exact(a: Interval, b: Interval, op: BinaryOp, v: int)
    requires
        op is EE || op is NE || op is LT || op is LE || op is GT || op is GE,
        a.binary_spec(b, op).contains(v),
    ensures
        exists|x: i64, y: i64| #![trigger binary_spec(op, x, y)]
            a.contains(x as int) && b.contains(y as int) && binary_spec(op, x, y) == Some(v as i64),
{
    let (lo, hi, lo2, hi2) = (a.low, a.high, b.low, b.high);
    assert(!a.is_empty() && !b.is_empty());
    assert(v == 0 || v == 1);
    // two pairs that tell apart the truth values of every comparison
    let m: i64 = if lo >= lo2 { lo } else { lo2 };
    let (dx, dy): (i64, i64) = if lo != lo2 { (lo, lo2) } else if hi != lo { (hi, lo2) } else { (lo, hi2) };
    assert(binary_spec(op, lo, hi2) is Some);
    assert(binary_spec(op, hi, lo2) is Some);
    assert(binary_spec(op, m, m) is Some);
    assert(binary_spec(op, dx, dy) is Some);
    match op {
        BinaryOp::EE | BinaryOp::NE => {
            if !(hi < lo2 || hi2 < lo) {
                assert(a.contains(m as int) && b.contains(m as int));
            }
            if !(lo == hi && lo2 == hi2 && lo == lo2) {
                assert(a.contains(dx as int) && b.contains(dy as int) && dx != dy);
            }
        },
        _ => {
            assert(a.contains(lo as int) && b.contains(hi2 as int));
            assert(a.contains(hi as int) && b.contains(lo2 as int));
        },
    }
}

/// The exact value of an addition, subtraction or product, without
/// overflow.
pub open spec fn arith_int(op: BinaryOp, x: int, y: int) -> int {
    match op {
        BinaryOp::Add => x + y,
        BinaryOp::Sub => x - y,
        _ => x * y,
    }
}

/// Law: for additions, subtractions and products the interval is tight:
/// each of its bounds is the exact result, clamped to the `i64` range, of
/// some pair of values of the operand intervals.
pub proof fn lemma_forward_arith_tight(a: Interval, b: Interval, op: BinaryOp)
    requires
        op is Add || op is Sub || op is Mul,
        !a.is_empty(),
        !b.is_empty(),
    ensures
        exists|x: i64, y: i64| #![trigger arith_int(op, x as int, y as int)]
            a.contains(x as int) && b.contains(y as int) && clamp_spec(arith_int(op, x as int, y as int)) == a.binary_spec(b, op).low,
        exists|x: i64, y: i64| #![trigger arith_int(op, x as int, y as int)]
            a.contains(x as int) && b.contains(y as int) && clamp_spec(arith_int(op, x as int, y as int)) == a.binary_spec(b, op).high,
{
    let (lo, hi, lo2, hi2) = (a.low, a.high, b.low, b.high);
    assert(a.contains(lo as int) && a.contains(hi as int) && b.contains(lo2 as int) && b.contains(hi2 as int));
    let p1 = arith_int(op, lo as int, lo2 as int);
    let p2 = arith_int(op, lo as int, hi2 as int);
    let p3 = arith_int(op, hi as int, lo2 as int);
    let p4 = arith_int(op, hi as int, hi2 as int);
    if op is Mul {
        let mn = min4(p1, p2, p3, p4);
        let mx = max4(p1, p2, p3, p4);
        assert(mn == p1 || mn == p2 || mn == p3 || mn == p4);
        assert(mx == p1 || mx == p2 || mx == p3 || mx == p4);
    }
}

/// Law: `!` on intervals is exact: the result holds a value only if some
/// value of the operand gives it.
pub proof fn lemma_forward_not_exact(a: Interval, v: int)
    requires
        a.unary_spec(UnaryOp::Not).contains(v),
    ensures
        exists|x: i64| #![trigger unary_spec(UnaryOp::Not, x)] a.contains(x as int) && unary_spec(UnaryOp::Not, x) == v,
{
    assert(a.contains(a.low as int) && a.contains(a.high as int));
    assert(unary_spec(UnaryOp::Not, a.low) == bool_int(a.low == 0));
    assert(unary_spec(UnaryOp::Not, a.high) == bool_int(a.high == 0));
    if a.contains(0) {
        assert(unary_spec(UnaryOp::Not, 0i64) == 1);
    }
}

/// Law: an operator applied to an empty interval gives the empty interval.
pub proof fn lemma_forward_empty(a: Interval, b: Interval, uop: UnaryOp, op: BinaryOp)
    ensures
        a.is_empty() ==> a.unary_spec(uop) == empty_interval(),
        a.is_empty() || b.is_empty() ==> a.binary_spec(b, op) == empty_interval(),
{
}

/// Law: negation on intervals is exact away from `i64::MIN`: the result
/// holds a value only if it is the negation of a value of the operand.
pub proof fn lemma_forward_neg_exact(a: Interval, v: int)
    requires
        a.low > i64::MIN,
        a.unary_spec(UnaryOp::Neg).contains(v),
    ensures
        exists|x: i64| #![trigger unary_spec(UnaryOp::Neg, x)] a.contains(x as int) && unary_spec(UnaryOp::Neg, x) == v,
{
    let x = (-v) as i64;
    assert(a.contains(x as int));
    assert(unary_spec(UnaryOp::Neg, x) == v);
}

/// Law: an interval includes the singleton of `c` exactly when it holds `c`.
pub proof fn lemma_constant_leq(c: i64, a: Interval)
    ensures
        (Interval { low: c, high: c }).subset_of(a) <==> a.contains(c as int),
{
    assert((Interval { low: c, high: c }).contains(c as int));
}

/// Whether `s` maps every id to a representative that maps to itself.
pub open spec fn is_rep_map(s: Seq<ClassId>) -> bool {
    forall|i: int| 0 <= i < s.len() ==> (#[trigger] s[i] as int) < s.len() && s[s[i] as int] == s[i]
}

/// The number of ids below `k` that are their own representative.
pub open spec fn count_roots(s: Seq<ClassId>, k: int) -> nat
    decreases k,
{
    if k <= 0 {
        0
    } else {
        count_roots(s, k - 1) + if s[k - 1] == (k - 1) as ClassId {
            1nat
        } else {
            0nat
        }
    }
}

/// The number of classes of a representative map.
pub open spec fn num_roots(s: Seq<ClassId>) -> nat {
    count_roots(s, s.len() as int)
}

/// The representative map after merging the class of `a` into the class of `b`.
pub open spec fn union_spec(s: Seq<ClassId>, a: int, b: int) -> Seq<ClassId> {
    Seq::new(s.len(), |i: int| if s[i] == s[a] { s[b] } else { s[i] })
}

/// A union-find over the ids `0..n`, with path compression. Its view maps
/// every id to the representative of its class.
pub struct UnionFind {
    parent: Vec<ClassId>,
    num_classes: usize,
    root: Ghost<Seq<ClassId>>,
    rank: Ghost<Seq<nat>>,
    max_rank: Ghost<nat>,
}

impl View for UnionFind {
    type V = Seq<ClassId>;

    closed spec fn view(&self) -> Seq<ClassId> {
        self.root@
    }
}

proof fn lemma_count_roots_bound(s: Seq<ClassId>, k: int)
    requires
        0 <= k,
    ensures
        count_roots(s, k) <= k,
    decreases k,
{
    if k > 0 {
        lemma_count_roots_bound(s, k - 1);
    }
}

proof fn lemma_count_roots_push(s: Seq<ClassId>, x: ClassId, k: int)
    requires
        0 <= k <= s.len(),
    ensures
        count_roots(s.push(x), k) == count_roots(s, k),
    decreases k,
{
    if k > 0 {
        lemma_count_roots_push(s, x, k - 1);
    }
}

proof fn lemma_count_roots_identity(n: nat, k: int)
    requires
        0 <= k <= n,
        n <= usize::MAX + 1,
    ensures
        count_roots(Seq::new(n, |i: int| i as ClassId), k) == k,
    decreases k,
{
    if k > 0 {
        lemma_count_roots_identity(n, k - 1);
    }
}

proof fn lemma_count_roots_union(s: Seq<ClassId>, a: int, b: int, k: int)
    requires
        is_rep_map(s),
        0 <= a < s.len(),
        0 <= b < s.len(),
        s[a] != s[b],
        0 <= k <= s.len(),
        s.len() <= usize::MAX,
    ensures
        count_roots(union_spec(s, a, b), k) + (if (s[a] as int) < k {
            1int
        } else {
            0int
        }) == count_roots(s, k),
    decreases k,
{
    if k > 0 {
        lemma_count_roots_union(s, a, b, k - 1);
        let t = union_spec(s, a, b);
        let i = k - 1;
        let ra = s[a];
        let rb = s[b];
        assert(s[ra as int] == ra);
        assert(s[rb as int] == rb);
        assert((s[i] as int) < s.len());
        assert(s[s[i] as int] == s[i]);
        assert(t[i] == if s[i] == ra { rb } else { s[i] });
        let ti: int = if t[i] == i as ClassId { 1 } else { 0 };
        let si: int = if s[i] == i as ClassId { 1 } else { 0 };
        let ai: int = if ra as int == i { 1 } else { 0 };
        assert(ti + ai == si);
    }
}

impl UnionFind {
    /// The parent links form a forest whose roots are the representatives,
    /// ranks grow along parent links, and the class count is the number of
    /// roots.
    pub closed spec fn wf(&self) -> bool {
        let n = self.parent@.len();
        &&& n <= usize::MAX
        &&& self.root@.len() == n
        &&& self.rank@.len() == n
        &&& forall|i: int| 0 <= i < n ==> (#[trigger] self.parent@[i] as int) < n
        &&& is_rep_map(self.root@)
        &&& forall|i: int| 0 <= i < n ==> (#[trigger] self.parent@[i] == i) == (self.root@[i] == i)
        &&& forall|i: int|
            0 <= i < n && #[trigger] self.parent@[i] != i ==> {
                &&& self.rank@[i] < self.rank@[self.parent@[i] as int]
                &&& self.rank@[i] < self.rank@[self.root@[i] as int]
                &&& self.root@[self.parent@[i] as int] == self.root@[i]
            }
        &&& forall|i: int| 0 <= i < n ==> #[trigger] self.rank@[i] <= self.max_rank@
        &&& self.num_classes == num_roots(self.root@)
    }

    /// The view of a well-formed union-find is a representative map.
    pub proof fn lemma_wf(&self)
        requires
            self.wf(),
        ensures
            is_rep_map(self@),
            self@.len() <= usize::MAX,
    {
    }

    /// An empty union-find.
    pub fn new() -> (r: UnionFind)
        ensures
            r.wf(),
            r@ == Seq::<ClassId>::empty(),
    {
        UnionFind {
            parent: Vec::new(),
            num_classes: 0,
            root: Ghost(Seq::empty()),
            rank: Ghost(Seq::empty()),
            max_rank: Ghost(0),
        }
    }

    /// A union-find over the ids `0..num_ids`, each in a class of its own.
    pub fn from_num_ids(num_ids: usize) -> (r: UnionFind)
        ensures
            r.wf(),
            r@ == Seq::new(num_ids as nat, |i: int| i as ClassId),
    {
        let mut uf = UnionFind::new();
        let mut i: usize = 0;
        while i < num_ids
            invariant
                i <= num_ids,
                uf.wf(),
                uf@ == Seq::new(i as nat, |k: int| k as ClassId),
            decreases num_ids - i,
        {
            uf.mk();
            i = i + 1;
        }
        uf
    }

    /// Adds a new id in a class of its own and returns it.
    pub fn mk(&mut self) -> (id: ClassId)
        requires
            old(self).wf(),
        ensures
            final(self).wf(),
            id == old(self)@.len(),
            final(self)@ == old(self)@.push(id),
    {
        let id = self.parent.len();
        proof {
            lemma_count_roots_bound(self.root@, self.root@.len() as int);
            lemma_count_roots_push(self.root@, id, self.root@.len() as int);
        }
        self.parent.push(id);
        assert(self.parent.len() == id + 1);
        self.root = Ghost(self.root@.push(id));
        self.rank = Ghost(self.rank@.push(0));
        self.num_classes = self.num_classes + 1;
        proof {
            assert(self.root@[id as int] == id);
            assert(is_rep_map(self.root@));
        }
        id
    }

    /// The number of ids.
    pub fn num_ids(&self) -> (n: usize)
        requires
            self.wf(),
        ensures
            n == self@.len(),
    {
        self.parent.len()
    }

    /// The number of classes.
    pub fn num_classes(&self) -> (n: usize)
        requires
            self.wf(),
        ensures
            n == num_roots(self@),
    {
        self.num_classes
    }

    /// The representative of `id`'s class, without compressing paths.
    pub fn root_of(&self, id: ClassId) -> (r: ClassId)
        requires
            self.wf(),
            id < self@.len(),
        ensures
            r == self@[id as int],
    {
        self.root_of_rec(id)
    }

    fn root_of_rec(&self, id: ClassId) -> (r: ClassId)
        requires
            self.wf(),
            id < self@.len(),
        ensures
            r == self@[id as int],
        decreases self.max_rank@ - self.rank@[id as int],
    {
        let p = self.parent[id];
        if p == id {
            id
        } else {
            self.root_of_rec(p)
        }
    }

    /// The representative of `id`'s class; compresses the path walked.
    pub fn find(&mut self, id: ClassId) -> (r: ClassId)
        requires
            old(self).wf(),
            id < old(self)@.len(),
        ensures
            final(self).wf(),
            final(self)@ == old(self)@,
            r == old(self)@[id as int],
    {
        self.find_rec(id)
    }

    fn find_rec(&mut self, id: ClassId) -> (r: ClassId)
        requires
            old(self).wf(),
            id < old(self)@.len(),
        ensures
            final(self).wf(),
            final(self).root == old(self).root,
            final(self).rank == old(self).rank,
            final(self).max_rank == old(self).max_rank,
            r == old(self)@[id as int],
        decreases old(self).max_rank@ - old(self).rank@[id as int],
    {
        let p = self.parent[id];
        if p == id {
            id
        } else {
            let r = self.find_rec(p);
            self.parent.set(id, r);
            proof {
                assert(self.root@[r as int] == r);
                assert forall|i: int| 0 <= i < self.parent@.len() implies (
                    #[trigger] self.parent@[i] == i) == (self.root@[i] == i) by {
                    if i == id as int {
                        assert(old(self).parent@[i] != i);
                    }
                }
            }
            r
        }
    }

    /// Merges the class of `a` into the class of `b`; the representative of
    /// `b` stays the representative of the merged class.
    pub fn union(&mut self, a: ClassId, b: ClassId)
        requires
            old(self).wf(),
            a < old(self)@.len(),
            b < old(self)@.len(),
        ensures
            final(self).wf(),
            final(self)@ == union_spec(old(self)@, a as int, b as int),
    {
        let ra = self.find(a);
        let rb = self.find(b);
        if ra == rb {
            proof {
                assert(self@ =~= union_spec(old(self)@, a as int, b as int));
            }
            return;
        }
        let ghost s = self.root@;
        let ghost mid = self.parent@;
        proof {
            lemma_count_roots_union(s, a as int, b as int, s.len() as int);
        }
        self.parent.set(ra, rb);
        let ghost new_rank: nat = if self.rank@[rb as int] > self.rank@[ra as int] {
            self.rank@[rb as int]
        } else {
            self.rank@[ra as int] + 1
        };
        self.rank = Ghost(self.rank@.update(rb as int, new_rank));
        self.max_rank = Ghost(if new_rank > self.max_rank@ {
            new_rank
        } else {
            self.max_rank@
        });
        self.root = Ghost(union_spec(s, a as int, b as int));
        self.num_classes = self.num_classes - 1;
        proof {
            let n = self.parent@.len();
            assert(s[ra as int] == ra && s[rb as int] == rb);
            assert forall|i: int| 0 <= i < n implies (#[trigger] self.root@[i] as int) < n
                && self.root@[self.root@[i] as int] == self.root@[i] by {
                assert(s[s[i] as int] == s[i]);
            }
            assert forall|i: int| 0 <= i < n implies (#[trigger] self.parent@[i] == i) == (
            self.root@[i] == i) by {
                assert(s[s[i] as int] == s[i]);
            }
            assert forall|i: int| 0 <= i < n && #[trigger] self.parent@[i] != i implies {
                &&& self.rank@[i] < self.rank@[self.parent@[i] as int]
                &&& self.rank@[i] < self.rank@[self.root@[i] as int]
                &&& self.root@[self.parent@[i] as int] == self.root@[i]
            } by {
                assert(s[s[i] as int] == s[i]);
                if i != ra as int {
                    assert(mid[i] == self.parent@[i]);
                }
            }
            assert forall|i: int| 0 <= i < n implies #[trigger] self.rank@[i] <= self.max_rank@ by {
            }
        }
    }

    /// Whether `a` and `b` are in the same class.
    pub fn query(&mut self, a: ClassId, b: ClassId) -> (r: bool)
        requires
            old(self).wf(),
            a < old(self)@.len(),
            b < old(self)@.len(),
        ensures
            final(self).wf(),
            final(self)@ == old(self)@,
            r == (old(self)@[a as int] == old(self)@[b as int]),
    {
        let ra = self.find(a);
        let rb = self.find(b);
        ra == rb
    }
}

/// Law: after a union, the two ids share a class, ids that shared a class
/// still do, and the merged map is again a representative map.
pub proof fn lemma_union_merges(s: Seq<ClassId>, a: int, b: int, x: int, y: int)
    requires
        is_rep_map(s),
        0 <= a < s.len(),
        0 <= b < s.len(),
        0 <= x < s.len(),
        0 <= y < s.len(),
    ensures
        is_rep_map(union_spec(s, a, b)),
        union_spec(s, a, b)[a] == union_spec(s, a, b)[b],
        s[x] == s[y] ==> union_spec(s, a, b)[x] == union_spec(s, a, b)[y],
        union_spec(s, a, b)[x] == union_spec(s, a, b)[y] <==> (s[x] == s[y] || (
        s[x] == s[a] || s[x] == s[b]) && (s[y] == s[a] || s[y] == s[b])),
{
    let t = union_spec(s, a, b);
    assert(s[s[a] as int] == s[a]);
    assert(s[s[b] as int] == s[b]);
    assert forall|i: int| 0 <= i < t.len() implies (#[trigger] t[i] as int) < t.len() && t[t[i] as int]
        == t[i] by {
        assert(s[s[i] as int] == s[i]);
    }
}

/// Law: a union of two ids in different classes removes exactly one class,
/// and a union of two ids in the same class leaves the map unchanged.
pub proof fn lemma_union_num_roots(s: Seq<ClassId>, a: int, b: int)
    requires
        is_rep_map(s),
        s.len() <= usize::MAX,
        0 <= a < s.len(),
        0 <= b < s.len(),
    ensures
        s[a] != s[b] ==> num_roots(union_spec(s, a, b)) + 1 == num_roots(s),
        s[a] == s[b] ==> union_spec(s, a, b) == s,
{
    if s[a] != s[b] {
        lemma_count_roots_union(s, a, b, s.len() as int);
    } else {
        assert(union_spec(s, a, b) =~= s);
    }
}

/// Every equality of `rep0` holds in `rep1`.
pub open spec fn coarsens(rep0: Seq<ClassId>, rep1: Seq<ClassId>) -> bool {
    &&& rep0.len() <= rep1.len()
    &&& forall|a: int, b: int|
        0 <= a < rep0.len() && 0 <= b < rep0.len() && #[trigger] rep0[a] == #[trigger] rep0[b] ==> rep1[a] == rep1[b]
}

/// Coarsening is transitive.
pub proof fn lemma_coarsens_trans(r0: Seq<ClassId>, r1: Seq<ClassId>, r2: Seq<ClassId>)
    requires
        coarsens(r0, r1),
        coarsens(r1, r2),
    ensures
        coarsens(r0, r2),
{
    assert forall|a: int, b: int|
        0 <= a < r0.len() && 0 <= b < r0.len() && #[trigger] r0[a] == #[trigger] r0[b] implies r2[a] == r2[b] by {
        assert(r1[a] == r1[b]);
    }
}

/// Law: a union only merges classes, and leaves a representative map.
pub proof fn lemma_union_coarsens(s: Seq<ClassId>, a: int, b: int)
    requires
        is_rep_map(s),
        0 <= a < s.len(),
        0 <= b < s.len(),
    ensures
        coarsens(s, union_spec(s, a, b)),
        union_spec(s, a, b)[a] == union_spec(s, a, b)[b],
        is_rep_map(union_spec(s, a, b)),
{
    let t = union_spec(s, a, b);
    lemma_union_merges(s, a, b, a, b);
    assert forall|x: int, y: int| 0 <= x < s.len() && 0 <= y < s.len() && #[trigger] s[x] == #[trigger] s[y] implies t[x] == t[y] by {
        lemma_union_merges(s, a, b, x, y);
    }
}

/// Adding a fresh id merges no classes.
pub proof fn lemma_coarsens_push(s: Seq<ClassId>, x: ClassId)
    ensures
        coarsens(s, s.push(x)),
{
}

} // verus!
