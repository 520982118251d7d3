//! Remembered costs and their order.
//!
//! The cost the agent remembers for an open cell is the real number
//! `sqrt(dist_sq) + visits * strength`: the straight-line distance from the
//! cell to the goal, plus the memory strength once for every time the agent
//! has left the cell. Neither term is rounded. A cost is kept as the two
//! integers `dist_sq` and `visits`, the strength as a fraction, and two costs
//! are compared by integer arithmetic alone. Blocked cells carry the explicit
//! mark [`Cost::Unreachable`], which ranks above every number and takes part
//! in no arithmetic.
use vstd::prelude::*;

verus! {

/// The memory strength as a mathematical fraction `num / den`.
pub struct StrengthView {
    pub num: nat,
    pub den: nat,
}

impl StrengthView {
    /// A fraction needs a denominator other than zero.
    pub open spec fn valid(self) -> bool {
        self.den > 0
    }

    /// The strength as a real number.
    pub open spec fn as_real(self) -> real {
        (self.num as real) / (self.den as real)
    }
}

/// The amount added to a cell's remembered cost each time the agent leaves
/// it: the fraction `num / den`, with `den` other than zero.
#[derive(Clone, Copy, Debug, PartialEq, Eq)]
pub struct Strength {
    num: u32,
    den: u16,
}

impl View for Strength {
    type V = StrengthView;

    closed spec fn view(&self) -> StrengthView {
        StrengthView { num: self.num as nat, den: self.den as nat }
    }
}

impl Strength {
    /// Holds of every strength that [`Strength::new`] hands out.
    pub open spec fn wf(&self) -> bool {
        self@.valid()
    }

    /// The strength `num / den`, or `None` when `den` is zero.
    pub fn new(num: u32, den: u16) -> (made: Option<Strength>)
        ensures
            den == 0 ==> made is None,
            den != 0 ==> made is Some && made->0@ == (StrengthView {
                num: num as nat,
                den: den as nat,
            }),
    {
        if den == 0 {
            None
        } else {
            Some(Strength { num, den })
        }
    }

    /// The numerator.
    pub fn num(&self) -> (n: u32)
        ensures
            n == self@.num,
    {
        self.num
    }

    /// The denominator.
    pub fn den(&self) -> (d: u16)
        ensures
            d == self@.den,
    {
        self.den
    }
}

/// Whether `sqrt(a) < sqrt(b) + d`, decided without taking a root.
///
/// For `d >= 0` both sides are non-negative and may be squared:
/// `a < b + d^2 + 2 d sqrt(b)`, which holds when `a - b - d^2` is negative
/// or its square is below `4 d^2 b`. For `d < 0` the claim reads
/// `sqrt(a) + |d| < sqrt(b)` and is squared the other way round.
pub open spec fn root_lt(a: int, b: int, d: int) -> bool {
    if d >= 0 {
        let e = a - b - d * d;
        e < 0 || e * e < 4 * (d * d) * b
    } else {
        let f = b - a - d * d;
        f > 0 && f * f > 4 * (d * d) * a
    }
}

/// Whether `r` is the non-negative square root of `n`.
pub open spec fn is_root_of(r: real, n: int) -> bool {
    r >= (0 as real) && r * r == (n as real)
}

/// Whether `root` is the square-root function on the natural numbers.
pub open spec fn is_square_root(root: spec_fn(nat) -> real) -> bool {
    forall|n: nat| is_root_of(#[trigger] root(n), n as int)
}

/// `root_lt` decides the order it is named after: whenever `ra` and `rb` are
/// the square roots of `a` and `b`, `root_lt(a, b, d)` holds exactly when
/// `ra < rb + d` does.
pub proof fn lemma_root_lt_is_real_order(a: int, b: int, d: int, ra: real, rb: real)
    by (nonlinear_arith)
    requires
        a >= 0,
        b >= 0,
        is_root_of(ra, a),
        is_root_of(rb, b),
    ensures
        root_lt(a, b, d) <==> ra < rb + (d as real),
{
}

/// What the agent remembers of one cell, as mathematics.
pub enum CostView {
    /// The cell is blocked: above every number.
    Unreachable,
    /// The number `sqrt(dist_sq) + visits * strength`.
    Reachable { dist_sq: nat, visits: nat },
}

impl CostView {
    /// The cost as a real number, for a given square-root function.
    pub open spec fn value(self, strength: StrengthView, root: spec_fn(nat) -> real) -> real
        recommends
            self is Reachable,
    {
        root(self->dist_sq) + (self->visits as real) * strength.as_real()
    }

    /// Whether `self` is strictly cheaper than `other`. Both sides are
    /// scaled by the strength's denominator, which leaves
    /// `sqrt(den^2 dist_sq) + visits * num` on each side.
    pub open spec fn lt(self, other: CostView, strength: StrengthView) -> bool {
        match (self, other) {
            (
                CostView::Reachable { dist_sq: a, visits: v },
                CostView::Reachable { dist_sq: b, visits: w },
            ) => root_lt(
                (strength.den * strength.den * a) as int,
                (strength.den * strength.den * b) as int,
                w * strength.num - v * strength.num,
            ),
            (CostView::Reachable { .. }, CostView::Unreachable) => true,
            (CostView::Unreachable, _) => false,
        }
    }

    /// Whether `self` is what `seed` turns into as the agent comes and
    /// goes: the same cell at the same distance, whatever the visits.
    pub open spec fn is_later(self, seed: CostView) -> bool {
        match seed {
            CostView::Unreachable => self is Unreachable,
            CostView::Reachable { dist_sq, .. } => self is Reachable && self->dist_sq == dist_sq,
        }
    }

    /// The cost after the agent has left the cell `times` more times.
    pub open spec fn after_visits(self, times: nat) -> CostView {
        match self {
            CostView::Reachable { dist_sq, visits } => CostView::Reachable {
                dist_sq,
                visits: visits + times,
            },
            CostView::Unreachable => CostView::Unreachable,
        }
    }

    /// The cost after the agent has left the cell once more.
    pub open spec fn departed(self) -> CostView {
        match self {
            CostView::Reachable { dist_sq, visits } => CostView::Reachable {
                dist_sq,
                visits: visits + 1,
            },
            CostView::Unreachable => CostView::Unreachable,
        }
    }
}

/// What the agent remembers of one cell.
#[derive(Clone, Copy, Debug, PartialEq, Eq)]
pub enum Cost {
    /// The cell is blocked and can never be entered.
    Unreachable,
    /// The cell is open, the square of its straight-line distance to the
    /// goal is `dist_sq`, and the agent has left it `visits` times.
    Reachable { dist_sq: u32, visits: u64 },
}

impl View for Cost {
    type V = CostView;

    open spec fn view(&self) -> CostView {
        match *self {
            Cost::Unreachable => CostView::Unreachable,
            Cost::Reachable { dist_sq, visits } => CostView::Reachable {
                dist_sq: dist_sq as nat,
                visits: visits as nat,
            },
        }
    }
}

/// `sqrt(a) < sqrt(b) + d` for a gap `d` that is not negative.
fn root_lt_with_gap(a: u128, b: u128, d: u128) -> (less: bool)
    requires
        a < 0x1_0000_0000_0000_0000,
        b < 0x1_0000_0000_0000_0000,
    ensures
        less == root_lt(a as int, b as int, d as int),
{
    if d >= 0x1_0000_0000 {
        assert(d * d >= 0x1_0000_0000_0000_0000) by (nonlinear_arith)
            requires
                d >= 0x1_0000_0000,
        ;
        return true;
    }
    assert(d * d < 0x1_0000_0000_0000_0000) by (nonlinear_arith)
        requires
            d < 0x1_0000_0000,
    ;
    let dd: u128 = d * d;
    if a < b + dd {
        return true;
    }
    let e: u128 = a - b - dd;
    assert(e * e < 0x1_0000_0000_0000_0000 * 0x1_0000_0000_0000_0000) by (nonlinear_arith)
        requires
            e < 0x1_0000_0000_0000_0000,
    ;
    assert(dd * b < 0x1_0000_0000_0000_0000 * 0x1_0000_0000_0000_0000) by (nonlinear_arith)
        requires
            dd < 0x1_0000_0000_0000_0000,
            b < 0x1_0000_0000_0000_0000,
    ;
    let ee: u128 = e * e;
    let p: u128 = dd * b;
    assert(4 * (d * d) * b == 4 * (dd * b)) by (nonlinear_arith)
        requires
            dd == d * d,
    ;
    if p >= 0x4000_0000_0000_0000_0000_0000_0000_0000 {
        true
    } else {
        ee < 4 * p
    }
}

/// `sqrt(a) + d < sqrt(b)` for a gap `d` above zero.
fn root_with_gap_lt(a: u128, d: u128, b: u128) -> (less: bool)
    requires
        a < 0x1_0000_0000_0000_0000,
        b < 0x1_0000_0000_0000_0000,
        d > 0,
    ensures
        less == root_lt(a as int, b as int, -(d as int)),
{
    assert((-(d as int)) * (-(d as int)) == d * d) by (nonlinear_arith);
    if d >= 0x1_0000_0000 {
        assert(d * d >= 0x1_0000_0000_0000_0000) by (nonlinear_arith)
            requires
                d >= 0x1_0000_0000,
        ;
        return false;
    }
    assert(d * d < 0x1_0000_0000_0000_0000) by (nonlinear_arith)
        requires
            d < 0x1_0000_0000,
    ;
    let dd: u128 = d * d;
    if b <= a + dd {
        return false;
    }
    let f: u128 = b - a - dd;
    assert(f * f < 0x1_0000_0000_0000_0000 * 0x1_0000_0000_0000_0000) by (nonlinear_arith)
        requires
            f < 0x1_0000_0000_0000_0000,
    ;
    assert(dd * a < 0x1_0000_0000_0000_0000 * 0x1_0000_0000_0000_0000) by (nonlinear_arith)
        requires
            dd < 0x1_0000_0000_0000_0000,
            a < 0x1_0000_0000_0000_0000,
    ;
    let ff: u128 = f * f;
    let p: u128 = dd * a;
    assert(4 * (d * d) * a == 4 * (dd * a)) by (nonlinear_arith)
        requires
            dd == d * d,
    ;
    if p >= 0x4000_0000_0000_0000_0000_0000_0000_0000 {
        false
    } else {
        ff > 4 * p
    }
}

impl Cost {
    /// Whether `self` is strictly cheaper than `other` under `strength`.
    pub fn less_than(&self, other: &Cost, strength: Strength) -> (less: bool)
        ensures
            less == self@.lt(other@, strength@),
    {
        match (*self, *other) {
            (
                Cost::Reachable { dist_sq: a, visits: v },
                Cost::Reachable { dist_sq: b, visits: w },
            ) => {
                let den: u128 = strength.den as u128;
                let num: u128 = strength.num as u128;
                assert(den * den < 0x1_0000_0000) by (nonlinear_arith)
                    requires
                        den < 0x1_0000,
                ;
                let scale: u128 = den * den;
                assert(scale * (a as u128) < 0x1_0000_0000_0000_0000 && scale * (b as u128)
                    < 0x1_0000_0000_0000_0000) by (nonlinear_arith)
                    requires
                        scale < 0x1_0000_0000,
                        (a as u128) < 0x1_0000_0000,
                        (b as u128) < 0x1_0000_0000,
                ;
                assert((v as u128) * num < 0x1_0000_0000_0000_0000 * 0x1_0000_0000 && (w as u128)
                    * num < 0x1_0000_0000_0000_0000 * 0x1_0000_0000) by (nonlinear_arith)
                    requires
                        num < 0x1_0000_0000,
                        (v as u128) < 0x1_0000_0000_0000_0000,
                        (w as u128) < 0x1_0000_0000_0000_0000,
                ;
                let sa: u128 = scale * (a as u128);
                let sb: u128 = scale * (b as u128);
                let tv: u128 = (v as u128) * num;
                let tw: u128 = (w as u128) * num;
                if tv <= tw {
                    root_lt_with_gap(sa, sb, tw - tv)
                } else {
                    root_with_gap_lt(sa, tv - tw, sb)
                }
            },
            (Cost::Reachable { .. }, Cost::Unreachable) => true,
            (Cost::Unreachable, _) => false,
        }
    }
}

} // verus!
