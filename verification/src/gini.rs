//! Partition impurity, kept exact: a cost is a ratio of two integers, and
//! costs are compared without rounding.

use vstd::prelude::*;

pub mod x_bool_y_bool;
pub mod x_threeval_y_bool;

verus! {

/// A ratio of integers with a positive denominator.
pub struct Ratio {
    pub num: int,
    pub den: int,
}

impl Ratio {
    /// Whether this ratio is smaller than the other.
    pub open spec fn lt(self, other: Ratio) -> bool {
        self.num * other.den < other.num * self.den
    }

    /// Whether the two ratios are the same number.
    pub open spec fn same(self, other: Ratio) -> bool {
        self.num * other.den == other.num * self.den
    }

    /// The sum of the two ratios.
    pub open spec fn plus(self, other: Ratio) -> Ratio {
        Ratio { num: self.num * other.den + other.num * self.den, den: self.den * other.den }
    }
}

/// The share that a group with `a` rows of one class and `b` of the other
/// has in the impurity of `n` rows:
/// `(a + b) / n - (a * a + b * b) / (a + b) / n`, and zero for no rows.
pub open spec fn gini_part(a: int, b: int, n: int) -> Ratio {
    if a + b > 0 {
        Ratio { num: (a + b) * (a + b) - (a * a + b * b), den: (a + b) * n }
    } else {
        Ratio { num: 0, den: 1 }
    }
}

/// The impurity of `n` rows parted in two groups, in the form in which a
/// [`GiniScore`] holds it: over the sizes of the groups that are not empty,
/// times `n`.
pub open spec fn partition_cost(a: int, b: int, c: int, d: int, n: int) -> Ratio {
    if a + b > 0 && c + d > 0 {
        Ratio { num: 2 * (a * b * (c + d) + c * d * (a + b)), den: (a + b) * (c + d) * n }
    } else if a + b > 0 {
        Ratio { num: 2 * (a * b), den: (a + b) * n }
    } else if c + d > 0 {
        Ratio { num: 2 * (c * d), den: (c + d) * n }
    } else {
        Ratio { num: 0, den: n }
    }
}

/// The denominator of a cost over at least one row is positive.
pub proof fn lemma_partition_cost_den(a: int, b: int, c: int, d: int, n: int)
    requires
        a >= 0,
        b >= 0,
        c >= 0,
        d >= 0,
        n > 0,
    ensures
        partition_cost(a, b, c, d, n).den > 0,
{
    let p = a + b;
    let q = c + d;
    if p > 0 && q > 0 {
        assert(p * q * n > 0) by (nonlinear_arith)
            requires
                p > 0,
                q > 0,
                n > 0,
        ;
    } else if p > 0 {
        assert(p * n > 0) by (nonlinear_arith)
            requires
                p > 0,
                n > 0,
        ;
    } else if q > 0 {
        assert(q * n > 0) by (nonlinear_arith)
            requires
                q > 0,
                n > 0,
        ;
    }
}

/// The cost of a partition is the sum of the shares of its two groups.
pub proof fn lemma_partition_cost_is_sum_of_parts(a: int, b: int, c: int, d: int, n: int)
    requires
        a >= 0,
        b >= 0,
        c >= 0,
        d >= 0,
        n > 0,
    ensures
        partition_cost(a, b, c, d, n).same(gini_part(a, b, n).plus(gini_part(c, d, n))),
        partition_cost(a, b, c, d, n).den > 0,
{
    let p = a + b;
    let q = c + d;
    let x = a * b;
    let y = c * d;
    assert((a + b) * (a + b) - (a * a + b * b) == 2 * x) by (nonlinear_arith)
        requires
            x == a * b,
    ;
    assert((c + d) * (c + d) - (c * c + d * d) == 2 * y) by (nonlinear_arith)
        requires
            y == c * d,
    ;
    let left = gini_part(a, b, n);
    let right = gini_part(c, d, n);
    let sum = left.plus(right);
    let cost = partition_cost(a, b, c, d, n);
    if p > 0 && q > 0 {
        let s = x * q + y * p;
        let t = p * q * n;
        assert(t > 0) by (nonlinear_arith)
            requires
                t == p * q * n,
                p > 0,
                q > 0,
                n > 0,
        ;
        assert(left.num == 2 * x && left.den == p * n);
        assert(right.num == 2 * y && right.den == q * n);
        assert(cost.num == 2 * s && cost.den == t);
        assert(sum.num == (2 * x) * (q * n) + (2 * y) * (p * n));
        assert(sum.den == (p * n) * (q * n));
        assert(sum.num == 2 * s * n) by (nonlinear_arith)
            requires
                sum.num == (2 * x) * (q * n) + (2 * y) * (p * n),
                s == x * q + y * p,
        ;
        assert(sum.den == t * n) by (nonlinear_arith)
            requires
                sum.den == (p * n) * (q * n),
                t == p * q * n,
        ;
        assert((2 * s) * (t * n) == (2 * s * n) * t) by (nonlinear_arith);
    } else if p > 0 {
        assert(p * n > 0) by (nonlinear_arith)
            requires
                p > 0,
                n > 0,
        ;
        assert(left.num == 2 * x && left.den == p * n);
        assert(right.num == 0 && right.den == 1);
        assert(cost.num == 2 * x && cost.den == p * n);
        let u = p * n;
        assert(sum.num == (2 * x) * 1 + 0 * u);
        assert(sum.den == u * 1);
        assert(sum.num == 2 * x && sum.den == u) by (nonlinear_arith)
            requires
                sum.num == (2 * x) * 1 + 0 * u,
                sum.den == u * 1,
        ;
    } else if q > 0 {
        assert(q * n > 0) by (nonlinear_arith)
            requires
                q > 0,
                n > 0,
        ;
        assert(left.num == 0 && left.den == 1);
        assert(right.num == 2 * y && right.den == q * n);
        assert(cost.num == 2 * y && cost.den == q * n);
        let u = q * n;
        assert(sum.num == 0 * u + (2 * y) * 1);
        assert(sum.den == 1 * u);
        assert(sum.num == 2 * y && sum.den == u) by (nonlinear_arith)
            requires
                sum.num == 0 * u + (2 * y) * 1,
                sum.den == 1 * u,
        ;
    } else {
        assert(sum.num == 0 * 1 + 0 * 1);
        assert(cost.num == 0);
        assert(0 * sum.den == 0) by (nonlinear_arith);
        assert(sum.num * cost.den == 0) by (nonlinear_arith)
            requires
                sum.num == 0,
        ;
    }
}

/// Smaller-than passes on through not-greater-than: if `a` is below `b` and
/// `c` is not below `b`, then `a` is below `c`.
pub proof fn lemma_lt_passes(a: Ratio, b: Ratio, c: Ratio)
    requires
        a.den > 0,
        b.den > 0,
        c.den > 0,
        a.lt(b),
        !c.lt(b),
    ensures
        a.lt(c),
        !c.lt(a),
{
    let (an, ad, bn, bd, cn, cd) = (a.num, a.den, b.num, b.den, c.num, c.den);
    assert(an * bd * cd < bn * ad * cd) by (nonlinear_arith)
        requires
            an * bd < bn * ad,
            cd > 0,
    ;
    assert(bn * cd * ad <= cn * bd * ad) by (nonlinear_arith)
        requires
            bn * cd <= cn * bd,
            ad > 0,
    ;
    assert(bn * ad * cd == bn * cd * ad) by (nonlinear_arith);
    assert(an * bd * cd == (an * cd) * bd) by (nonlinear_arith);
    assert(cn * bd * ad == (cn * ad) * bd) by (nonlinear_arith);
    assert(an * cd < cn * ad) by (nonlinear_arith)
        requires
            (an * cd) * bd < (cn * ad) * bd,
            bd > 0,
    ;
}

/// The place of the first of the lowest among the first `upto` costs.
pub open spec fn first_min(costs: Seq<Ratio>, upto: nat) -> int
    decreases upto,
{
    if upto <= 1 {
        0
    } else {
        let best = first_min(costs, (upto - 1) as nat);
        if costs[upto - 1].lt(costs[best]) {
            upto - 1
        } else {
            best
        }
    }
}

/// The first of the lowest costs is a cost that none is below, and every
/// cost before it is above it.
pub proof fn lemma_first_min_is_least(costs: Seq<Ratio>, upto: nat)
    requires
        0 < upto <= costs.len(),
        forall|k: int| 0 <= k < costs.len() ==> (#[trigger] costs[k]).den > 0,
    ensures
        0 <= first_min(costs, upto) < upto,
        forall|j: int| 0 <= j < upto ==> !(#[trigger] costs[j]).lt(costs[first_min(costs, upto)]),
        forall|j: int|
            0 <= j < first_min(costs, upto) ==> costs[first_min(costs, upto)].lt(#[trigger] costs[j]),
    decreases upto,
{
    if upto > 1 {
        lemma_first_min_is_least(costs, (upto - 1) as nat);
        let best = first_min(costs, (upto - 1) as nat);
        let last = costs[upto - 1];
        if last.lt(costs[best]) {
            assert forall|j: int| 0 <= j < upto implies !(#[trigger] costs[j]).lt(last) by {
                if j < upto - 1 {
                    lemma_lt_passes(last, costs[best], costs[j]);
                }
            }
            assert forall|j: int| 0 <= j < upto - 1 implies last.lt(#[trigger] costs[j]) by {
                lemma_lt_passes(last, costs[best], costs[j]);
            }
        }
    }
}

/// The number of positions below `upto`, among those that both sequences
/// have, at which the first holds `a` and the second `b`.
pub open spec fn joint<A, B>(xs: Seq<A>, ys: Seq<B>, a: A, b: B, upto: nat) -> nat
    decreases upto,
{
    if upto == 0 {
        0
    } else {
        joint(xs, ys, a, b, (upto - 1) as nat) + if upto <= xs.len() && upto <= ys.len() && xs[upto
            - 1] == a && ys[upto - 1] == b {
            1nat
        } else {
            0nat
        }
    }
}

/// The number of positions that both sequences have.
pub open spec fn paired<A, B>(xs: Seq<A>, ys: Seq<B>) -> nat {
    if xs.len() <= ys.len() {
        xs.len()
    } else {
        ys.len()
    }
}

/// Largest number of rows for which costs are computed: the products that a
/// comparison needs then fit in 128 bits.
pub const MAX_ROWS: usize = 0xffff_ffff;

/// An exact impurity: `twice_weighted / (groups * rows)`. Impurities of
/// as many rows can be compared.
#[derive(Clone, Copy, Debug)]
pub struct GiniScore {
    twice_weighted: u128,
    groups: u128,
    rows: u64,
}

impl View for GiniScore {
    type V = Ratio;

    closed spec fn view(&self) -> Ratio {
        Ratio { num: self.twice_weighted as int, den: self.groups * self.rows }
    }
}

impl GiniScore {
    #[verifier::type_invariant]
    spec fn inv(&self) -> bool {
        &&& 0 < self.groups <= 0xffff_ffff_ffff_ffff
        &&& self.rows > 0
    }

    /// The number of rows that the impurity is an impurity of.
    pub closed spec fn rows(&self) -> nat {
        self.rows as nat
    }

    /// The impurity of `n` rows parted in a group with `a` rows of one
    /// class and `b` of the other, and a group with `c` and `d`.
    pub fn of_partition(a: usize, b: usize, c: usize, d: usize, n: usize) -> (score: GiniScore)
        requires
            n > 0,
            a + b <= MAX_ROWS,
            c + d <= MAX_ROWS,
        ensures
            score@ == partition_cost(a as int, b as int, c as int, d as int, n as int),
            score.rows() == n,
    {
        let p: u128 = (a + b) as u128;
        let q: u128 = (c + d) as u128;
        let ab: u128 = 0;
        let cd: u128 = 0;
        proof {
            assert(a * b <= 0xffff_ffff * 0xffff_ffff) by (nonlinear_arith)
                requires
                    a <= 0xffff_ffff,
                    b <= 0xffff_ffff,
            ;
            assert(c * d <= 0xffff_ffff * 0xffff_ffff) by (nonlinear_arith)
                requires
                    c <= 0xffff_ffff,
                    d <= 0xffff_ffff,
            ;
        }
        let ab: u128 = (a as u128) * (b as u128);
        let cd: u128 = (c as u128) * (d as u128);
        if p > 0 && q > 0 {
            proof {
                assert(ab * q <= 0xffff_ffff * 0xffff_ffff * 0xffff_ffff) by (nonlinear_arith)
                    requires
                        ab <= 0xffff_ffff * 0xffff_ffff,
                        q <= 0xffff_ffff,
                ;
                assert(cd * p <= 0xffff_ffff * 0xffff_ffff * 0xffff_ffff) by (nonlinear_arith)
                    requires
                        cd <= 0xffff_ffff * 0xffff_ffff,
                        p <= 0xffff_ffff,
                ;
                assert(0 < p * q <= 0xffff_ffff * 0xffff_ffff) by (nonlinear_arith)
                    requires
                        0 < p <= 0xffff_ffff,
                        0 < q <= 0xffff_ffff,
                ;
            }
            let score = GiniScore {
                twice_weighted: 2 * (ab * q + cd * p),
                groups: p * q,
                rows: n as u64,
            };
            assert(score@.num == 2 * (a * b * (c + d) + c * d * (a + b)));
            assert(score@.den == (a + b) * (c + d) * n);
            score
        } else if p > 0 {
            GiniScore { twice_weighted: 2 * ab, groups: p, rows: n as u64 }
        } else if q > 0 {
            GiniScore { twice_weighted: 2 * cd, groups: q, rows: n as u64 }
        } else {
            GiniScore { twice_weighted: 0, groups: 1, rows: n as u64 }
        }
    }

    /// The numerator of the impurity.
    pub fn numerator(&self) -> (num: u128)
        ensures
            num == self@.num,
    {
        self.twice_weighted
    }

    /// The denominator of the impurity, which is positive.
    pub fn denominator(&self) -> (den: u128)
        ensures
            den == self@.den,
            den > 0,
    {
        proof {
            use_type_invariant(self);
            assert(0 < self.groups * self.rows <= 0xffff_ffff_ffff_ffff * 0xffff_ffff_ffff_ffff)
                by (nonlinear_arith)
                requires
                    0 < self.groups <= 0xffff_ffff_ffff_ffff,
                    0 < self.rows <= 0xffff_ffff_ffff_ffff,
            ;
        }
        self.groups * (self.rows as u128)
    }

    /// Whether this impurity is smaller than another of as many rows.
    pub fn lt(&self, other: &GiniScore) -> (smaller: bool)
        requires
            self.rows() == other.rows(),
        ensures
            smaller == self@.lt(other@),
    {
        proof {
            use_type_invariant(self);
            use_type_invariant(other);
        }
        let i1 = self.twice_weighted / self.groups;
        let r1 = self.twice_weighted % self.groups;
        let i2 = other.twice_weighted / other.groups;
        let r2 = other.twice_weighted % other.groups;
        proof {
            lemma_mixed_order(
                self.twice_weighted as int,
                self.groups as int,
                other.twice_weighted as int,
                other.groups as int,
                self.rows as int,
            );
            assert(r1 * other.groups <= 0xffff_ffff_ffff_ffff * 0xffff_ffff_ffff_ffff)
                by (nonlinear_arith)
                requires
                    0 <= r1 <= 0xffff_ffff_ffff_ffff,
                    0 < other.groups <= 0xffff_ffff_ffff_ffff,
            ;
            assert(r2 * self.groups <= 0xffff_ffff_ffff_ffff * 0xffff_ffff_ffff_ffff)
                by (nonlinear_arith)
                requires
                    0 <= r2 <= 0xffff_ffff_ffff_ffff,
                    0 < self.groups <= 0xffff_ffff_ffff_ffff,
            ;
        }
        i1 < i2 || (i1 == i2 && r1 * other.groups < r2 * self.groups)
    }
}

/// Two ratios over a common factor `n` are ordered as their whole parts
/// and, where those are equal, as their remainders over the other's
/// denominator.
proof fn lemma_mixed_order(n1: int, g1: int, n2: int, g2: int, n: int)
    requires
        n1 >= 0,
        n2 >= 0,
        g1 > 0,
        g2 > 0,
        n > 0,
    ensures
        n1 * (g2 * n) < n2 * (g1 * n) <==> (n1 / g1 < n2 / g2 || (n1 / g1 == n2 / g2 && (n1 % g1)
            * g2 < (n2 % g2) * g1)),
{
    let i1 = n1 / g1;
    let r1 = n1 % g1;
    let i2 = n2 / g2;
    let r2 = n2 % g2;
    vstd::arithmetic::div_mod::lemma_fundamental_div_mod(n1, g1);
    vstd::arithmetic::div_mod::lemma_fundamental_div_mod(n2, g2);
    vstd::arithmetic::div_mod::lemma_mod_bound(n1, g1);
    vstd::arithmetic::div_mod::lemma_mod_bound(n2, g2);
    assert(n1 == g1 * i1 + r1);
    assert(n2 == g2 * i2 + r2);
    assert(n1 * g2 == i1 * (g1 * g2) + r1 * g2) by (nonlinear_arith)
        requires
            n1 == g1 * i1 + r1,
    ;
    assert(n2 * g1 == i2 * (g1 * g2) + r2 * g1) by (nonlinear_arith)
        requires
            n2 == g2 * i2 + r2,
    ;
    assert(0 <= r1 * g2 < g1 * g2) by (nonlinear_arith)
        requires
            0 <= r1 < g1,
            g2 > 0,
    ;
    assert(0 <= r2 * g1 < g1 * g2) by (nonlinear_arith)
        requires
            0 <= r2 < g2,
            g1 > 0,
    ;
    let m = g1 * g2;
    assert(i1 < i2 ==> i1 * m + m <= i2 * m) by (nonlinear_arith)
        requires
            m > 0,
    ;
    assert(i2 < i1 ==> i2 * m + m <= i1 * m) by (nonlinear_arith)
        requires
            m > 0,
    ;
    assert(m > 0) by (nonlinear_arith)
        requires
            m == g1 * g2,
            g1 > 0,
            g2 > 0,
    ;
    assert(n1 * (g2 * n) == (n1 * g2) * n) by (nonlinear_arith);
    assert(n2 * (g1 * n) == (n2 * g1) * n) by (nonlinear_arith);
    assert((n1 * g2) * n < (n2 * g1) * n <==> n1 * g2 < n2 * g1) by (nonlinear_arith)
        requires
            n > 0,
    ;
}

} // verus!
