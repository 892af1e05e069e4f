//! Exact arithmetic on integer vectors.
//!
//! Geometry in this crate is fixed point: a coordinate `x` stands for the real
//! number `x / ONE`. Sums, differences and scalings are exact, and a norm is
//! kept as the quantity under its square root, so comparing two norms never
//! rounds.
use vstd::prelude::*;

verus! {

/// The fixed-point value of 1.0.
pub const ONE: i64 = 16777216;

/// The longest vector the bounds below are sized for.
pub const MAX_LEN: usize = 65536;

/// The largest entry magnitude `norm` accepts.
pub const NORM_BOUND: i64 = 70368744177664;

/// The largest entry magnitude `sum_many` accepts.
pub const SUM_BOUND: i64 = 1099511627776;

pub open spec fn abs(x: int) -> int {
    if x < 0 {
        -x
    } else {
        x
    }
}

/// The entries of `s` as mathematical integers.
pub open spec fn ints(s: Seq<i64>) -> Seq<int> {
    s.map_values(|x: i64| x as int)
}

/// The sum of the absolute values of `s`.
pub open spec fn abs_sum(s: Seq<int>) -> int
    decreases s.len(),
{
    if s.len() == 0 {
        0
    } else {
        abs_sum(s.drop_last()) + abs(s.last())
    }
}

/// The componentwise difference `a - b`.
pub open spec fn gap(a: Seq<i64>, b: Seq<i64>) -> Seq<int> {
    Seq::new(a.len(), |i: int| a[i] - b[i])
}

/// Every entry of `s` lies in `[-bound, bound]`.
pub open spec fn within(s: Seq<i64>, bound: int) -> bool {
    forall|i: int| 0 <= i < s.len() ==> -bound <= #[trigger] s[i] <= bound
}

/// The sum of entry `i` over all the vectors of `xs`.
pub open spec fn column_sum(xs: Seq<Vec<i64>>, i: int) -> int
    decreases xs.len(),
{
    if xs.len() == 0 {
        0
    } else {
        column_sum(xs.drop_last(), i) + xs.last()@[i]
    }
}

/// The square root of `num / den`, kept unevaluated.
///
/// The root is monotone, so two distances compare as their radicands do.
#[derive(Clone, Copy, Debug)]
pub struct Distance {
    pub num: u64,
    pub den: u64,
}

impl Distance {
    /// `self` is at most `other`, as real numbers.
    pub open spec fn at_most(self, other: Distance) -> bool {
        self.num * other.den <= other.num * self.den
    }

    pub fn le(&self, other: &Distance) -> (r: bool)
        ensures
            r == self.at_most(*other),
    {
        let a = self.num as u128;
        let b = other.den as u128;
        let c = other.num as u128;
        let d = self.den as u128;
        proof {
            lemma_u64_product(self.num, other.den);
            lemma_u64_product(other.num, self.den);
        }
        a * b <= c * d
    }
}

proof fn lemma_u64_product(x: u64, y: u64)
    ensures
        (x as int) * (y as int) <= u128::MAX,
{
    assert((x as int) * (y as int) <= (u64::MAX as int) * (u64::MAX as int)) by (nonlinear_arith)
        requires
            x <= u64::MAX,
            y <= u64::MAX,
            0 <= x,
            0 <= y,
    ;
}

/// A vector of fractions `num[i] / den` with one shared denominator.
#[derive(Clone, Debug)]
pub struct Scaled {
    pub num: Vec<i64>,
    pub den: u64,
}

/// `a` times `by`, componentwise.
pub fn scale(a: &Vec<i64>, by: i64) -> (r: Vec<i64>)
    requires
        forall|i: int| 0 <= i < a.len() ==> i64::MIN <= #[trigger] a[i] * by <= i64::MAX,
    ensures
        r.len() == a.len(),
        forall|i: int| 0 <= i < a.len() ==> #[trigger] r[i] == a[i] * by,
{
    let mut r: Vec<i64> = Vec::new();
    let mut i: usize = 0;
    while i < a.len()
        invariant
            i <= a.len(),
            r.len() == i,
            forall|i: int| 0 <= i < a.len() ==> i64::MIN <= #[trigger] a[i] * by <= i64::MAX,
            forall|j: int| 0 <= j < i ==> #[trigger] r[j] == a[j] * by,
        decreases a.len() - i,
    {
        r.push(a[i] * by);
        i = i + 1;
    }
    r
}

/// `a + b`, componentwise.
pub fn sum(a: &Vec<i64>, b: &Vec<i64>) -> (r: Vec<i64>)
    requires
        a.len() == b.len(),
        forall|i: int| 0 <= i < a.len() ==> i64::MIN <= #[trigger] a[i] + b[i] <= i64::MAX,
    ensures
        r.len() == a.len(),
        forall|i: int| 0 <= i < a.len() ==> #[trigger] r[i] == a[i] + b[i],
{
    let mut r: Vec<i64> = Vec::new();
    let mut i: usize = 0;
    while i < a.len()
        invariant
            i <= a.len(),
            a.len() == b.len(),
            r.len() == i,
            forall|i: int| 0 <= i < a.len() ==> i64::MIN <= #[trigger] a[i] + b[i] <= i64::MAX,
            forall|j: int| 0 <= j < i ==> #[trigger] r[j] == a[j] + b[j],
        decreases a.len() - i,
    {
        r.push(a[i] + b[i]);
        i = i + 1;
    }
    r
}

/// `a - b`, componentwise.
pub fn difference(a: &Vec<i64>, b: &Vec<i64>) -> (r: Vec<i64>)
    requires
        a.len() == b.len(),
        forall|i: int| 0 <= i < a.len() ==> i64::MIN <= #[trigger] a[i] - b[i] <= i64::MAX,
    ensures
        r.len() == a.len(),
        forall|i: int| 0 <= i < a.len() ==> #[trigger] r[i] == a[i] - b[i],
        ints(r@) == gap(a@, b@),
{
    let mut r: Vec<i64> = Vec::new();
    let mut i: usize = 0;
    while i < a.len()
        invariant
            i <= a.len(),
            a.len() == b.len(),
            r.len() == i,
            forall|i: int| 0 <= i < a.len() ==> i64::MIN <= #[trigger] a[i] - b[i] <= i64::MAX,
            forall|j: int| 0 <= j < i ==> #[trigger] r[j] == a[j] - b[j],
        decreases a.len() - i,
    {
        r.push(a[i] - b[i]);
        i = i + 1;
    }
    assert(ints(r@) =~= gap(a@, b@));
    r
}

/// The norm `sqrt(sum |a_i|)`, as its radicand over the denominator 1.
pub fn norm(a: &Vec<i64>) -> (r: Distance)
    requires
        a.len() <= MAX_LEN,
        within(a@, NORM_BOUND as int),
    ensures
        r.num == abs_sum(ints(a@)),
        r.den == 1,
{
    let mut acc: u64 = 0;
    let mut i: usize = 0;
    while i < a.len()
        invariant
            i <= a.len() <= MAX_LEN,
            within(a@, NORM_BOUND as int),
            acc == abs_sum(ints(a@).subrange(0, i as int)),
            acc <= i * NORM_BOUND,
        decreases a.len() - i,
    {
        let x = a[i];
        let m: u64 = if x < 0 {
            (0 - x) as u64
        } else {
            x as u64
        };
        assert(ints(a@).subrange(0, i + 1).drop_last() =~= ints(a@).subrange(0, i as int));
        acc = acc + m;
        i = i + 1;
    }
    assert(ints(a@).subrange(0, a.len() as int) =~= ints(a@));
    Distance { num: acc, den: 1 }
}

/// The distance `norm(a - b)`.
pub fn distance(a: &Vec<i64>, b: &Vec<i64>) -> (r: Distance)
    requires
        a.len() == b.len(),
        a.len() <= MAX_LEN,
        forall|i: int| 0 <= i < a.len() ==> -NORM_BOUND <= #[trigger] a[i] - b[i] <= NORM_BOUND,
    ensures
        r.num == abs_sum(gap(a@, b@)),
        r.den == 1,
{
    let d = difference(a, b);
    assert(within(d@, NORM_BOUND as int));
    norm(&d)
}

/// The distance from `b` to the fractions of `p`: the radicand is
/// `sum |b_i * den - num_i|`, over the denominator `den`.
pub fn distance_to(b: &Vec<i64>, p: &Scaled) -> (r: Distance)
    requires
        b.len() == p.num.len(),
        b.len() <= MAX_LEN,
        p.den <= 1048576,
        within(b@, ONE as int),
        within(p.num@, SUM_BOUND as int),
    ensures
        r.num == abs_sum(gap(b@.map_values(|x: i64| (x * p.den) as i64), p.num@)),
        r.den == p.den,
{
    assert forall|i: int| 0 <= i < b.len() implies -ONE * 1048576 <= #[trigger] b[i] * (p.den as i64) <= ONE * 1048576 by {
        assert(-ONE * (p.den as int) <= b[i] * (p.den as int) <= ONE * (p.den as int)) by (nonlinear_arith)
            requires -ONE <= b[i] <= ONE, 0 <= p.den;
        assert(ONE * (p.den as int) <= ONE * 1048576) by (nonlinear_arith)
            requires p.den <= 1048576;
    }
    let lifted = scale(b, p.den as i64);
    assert(lifted@ =~= b@.map_values(|x: i64| (x * p.den) as i64));
    let d = distance(&lifted, &p.num);
    Distance { num: d.num, den: p.den }
}

/// The componentwise sum of the vectors of `xs`.
pub fn sum_many(xs: &Vec<Vec<i64>>) -> (r: Vec<i64>)
    requires
        0 < xs.len() <= MAX_LEN,
        forall|k: int| 0 <= k < xs.len() ==> (#[trigger] xs[k]).len() == xs[0].len(),
        forall|k: int| 0 <= k < xs.len() ==> within((#[trigger] xs[k])@, SUM_BOUND as int),
    ensures
        r.len() == xs[0].len(),
        forall|i: int| 0 <= i < r.len() ==> #[trigger] r[i] == column_sum(xs@, i),
{
    let len = xs[0].len();
    let mut r: Vec<i64> = Vec::new();
    let mut i: usize = 0;
    while i < len
        invariant
            i <= len,
            r.len() == i,
            forall|j: int| 0 <= j < i ==> #[trigger] r[j] == 0,
        decreases len - i,
    {
        r.push(0);
        i = i + 1;
    }
    let mut k: usize = 0;
    while k < xs.len()
        invariant
            0 < xs.len() <= MAX_LEN,
            k <= xs.len(),
            len == xs[0].len(),
            r.len() == len,
            forall|k: int| 0 <= k < xs.len() ==> (#[trigger] xs[k]).len() == xs[0].len(),
            forall|k: int| 0 <= k < xs.len() ==> within((#[trigger] xs[k])@, SUM_BOUND as int),
            forall|i: int| 0 <= i < len ==> #[trigger] r[i] == column_sum(xs@.subrange(0, k as int), i),
            forall|i: int| 0 <= i < len ==> -k * SUM_BOUND <= #[trigger] r[i] <= k * SUM_BOUND,
        decreases xs.len() - k,
    {
        let ghost prev = r@;
        assert forall|i: int| 0 <= i < r.len() implies i64::MIN <= #[trigger] r[i] + xs[k as int][i] <= i64::MAX by {
            assert(within(xs[k as int]@, SUM_BOUND as int));
        }
        r = sum(&r, &xs[k]);
        assert forall|i: int| 0 <= i < len implies #[trigger] r[i] == column_sum(xs@.subrange(0, k + 1), i) by {
            assert(xs@.subrange(0, k + 1).drop_last() =~= xs@.subrange(0, k as int));
            assert(within(xs[k as int]@, SUM_BOUND as int));
        }
        k = k + 1;
    }
    assert(xs@.subrange(0, xs.len() as int) =~= xs@);
    r
}

/// The average of the vectors of `xs`, as their sum over their count.
pub fn average(xs: &Vec<Vec<i64>>) -> (r: Scaled)
    requires
        0 < xs.len() <= MAX_LEN,
        forall|k: int| 0 <= k < xs.len() ==> (#[trigger] xs[k]).len() == xs[0].len(),
        forall|k: int| 0 <= k < xs.len() ==> within((#[trigger] xs[k])@, SUM_BOUND as int),
    ensures
        r.den == xs.len(),
        r.num.len() == xs[0].len(),
        forall|i: int| 0 <= i < r.num.len() ==> #[trigger] r.num[i] == column_sum(xs@, i),
{
    let num = sum_many(xs);
    Scaled { num, den: xs.len() as u64 }
}

proof fn lemma_abs_sum_congruent(s: Seq<int>, t: Seq<int>)
    requires
        s.len() == t.len(),
        forall|i: int| 0 <= i < s.len() ==> abs(#[trigger] s[i]) == abs(t[i]),
    ensures
        abs_sum(s) == abs_sum(t),
    decreases s.len(),
{
    if s.len() > 0 {
        lemma_abs_sum_congruent(s.drop_last(), t.drop_last());
    }
}

/// The distance from a vector to itself is zero.
pub proof fn distance_to_itself(a: Seq<i64>)
    ensures
        abs_sum(gap(a, a)) == 0,
{
    lemma_abs_sum_congruent(gap(a, a), Seq::new(a.len(), |i: int| 0int));
    lemma_abs_sum_zero(a.len());
}

proof fn lemma_abs_sum_zero(n: nat)
    ensures
        abs_sum(Seq::new(n, |i: int| 0int)) == 0,
    decreases n,
{
    if n > 0 {
        assert(Seq::new(n, |i: int| 0int).drop_last() =~= Seq::new((n - 1) as nat, |i: int| 0int));
        lemma_abs_sum_zero((n - 1) as nat);
    }
}

/// Distance does not depend on the order of its arguments.
pub proof fn distance_symmetric(a: Seq<i64>, b: Seq<i64>)
    requires
        a.len() == b.len(),
    ensures
        abs_sum(gap(a, b)) == abs_sum(gap(b, a)),
{
    lemma_abs_sum_congruent(gap(a, b), gap(b, a));
}

/// The average of a single vector is that vector.
pub proof fn average_of_one(a: Vec<i64>)
    ensures
        forall|i: int| 0 <= i < a.len() ==> column_sum(seq![a], i) == #[trigger] a[i],
{
    let s = seq![a];
    assert(s.drop_last() =~= Seq::<Vec<i64>>::empty());
    assert forall|i: int| 0 <= i < a.len() implies column_sum(seq![a], i) == #[trigger] a[i] by {
        assert(column_sum(Seq::<Vec<i64>>::empty(), i) == 0);
        assert(s.last() == a);
    }
}

/// The average of two vectors is their componentwise midpoint: the sum of
/// the two entries over the count 2.
pub proof fn average_of_two(a: Vec<i64>, b: Vec<i64>)
    requires
        a.len() == b.len(),
    ensures
        forall|i: int| 0 <= i < a.len() ==> column_sum(seq![a, b], i) == #[trigger] a[i] + b[i],
{
    let s = seq![a, b];
    assert(s.drop_last() =~= seq![a]);
    average_of_one(a);
    assert forall|i: int| 0 <= i < a.len() implies column_sum(seq![a, b], i) == #[trigger] a[i] + b[i] by {
        assert(s.last() == b);
        assert(column_sum(seq![a], i) == a[i]);
    }
}

} // verus!
