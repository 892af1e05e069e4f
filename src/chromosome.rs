//! The evolvable genome and its construction from scratch.
use vstd::prelude::*;

use crate::blueprints::{
    blueprint_fits, lemma_offset_mono, lemma_offset_step, lemma_offset_total, offset, total_len,
    Blueprint, Blueprints,
};
use crate::component::Component;
use crate::sampler::Sampler;

verus! {

/// The sum of the counts of `s`.
pub open spec fn count_sum(s: Seq<usize>) -> int
    decreases s.len(),
{
    if s.len() == 0 {
        0
    } else {
        count_sum(s.drop_last()) + s.last()
    }
}

/// Where the copies of entry `j` of a distribution start, plus `k`.
pub open spec fn slot(s: Seq<usize>, j: int, k: int) -> int {
    count_sum(s.subrange(0, j)) + k
}

pub proof fn lemma_count_sum_push(s: Seq<usize>, x: usize)
    ensures
        count_sum(s.push(x)) == count_sum(s) + x,
{
    assert(s.push(x).drop_last() =~= s);
}

pub proof fn lemma_count_sum_prefix_step(s: Seq<usize>, j: int)
    requires
        0 <= j < s.len(),
    ensures
        count_sum(s.subrange(0, j + 1)) == count_sum(s.subrange(0, j)) + s[j],
{
    assert(s.subrange(0, j + 1).drop_last() =~= s.subrange(0, j));
}

pub proof fn lemma_count_sum_update(s: Seq<usize>, i: int, x: usize)
    requires
        0 <= i < s.len(),
    ensures
        count_sum(s.update(i, x)) == count_sum(s) - s[i] + x,
    decreases s.len(),
{
    if i < s.len() - 1 {
        assert(s.update(i, x).drop_last() =~= s.drop_last().update(i, x));
        lemma_count_sum_update(s.drop_last(), i, x);
    } else {
        assert(s.update(i, x).drop_last() =~= s.drop_last());
    }
}

pub proof fn lemma_count_sum_elem(s: Seq<usize>, i: int)
    requires
        0 <= i < s.len(),
    ensures
        s[i] <= count_sum(s),
        0 <= count_sum(s),
    decreases s.len(),
{
    lemma_count_sum_nonneg(s.drop_last());
    if i < s.len() - 1 {
        lemma_count_sum_elem(s.drop_last(), i);
    }
}

pub proof fn lemma_count_sum_nonneg(s: Seq<usize>)
    ensures
        0 <= count_sum(s),
    decreases s.len(),
{
    if s.len() > 0 {
        lemma_count_sum_nonneg(s.drop_last());
    }
}

/// Splitting a prefix at `a` splits its sum.
pub proof fn lemma_count_sum_split(s: Seq<usize>, a: int, b: int)
    requires
        0 <= a <= b <= s.len(),
    ensures
        count_sum(s.subrange(0, b)) == count_sum(s.subrange(0, a)) + count_sum(s.subrange(a, b)),
    decreases b - a,
{
    if a < b {
        lemma_count_sum_split(s, a, b - 1);
        lemma_count_sum_prefix_step(s, b - 1);
        assert(s.subrange(a, b).drop_last() =~= s.subrange(a, b - 1));
    } else {
        assert(s.subrange(a, b) =~= Seq::<usize>::empty());
    }
}

/// `c` instantiates one of the templates `bps`.
pub open spec fn instance_of_some(c: Component, bps: Seq<Blueprint>, d: int) -> bool {
    exists|j: int| 0 <= j < bps.len() && c.instance_of(#[trigger] bps[j], d)
}

/// The genome: one output component and, per group, an ordered sequence of
/// regular components.
pub struct EgpChromosome {
    pub output: Component,
    pub regular: Vec<Vec<Component>>,
}

/// The ab-initio size is not above the number of terminals plus one.
#[derive(Clone, Copy, Debug, PartialEq, Eq, Structural)]
pub struct SizeError {
    /// The smallest size that would have been accepted.
    pub minimum: usize,
}

impl EgpChromosome {
    /// Every component is sized for `cat` and has resolvable sites, and the
    /// groups are those of `cat`.
    pub open spec fn wf(&self, cat: &Blueprints) -> bool {
        &&& self.regular.len() == cat.regular.len()
        &&& cat.component_fits(self.output)
        &&& forall|g: int, i: int|
            0 <= g < self.regular.len() && 0 <= i < self.regular[g].len() ==> cat.component_fits(
                #[trigger] self.regular[g][i],
            )
    }

    /// `n` independent instances of `bp`.
    pub fn make_many(bp: &Blueprint, n: usize, total_activities: usize, rng: &mut Sampler) -> (r:
        Vec<Component>)
        ensures
            r.len() == n,
            forall|k: int| 0 <= k < n ==> (#[trigger] r[k]).instance_of(*bp, total_activities as int),
    {
        let mut r: Vec<Component> = Vec::new();
        let mut k: usize = 0;
        while k < n
            invariant
                k <= n,
                r.len() == k,
                forall|i: int| 0 <= i < k ==> (#[trigger] r[i]).instance_of(*bp, total_activities as int),
            decreases n - k,
        {
            r.push(Component::from_blueprint(bp, total_activities, rng));
            k = k + 1;
        }
        r
    }

    /// `distribution[j]` instances of `blueprints[j]`, for each `j` that both
    /// have, one template's instances after the other's.
    pub fn make_group(
        blueprints: &Vec<Blueprint>,
        distribution: &Vec<usize>,
        total_activities: usize,
        rng: &mut Sampler,
    ) -> (r: Vec<Component>)
        ensures
            ({
                let m = if blueprints.len() < distribution.len() {
                    blueprints.len() as int
                } else {
                    distribution.len() as int
                };
                &&& r.len() == count_sum(distribution@.subrange(0, m))
                &&& forall|j: int, k: int|
                    0 <= j < m && 0 <= k < distribution[j] ==> (#[trigger] r[slot(
                        distribution@,
                        j,
                        k,
                    )]).instance_of(blueprints[j], total_activities as int)
            }),
    {
        let m: usize = if blueprints.len() < distribution.len() {
            blueprints.len()
        } else {
            distribution.len()
        };
        let mut r: Vec<Component> = Vec::new();
        let mut j: usize = 0;
        while j < m
            invariant
                j <= m <= blueprints.len(),
                m <= distribution.len(),
                r.len() == count_sum(distribution@.subrange(0, j as int)),
                forall|i: int, k: int|
                    0 <= i < j && 0 <= k < distribution[i] ==> (#[trigger] r[slot(
                        distribution@,
                        i,
                        k,
                    )]).instance_of(blueprints[i], total_activities as int),
            decreases m - j,
        {
            let mut many = EgpChromosome::make_many(
                &blueprints[j],
                distribution[j],
                total_activities,
                rng,
            );
            let ghost before = r@;
            let ghost added = many@;
            r.append(&mut many);
            assert(r@ == before + added);
            proof {
                lemma_count_sum_prefix_step(distribution@, j as int);
                assert forall|i: int, k: int|
                    0 <= i < j + 1 && 0 <= k < distribution[i] implies (#[trigger] r[slot(
                    distribution@,
                    i,
                    k,
                )]).instance_of(blueprints[i], total_activities as int) by {
                    lemma_count_sum_nonneg(distribution@.subrange(0, i));
                    if i < j {
                        lemma_count_sum_split(distribution@, i + 1, j as int);
                        lemma_count_sum_prefix_step(distribution@, i);
                        lemma_count_sum_nonneg(distribution@.subrange(i + 1, j as int));
                        assert(slot(distribution@, i, k) < before.len());
                        assert((before + added)[slot(distribution@, i, k)] == before[slot(
                            distribution@,
                            i,
                            k,
                        )]);
                    }
                }
            }
            j = j + 1;
        }
        r
    }

    /// Spreads `size` over `number_of_regulars` slots: a uniform weight per
    /// slot, each slot's share of `size` rounded down (`shares`), and the
    /// shortfall handed out one at a time to uniformly drawn slots (`repair`).
    fn distribution(number_of_regulars: usize, size: usize, rng: &mut Sampler) -> (r: Vec<usize>)
        requires
            0 < number_of_regulars,
        ensures
            r.len() == number_of_regulars,
            count_sum(r@) == size,
    {
        let mut weights: Vec<u64> = Vec::new();
        let mut i: usize = 0;
        while i < number_of_regulars
            invariant
                i <= number_of_regulars,
                weights.len() == i,
                forall|k: int| 0 <= k < i ==> #[trigger] weights[k] < 16777216,
            decreases number_of_regulars - i,
        {
            weights.push(rng.unit() as u64);
            i = i + 1;
        }
        let counts = shares(&weights, size);
        repair(counts, size, rng)
    }

    /// A new genome for `blueprints` with `size` components: the output,
    /// one per terminal template, and the rest spread over the regular
    /// templates by `distribution`.
    pub fn ancestor_from_blueprints(blueprints: &Blueprints, size: usize, rng: &mut Sampler) -> (r:
        Result<EgpChromosome, SizeError>)
        requires
            blueprints.wf(),
        ensures
            r is Err <==> size <= blueprints.number_of_terminals + 1,
            r is Err ==> r->Err_0.minimum == blueprints.number_of_terminals + 2,
            r is Ok ==> ({
                let c = r->Ok_0;
                &&& c.wf(blueprints)
                &&& total_len(c.regular@) + blueprints.number_of_terminals + 1 == size
                &&& c.output.instance_of(blueprints.output, blueprints.total_activities as int)
                &&& forall|g: int, i: int|
                    0 <= g < c.regular.len() && 0 <= i < c.regular[g].len() ==> instance_of_some(
                        #[trigger] c.regular[g][i],
                        blueprints.regular[g]@,
                        blueprints.total_activities as int,
                    )
            }),
    {
        if size <= blueprints.number_of_terminals + 1 {
            return Err(SizeError { minimum: blueprints.number_of_terminals + 2 });
        }
        let d = blueprints.total_activities;
        let budget = size - 1 - blueprints.number_of_terminals;
        let regulars_distribution = EgpChromosome::distribution(
            blueprints.number_of_regulars,
            budget,
            rng,
        );
        let ghost dist = regulars_distribution@;
        let ghost groups = blueprints.regular@;
        let mut regular: Vec<Vec<Component>> = Vec::new();
        let mut start: usize = 0;
        let mut g: usize = 0;
        while g < blueprints.regular.len()
            invariant
                blueprints.wf(),
                d == blueprints.total_activities,
                groups == blueprints.regular@,
                dist.len() == total_len(groups),
                regulars_distribution@ == dist,
                g <= groups.len(),
                start == offset(groups, g as int),
                regular.len() == g,
                total_len(regular@) == count_sum(dist.subrange(0, start as int)),
                forall|h: int, i: int|
                    0 <= h < g && 0 <= i < regular[h].len() ==> blueprints.component_fits(
                        #[trigger] regular[h][i],
                    ) && instance_of_some(regular[h][i], groups[h]@, d as int),
            decreases groups.len() - g,
        {
            proof {
                lemma_offset_step(groups, g as int);
                lemma_offset_mono(groups, g + 1, groups.len() as int);
                lemma_offset_total(groups);
            }
            let len = blueprints.regular[g].len();
            let mut share: Vec<usize> = Vec::new();
            let mut k: usize = 0;
            while k < len
                invariant
                    k <= len,
                    start + len <= dist.len(),
                    dist.len() == regulars_distribution.len(),
                    regulars_distribution@ == dist,
                    share@ == dist.subrange(start as int, start + k),
                decreases len - k,
            {
                share.push(regulars_distribution[start + k]);
                k = k + 1;
                assert(share@ =~= dist.subrange(start as int, start + k));
            }
            let group = EgpChromosome::make_group(&blueprints.regular[g], &share, d, rng);
            proof {
                assert(share@.subrange(0, len as int) =~= share@);
                lemma_count_sum_split(dist, start as int, start + len);
                assert forall|i: int| 0 <= i < group.len() implies blueprints.component_fits(
                    #[trigger] group[i],
                ) && instance_of_some(group[i], groups[g as int]@, d as int) by {
                    let j = lemma_slot_of(share@, i);
                    let k = i - count_sum(share@.subrange(0, j));
                    assert(i == slot(share@, j, k));
                    let bp = groups[g as int][j];
                    assert(blueprint_fits(bp, blueprints.terminal@));
                    assert(bp.activity < d) by {
                        lemma_offset_mono(groups, g as int, groups.len() as int);
                    }
                    assert(group[i].instance_of(groups[g as int]@[j], d as int));
                }
            }
            let ghost before = regular@;
            regular.push(group);
            proof {
                assert(regular@.drop_last() =~= before);
                assert(total_len(regular@) == total_len(before) + group.len());
                assert(group.len() == count_sum(share@.subrange(0, len as int)));
                assert forall|h: int, i: int|
                    0 <= h < g + 1 && 0 <= i < regular[h].len() implies blueprints.component_fits(
                    #[trigger] regular[h][i],
                ) && instance_of_some(regular[h][i], groups[h]@, d as int) by {
                    if h < g {
                        assert(regular[h] == before[h]);
                    } else {
                        assert(regular[h] == group);
                    }
                }
            }
            start = start + len;
            g = g + 1;
        }
        proof {
            lemma_offset_total(groups);
            assert(dist.subrange(0, start as int) =~= dist);
        }
        let output = Component::from_blueprint(&blueprints.output, d, rng);
        let c = EgpChromosome { output, regular };
        assert(c.wf(blueprints));
        assert(total_len(c.regular@) == budget);
        assert(c.output.instance_of(blueprints.output, blueprints.total_activities as int));
        Ok(c)
    }
}

/// The sum of the weights of `w`.
pub open spec fn weight_sum(w: Seq<u64>) -> int
    decreases w.len(),
{
    if w.len() == 0 {
        0
    } else {
        weight_sum(w.drop_last()) + w.last()
    }
}

/// The share of `size` that weight `w` of the total `total` gets, rounded
/// down; nothing when all weights are zero.
pub open spec fn share_of(size: int, w: int, total: int) -> int {
    if total == 0 {
        0
    } else {
        size * w / total
    }
}

proof fn lemma_weight_sum_prefix(w: Seq<u64>, i: int)
    requires
        0 <= i <= w.len(),
    ensures
        0 <= weight_sum(w.subrange(0, i)) <= weight_sum(w),
        i < w.len() ==> weight_sum(w.subrange(0, i + 1)) == weight_sum(w.subrange(0, i)) + w[i],
    decreases w.len(),
{
    if i < w.len() {
        assert(w.subrange(0, i + 1).drop_last() =~= w.subrange(0, i));
    }
    if i == w.len() {
        assert(w.subrange(0, i) =~= w);
        lemma_weight_sum_nonneg(w);
    } else {
        lemma_weight_sum_prefix(w.drop_last(), i);
        assert(w.drop_last().subrange(0, i) =~= w.subrange(0, i));
    }
}

proof fn lemma_weight_sum_nonneg(w: Seq<u64>)
    ensures
        0 <= weight_sum(w),
    decreases w.len(),
{
    if w.len() > 0 {
        lemma_weight_sum_nonneg(w.drop_last());
    }
}

/// Each slot's share of `size` by its weight, rounded down: slot `i` gets
/// `size * w[i] / Σw` (nothing when all weights are zero). The shares add
/// up to at most `size`.
pub fn shares(weights: &Vec<u64>, size: usize) -> (r: Vec<usize>)
    requires
        forall|k: int| 0 <= k < weights.len() ==> #[trigger] weights[k] < 16777216,
    ensures
        r.len() == weights.len(),
        forall|i: int|
            0 <= i < r.len() ==> #[trigger] r[i] == share_of(size as int, weights[i] as int, weight_sum(weights@)),
        count_sum(r@) <= size,
{
    let mut total: u128 = 0;
    let mut i: usize = 0;
    while i < weights.len()
        invariant
            i <= weights.len(),
            forall|k: int| 0 <= k < weights.len() ==> #[trigger] weights[k] < 16777216,
            total == weight_sum(weights@.subrange(0, i as int)),
            total <= i * 16777216,
        decreases weights.len() - i,
    {
        proof {
            lemma_weight_sum_prefix(weights@, i as int);
        }
        total = total + weights[i] as u128;
        i = i + 1;
    }
    proof {
        assert(weights@.subrange(0, weights.len() as int) =~= weights@);
    }
    let ghost big = weight_sum(weights@);
    let mut r: Vec<usize> = Vec::new();
    let mut placed: usize = 0;
    let mut i: usize = 0;
    while i < weights.len()
        invariant
            i <= weights.len(),
            forall|k: int| 0 <= k < weights.len() ==> #[trigger] weights[k] < 16777216,
            total == big,
            big == weight_sum(weights@),
            r.len() == i,
            count_sum(r@) == placed,
            forall|k: int| 0 <= k < i ==> #[trigger] r[k] == share_of(size as int, weights[k] as int, big),
            total == 0 ==> placed == 0,
            total > 0 ==> placed * total <= size * weight_sum(weights@.subrange(0, i as int)),
            placed <= size,
        decreases weights.len() - i,
    {
        proof {
            lemma_weight_sum_prefix(weights@, i as int);
            lemma_weight_sum_prefix(weights@, i + 1);
        }
        let w = weights[i] as u128;
        let n: usize = if total == 0 {
            0
        } else {
            assert((size as u128) * w <= u128::MAX) by (nonlinear_arith)
                requires
                    w < 16777216,
                    (size as u128) <= 0x1_0000_0000_0000_0000int,
            ;
            let share = (size as u128) * w / total;
            proof {
                let pre = weight_sum(weights@.subrange(0, i as int));
                let sz = size as int;
                let t = total as int;
                let sh = share as int;
                let wi = w as int;
                let pl = placed as int;
                assert(sh * t <= sz * wi) by (nonlinear_arith)
                    requires
                        sh == (sz * wi) / t,
                        t > 0,
                        sz >= 0,
                        wi >= 0,
                ;
                assert((pl + sh) * t <= sz * (pre + wi)) by (nonlinear_arith)
                    requires
                        pl * t <= sz * pre,
                        sh * t <= sz * wi,
                ;
                assert(pl + sh <= sz) by (nonlinear_arith)
                    requires
                        (pl + sh) * t <= sz * (pre + wi),
                        pre + wi <= t,
                        t > 0,
                        sz >= 0,
                ;
            }
            share as usize
        };
        proof {
            lemma_count_sum_push(r@, n);
        }
        r.push(n);
        placed = placed + n;
        i = i + 1;
    }
    r
}

/// `counts` with the shortfall from `size` handed out one at a time to
/// uniformly drawn slots: no slot loses, and the counts add up to `size`.
pub fn repair(counts: Vec<usize>, size: usize, rng: &mut Sampler) -> (r: Vec<usize>)
    requires
        counts.len() > 0,
        count_sum(counts@) <= size,
    ensures
        r.len() == counts.len(),
        count_sum(r@) == size,
        forall|i: int| 0 <= i < r.len() ==> #[trigger] r[i] >= counts[i],
{
    let mut r = counts;
    let ghost start = r@;
    proof {
        lemma_count_sum_nonneg(r@);
    }
    let mut missing: usize = size - count_sum_exec(&r, size);
    while missing > 0
        invariant
            r.len() == start.len(),
            0 < r.len(),
            count_sum(r@) + missing == size,
            forall|i: int| 0 <= i < r.len() ==> #[trigger] r@[i] >= start[i],
        decreases missing,
    {
        let index = rng.below(r.len());
        proof {
            lemma_count_sum_elem(r@, index as int);
            lemma_count_sum_update(r@, index as int, (r[index as int] + 1) as usize);
        }
        r.set(index, r[index] + 1);
        missing = missing - 1;
    }
    r
}

/// The sum of `counts`, known to be at most `bound`.
fn count_sum_exec(counts: &Vec<usize>, bound: usize) -> (r: usize)
    requires
        count_sum(counts@) <= bound,
    ensures
        r == count_sum(counts@),
{
    let mut acc: usize = 0;
    let mut i: usize = 0;
    while i < counts.len()
        invariant
            i <= counts.len(),
            count_sum(counts@) <= bound,
            acc == count_sum(counts@.subrange(0, i as int)),
        decreases counts.len() - i,
    {
        proof {
            lemma_count_sum_prefix_step(counts@, i as int);
            lemma_count_sum_split(counts@, i + 1, counts.len() as int);
            lemma_count_sum_nonneg(counts@.subrange(i + 1, counts.len() as int));
            assert(counts@.subrange(0, counts.len() as int) =~= counts@);
        }
        acc = acc + counts[i];
        i = i + 1;
    }
    proof {
        assert(counts@.subrange(0, counts.len() as int) =~= counts@);
    }
    acc
}

/// Each index below the sum of a distribution falls in the copies of one entry.
proof fn lemma_slot_of(s: Seq<usize>, i: int) -> (j: int)
    requires
        0 <= i < count_sum(s),
    ensures
        0 <= j < s.len(),
        count_sum(s.subrange(0, j)) <= i < count_sum(s.subrange(0, j)) + s[j],
    decreases s.len(),
{
    assert(s.subrange(0, s.len() as int) =~= s);
    lemma_count_sum_prefix_step(s, s.len() - 1);
    if i < count_sum(s.drop_last()) {
        let j = lemma_slot_of(s.drop_last(), i);
        assert(s.drop_last().subrange(0, j) =~= s.subrange(0, j));
        j
    } else {
        assert(s.subrange(0, s.len() - 1) =~= s.drop_last());
        s.len() - 1
    }
}

} // verus!
