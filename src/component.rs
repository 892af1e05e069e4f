//! Components: templates instantiated with sampled binding geometry.
use vstd::prelude::*;

use crate::blueprints::Blueprint;
use crate::sampler::Sampler;
use crate::vectors::{column_sum, scale, sum, sum_many, within, Scaled, ONE, SUM_BOUND};

verus! {

/// The largest number of binding sites, strong and weak together, one
/// component may carry.
pub const MAX_SITES: usize = 32768;

/// Every vector of `sites` has `d` entries, each on the grid of `[0, 1)`.
pub open spec fn sites_fit(sites: Seq<Vec<i64>>, d: int) -> bool {
    forall|k: int|
        0 <= k < sites.len() ==> {
            &&& (#[trigger] sites[k]).len() == d
            &&& forall|i: int| 0 <= i < d ==> 0 <= #[trigger] sites[k][i] < ONE
        }
}

/// A template instantiated with one sampled vector per binding site.
pub struct Component {
    pub activity: usize,
    pub label: String,
    /// One vector per strong binding site: these express new components.
    pub binding_sites: Vec<Vec<i64>>,
    pub binding_sites_groups: Vec<usize>,
    /// One vector per weak binding site: these connect to expressed components.
    pub weak_binding_sites: Vec<Vec<i64>>,
    pub weak_binding_sites_groups: Vec<usize>,
}

impl Component {
    /// The component is sized for a catalog of `d` activities.
    pub open spec fn wf(&self, d: int) -> bool {
        &&& 0 < d <= 65536
        &&& self.activity < d
        &&& self.binding_sites.len() == self.binding_sites_groups.len()
        &&& self.weak_binding_sites.len() == self.weak_binding_sites_groups.len()
        &&& self.binding_sites.len() + self.weak_binding_sites.len() <= MAX_SITES
        &&& sites_fit(self.binding_sites@, d)
        &&& sites_fit(self.weak_binding_sites@, d)
    }

    /// The component instantiates `bp` for `d` activities.
    pub open spec fn instance_of(&self, bp: Blueprint, d: int) -> bool {
        &&& self.activity == bp.activity
        &&& self.label@ == bp.label@
        &&& self.binding_sites_groups@ == bp.binding_sites@
        &&& self.weak_binding_sites_groups@ == bp.weak_binding_sites@
        &&& self.binding_sites.len() == bp.binding_sites.len()
        &&& self.weak_binding_sites.len() == bp.weak_binding_sites.len()
        &&& sites_fit(self.binding_sites@, d)
        &&& sites_fit(self.weak_binding_sites@, d)
    }

    pub open spec fn site_count(&self) -> int {
        self.binding_sites.len() + self.weak_binding_sites.len()
    }

    /// The weight of the identity in the numerator of the profile.
    pub open spec fn identity_weight(&self) -> int {
        if self.site_count() == 0 {
            1
        } else {
            self.site_count()
        }
    }

    /// The common denominator of the profile.
    pub open spec fn profile_den(&self) -> int {
        if self.site_count() == 0 {
            1
        } else {
            2 * self.site_count()
        }
    }

    /// Entry `i` of the profile's numerator. Over the denominator it is
    /// `(1 - b) * [i == activity] + b * average of all binding vectors`,
    /// with the bias `b = 1/2`; without binding sites it is the one-hot
    /// identity alone.
    pub open spec fn profile_entry(&self, i: int) -> int {
        self.identity_weight() * (if i == self.activity {
            ONE as int
        } else {
            0
        }) + column_sum(self.binding_sites@, i) + column_sum(self.weak_binding_sites@, i)
    }

    pub open spec fn profile_nums(&self, d: int) -> Seq<i64> {
        Seq::new(d as nat, |i: int| self.profile_entry(i) as i64)
    }

    fn activity_vector(&self, total_activities: usize) -> (r: Vec<i64>)
        requires
            self.activity < total_activities,
        ensures
            r.len() == total_activities,
            forall|i: int|
                0 <= i < total_activities ==> #[trigger] r[i] == if i == self.activity {
                    ONE
                } else {
                    0
                },
    {
        let mut r: Vec<i64> = Vec::new();
        let mut i: usize = 0;
        while i < total_activities
            invariant
                i <= total_activities,
                r.len() == i,
                forall|k: int|
                    0 <= k < i ==> #[trigger] r[k] == if k == self.activity {
                        ONE
                    } else {
                        0
                    },
            decreases total_activities - i,
        {
            if i == self.activity {
                r.push(ONE);
            } else {
                r.push(0);
            }
            i = i + 1;
        }
        r
    }

    /// Instantiates `blueprint`, sampling a fresh vector of
    /// `total_activities` entries for each of its binding sites.
    pub fn from_blueprint(blueprint: &Blueprint, total_activities: usize, rng: &mut Sampler) -> (r:
        Component)
        ensures
            r.instance_of(*blueprint, total_activities as int),
    {
        let binding_sites_groups = blueprint.binding_sites.clone();
        let binding_sites = random_binding_sites(&blueprint.binding_sites, total_activities, rng);
        let weak_binding_sites_groups = blueprint.weak_binding_sites.clone();
        let weak_binding_sites = random_binding_sites(
            &blueprint.weak_binding_sites,
            total_activities,
            rng,
        );
        proof {
            assert(binding_sites_groups@ =~= blueprint.binding_sites@);
            assert(weak_binding_sites_groups@ =~= blueprint.weak_binding_sites@);
        }
        Component {
            activity: blueprint.activity,
            label: blueprint.label.clone(),
            binding_sites,
            binding_sites_groups,
            weak_binding_sites,
            weak_binding_sites_groups,
        }
    }

    /// The matching signature of the component: its numerator, entry by
    /// entry `profile_entry`, over `profile_den`.
    pub fn profile(&self, total_activities: usize) -> (r: Scaled)
        requires
            self.wf(total_activities as int),
        ensures
            r.den == self.profile_den(),
            r.num@ == self.profile_nums(total_activities as int),
            within(r.num@, SUM_BOUND as int),
    {
        let ghost d = total_activities as int;
        let activity_vector = self.activity_vector(total_activities);
        let n = self.binding_sites.len() + self.weak_binding_sites.len();
        let strong = column_totals(&self.binding_sites, total_activities);
        let weak = column_totals(&self.weak_binding_sites, total_activities);
        proof {
            lemma_column_sum_range(self.binding_sites@, d);
            lemma_column_sum_range(self.weak_binding_sites@, d);
        }
        let both = sum(&strong, &weak);
        if n == 0 {
            proof {
                assert forall|i: int| 0 <= i < d implies #[trigger] both[i] == 0 by {
                    assert(self.binding_sites@.len() == 0);
                }
            }
            let r = Scaled { num: activity_vector, den: 1 };
            assert(r.num@ =~= self.profile_nums(d));
            r
        } else {
            assert forall|i: int| 0 <= i < d implies 0 <= #[trigger] activity_vector[i] * (n as i64)
                <= n * ONE by {
                assert(0 <= activity_vector[i] * (n as i64) <= n * ONE) by (nonlinear_arith)
                    requires
                        0 <= activity_vector[i] <= ONE,
                        0 <= n <= 32768,
                        (n as i64) == n,
                ;
            }
            let lifted = scale(&activity_vector, n as i64);
            assert forall|i: int| 0 <= i < d implies -SUM_BOUND <= #[trigger] lifted[i] + both[i]
                <= SUM_BOUND by {
                assert(column_sum(self.binding_sites@, i) <= self.binding_sites.len() * ONE);
                assert(column_sum(self.weak_binding_sites@, i) <= self.weak_binding_sites.len()
                    * ONE);
                assert(lifted[i] == activity_vector[i] * (n as i64));
            }
            let num = sum(&lifted, &both);
            assert forall|i: int| 0 <= i < d implies #[trigger] num[i] == self.profile_entry(i) by {
                assert((n as i64) == n);
                assert(self.identity_weight() == n);
                assert(both[i] == column_sum(self.binding_sites@, i) + column_sum(
                    self.weak_binding_sites@,
                    i,
                ));
                if i == self.activity {
                    assert(activity_vector[i] == ONE);
                    assert(lifted[i] == ONE * n);
                } else {
                    assert(activity_vector[i] == 0);
                    assert(lifted[i] == activity_vector[i] * (n as i64));
                    assert(0 * (n as i64) == 0);
                }
            }
            assert(num@ =~= self.profile_nums(d));
            Scaled { num, den: 2 * n as u64 }
        }
    }
}

/// Every entry of a column sum over grid vectors lies in `[0, count * ONE)`.
proof fn lemma_column_sum_range(sites: Seq<Vec<i64>>, d: int)
    requires
        sites_fit(sites, d),
    ensures
        forall|i: int|
            0 <= i < d ==> 0 <= #[trigger] column_sum(sites, i) <= sites.len() * ONE,
    decreases sites.len(),
{
    if sites.len() > 0 {
        let init = sites.drop_last();
        assert(sites_fit(init, d)) by {
            assert forall|k: int| 0 <= k < init.len() implies (#[trigger] init[k]).len() == d by {
                assert(init[k] == sites[k]);
            }
        }
        lemma_column_sum_range(init, d);
        assert forall|i: int| 0 <= i < d implies 0 <= #[trigger] column_sum(sites, i)
            <= sites.len() * ONE by {
            assert(sites[sites.len() - 1] == sites.last());
            assert(0 <= sites[sites.len() - 1][i] < ONE);
            assert(column_sum(sites, i) == column_sum(init, i) + sites.last()@[i]);
            assert(0 <= column_sum(init, i) <= init.len() * ONE);
        }
    }
}

/// The componentwise sum of `sites`, the zero vector when there are none.
fn column_totals(sites: &Vec<Vec<i64>>, d: usize) -> (r: Vec<i64>)
    requires
        sites.len() <= MAX_SITES,
        sites_fit(sites@, d as int),
    ensures
        r.len() == d,
        forall|i: int| 0 <= i < d ==> #[trigger] r[i] == column_sum(sites@, i),
{
    if sites.len() == 0 {
        let mut r: Vec<i64> = Vec::new();
        let mut i: usize = 0;
        while i < d
            invariant
                i <= d,
                r.len() == i,
                sites.len() == 0,
                forall|k: int| 0 <= k < i ==> #[trigger] r[k] == column_sum(sites@, k),
            decreases d - i,
        {
            r.push(0);
            i = i + 1;
        }
        r
    } else {
        assert forall|k: int| 0 <= k < sites.len() implies within(
            (#[trigger] sites[k])@,
            SUM_BOUND as int,
        ) by {
            assert(sites_fit(sites@, d as int));
            assert forall|i: int| 0 <= i < sites[k].len() implies -SUM_BOUND <= #[trigger] sites[k]@[i]
                <= SUM_BOUND by {
                assert(sites@[k][i] == sites[k]@[i]);
            }
        }
        assert(sites@[0].len() == d);
        sum_many(sites)
    }
}

/// One vector of `total_activities` uniform grid draws per entry of `from`.
fn random_binding_sites(from: &Vec<usize>, total_activities: usize, rng: &mut Sampler) -> (r: Vec<
    Vec<i64>,
>)
    ensures
        r.len() == from.len(),
        sites_fit(r@, total_activities as int),
{
    let mut r: Vec<Vec<i64>> = Vec::new();
    let mut k: usize = 0;
    while k < from.len()
        invariant
            k <= from.len(),
            r.len() == k,
            sites_fit(r@, total_activities as int),
        decreases from.len() - k,
    {
        let mut v: Vec<i64> = Vec::new();
        let mut i: usize = 0;
        while i < total_activities
            invariant
                i <= total_activities,
                v.len() == i,
                forall|j: int| 0 <= j < i ==> 0 <= #[trigger] v[j] < ONE,
            decreases total_activities - i,
        {
            v.push(rng.unit());
            i = i + 1;
        }
        r.push(v);
        k = k + 1;
    }
    r
}

} // verus!
