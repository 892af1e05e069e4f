//! Nearest-neighbour selection with the last of equally near candidates winning.
use vstd::prelude::*;

use crate::component::Component;
use crate::vectors::{abs_sum, distance_to, gap, Distance, ONE};

verus! {

/// The distance from binding vector `v` to the profile of `c`, for `d`
/// activities.
pub open spec fn site_distance(v: Seq<i64>, c: Component, d: int) -> Distance {
    let den = c.profile_den() as u64;
    Distance {
        num: abs_sum(gap(v.map_values(|x: i64| (x * den) as i64), c.profile_nums(d))) as u64,
        den,
    }
}

/// The distances from `v` to the profiles of `group`.
pub open spec fn distances(v: Seq<i64>, group: Seq<Component>, d: int) -> Seq<Distance> {
    Seq::new(group.len(), |j: int| site_distance(v, group[j], d))
}

/// `v` is a binding vector for `d` activities.
pub open spec fn binding_fits(v: Seq<i64>, d: int) -> bool {
    &&& v.len() == d
    &&& forall|i: int| 0 <= i < d ==> 0 <= #[trigger] v[i] < ONE
}

/// `i` is allowed, no allowed entry is nearer, and every later allowed
/// entry is farther: on a tie the later index wins.
pub open spec fn is_last_nearest(ds: Seq<Distance>, allowed: Seq<bool>, i: int) -> bool {
    &&& 0 <= i < ds.len()
    &&& allowed[i]
    &&& forall|j: int| 0 <= j < ds.len() && allowed[j] ==> ds[i].at_most(#[trigger] ds[j])
    &&& forall|j: int| i < j < ds.len() && allowed[j] ==> !(#[trigger] ds[j]).at_most(ds[i])
}

pub open spec fn some_allowed(allowed: Seq<bool>) -> bool {
    exists|j: int| 0 <= j < allowed.len() && #[trigger] allowed[j]
}

pub proof fn lemma_at_most_trans(a: Distance, b: Distance, c: Distance)
    requires
        a.at_most(b),
        b.at_most(c),
        b.den > 0,
    ensures
        a.at_most(c),
{
    let (an, ad, bn, bd, cn, cd) = (a.num as int, a.den as int, b.num as int, b.den as int, c.num as int, c.den as int);
    assert(an * cd <= cn * ad) by (nonlinear_arith)
        requires
            an * bd <= bn * ad,
            bn * cd <= cn * bd,
            bd > 0,
            an >= 0,
            ad >= 0,
            bn >= 0,
            cn >= 0,
            cd >= 0,
    ;
}

/// The distance from `binding` to the profile of `c`.
pub fn site_distance_exec(binding: &Vec<i64>, c: &Component, d: usize) -> (r: Distance)
    requires
        c.wf(d as int),
        binding_fits(binding@, d as int),
    ensures
        r == site_distance(binding@, *c, d as int),
        r.den > 0,
{
    let p = c.profile(d);
    assert(binding@.len() <= 65536);
    let r = distance_to(binding, &p);
    let ghost den = c.profile_den() as u64;
    assert(binding@.map_values(|x: i64| (x * p.den) as i64) =~= binding@.map_values(
        |x: i64| (x * den) as i64,
    ));
    r
}

/// The last of the nearest allowed entries of `ds`, if any is allowed.
pub fn last_nearest(ds: &Vec<Distance>, allowed: &Vec<bool>) -> (r: Option<usize>)
    requires
        ds.len() == allowed.len(),
        forall|j: int| 0 <= j < ds.len() ==> (#[trigger] ds[j]).den > 0,
    ensures
        r is None <==> !some_allowed(allowed@),
        r is Some ==> is_last_nearest(ds@, allowed@, r->Some_0 as int),
{
    let mut best: Option<usize> = None;
    let mut i: usize = 0;
    while i < ds.len()
        invariant
            i <= ds.len() == allowed.len(),
            forall|j: int| 0 <= j < ds.len() ==> (#[trigger] ds[j]).den > 0,
            best is None ==> forall|j: int| 0 <= j < i ==> !(#[trigger] allowed[j]),
            best is Some ==> is_last_nearest(ds@.subrange(0, i as int), allowed@.subrange(0, i as int), best->Some_0 as int),
        decreases ds.len() - i,
    {
        let ghost old_best = best;
        if allowed[i] {
            let take = match best {
                None => true,
                Some(b) => ds[i].le(&ds[b]),
            };
            if take {
                best = Some(i);
            }
        }
        proof {
            let s = ds@.subrange(0, i + 1);
            let a = allowed@.subrange(0, i + 1);
            if best is Some {
                let b = best->Some_0 as int;
                if old_best is Some {
                    let ob = old_best->Some_0 as int;
                    let os = ds@.subrange(0, i as int);
                    let oa = allowed@.subrange(0, i as int);
                    assert(is_last_nearest(os, oa, ob));
                    if b == i {
                        assert forall|j: int| 0 <= j < s.len() && a[j] implies s[b].at_most(#[trigger] s[j]) by {
                            if j < i {
                                assert(os[ob].at_most(os[j]));
                                lemma_at_most_trans(s[b], s[ob], s[j]);
                            }
                        }
                    } else {
                        assert forall|j: int| 0 <= j < s.len() && a[j] implies s[b].at_most(#[trigger] s[j]) by {
                            if j < i {
                                assert(os[ob].at_most(os[j]));
                            }
                        }
                        assert forall|j: int| b < j < s.len() && a[j] implies !(#[trigger] s[j]).at_most(s[b]) by {
                            if j < i {
                                assert(!os[j].at_most(os[ob]));
                            }
                        }
                    }
                } else {
                    assert forall|j: int| 0 <= j < s.len() && a[j] implies s[b].at_most(#[trigger] s[j]) by {
                        if j < i {
                            assert(!allowed[j]);
                        }
                    }
                }
            }
        }
        i = i + 1;
    }
    proof {
        assert(ds@.subrange(0, ds.len() as int) =~= ds@);
        assert(allowed@.subrange(0, ds.len() as int) =~= allowed@);
        if best is Some {
            assert(allowed@[best->Some_0 as int]);
        }
    }
    best
}

/// The last of the allowed components of `group` whose profiles are
/// nearest to `binding`, with its distance.
pub fn find_min_satisfying_distance(
    total_activities: usize,
    binding: &Vec<i64>,
    group: &Vec<Component>,
    allowed: &Vec<bool>,
) -> (r: Option<(usize, Distance)>)
    requires
        binding_fits(binding@, total_activities as int),
        allowed.len() == group.len(),
        forall|j: int| 0 <= j < group.len() ==> (#[trigger] group[j]).wf(total_activities as int),
    ensures
        r is None <==> !some_allowed(allowed@),
        r is Some ==> {
            &&& is_last_nearest(
                distances(binding@, group@, total_activities as int),
                allowed@,
                r->Some_0.0 as int,
            )
            &&& r->Some_0.1 == site_distance(binding@, group[r->Some_0.0 as int], total_activities as int)
        },
{
    let mut ds: Vec<Distance> = Vec::new();
    let mut j: usize = 0;
    while j < group.len()
        invariant
            j <= group.len(),
            binding_fits(binding@, total_activities as int),
            forall|j: int| 0 <= j < group.len() ==> (#[trigger] group[j]).wf(total_activities as int),
            ds@ == distances(binding@, group@, total_activities as int).subrange(0, j as int),
            forall|k: int| 0 <= k < j ==> (#[trigger] ds[k]).den > 0,
        decreases group.len() - j,
    {
        let dist = site_distance_exec(binding, &group[j], total_activities);
        ds.push(dist);
        j = j + 1;
        assert(ds@ =~= distances(binding@, group@, total_activities as int).subrange(0, j as int));
    }
    assert(ds@ =~= distances(binding@, group@, total_activities as int));
    match last_nearest(&ds, allowed) {
        None => None,
        Some(i) => Some((i, ds[i])),
    }
}

} // verus!
