//! The genetic operators: mutation in place and recombination into a child.
use vstd::prelude::*;

use crate::blueprints::{total_len, Blueprints};
use crate::chromosome::EgpChromosome;
use crate::component::{sites_fit, Component};
use crate::sampler::Sampler;

verus! {

/// `a` and `b` hold the same values.
pub open spec fn same_component(a: Component, b: Component) -> bool {
    &&& a.activity == b.activity
    &&& a.label@ == b.label@
    &&& a.binding_sites@.map_values(|v: Vec<i64>| v@) == b.binding_sites@.map_values(|v: Vec<i64>| v@)
    &&& a.binding_sites_groups@ == b.binding_sites_groups@
    &&& a.weak_binding_sites@.map_values(|v: Vec<i64>| v@) == b.weak_binding_sites@.map_values(
        |v: Vec<i64>| v@,
    )
    &&& a.weak_binding_sites_groups@ == b.weak_binding_sites_groups@
}

/// `new` is `old` with at most its strong binding coordinates and its label
/// changed, the label only to that of a template of `templates` with the
/// component's activity.
pub open spec fn mutated_from(new: Component, old: Component, templates: Seq<crate::blueprints::Blueprint>) -> bool {
    &&& new.activity == old.activity
    &&& new.binding_sites_groups == old.binding_sites_groups
    &&& new.weak_binding_sites == old.weak_binding_sites
    &&& new.weak_binding_sites_groups == old.weak_binding_sites_groups
    &&& new.binding_sites.len() == old.binding_sites.len()
    &&& (new.label@ == old.label@ || exists|j: int|
        0 <= j < templates.len() && (#[trigger] templates[j]).activity == old.activity
            && templates[j].label@ == new.label@)
}

/// Every component of `new` is mutated from the one of `old` in its place.
pub open spec fn mutated_all(new: &EgpChromosome, old: &EgpChromosome, cat: &Blueprints) -> bool {
    &&& same_shape(new, old)
    &&& mutated_from(new.output, old.output, Seq::empty())
    &&& forall|g: int, i: int|
        0 <= g < new.regular.len() && 0 <= i < new.regular[g].len() ==> mutated_from(
            #[trigger] new.regular[g][i],
            old.regular[g][i],
            cat.regular[g]@,
        )
}

/// The two genomes have groups of the same lengths.
pub open spec fn same_shape(a: &EgpChromosome, b: &EgpChromosome) -> bool {
    &&& a.regular.len() == b.regular.len()
    &&& forall|g: int| 0 <= g < a.regular.len() ==> (#[trigger] a.regular[g]).len() == b.regular[g].len()
}

pub proof fn lemma_same_component_fits(cat: &Blueprints, a: Component, b: Component)
    requires
        same_component(a, b),
        cat.component_fits(a),
    ensures
        cat.component_fits(b),
{
    let d = cat.total_activities as int;
    assert(a.binding_sites@.len() == b.binding_sites@.len()) by {
        assert(a.binding_sites@.map_values(|v: Vec<i64>| v@).len() == b.binding_sites@.map_values(|v: Vec<i64>| v@).len());
    }
    assert(a.weak_binding_sites@.len() == b.weak_binding_sites@.len()) by {
        assert(a.weak_binding_sites@.map_values(|v: Vec<i64>| v@).len() == b.weak_binding_sites@.map_values(|v: Vec<i64>| v@).len());
    }
    assert(sites_fit(b.binding_sites@, d)) by {
        assert forall|k: int| 0 <= k < b.binding_sites@.len() implies {
            &&& (#[trigger] b.binding_sites@[k]).len() == d
            &&& forall|i: int| 0 <= i < d ==> 0 <= #[trigger] b.binding_sites@[k][i] < crate::vectors::ONE
        } by {
            assert(a.binding_sites@.map_values(|v: Vec<i64>| v@)[k] == b.binding_sites@.map_values(|v: Vec<i64>| v@)[k]);
            assert(a.binding_sites@[k]@ == b.binding_sites@[k]@);
        }
    }
    assert(sites_fit(b.weak_binding_sites@, d)) by {
        assert forall|k: int| 0 <= k < b.weak_binding_sites@.len() implies {
            &&& (#[trigger] b.weak_binding_sites@[k]).len() == d
            &&& forall|i: int| 0 <= i < d ==> 0 <= #[trigger] b.weak_binding_sites@[k][i] < crate::vectors::ONE
        } by {
            assert(a.weak_binding_sites@.map_values(|v: Vec<i64>| v@)[k] == b.weak_binding_sites@.map_values(|v: Vec<i64>| v@)[k]);
            assert(a.weak_binding_sites@[k]@ == b.weak_binding_sites@[k]@);
        }
    }
}

fn copy_sites(sites: &Vec<Vec<i64>>) -> (r: Vec<Vec<i64>>)
    ensures
        r@.map_values(|v: Vec<i64>| v@) == sites@.map_values(|v: Vec<i64>| v@),
{
    let mut r: Vec<Vec<i64>> = Vec::new();
    let mut k: usize = 0;
    while k < sites.len()
        invariant
            k <= sites.len(),
            r.len() == k,
            forall|j: int| 0 <= j < k ==> (#[trigger] r@[j])@ == sites@[j]@,
        decreases sites.len() - k,
    {
        let v = sites[k].clone();
        assert(v@ =~= sites@[k as int]@);
        r.push(v);
        k = k + 1;
    }
    assert(r@.map_values(|v: Vec<i64>| v@) =~= sites@.map_values(|v: Vec<i64>| v@));
    r
}

impl Component {
    /// A copy holding the same values.
    pub fn duplicate(&self) -> (r: Component)
        ensures
            same_component(*self, r),
    {
        let binding_sites_groups = self.binding_sites_groups.clone();
        let weak_binding_sites_groups = self.weak_binding_sites_groups.clone();
        assert(binding_sites_groups@ =~= self.binding_sites_groups@);
        assert(weak_binding_sites_groups@ =~= self.weak_binding_sites_groups@);
        Component {
            activity: self.activity,
            label: self.label.clone(),
            binding_sites: copy_sites(&self.binding_sites),
            binding_sites_groups,
            weak_binding_sites: copy_sites(&self.weak_binding_sites),
            weak_binding_sites_groups,
        }
    }
}

impl EgpChromosome {
    /// A copy holding the same values.
    pub fn duplicate(&self) -> (r: EgpChromosome)
        ensures
            same_component(self.output, r.output),
            same_shape(self, &r),
            forall|g: int, i: int|
                0 <= g < self.regular.len() && 0 <= i < self.regular[g].len() ==> same_component(
                    self.regular[g][i],
                    #[trigger] r.regular[g][i],
                ),
    {
        let mut regular: Vec<Vec<Component>> = Vec::new();
        let mut g: usize = 0;
        while g < self.regular.len()
            invariant
                g <= self.regular.len(),
                regular.len() == g,
                forall|h: int| 0 <= h < g ==> (#[trigger] regular[h]).len() == self.regular[h].len(),
                forall|h: int, i: int|
                    0 <= h < g && 0 <= i < self.regular[h].len() ==> same_component(
                        self.regular[h][i],
                        #[trigger] regular[h][i],
                    ),
            decreases self.regular.len() - g,
        {
            let mut group: Vec<Component> = Vec::new();
            let mut i: usize = 0;
            while i < self.regular[g].len()
                invariant
                    g < self.regular.len(),
                    i <= self.regular[g as int].len(),
                    group.len() == i,
                    forall|j: int| 0 <= j < i ==> same_component(self.regular[g as int][j], #[trigger] group[j]),
                decreases self.regular[g as int].len() - i,
            {
                group.push(self.regular[g][i].duplicate());
                i = i + 1;
            }
            regular.push(group);
            g = g + 1;
        }
        EgpChromosome { output: self.output.duplicate(), regular }
    }
}

proof fn lemma_some_group_nonempty<T>(groups: Seq<Vec<T>>)
    requires
        total_len(groups) > 0,
    ensures
        exists|g: int| 0 <= g < groups.len() && (#[trigger] groups[g]).len() > 0,
    decreases groups.len(),
{
    if groups.last().len() == 0 {
        lemma_some_group_nonempty(groups.drop_last());
        let g = choose|g: int| 0 <= g < groups.drop_last().len() && (#[trigger] groups.drop_last()[g]).len() > 0;
        assert(groups[g] == groups.drop_last()[g]);
    } else {
        assert(groups[groups.len() - 1].len() > 0);
    }
}

/// The groups of the catalog that hold a regular template, in order.
fn nonempty_groups(blueprints: &Blueprints) -> (r: Vec<usize>)
    requires
        blueprints.wf(),
    ensures
        r.len() > 0,
        forall|m: int|
            0 <= m < r.len() ==> #[trigger] r[m] < blueprints.regular.len() && blueprints.regular[r[m] as int].len() > 0,
        forall|g: int|
            0 <= g < blueprints.regular.len() && (#[trigger] blueprints.regular[g]).len() > 0 ==> r@.contains(g as usize),
        forall|a: int, b: int| 0 <= a < b < r.len() ==> #[trigger] r[a] < #[trigger] r[b],
{
    let mut r: Vec<usize> = Vec::new();
    let mut g: usize = 0;
    while g < blueprints.regular.len()
        invariant
            g <= blueprints.regular.len(),
            forall|m: int|
                0 <= m < r.len() ==> #[trigger] r[m] < g && blueprints.regular[r[m] as int].len() > 0,
            forall|h: int| 0 <= h < g && (#[trigger] blueprints.regular[h]).len() > 0 ==> r@.contains(h as usize),
            forall|a: int, b: int| 0 <= a < b < r.len() ==> #[trigger] r[a] < #[trigger] r[b],
        decreases blueprints.regular.len() - g,
    {
        if blueprints.regular[g].len() > 0 {
            let ghost before = r@;
            r.push(g);
            proof {
                assert(r@[r.len() - 1] == g);
                assert forall|h: int| 0 <= h < g + 1 && (#[trigger] blueprints.regular[h]).len() > 0 implies r@.contains(h as usize) by {
                    if h < g {
                        let w = choose|w: int| 0 <= w < before.len() && before[w] == h as usize;
                        assert(r@[w] == before[w]);
                    }
                }
            }
        }
        g = g + 1;
    }
    proof {
        lemma_some_group_nonempty(blueprints.regular@);
        let g = choose|g: int| 0 <= g < blueprints.regular@.len() && (#[trigger] blueprints.regular@[g]).len() > 0;
        assert(blueprints.regular[g].len() > 0);
        assert(r@.contains(g as usize));
    }
    r
}

/// A uniformly drawn group that holds a regular template.
fn nonempty_group(blueprints: &Blueprints, rng: &mut Sampler) -> (r: usize)
    requires
        blueprints.wf(),
    ensures
        r < blueprints.regular.len(),
        blueprints.regular[r as int].len() > 0,
{
    let groups = nonempty_groups(blueprints);
    groups[rng.below(groups.len())]
}

/// A uniformly drawn nonempty group and a uniformly drawn template of it.
fn pick_group_and_member(blueprints: &Blueprints, rng: &mut Sampler) -> (r: (usize, usize))
    requires
        blueprints.wf(),
    ensures
        r.0 < blueprints.regular.len(),
        r.1 < blueprints.regular[r.0 as int].len(),
{
    let group = nonempty_group(blueprints, rng);
    let member = rng.below(blueprints.regular[group].len());
    (group, member)
}

proof fn lemma_sites_fit_update(sites: Seq<Vec<i64>>, d: int, k: int, w: Vec<i64>, dim: int, x: i64)
    requires
        sites_fit(sites, d),
        0 <= k < sites.len(),
        w@ == sites[k]@.update(dim, x),
        0 <= dim < d,
        0 <= x < crate::vectors::ONE,
    ensures
        sites_fit(sites.update(k, w), d),
{
    let s2 = sites.update(k, w);
    assert forall|j: int| 0 <= j < s2.len() implies {
        &&& (#[trigger] s2[j]).len() == d
        &&& forall|i: int| 0 <= i < d ==> 0 <= #[trigger] s2[j][i] < crate::vectors::ONE
    } by {
        if j == k {
            assert(s2[j] == w);
            assert(sites[k].len() == d);
            assert forall|i: int| 0 <= i < d implies 0 <= #[trigger] s2[j][i] < crate::vectors::ONE by {
                if i != dim {
                    assert(w@[i] == sites[k]@[i]);
                    assert(0 <= sites[k][i] < crate::vectors::ONE);
                }
            }
        } else {
            assert(s2[j] == sites[j]);
        }
    }
}

/// `new` is `old` with entry `d` of vector `s` replaced by a grid value.
pub open spec fn resampled_at_site(new: Seq<Vec<i64>>, old: Seq<Vec<i64>>, s: int, d: int) -> bool {
    &&& 0 <= s < old.len()
    &&& 0 <= d < old[s].len()
    &&& new == old.update(s, new[s])
    &&& new[s]@ == old[s]@.update(d, new[s][d])
    &&& 0 <= new[s][d] < crate::vectors::ONE
}

/// `new` is `old` with at most one coordinate of one strong binding vector
/// replaced by a grid value, and nothing else changed.
pub open spec fn resampled(new: Component, old: Component) -> bool {
    &&& new == Component { binding_sites: new.binding_sites, ..old }
    &&& (new.binding_sites == old.binding_sites || exists|s: int, d: int|
        #[trigger] resampled_at_site(new.binding_sites@, old.binding_sites@, s, d))
}

/// `new` is `old` with only component `i` of group `g` resampled.
pub open spec fn resampled_in(new: &EgpChromosome, old: &EgpChromosome, g: int, i: int) -> bool {
    &&& new.output == old.output
    &&& new.regular.len() == old.regular.len()
    &&& 0 <= g < old.regular.len()
    &&& forall|h: int| 0 <= h < new.regular.len() && h != g ==> #[trigger] new.regular[h] == old.regular[h]
    &&& new.regular[g].len() == old.regular[g].len()
    &&& 0 <= i < old.regular[g].len()
    &&& forall|j: int| 0 <= j < new.regular[g].len() && j != i ==> #[trigger] new.regular[g][j] == old.regular[g][j]
    &&& resampled(new.regular[g][i], old.regular[g][i])
}

/// Overwrites one uniformly drawn coordinate of one uniformly drawn strong
/// binding vector of `c` with a fresh draw; a component without strong
/// sites is left as it is.
fn resample_site(c: &mut Component, total_activities: usize, rng: &mut Sampler)
    requires
        old(c).wf(total_activities as int),
    ensures
        final(c).wf(total_activities as int),
        final(c).activity == old(c).activity,
        final(c).label == old(c).label,
        final(c).binding_sites_groups == old(c).binding_sites_groups,
        final(c).weak_binding_sites == old(c).weak_binding_sites,
        final(c).weak_binding_sites_groups == old(c).weak_binding_sites_groups,
        final(c).binding_sites.len() == old(c).binding_sites.len(),
        resampled(*final(c), *old(c)),
{
    if c.binding_sites.len() == 0 {
        return;
    }
    let site = rng.below(c.binding_sites.len());
    let dimension = rng.below(total_activities);
    let value = rng.unit();
    let ghost before = c.binding_sites@;
    proof {
        assert(c.binding_sites@[site as int].len() == total_activities);
    }
    c.binding_sites[site].set(dimension, value);
    proof {
        lemma_sites_fit_update(before, total_activities as int, site as int, c.binding_sites@[site as int], dimension as int, value);
        assert(c.binding_sites@ =~= before.update(site as int, c.binding_sites@[site as int]));
        assert(resampled_at_site(c.binding_sites@, before, site as int, dimension as int));
    }
}

/// The number of components of `s` before position `upto` that have
/// activity `a`.
pub open spec fn match_count(s: Seq<Component>, a: int, upto: int) -> int
    decreases upto,
{
    if upto <= 0 {
        0
    } else {
        match_count(s, a, upto - 1) + if s[upto - 1].activity == a {
            1int
        } else {
            0int
        }
    }
}

proof fn lemma_match_count_mono(s: Seq<Component>, a: int, i: int, j: int)
    requires
        0 <= i <= j,
    ensures
        match_count(s, a, i) <= match_count(s, a, j),
    decreases j - i,
{
    if i < j {
        lemma_match_count_mono(s, a, i, j - 1);
    }
}

/// `r` is `old` with the `k`-th component (from 0) of group `g` that has
/// activity `a` given the label `label`, and nothing else changed; with no
/// such component, `r` is `old`.
pub open spec fn relabelled(r: &EgpChromosome, old: &EgpChromosome, g: int, a: int, label: Seq<char>, k: int) -> bool {
    &&& r.output == old.output
    &&& r.regular.len() == old.regular.len()
    &&& 0 <= g < old.regular.len()
    &&& forall|h: int| 0 <= h < r.regular.len() && h != g ==> #[trigger] r.regular[h] == old.regular[h]
    &&& r.regular[g].len() == old.regular[g].len()
    &&& forall|i: int|
        0 <= i < r.regular[g].len() ==> if old.regular[g][i].activity == a && match_count(old.regular[g]@, a, i) == k {
            &&& (#[trigger] r.regular[g][i]) == Component { label: r.regular[g][i].label, ..old.regular[g][i] }
            &&& r.regular[g][i].label@ == label
        } else {
            r.regular[g][i] == old.regular[g][i]
        }
}

/// Gives the `to_replace`-th component (from 0) of group `group` with
/// activity `activity` the label `label`.
pub fn relabel(chromosome: &mut EgpChromosome, group: usize, activity: usize, label: &String, to_replace: usize)
    requires
        group < old(chromosome).regular.len(),
    ensures
        relabelled(final(chromosome), old(chromosome), group as int, activity as int, label@, to_replace as int),
{
    let ghost start = *chromosome;
    let ghost s = chromosome.regular[group as int]@;
    let mut n_encountered: usize = 0;
    let mut i: usize = 0;
    let mut done = false;
    while !done && i < chromosome.regular[group].len()
        invariant
            !done ==> *chromosome == start,
            done ==> relabelled(chromosome, &start, group as int, activity as int, label@, to_replace as int),
            s == start.regular[group as int]@,
            group < chromosome.regular.len(),
            chromosome.regular[group as int].len() == s.len(),
            i <= s.len(),
            n_encountered == match_count(s, activity as int, i as int),
            n_encountered <= i,
            !done ==> forall|j: int| 0 <= j < i ==> !((#[trigger] s[j]).activity == activity && match_count(s, activity as int, j) == to_replace),
        decreases s.len() - i + if done { 0int } else { 1int },
    {
        if chromosome.regular[group][i].activity == activity {
            if to_replace == n_encountered {
                let ghost mid = *chromosome;
                chromosome.regular[group][i].label = label.clone();
                proof {
                    let c = chromosome.regular[group as int][i as int];
                    assert(c == Component { label: c.label, ..s[i as int] });
                    assert(c.label@ == label@);
                    assert(match_count(s, activity as int, i + 1) == to_replace + 1);
                    assert forall|j: int| 0 <= j < s.len() && j != i implies #[trigger] chromosome.regular[group as int][j] == s[j] by {
                        assert(chromosome.regular[group as int]@ == s.update(i as int, c));
                    }
                    assert forall|j: int| 0 <= j < s.len() && j != i && (#[trigger] s[j]).activity == activity implies match_count(s, activity as int, j) != to_replace by {
                        if j > i {
                            lemma_match_count_mono(s, activity as int, i + 1, j);
                        }
                    }
                    assert forall|h: int| 0 <= h < chromosome.regular.len() && h != group implies #[trigger] chromosome.regular[h] == start.regular[h] by {
                    }
                    let g = group as int;
                    let a = activity as int;
                    let k = to_replace as int;
                    assert(chromosome.output == start.output);
                    assert(chromosome.regular[g].len() == start.regular[g].len());
                    assert forall|j: int|
                        0 <= j < chromosome.regular[g].len() implies if start.regular[g][j].activity == a && match_count(start.regular[g]@, a, j) == k {
                            &&& (#[trigger] chromosome.regular[g][j]) == Component { label: chromosome.regular[g][j].label, ..start.regular[g][j] }
                            &&& chromosome.regular[g][j].label@ == label@
                        } else {
                            chromosome.regular[g][j] == start.regular[g][j]
                        } by {
                        assert(start.regular[g][j] == s[j]);
                        if j != i {
                            assert(chromosome.regular[g][j] == s[j]);
                            if j < i {
                                assert(!(s[j].activity == activity && match_count(s, a, j) == k));
                            }
                        }
                    }
                }
                done = true;
            } else {
                n_encountered = n_encountered + 1;
                i = i + 1;
            }
        } else {
            i = i + 1;
        }
    }
}

/// Activity mutation: re-instantiates a uniformly drawn template of a
/// uniformly drawn group, and gives one uniformly drawn component of that
/// group with the template's activity the template's label, keeping its
/// binding vectors (`relabel`).
fn mutate_activity(blueprints: &Blueprints, chromosome: &mut EgpChromosome, rng: &mut Sampler)
    requires
        blueprints.wf(),
        old(chromosome).wf(blueprints),
    ensures
        final(chromosome).wf(blueprints),
        mutated_all(final(chromosome), old(chromosome), blueprints),
        exists|g: int, m: int, k: int|
            0 <= g < blueprints.regular.len() && 0 <= m < blueprints.regular[g].len() && #[trigger] relabelled(
                final(chromosome),
                old(chromosome),
                g,
                blueprints.regular[g][m].activity as int,
                blueprints.regular[g][m].label@,
                k,
            ),
{
    let (group, member) = pick_group_and_member(blueprints, rng);
    let new_component = Component::from_blueprint(
        &blueprints.regular[group][member],
        blueprints.total_activities,
        rng,
    );
    let ghost s = chromosome.regular[group as int]@;
    let mut n_compatible: usize = 0;
    let mut i: usize = 0;
    while i < chromosome.regular[group].len()
        invariant
            group < chromosome.regular.len(),
            s == chromosome.regular[group as int]@,
            i <= s.len(),
            n_compatible == match_count(s, new_component.activity as int, i as int),
            n_compatible <= i,
        decreases s.len() - i,
    {
        if chromosome.regular[group][i].activity == new_component.activity {
            n_compatible = n_compatible + 1;
        }
        i = i + 1;
    }
    let to_replace = if n_compatible == 0 {
        0
    } else {
        rng.below(n_compatible)
    };
    let ghost before = *chromosome;
    relabel(chromosome, group, new_component.activity, &new_component.label, to_replace);
    proof {
        let bp = blueprints.regular[group as int][member as int];
        assert(relabelled(chromosome, &before, group as int, bp.activity as int, bp.label@, to_replace as int));
        assert forall|g: int, j: int|
            0 <= g < chromosome.regular.len() && 0 <= j < chromosome.regular[g].len() implies blueprints.component_fits(
            #[trigger] chromosome.regular[g][j],
        ) && mutated_from(chromosome.regular[g][j], before.regular[g][j], blueprints.regular[g]@) by {
            assert(blueprints.component_fits(before.regular[g][j]));
            if g == group {
                assert(blueprints.regular[g]@[member as int] == bp);
            } else {
                assert(chromosome.regular[g] == before.regular[g]);
            }
        }
        assert forall|g: int| 0 <= g < chromosome.regular.len() implies (#[trigger] chromosome.regular[g]).len() == before.regular[g].len() by {
            if g != group {
                assert(chromosome.regular[g] == before.regular[g]);
            }
        }
    }
}

/// Regular binding mutation: resamples one coordinate of a strong binding
/// vector of a uniformly drawn component of a uniformly drawn group.
fn mutate_binding_site(blueprints: &Blueprints, chromosome: &mut EgpChromosome, rng: &mut Sampler)
    requires
        blueprints.wf(),
        old(chromosome).wf(blueprints),
    ensures
        final(chromosome).wf(blueprints),
        mutated_all(final(chromosome), old(chromosome), blueprints),
        final(chromosome).output == old(chromosome).output,
        *final(chromosome) == *old(chromosome) || exists|g: int, i: int|
            #[trigger] resampled_in(final(chromosome), old(chromosome), g, i),
{
    let group = nonempty_group(blueprints, rng);
    let group_len = chromosome.regular[group].len();
    if group_len == 0 {
        return;
    }
    let index = rng.below(group_len);
    proof {
        lemma_mutated_all_refl(chromosome, blueprints);
    }
    let ghost before = *chromosome;
    proof {
        assert(blueprints.component_fits(chromosome.regular[group as int][index as int]));
    }
    resample_site(&mut chromosome.regular[group][index], blueprints.total_activities, rng);
    proof {
        assert forall|g: int, j: int|
            0 <= g < chromosome.regular.len() && 0 <= j < chromosome.regular[g].len() implies blueprints.component_fits(
            #[trigger] chromosome.regular[g][j],
        ) by {
            if g != group || j != index {
                assert(chromosome.regular[g][j] == before.regular[g][j]);
            }
        }
        assert forall|g: int| 0 <= g < chromosome.regular.len() implies (#[trigger] chromosome.regular[g]).len() == before.regular[g].len() by {
        }
        assert forall|g: int, j: int|
            0 <= g < chromosome.regular.len() && 0 <= j < chromosome.regular[g].len() implies mutated_from(
            #[trigger] chromosome.regular[g][j],
            before.regular[g][j],
            blueprints.regular[g]@,
        ) by {
            if g != group || j != index {
                assert(chromosome.regular[g][j] == before.regular[g][j]);
            }
        }
        assert forall|h: int| 0 <= h < chromosome.regular.len() && h != group implies #[trigger] chromosome.regular[h] == before.regular[h] by {
        }
        assert forall|j: int| 0 <= j < chromosome.regular[group as int].len() && j != index implies #[trigger] chromosome.regular[group as int][j] == before.regular[group as int][j] by {
        }
        assert(resampled_in(chromosome, &before, group as int, index as int));
    }
}

/// Output binding mutation: resamples one coordinate of a strong binding
/// vector of the output component.
fn mutate_binding_site_output(blueprints: &Blueprints, chromosome: &mut EgpChromosome, rng: &mut Sampler)
    requires
        blueprints.wf(),
        old(chromosome).wf(blueprints),
    ensures
        final(chromosome).wf(blueprints),
        mutated_all(final(chromosome), old(chromosome), blueprints),
        final(chromosome).regular == old(chromosome).regular,
        resampled(final(chromosome).output, old(chromosome).output),
{
    proof {
        lemma_mutated_all_refl(chromosome, blueprints);
    }
    resample_site(&mut chromosome.output, blueprints.total_activities, rng);
}

proof fn lemma_mutated_all_refl(c: &EgpChromosome, cat: &Blueprints)
    ensures
        mutated_all(c, c, cat),
{
}

/// `new` differs from `old` in at most one place: one component of one
/// group relabelled with a template's label, or one coordinate of one strong
/// binding vector of the output or of one regular component resampled.
pub open spec fn mutated_once(cat: &Blueprints, new: &EgpChromosome, old: &EgpChromosome) -> bool {
    ||| *new == *old
    ||| (exists|g: int, m: int, k: int|
        0 <= g < cat.regular.len() && 0 <= m < cat.regular[g].len() && #[trigger] relabelled(
            new,
            old,
            g,
            cat.regular[g][m].activity as int,
            cat.regular[g][m].label@,
            k,
        ))
    ||| (exists|g: int, i: int| #[trigger] resampled_in(new, old, g, i))
    ||| (new.regular == old.regular && resampled(new.output, old.output))
}

/// Mutates `chromosome` in place: activity mutation with probability 1/2,
/// else output binding mutation with probability one over the number of
/// regular components, else regular binding mutation. No group changes its
/// length.
pub fn mutate(blueprints: &Blueprints, chromosome: &mut EgpChromosome, rng: &mut Sampler)
    requires
        blueprints.wf(),
        old(chromosome).wf(blueprints),
    ensures
        final(chromosome).wf(blueprints),
        mutated_all(final(chromosome), old(chromosome), blueprints),
        mutated_once(blueprints, final(chromosome), old(chromosome)),
{
    if rng.coin() {
        mutate_activity(blueprints, chromosome, rng);
    } else {
        let mut n_regulars: usize = 0;
        let mut g: usize = 0;
        while g < chromosome.regular.len()
            invariant
                g <= chromosome.regular.len(),
            decreases chromosome.regular.len() - g,
        {
            let len = chromosome.regular[g].len();
            if len > usize::MAX - n_regulars {
                n_regulars = usize::MAX;
            } else {
                n_regulars = n_regulars + len;
            }
            g = g + 1;
        }
        if n_regulars == 0 || rng.below(n_regulars) == 0 {
            mutate_binding_site_output(blueprints, chromosome, rng);
        } else {
            mutate_binding_site(blueprints, chromosome, rng);
        }
    }
}

/// Every group but `g` holds the same components in `child` as in `parent`.
pub open spec fn others_kept(child: &EgpChromosome, parent: &EgpChromosome, g: int) -> bool {
    &&& child.regular.len() == parent.regular.len()
    &&& same_component(parent.output, child.output)
    &&& forall|h: int| 0 <= h < child.regular.len() && h != g ==> (#[trigger] child.regular[h]).len() == parent.regular[h].len()
    &&& forall|h: int, i: int|
        0 <= h < child.regular.len() && h != g && 0 <= i < child.regular[h].len() ==> same_component(
            parent.regular[h][i],
            #[trigger] child.regular[h][i],
        )
}

proof fn lemma_copy_wf(cat: &Blueprints, parent: &EgpChromosome, child: &EgpChromosome)
    requires
        cat.wf(),
        parent.wf(cat),
        same_component(parent.output, child.output),
        same_shape(parent, child),
        forall|g: int, i: int|
            0 <= g < parent.regular.len() && 0 <= i < parent.regular[g].len() ==> same_component(
                parent.regular[g][i],
                #[trigger] child.regular[g][i],
            ),
    ensures
        child.wf(cat),
{
    lemma_same_component_fits(cat, parent.output, child.output);
    assert forall|g: int, i: int|
        0 <= g < child.regular.len() && 0 <= i < child.regular[g].len() implies cat.component_fits(
        #[trigger] child.regular[g][i],
    ) by {
        assert(cat.component_fits(parent.regular[g][i]));
        lemma_same_component_fits(cat, parent.regular[g][i], child.regular[g][i]);
    }
}

/// The length of the run from `skip` in a group of `len` components: `n`,
/// or what is left of the group when that is fewer.
pub open spec fn run_len(len: int, skip: int, n: int) -> int {
    if n < len - skip {
        n
    } else {
        len - skip
    }
}

/// `skip` is an offset that can be drawn in a group of `len` components
/// (0 for an empty group).
pub open spec fn offset_ok(len: int, skip: int) -> bool {
    0 <= skip && (skip < len || skip == 0)
}

/// `r` is `parent` with its group `g` followed by the components of
/// `donor`'s group `g` from `skip` on: `n` of them, or up to the end of
/// that group.
pub open spec fn transferred(
    r: &EgpChromosome,
    parent: &EgpChromosome,
    donor: &EgpChromosome,
    g: int,
    skip: int,
    n: int,
) -> bool {
    let pl = parent.regular[g].len() as int;
    let count = run_len(donor.regular[g].len() as int, skip, n);
    &&& 0 <= g < parent.regular.len()
    &&& g < donor.regular.len()
    &&& offset_ok(donor.regular[g].len() as int, skip)
    &&& others_kept(r, parent, g)
    &&& r.regular[g].len() == pl + count
    &&& forall|i: int| 0 <= i < pl ==> same_component(parent.regular[g][i], #[trigger] r.regular[g][i])
    &&& forall|m: int|
        pl <= m < pl + count ==> same_component(donor.regular[g][skip + m - pl], #[trigger] r.regular[g][m])
}

/// `r` is `parent` with the components of its group `g` from `skip` on
/// taken out: `n` of them, or up to the end of the group.
pub open spec fn removed(r: &EgpChromosome, parent: &EgpChromosome, g: int, skip: int, n: int) -> bool {
    let l = parent.regular[g].len() as int;
    let count = run_len(l, skip, n);
    &&& 0 <= g < parent.regular.len()
    &&& offset_ok(l, skip)
    &&& others_kept(r, parent, g)
    &&& r.regular[g].len() == l - count
    &&& forall|i: int| 0 <= i < skip ==> same_component(parent.regular[g][i], #[trigger] r.regular[g][i])
    &&& forall|i: int|
        skip <= i < l - count ==> same_component(parent.regular[g][i + count], #[trigger] r.regular[g][i])
}

/// A copy of `parent` whose group `group` is followed by the components of
/// `donor`'s group `group` from `skip` on, `n` of them or up to the end.
pub fn transfer_run(
    blueprints: &Blueprints,
    parent: &EgpChromosome,
    donor: &EgpChromosome,
    group: usize,
    skip: usize,
    n: usize,
) -> (r: EgpChromosome)
    requires
        blueprints.wf(),
        parent.wf(blueprints),
        donor.wf(blueprints),
        group < parent.regular.len(),
        offset_ok(donor.regular[group as int].len() as int, skip as int),
    ensures
        r.wf(blueprints),
        transferred(&r, parent, donor, group as int, skip as int, n as int),
{
    let mut child = parent.duplicate();
    proof {
        lemma_copy_wf(blueprints, parent, &child);
    }
    let group_len = donor.regular[group].len();
    let mut n_left: usize = if n < group_len {
        n
    } else {
        group_len
    };
    let ghost cap = n_left as int;
    let ghost plen = parent.regular[group as int].len() as int;
    let mut i: usize = skip;
    while i < group_len && n_left > 0
        invariant
            blueprints.wf(),
            donor.wf(blueprints),
            child.wf(blueprints),
            group < child.regular.len() == parent.regular.len() == donor.regular.len(),
            group_len == donor.regular[group as int].len(),
            skip <= i,
            i <= group_len || (group_len == 0 && i == 0),
            cap == if n < group_len { n as int } else { group_len as int },
            n_left == cap - (i - skip),
            others_kept(&child, parent, group as int),
            child.regular[group as int].len() == plen + (i - skip),
            plen == parent.regular[group as int].len(),
            forall|j: int| 0 <= j < plen ==> same_component(parent.regular[group as int][j], #[trigger] child.regular[group as int][j]),
            forall|m: int|
                plen <= m < child.regular[group as int].len() ==> same_component(
                    donor.regular[group as int][skip + m - plen],
                    #[trigger] child.regular[group as int][m],
                ),
        decreases group_len - i,
    {
        let c = donor.regular[group][i].duplicate();
        let ghost before = child;
        proof {
            assert(blueprints.component_fits(donor.regular[group as int][i as int]));
            lemma_same_component_fits(blueprints, donor.regular[group as int][i as int], c);
        }
        child.regular[group].push(c);
        proof {
            assert forall|g: int, j: int|
                0 <= g < child.regular.len() && 0 <= j < child.regular[g].len() implies blueprints.component_fits(
                #[trigger] child.regular[g][j],
            ) by {
                if g != group || j < before.regular[group as int].len() {
                    assert(child.regular[g][j] == before.regular[g][j]);
                }
            }
            assert forall|h: int, j: int|
                0 <= h < child.regular.len() && h != group && 0 <= j < child.regular[h].len() implies same_component(
                parent.regular[h][j],
                #[trigger] child.regular[h][j],
            ) by {
                assert(child.regular[h] == before.regular[h]);
            }
            assert forall|h: int| 0 <= h < child.regular.len() && h != group implies (#[trigger] child.regular[h]).len() == parent.regular[h].len() by {
                assert(child.regular[h] == before.regular[h]);
            }
            assert forall|j: int| 0 <= j < plen implies same_component(parent.regular[group as int][j], #[trigger] child.regular[group as int][j]) by {
                assert(child.regular[group as int][j] == before.regular[group as int][j]);
            }
            assert forall|m: int|
                plen <= m < child.regular[group as int].len() implies same_component(
                    donor.regular[group as int][skip + m - plen],
                    #[trigger] child.regular[group as int][m],
                ) by {
                if m < child.regular[group as int].len() - 1 {
                    assert(child.regular[group as int][m] == before.regular[group as int][m]);
                }
            }
        }
        n_left = n_left - 1;
        i = i + 1;
    }
    child
}

/// A copy of `parent` without the components of its group `group` from
/// `skip` on, `n` of them or up to the end of the group.
pub fn remove_run(
    blueprints: &Blueprints,
    parent: &EgpChromosome,
    group: usize,
    skip: usize,
    n: usize,
) -> (r: EgpChromosome)
    requires
        blueprints.wf(),
        parent.wf(blueprints),
        group < parent.regular.len(),
        offset_ok(parent.regular[group as int].len() as int, skip as int),
    ensures
        r.wf(blueprints),
        removed(&r, parent, group as int, skip as int, n as int),
{
    let mut child = parent.duplicate();
    proof {
        lemma_copy_wf(blueprints, parent, &child);
    }
    let group_len = child.regular[group].len();
    let ghost g = group as int;
    let count = if n < group_len - skip {
        n
    } else {
        group_len - skip
    };
    let mut removed: usize = 0;
    while removed < count
        invariant
            blueprints.wf(),
            child.wf(blueprints),
            group < child.regular.len() == parent.regular.len(),
            g == group,
            group_len == parent.regular[g].len(),
            skip + count <= group_len,
            removed <= count,
            others_kept(&child, parent, g),
            child.regular[g].len() == group_len - removed,
            forall|i: int| 0 <= i < skip ==> same_component(parent.regular[g][i], #[trigger] child.regular[g][i]),
            forall|i: int| skip <= i < child.regular[g].len() ==> same_component(parent.regular[g][i + removed], #[trigger] child.regular[g][i]),
        decreases count - removed,
    {
        let ghost before = child;
        child.regular[group].remove(skip);
        proof {
            assert forall|h: int, j: int|
                0 <= h < child.regular.len() && 0 <= j < child.regular[h].len() implies blueprints.component_fits(
                #[trigger] child.regular[h][j],
            ) by {
                if h != g {
                    assert(child.regular[h] == before.regular[h]);
                } else if j < skip {
                    assert(child.regular[h][j] == before.regular[h][j]);
                } else {
                    assert(child.regular[h][j] == before.regular[h][j + 1]);
                }
            }
            assert forall|h: int, j: int|
                0 <= h < child.regular.len() && h != g && 0 <= j < child.regular[h].len() implies same_component(
                parent.regular[h][j],
                #[trigger] child.regular[h][j],
            ) by {
                assert(child.regular[h] == before.regular[h]);
            }
            assert forall|h: int| 0 <= h < child.regular.len() && h != g implies (#[trigger] child.regular[h]).len() == parent.regular[h].len() by {
                assert(child.regular[h] == before.regular[h]);
            }
            assert forall|i: int| 0 <= i < skip implies same_component(parent.regular[g][i], #[trigger] child.regular[g][i]) by {
                assert(child.regular[g][i] == before.regular[g][i]);
            }
            assert forall|i: int| skip <= i < child.regular[g].len() implies same_component(parent.regular[g][i + removed + 1], #[trigger] child.regular[g][i]) by {
                assert(child.regular[g][i] == before.regular[g][i + 1]);
            }
        }
        removed = removed + 1;
    }
    child
}

/// Transfer: `transfer_run` from a uniformly drawn group with a regular
/// template and a uniformly drawn offset in the donor's group.
fn recombine_transfer(
    blueprints: &Blueprints,
    n_transfer: usize,
    parent: &EgpChromosome,
    donor: &EgpChromosome,
    rng: &mut Sampler,
) -> (r: EgpChromosome)
    requires
        blueprints.wf(),
        parent.wf(blueprints),
        donor.wf(blueprints),
    ensures
        r.wf(blueprints),
        exists|g: int, skip: int|
            #[trigger] transferred(&r, parent, donor, g, skip, n_transfer as int) && blueprints.regular[g].len() > 0
                && (donor.regular[g].len() > 0 && n_transfer > 0 ==> r.regular[g].len() > parent.regular[g].len()),
{
    let group = nonempty_group(blueprints, rng);
    let group_len = donor.regular[group].len();
    let skip = if group_len == 0 {
        0
    } else {
        rng.below(group_len)
    };
    let r = transfer_run(blueprints, parent, donor, group, skip, n_transfer);
    assert(transferred(&r, parent, donor, group as int, skip as int, n_transfer as int));
    r
}

/// Removal: `remove_run` from a uniformly drawn group with a regular
/// template and a uniformly drawn offset in it; the run is clamped at the
/// end of the group.
fn recombine_remove(blueprints: &Blueprints, n_remove: usize, parent: &EgpChromosome, rng: &mut Sampler) -> (r:
    EgpChromosome)
    requires
        blueprints.wf(),
        parent.wf(blueprints),
    ensures
        r.wf(blueprints),
        exists|g: int, skip: int|
            #[trigger] removed(&r, parent, g, skip, n_remove as int) && blueprints.regular[g].len() > 0
                && (parent.regular[g].len() > 0 && n_remove > 0 ==> r.regular[g].len() < parent.regular[g].len()),
{
    let group = nonempty_group(blueprints, rng);
    let group_len = parent.regular[group].len();
    let skip = if group_len == 0 {
        0
    } else {
        rng.below(group_len)
    };
    let r = remove_run(blueprints, parent, group, skip, n_remove);
    assert(removed(&r, parent, group as int, skip as int, n_remove as int));
    r
}

/// `r` is `parent_a` after a removal or a transfer of at most `n`
/// components in group `g`, which holds a regular template, at offset `skip`.
pub open spec fn recombined_at(
    cat: &Blueprints,
    r: &EgpChromosome,
    parent_a: &EgpChromosome,
    parent_b: &EgpChromosome,
    g: int,
    skip: int,
    n: int,
) -> bool {
    &&& 0 <= g < cat.regular.len()
    &&& cat.regular[g].len() > 0
    &&& (removed(r, parent_a, g, skip, n) || transferred(r, parent_a, parent_b, g, skip, n))
}

/// Recombines two parents into a child: with probability 1/2 a removal
/// from a copy of `parent_a`, else a transfer from `parent_b` into a copy of
/// `parent_a`. When the drawn group is nonempty in the parent drawn from
/// and `n_transfer > 0`, at least one component moves.
pub fn recombine(
    blueprints: &Blueprints,
    n_transfer: usize,
    parent_a: &EgpChromosome,
    parent_b: &EgpChromosome,
    rng: &mut Sampler,
) -> (r: EgpChromosome)
    requires
        blueprints.wf(),
        parent_a.wf(blueprints),
        parent_b.wf(blueprints),
    ensures
        r.wf(blueprints),
        exists|g: int, skip: int|
            #[trigger] recombined_at(blueprints, &r, parent_a, parent_b, g, skip, n_transfer as int) && (
            removed(&r, parent_a, g, skip, n_transfer as int) && (parent_a.regular[g].len() > 0
                && n_transfer > 0 ==> r.regular[g].len() < parent_a.regular[g].len()) || transferred(
                &r,
                parent_a,
                parent_b,
                g,
                skip,
                n_transfer as int,
            ) && (parent_b.regular[g].len() > 0 && n_transfer > 0 ==> r.regular[g].len()
                > parent_a.regular[g].len())),
{
    if rng.coin() {
        let r = recombine_remove(blueprints, n_transfer, parent_a, rng);
        proof {
            let (g, skip) = choose|g: int, skip: int|
                #[trigger] removed(&r, parent_a, g, skip, n_transfer as int) && blueprints.regular[g].len() > 0
                    && (parent_a.regular[g].len() > 0 && n_transfer > 0 ==> r.regular[g].len() < parent_a.regular[g].len());
            assert(recombined_at(blueprints, &r, parent_a, parent_b, g, skip, n_transfer as int));
        }
        r
    } else {
        let r = recombine_transfer(blueprints, n_transfer, parent_a, parent_b, rng);
        proof {
            let (g, skip) = choose|g: int, skip: int|
                #[trigger] transferred(&r, parent_a, parent_b, g, skip, n_transfer as int) && blueprints.regular[g].len() > 0
                    && (parent_b.regular[g].len() > 0 && n_transfer > 0 ==> r.regular[g].len() > parent_a.regular[g].len());
            assert(recombined_at(blueprints, &r, parent_a, parent_b, g, skip, n_transfer as int));
        }
        r
    }
}

/// A recombination that may move no component leaves the copy of the
/// first parent as it was: every group holds the same components, although
/// a group and an offset were drawn.
pub proof fn zero_transfer_keeps_parent(
    cat: &Blueprints,
    r: &EgpChromosome,
    parent_a: &EgpChromosome,
    parent_b: &EgpChromosome,
    g: int,
    skip: int,
)
    requires
        recombined_at(cat, r, parent_a, parent_b, g, skip, 0),
    ensures
        same_shape(r, parent_a),
        same_component(parent_a.output, r.output),
        forall|h: int, i: int|
            0 <= h < r.regular.len() && 0 <= i < r.regular[h].len() ==> same_component(
                parent_a.regular[h][i],
                #[trigger] r.regular[h][i],
            ),
{
    if removed(r, parent_a, g, skip, 0) {
        assert forall|i: int| 0 <= i < r.regular[g].len() implies same_component(parent_a.regular[g][i], #[trigger] r.regular[g][i]) by {
            if i >= skip {
                assert(same_component(parent_a.regular[g][i + 0], r.regular[g][i]));
            }
        }
    }
    assert forall|h: int| 0 <= h < r.regular.len() implies (#[trigger] r.regular[h]).len() == parent_a.regular[h].len() by {
    }
}

} // verus!
