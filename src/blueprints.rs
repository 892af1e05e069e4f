//! Templates and the finalised catalog built from them.
use vstd::prelude::*;

use crate::chromosome::{lemma_count_sum_prefix_step, slot, EgpChromosome};
use crate::component::{Component, MAX_SITES};
use crate::sampler::Sampler;



verus! {

/// The largest number of activities a catalog may number.
pub const MAX_ACTIVITIES: usize = 65536;

/// The total length of all the groups of `groups`.
pub open spec fn total_len<T>(groups: Seq<Vec<T>>) -> int
    decreases groups.len(),
{
    if groups.len() == 0 {
        0
    } else {
        total_len(groups.drop_last()) + groups.last().len()
    }
}

/// The position, in group-major order, of the first item of group `g`.
pub open spec fn offset<T>(groups: Seq<Vec<T>>, g: int) -> int {
    total_len(groups.subrange(0, g))
}

pub proof fn lemma_offset_step<T>(groups: Seq<Vec<T>>, g: int)
    requires
        0 <= g < groups.len(),
    ensures
        offset(groups, g + 1) == offset(groups, g) + groups[g].len(),
{
    assert(groups.subrange(0, g + 1).drop_last() =~= groups.subrange(0, g));
}

pub proof fn lemma_offset_total<T>(groups: Seq<Vec<T>>)
    ensures
        offset(groups, groups.len() as int) == total_len(groups),
{
    assert(groups.subrange(0, groups.len() as int) =~= groups);
}

pub proof fn lemma_offset_mono<T>(groups: Seq<Vec<T>>, g: int, h: int)
    requires
        0 <= g <= h <= groups.len(),
    ensures
        offset(groups, g) <= offset(groups, h),
        g < h ==> offset(groups, g) + groups[g].len() <= offset(groups, h),
    decreases h - g,
{
    if g < h {
        lemma_offset_step(groups, g);
        lemma_offset_mono(groups, g + 1, h);
    }
}

/// Every blueprint of `groups` has the activity of its place in group-major
/// order, counted from `start`.
pub open spec fn numbered(groups: Seq<Vec<Blueprint>>, start: int) -> bool {
    forall|g: int, j: int|
        0 <= g < groups.len() && 0 <= j < groups[g].len() ==> (#[trigger] groups[g][j]).activity
            == start + offset(groups, g) + j
}

/// `a` and `b` differ at most in their activity.
pub open spec fn same_but_activity(a: Blueprint, b: Blueprint) -> bool {
    &&& a.label@ == b.label@
    &&& a.binding_sites@ == b.binding_sites@
    &&& a.weak_binding_sites@ == b.weak_binding_sites@
}

/// `new` is `old` with only activities changed.
pub open spec fn renumbering(new: Seq<Vec<Blueprint>>, old: Seq<Vec<Blueprint>>) -> bool {
    &&& new.len() == old.len()
    &&& forall|g: int| 0 <= g < new.len() ==> (#[trigger] new[g]).len() == old[g].len()
    &&& forall|g: int, j: int|
        0 <= g < new.len() && 0 <= j < new[g].len() ==> same_but_activity(
            #[trigger] new[g][j],
            old[g][j],
        )
}

/// Every group index of `groups` names a group of `terminal` that holds a
/// terminal template, so a binding site there can always be resolved.
pub open spec fn targets_ok<T>(groups: Seq<usize>, terminal: Seq<Vec<T>>) -> bool {
    forall|k: int|
        0 <= k < groups.len() ==> {
            &&& #[trigger] groups[k] < terminal.len()
            &&& terminal[groups[k] as int].len() > 0
        }
}

/// The template's binding sites are few enough and all resolvable.
pub open spec fn blueprint_fits<T>(bp: Blueprint, terminal: Seq<Vec<T>>) -> bool {
    &&& bp.binding_sites.len() + bp.weak_binding_sites.len() <= MAX_SITES
    &&& targets_ok(bp.binding_sites@, terminal)
    &&& targets_ok(bp.weak_binding_sites@, terminal)
}

pub proof fn lemma_total_len_nonneg<T>(a: Seq<Vec<T>>)
    ensures
        0 <= total_len(a),
    decreases a.len(),
{
    if a.len() > 0 {
        lemma_total_len_nonneg(a.drop_last());
    }
}

/// Groups of equal lengths have equal total lengths.
pub proof fn lemma_same_shape_total<A, B>(a: Seq<Vec<A>>, b: Seq<Vec<B>>)
    requires
        a.len() == b.len(),
        forall|g: int| 0 <= g < a.len() ==> (#[trigger] a[g]).len() == b[g].len(),
    ensures
        total_len(a) == total_len(b),
    decreases a.len(),
{
    if a.len() > 0 {
        lemma_same_shape_total(a.drop_last(), b.drop_last());
    }
}

/// Every template of `groups` fits.
pub open spec fn all_fit<T>(groups: Seq<Vec<Blueprint>>, terminal: Seq<Vec<T>>) -> bool {
    forall|g: int, j: int|
        0 <= g < groups.len() && 0 <= j < groups[g].len() ==> blueprint_fits(
            #[trigger] groups[g][j],
            terminal,
        )
}

/// No template of `groups` has a strong binding site.
pub open spec fn all_terminal(groups: Seq<Vec<Blueprint>>) -> bool {
    forall|g: int, j: int|
        0 <= g < groups.len() && 0 <= j < groups[g].len() ==> (#[trigger] groups[g][j]).binding_sites.len()
            == 0
}

/// Why templates cannot form a catalog, checked in this order; `None` when
/// they can.
pub open spec fn catalog_problem(
    output: Blueprint,
    regular: Seq<Vec<Blueprint>>,
    terminal: Seq<Vec<Blueprint>>,
    weak_map: Seq<(String, String)>,
) -> Option<CatalogError> {
    if regular.len() != terminal.len() {
        Some(CatalogError::GroupCountMismatch)
    } else if total_len(regular) + total_len(terminal) > MAX_ACTIVITIES {
        Some(CatalogError::TooManyActivities)
    } else if total_len(regular) == 0 {
        Some(CatalogError::NoRegularTemplates)
    } else if output.activity >= total_len(regular) + total_len(terminal) {
        Some(CatalogError::OutputActivityOutOfRange)
    } else if !all_terminal(terminal) {
        Some(CatalogError::TerminalWithStrongSites)
    } else if !(blueprint_fits(output, terminal) && all_fit(regular, terminal) && all_fit(
        terminal,
        terminal,
    )) {
        Some(CatalogError::BadBindingSites)
    } else if !weak_keys_unique(weak_map) {
        Some(CatalogError::DuplicateWeakLabel)
    } else {
        None
    }
}

/// `targets_ok` depends on the lengths of the groups alone.
pub proof fn lemma_targets_shape<A, B>(groups: Seq<usize>, a: Seq<Vec<A>>, b: Seq<Vec<B>>)
    requires
        targets_ok(groups, a),
        a.len() == b.len(),
        forall|g: int| 0 <= g < a.len() ==> (#[trigger] a[g]).len() == b[g].len(),
    ensures
        targets_ok(groups, b),
{
    assert forall|k: int| 0 <= k < groups.len() implies {
        &&& #[trigger] groups[k] < b.len()
        &&& b[groups[k] as int].len() > 0
    } by {
        assert(a[groups[k] as int].len() == b[groups[k] as int].len());
    }
}

proof fn lemma_ones_slot(ones: Seq<usize>, j: int)
    requires
        0 <= j <= ones.len(),
        forall|i: int| 0 <= i < ones.len() ==> #[trigger] ones[i] == 1,
    ensures
        slot(ones, j, 0) == j,
    decreases j,
{
    if j > 0 {
        lemma_ones_slot(ones, j - 1);
        lemma_count_sum_prefix_step(ones, j - 1);
    }
}

fn ones_of(n: usize) -> (r: Vec<usize>)
    ensures
        r.len() == n,
        forall|i: int| 0 <= i < n ==> #[trigger] r[i] == 1,
{
    let mut r: Vec<usize> = Vec::new();
    let mut i: usize = 0;
    while i < n
        invariant
            i <= n,
            r.len() == i,
            forall|k: int| 0 <= k < i ==> #[trigger] r[k] == 1,
        decreases n - i,
    {
        r.push(1);
        i = i + 1;
    }
    r
}

/// The total length of `groups` when it is at most `limit`.
fn bounded_total<T>(groups: &Vec<Vec<T>>, limit: usize) -> (r: Option<usize>)
    ensures
        r is Some <==> total_len(groups@) <= limit,
        r is Some ==> r->Some_0 == total_len(groups@),
{
    let mut acc: usize = 0;
    let mut g: usize = 0;
    while g < groups.len()
        invariant
            g <= groups.len(),
            acc == offset(groups@, g as int),
            acc <= limit,
        decreases groups.len() - g,
    {
        proof {
            lemma_offset_step(groups@, g as int);
            lemma_offset_mono(groups@, g + 1, groups@.len() as int);
            lemma_offset_total(groups@);
        }
        if groups[g].len() > limit - acc {
            return None;
        }
        acc = acc + groups[g].len();
        g = g + 1;
    }
    proof {
        lemma_offset_total(groups@);
    }
    Some(acc)
}

fn targets_exec<T>(groups: &Vec<usize>, terminal: &Vec<Vec<T>>) -> (r: bool)
    ensures
        r == targets_ok(groups@, terminal@),
{
    let mut k: usize = 0;
    while k < groups.len()
        invariant
            k <= groups.len(),
            forall|i: int|
                0 <= i < k ==> {
                    &&& #[trigger] groups@[i] < terminal@.len()
                    &&& terminal@[groups@[i] as int].len() > 0
                },
        decreases groups.len() - k,
    {
        let t = groups[k];
        if t >= terminal.len() || terminal[t].len() == 0 {
            return false;
        }
        k = k + 1;
    }
    true
}

fn fits_exec<T>(bp: &Blueprint, terminal: &Vec<Vec<T>>) -> (r: bool)
    ensures
        r == blueprint_fits(*bp, terminal@),
{
    if bp.binding_sites.len() > MAX_SITES || bp.weak_binding_sites.len() > MAX_SITES
        - bp.binding_sites.len() {
        return false;
    }
    targets_exec(&bp.binding_sites, terminal) && targets_exec(&bp.weak_binding_sites, terminal)
}

fn all_fit_exec<T>(groups: &Vec<Vec<Blueprint>>, terminal: &Vec<Vec<T>>) -> (r: bool)
    ensures
        r == all_fit(groups@, terminal@),
{
    let mut g: usize = 0;
    while g < groups.len()
        invariant
            g <= groups.len(),
            forall|h: int, j: int|
                0 <= h < g && 0 <= j < groups[h].len() ==> blueprint_fits(
                    #[trigger] groups[h][j],
                    terminal@,
                ),
        decreases groups.len() - g,
    {
        let mut j: usize = 0;
        while j < groups[g].len()
            invariant
                g < groups.len(),
                j <= groups[g as int].len(),
                forall|h: int, i: int|
                    0 <= h < g && 0 <= i < groups[h].len() ==> blueprint_fits(
                        #[trigger] groups[h][i],
                        terminal@,
                    ),
                forall|i: int| 0 <= i < j ==> blueprint_fits(#[trigger] groups[g as int][i], terminal@),
            decreases groups[g as int].len() - j,
        {
            if !fits_exec(&groups[g][j], terminal) {
                return false;
            }
            j = j + 1;
        }
        g = g + 1;
    }
    true
}

fn all_terminal_exec(groups: &Vec<Vec<Blueprint>>) -> (r: bool)
    ensures
        r == all_terminal(groups@),
{
    let mut g: usize = 0;
    while g < groups.len()
        invariant
            g <= groups.len(),
            forall|h: int, j: int|
                0 <= h < g && 0 <= j < groups[h].len() ==> (#[trigger] groups[h][j]).binding_sites.len() == 0,
        decreases groups.len() - g,
    {
        let mut j: usize = 0;
        while j < groups[g].len()
            invariant
                g < groups.len(),
                j <= groups[g as int].len(),
                forall|h: int, i: int|
                    0 <= h < g && 0 <= i < groups[h].len() ==> (#[trigger] groups[h][i]).binding_sites.len() == 0,
                forall|i: int| 0 <= i < j ==> (#[trigger] groups[g as int][i]).binding_sites.len() == 0,
            decreases groups[g as int].len() - j,
        {
            if groups[g][j].binding_sites.len() != 0 {
                return false;
            }
            j = j + 1;
        }
        g = g + 1;
    }
    true
}

/// A configuration error: the templates do not form a catalog.
#[derive(Clone, Copy, Debug, PartialEq, Eq, Structural)]
pub enum CatalogError {
    /// The regular and terminal templates are split into different numbers of groups.
    GroupCountMismatch,
    /// More templates than activities can be numbered.
    TooManyActivities,
    /// No group holds a regular template.
    NoRegularTemplates,
    /// The output template's activity is not below the number of activities.
    OutputActivityOutOfRange,
    /// A terminal template declares a strong binding site.
    TerminalWithStrongSites,
    /// A template has too many binding sites, or one whose group is out of
    /// range or holds no terminal template.
    BadBindingSites,
    /// A label looks for more than one weak partner label.
    DuplicateWeakLabel,
}

/// No label looks for two weak partners: the pairs form a map.
pub open spec fn weak_keys_unique(weak_map: Seq<(String, String)>) -> bool {
    forall|i: int, j: int| 0 <= i < j < weak_map.len() ==> (#[trigger] weak_map[i]).0@ != (#[trigger] weak_map[j]).0@
}

fn weak_keys_unique_exec(weak_map: &Vec<(String, String)>) -> (r: bool)
    ensures
        r == weak_keys_unique(weak_map@),
{
    let mut j: usize = 0;
    while j < weak_map.len()
        invariant
            j <= weak_map.len(),
            forall|a: int, b: int| 0 <= a < b < j ==> (#[trigger] weak_map@[a]).0@ != (#[trigger] weak_map@[b]).0@,
        decreases weak_map.len() - j,
    {
        let mut i: usize = 0;
        while i < j
            invariant
                i <= j < weak_map.len(),
                forall|a: int, b: int| 0 <= a < b < j ==> (#[trigger] weak_map@[a]).0@ != (#[trigger] weak_map@[b]).0@,
                forall|a: int| 0 <= a < i ==> (#[trigger] weak_map@[a]).0@ != weak_map@[j as int].0@,
            decreases j - i,
        {
            if weak_map[i].0 == weak_map[j].0 {
                return false;
            }
            i = i + 1;
        }
        j = j + 1;
    }
    true
}

/// The finalised catalog: the templates, numbered, with every terminal
/// template instantiated once for the whole run.
pub struct Blueprints {
    /// The output template; it keeps its declared activity.
    pub output: Blueprint,
    pub regular: Vec<Vec<Blueprint>>,
    pub terminal: Vec<Vec<Component>>,
    /// The number of activities of each group, the output not counted.
    pub activities_by_group: Vec<usize>,
    pub total_activities: usize,
    /// Pairs of a label that looks for a weak partner and the label it looks for.
    pub weak_map: Vec<(String, String)>,
    pub number_of_regulars: usize,
    pub number_of_terminals: usize,
}

impl Blueprints {
    fn recompute_activities_counter(groups: &mut Vec<Vec<Blueprint>>, counter: &mut usize)
        requires
            *old(counter) + total_len(old(groups)@) <= usize::MAX,
        ensures
            renumbering(final(groups)@, old(groups)@),
            numbered(final(groups)@, *old(counter) as int),
            *final(counter) == *old(counter) + total_len(old(groups)@),
    {
        let ghost start = *counter as int;
        let ghost orig = groups@;
        let mut g: usize = 0;
        while g < groups.len()
            invariant
                g <= groups.len(),
                renumbering(groups@, orig),
                start + total_len(orig) <= usize::MAX,
                *counter == start + offset(groups@, g as int),
                total_len(groups@) == total_len(orig),
                forall|h: int, j: int|
                    0 <= h < g && 0 <= j < groups[h].len() ==> (#[trigger] groups@[h][j]).activity
                        == start + offset(groups@, h) + j,
            decreases groups.len() - g,
        {
            proof {
                lemma_offset_mono(groups@, g as int, groups@.len() as int);
                lemma_offset_total(groups@);
            }
            let mut j: usize = 0;
            let ghost at_g = groups@;
            while j < groups[g].len()
                invariant
                    g < groups.len(),
                    j <= groups[g as int].len(),
                    groups@.len() == at_g.len(),
                    forall|h: int| 0 <= h < groups.len() ==> (#[trigger] groups@[h]).len() == at_g[h].len(),
                    forall|h: int| 0 <= h < groups.len() && h != g ==> #[trigger] groups@[h] == at_g[h],
                    forall|k: int|
                        0 <= k < groups[g as int].len() ==> same_but_activity(
                            #[trigger] groups@[g as int][k],
                            at_g[g as int][k],
                        ),
                    forall|k: int|
                        0 <= k < j ==> (#[trigger] groups@[g as int][k]).activity == start + offset(
                            at_g,
                            g as int,
                        ) + k,
                    *counter == start + offset(at_g, g as int) + j,
                    offset(at_g, g as int) + at_g[g as int].len() <= total_len(orig),
                    start + total_len(orig) <= usize::MAX,
                decreases groups[g as int].len() - j,
            {
                groups[g][j].activity = *counter;
                *counter = *counter + 1;
                j = j + 1;
            }
            proof {
                assert(groups@.subrange(0, g as int) =~= at_g.subrange(0, g as int));
                lemma_same_shape_total(groups@.subrange(0, g + 1), at_g.subrange(0, g + 1));
                lemma_offset_step(at_g, g as int);
                lemma_same_shape_total(groups@, at_g);
                assert forall|h: int| 0 <= h <= g + 1 implies offset(groups@, h) == offset(at_g, h) by {
                    lemma_same_shape_total(groups@.subrange(0, h), at_g.subrange(0, h));
                }
            }
            g = g + 1;
        }
        proof {
            lemma_offset_total(groups@);
        }
    }

    /// Numbers every regular template, then every terminal template, in
    /// group-major order, from 0.
    pub fn recompute_activities(regular: &mut Vec<Vec<Blueprint>>, terminal: &mut Vec<Vec<Blueprint>>)
        requires
            total_len(old(regular)@) + total_len(old(terminal)@) <= usize::MAX,
        ensures
            renumbering(final(regular)@, old(regular)@),
            renumbering(final(terminal)@, old(terminal)@),
            numbered(final(regular)@, 0),
            numbered(final(terminal)@, total_len(old(regular)@)),
    {
        proof {
            lemma_total_len_nonneg(regular@);
            lemma_total_len_nonneg(terminal@);
        }
        let mut activity_n: usize = 0;
        Blueprints::recompute_activities_counter(regular, &mut activity_n);
        Blueprints::recompute_activities_counter(terminal, &mut activity_n);
    }

    /// The total number of items over all groups.
    pub fn sum_group_lens<T>(groups: &Vec<Vec<T>>) -> (r: usize)
        requires
            total_len(groups@) <= usize::MAX,
        ensures
            r == total_len(groups@),
    {
        let mut r: usize = 0;
        let mut g: usize = 0;
        while g < groups.len()
            invariant
                g <= groups.len(),
                r == offset(groups@, g as int),
                total_len(groups@) <= usize::MAX,
            decreases groups.len() - g,
        {
            proof {
                lemma_offset_step(groups@, g as int);
                lemma_offset_mono(groups@, g + 1, groups@.len() as int);
                lemma_offset_total(groups@);
            }
            r = r + groups[g].len();
            g = g + 1;
        }
        proof {
            lemma_offset_total(groups@);
        }
        r
    }

    /// Builds the catalog: numbers the templates and instantiates each
    /// terminal template once, or says why the templates do not form one.
    pub fn from_groups(
        output: Blueprint,
        regular: Vec<Vec<Blueprint>>,
        terminal: Vec<Vec<Blueprint>>,
        weak_map: Vec<(String, String)>,
        rng: &mut Sampler,
    ) -> (r: Result<Blueprints, CatalogError>)
        ensures
            r is Err <==> catalog_problem(output, regular@, terminal@, weak_map@) is Some,
            r is Err ==> r->Err_0 == catalog_problem(output, regular@, terminal@, weak_map@)->Some_0,
            r is Ok ==> ({
                let c = r->Ok_0;
                &&& c.wf()
                &&& c.output == output
                &&& c.weak_map == weak_map
                &&& renumbering(c.regular@, regular@)
                &&& c.terminal.len() == terminal.len()
                &&& forall|g: int| 0 <= g < terminal.len() ==> (#[trigger] c.terminal[g]).len() == terminal[g].len()
                &&& c.activities_by_group.len() == regular.len()
                &&& forall|g: int|
                    0 <= g < regular.len() ==> #[trigger] c.activities_by_group[g] == regular[g].len()
                        + terminal[g].len()
                &&& forall|g: int, j: int|
                    0 <= g < terminal.len() && 0 <= j < terminal[g].len() ==> (
                    #[trigger] c.terminal[g][j]).instance_of(
                        Blueprint { activity: c.terminal[g][j].activity, ..terminal[g][j] },
                        c.total_activities as int,
                    )
                &&& c.total_activities == total_len(regular@) + total_len(terminal@)
                &&& c.number_of_regulars == total_len(regular@)
                &&& c.number_of_terminals == total_len(terminal@)
            }),
    {
        if regular.len() != terminal.len() {
            return Err(CatalogError::GroupCountMismatch);
        }
        proof {
            lemma_total_len_nonneg(regular@);
            lemma_total_len_nonneg(terminal@);
        }
        let number_of_regulars = match bounded_total(&regular, MAX_ACTIVITIES) {
            Some(n) => n,
            None => return Err(CatalogError::TooManyActivities),
        };
        let number_of_terminals = match bounded_total(&terminal, MAX_ACTIVITIES - number_of_regulars) {
            Some(n) => n,
            None => return Err(CatalogError::TooManyActivities),
        };
        if number_of_regulars == 0 {
            return Err(CatalogError::NoRegularTemplates);
        }
        let total_activities = number_of_regulars + number_of_terminals;
        if output.activity >= total_activities {
            return Err(CatalogError::OutputActivityOutOfRange);
        }
        if !all_terminal_exec(&terminal) {
            return Err(CatalogError::TerminalWithStrongSites);
        }
        if !(fits_exec(&output, &terminal) && all_fit_exec(&regular, &terminal) && all_fit_exec(
            &terminal,
            &terminal,
        )) {
            return Err(CatalogError::BadBindingSites);
        }
        if !weak_keys_unique_exec(&weak_map) {
            return Err(CatalogError::DuplicateWeakLabel);
        }
        let ghost regular0 = regular@;
        let ghost terminal0 = terminal@;
        let mut regular = regular;
        let mut terminal = terminal;
        Blueprints::recompute_activities(&mut regular, &mut terminal);
        proof {
            lemma_same_shape_total(regular@, regular0);
            lemma_same_shape_total(terminal@, terminal0);
        }
        let mut activities_by_group: Vec<usize> = Vec::new();
        let mut instances: Vec<Vec<Component>> = Vec::new();
        let mut g: usize = 0;
        while g < regular.len()
            invariant
                g <= regular.len() == terminal.len(),
                renumbering(regular@, regular0),
                renumbering(terminal@, terminal0),
                total_len(regular@) == number_of_regulars,
                total_len(terminal@) == number_of_terminals,
                numbered(terminal@, number_of_regulars as int),
                total_activities == number_of_regulars + number_of_terminals <= MAX_ACTIVITIES,
                activities_by_group.len() == g,
                instances.len() == g,
                forall|h: int|
                    0 <= h < g ==> #[trigger] activities_by_group[h] == regular[h].len()
                        + terminal[h].len(),
                forall|h: int| 0 <= h < g ==> (#[trigger] instances[h]).len() == terminal[h].len(),
                forall|h: int, j: int|
                    0 <= h < g && 0 <= j < terminal[h].len() ==> (#[trigger] instances[h][j]).instance_of(
                        terminal[h][j],
                        total_activities as int,
                    ),
            decreases regular.len() - g,
        {
            proof {
                lemma_offset_mono(regular@, g as int, regular@.len() as int);
                lemma_offset_mono(terminal@, g as int, terminal@.len() as int);
                lemma_offset_total(regular@);
                lemma_offset_total(terminal@);
                lemma_total_len_nonneg(regular@.subrange(0, g as int));
                lemma_total_len_nonneg(terminal@.subrange(0, g as int));
            }
            activities_by_group.push(regular[g].len() + terminal[g].len());
            let ones = ones_of(terminal[g].len());
            let group = EgpChromosome::make_group(&terminal[g], &ones, total_activities, rng);
            proof {
                assert(ones@.subrange(0, ones.len() as int) =~= ones@);
                lemma_ones_slot(ones@, ones.len() as int);
                assert forall|j: int| 0 <= j < terminal[g as int].len() implies (#[trigger] group[j]).instance_of(
                    terminal[g as int][j],
                    total_activities as int,
                ) by {
                    lemma_ones_slot(ones@, j);
                    assert(group[slot(ones@, j, 0)].instance_of(terminal[g as int][j], total_activities as int));
                }
            }
            instances.push(group);
            g = g + 1;
        }
        proof {
            lemma_same_shape_total(instances@, terminal@);
            lemma_total_len_nonneg(instances@);
        }
        let number_of_terminals = Blueprints::sum_group_lens(&instances);
        let r = Blueprints {
            output,
            regular,
            terminal: instances,
            activities_by_group,
            total_activities,
            weak_map,
            number_of_regulars,
            number_of_terminals,
        };
        proof {
            assert forall|h: int| 0 <= h <= r.terminal.len() implies offset(r.terminal@, h) == offset(terminal@, h) by {
                lemma_same_shape_total(r.terminal@.subrange(0, h), terminal@.subrange(0, h));
            }
            lemma_targets_shape(output.binding_sites@, terminal@, r.terminal@);
            lemma_targets_shape(output.weak_binding_sites@, terminal@, r.terminal@);
            assert forall|g: int, j: int|
                0 <= g < r.regular.len() && 0 <= j < r.regular[g].len() implies blueprint_fits(
                #[trigger] r.regular[g][j],
                r.terminal@,
            ) by {
                assert(blueprint_fits(regular0[g][j], terminal0));
                lemma_targets_shape(r.regular[g][j].binding_sites@, terminal0, r.terminal@);
                lemma_targets_shape(r.regular[g][j].weak_binding_sites@, terminal0, r.terminal@);
            }
            assert forall|g: int, j: int|
                0 <= g < r.terminal.len() && 0 <= j < r.terminal[g].len() implies {
                    &&& r.component_fits(#[trigger] r.terminal[g][j])
                    &&& r.terminal[g][j].binding_sites.len() == 0
                } by {
                assert(blueprint_fits(terminal0[g][j], terminal0));
                assert(all_terminal(terminal0));
                assert(terminal0[g][j].binding_sites.len() == 0);
                lemma_targets_shape(terminal[g][j].weak_binding_sites@, terminal0, r.terminal@);
                lemma_offset_mono(terminal@, g, terminal@.len() as int);
                lemma_offset_total(terminal@);
                assert(r.terminal[g][j] == instances[g][j]);
            }
            assert forall|g: int, j: int|
                0 <= g < terminal.len() && 0 <= j < terminal[g].len() implies (
                #[trigger] r.terminal[g][j]).instance_of(
                    Blueprint { activity: r.terminal[g][j].activity, ..terminal0[g][j] },
                    r.total_activities as int,
                ) by {
                assert(r.terminal[g][j] == instances[g][j]);
                assert(same_but_activity(terminal[g][j], terminal0[g][j]));
            }
        }
        Ok(r)
    }

    /// The component is sized for this catalog and its sites resolvable.
    pub open spec fn component_fits(&self, c: Component) -> bool {
        &&& c.wf(self.total_activities as int)
        &&& targets_ok(c.binding_sites_groups@, self.terminal@)
        &&& targets_ok(c.weak_binding_sites_groups@, self.terminal@)
    }

    pub open spec fn wf(&self) -> bool {
        &&& self.regular.len() == self.terminal.len()
        &&& self.activities_by_group.len() == self.regular.len()
        &&& forall|g: int|
            0 <= g < self.regular.len() ==> #[trigger] self.activities_by_group[g]
                == self.regular[g].len() + self.terminal[g].len()
        &&& self.number_of_regulars == total_len(self.regular@)
        &&& self.number_of_terminals == total_len(self.terminal@)
        &&& self.total_activities == self.number_of_regulars + self.number_of_terminals
        &&& 0 < self.number_of_regulars
        &&& self.total_activities <= MAX_ACTIVITIES
        &&& numbered(self.regular@, 0)
        &&& forall|g: int, j: int|
            0 <= g < self.terminal.len() && 0 <= j < self.terminal[g].len() ==> (
            #[trigger] self.terminal[g][j]).activity == self.number_of_regulars + offset(
                self.terminal@,
                g,
            ) + j
        &&& self.output.activity < self.total_activities
        &&& weak_keys_unique(self.weak_map@)
        &&& blueprint_fits(self.output, self.terminal@)
        &&& all_fit(self.regular@, self.terminal@)
        &&& forall|g: int, j: int|
            0 <= g < self.terminal.len() && 0 <= j < self.terminal[g].len() ==> {
                &&& self.component_fits(#[trigger] self.terminal[g][j])
                &&& self.terminal[g][j].binding_sites.len() == 0
            }
    }
}

/// An immutable template: a label, an activity and the groups its strong and
/// weak binding sites draw from.
///
/// Group membership is positional: the template's place in the catalog.
pub struct Blueprint {
    pub activity: usize,
    pub label: String,
    /// Group indices of the strong binding sites. Templates with none are
    /// terminals: fixed by their activity and expressed as often as needed.
    pub binding_sites: Vec<usize>,
    /// Group indices of the weak binding sites, resolved after the tree is built.
    pub weak_binding_sites: Vec<usize>,
}

impl Blueprint {
    pub fn terminal(label: &str) -> (r: Blueprint)
        ensures
            r.activity == 0,
            r.label@ == label@,
            r.binding_sites@.len() == 0,
            r.weak_binding_sites@.len() == 0,
    {
        Blueprint {
            activity: 0,
            label: label.to_owned(),
            binding_sites: Vec::new(),
            weak_binding_sites: Vec::new(),
        }
    }

    pub fn single_main(label: &str) -> (r: Blueprint)
        ensures
            r.activity == 0,
            r.label@ == label@,
            r.binding_sites@ == seq![0usize],
            r.weak_binding_sites@.len() == 0,
    {
        let mut binding_sites: Vec<usize> = Vec::new();
        binding_sites.push(0);
        Blueprint {
            activity: 0,
            label: label.to_owned(),
            binding_sites,
            weak_binding_sites: Vec::new(),
        }
    }

    pub fn double_main(label: &str) -> (r: Blueprint)
        ensures
            r.activity == 0,
            r.label@ == label@,
            r.binding_sites@ == seq![0usize, 0usize],
            r.weak_binding_sites@.len() == 0,
    {
        let mut binding_sites: Vec<usize> = Vec::new();
        binding_sites.push(0);
        binding_sites.push(0);
        assert(binding_sites@ =~= seq![0usize, 0usize]);
        Blueprint {
            activity: 0,
            label: label.to_owned(),
            binding_sites,
            weak_binding_sites: Vec::new(),
        }
    }

    pub fn terminals(labels: &[&str]) -> (r: Vec<Blueprint>)
        ensures
            r.len() == labels@.len(),
            forall|i: int|
                0 <= i < r.len() ==> {
                    &&& (#[trigger] r[i]).activity == 0
                    &&& r[i].label@ == labels@[i]@
                    &&& r[i].binding_sites@.len() == 0
                    &&& r[i].weak_binding_sites@.len() == 0
                },
    {
        let mut r: Vec<Blueprint> = Vec::new();
        let mut i: usize = 0;
        while i < labels.len()
            invariant
                i <= labels@.len(),
                r.len() == i,
                forall|k: int|
                    0 <= k < i ==> {
                        &&& (#[trigger] r[k]).activity == 0
                        &&& r[k].label@ == labels@[k]@
                        &&& r[k].binding_sites@.len() == 0
                        &&& r[k].weak_binding_sites@.len() == 0
                    },
            decreases labels@.len() - i,
        {
            r.push(Blueprint::terminal(labels[i]));
            i = i + 1;
        }
        r
    }
}

} // verus!

verus! {

/// In a well-formed catalog the number of activities is the number of
/// regular and terminal templates together, and every regular and terminal
/// template has its own activity below that number.
pub proof fn activities_unique(c: &Blueprints)
    requires
        c.wf(),
    ensures
        c.total_activities == total_len(c.regular@) + total_len(c.terminal@),
        forall|g: int, j: int|
            0 <= g < c.regular.len() && 0 <= j < c.regular[g].len() ==> (#[trigger] c.regular[g][j]).activity
                < c.total_activities,
        forall|g: int, j: int|
            0 <= g < c.terminal.len() && 0 <= j < c.terminal[g].len() ==> (#[trigger] c.terminal[g][j]).activity
                < c.total_activities,
        forall|g: int, j: int, h: int, k: int|
            0 <= g < c.regular.len() && 0 <= j < c.regular[g].len() && 0 <= h < c.regular.len() && 0
                <= k < c.regular[h].len() && (g != h || j != k) ==> (#[trigger] c.regular[g][j]).activity
                != (#[trigger] c.regular[h][k]).activity,
        forall|g: int, j: int, h: int, k: int|
            0 <= g < c.terminal.len() && 0 <= j < c.terminal[g].len() && 0 <= h < c.terminal.len() && 0
                <= k < c.terminal[h].len() && (g != h || j != k) ==> (#[trigger] c.terminal[g][j]).activity
                != (#[trigger] c.terminal[h][k]).activity,
        forall|g: int, j: int, h: int, k: int|
            0 <= g < c.regular.len() && 0 <= j < c.regular[g].len() && 0 <= h < c.terminal.len() && 0
                <= k < c.terminal[h].len() ==> (#[trigger] c.regular[g][j]).activity != (
            #[trigger] c.terminal[h][k]).activity,
{
    lemma_offset_total(c.regular@);
    lemma_offset_total(c.terminal@);
    assert forall|g: int, j: int|
        0 <= g < c.regular.len() && 0 <= j < c.regular[g].len() implies (#[trigger] c.regular[g][j]).activity
            < total_len(c.regular@) by {
        lemma_offset_mono(c.regular@, g, c.regular@.len() as int);
    }
    assert forall|g: int, j: int|
        0 <= g < c.terminal.len() && 0 <= j < c.terminal[g].len() implies (#[trigger] c.terminal[g][j]).activity
            < c.total_activities by {
        lemma_offset_mono(c.terminal@, g, c.terminal@.len() as int);
    }
    assert forall|g: int, j: int, h: int, k: int|
        0 <= g < c.regular.len() && 0 <= j < c.regular[g].len() && 0 <= h < c.regular.len() && 0 <= k
            < c.regular[h].len() && (g != h || j != k) implies (#[trigger] c.regular[g][j]).activity
            != (#[trigger] c.regular[h][k]).activity by {
        if g < h {
            lemma_offset_mono(c.regular@, g, h);
        } else if h < g {
            lemma_offset_mono(c.regular@, h, g);
        }
    }
    assert forall|g: int, j: int, h: int, k: int|
        0 <= g < c.terminal.len() && 0 <= j < c.terminal[g].len() && 0 <= h < c.terminal.len() && 0
            <= k < c.terminal[h].len() && (g != h || j != k) implies (#[trigger] c.terminal[g][j]).activity
            != (#[trigger] c.terminal[h][k]).activity by {
        if g < h {
            lemma_offset_mono(c.terminal@, g, h);
        } else if h < g {
            lemma_offset_mono(c.terminal@, h, g);
        }
    }
    assert forall|g: int, j: int, h: int, k: int|
        0 <= g < c.regular.len() && 0 <= j < c.regular[g].len() && 0 <= h < c.terminal.len() && 0 <= k
            < c.terminal[h].len() implies (#[trigger] c.regular[g][j]).activity != (
        #[trigger] c.terminal[h][k]).activity by {
        lemma_offset_mono(c.regular@, g, c.regular@.len() as int);
        lemma_total_len_nonneg(c.terminal@.subrange(0, h));
    }
}

} // verus!
