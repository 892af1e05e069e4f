//! Expression: developing a genome into its phenotype graph.
use vstd::prelude::*;

use crate::blueprints::{lemma_same_shape_total, total_len, Blueprints};
use crate::chromosome::EgpChromosome;
use crate::component::Component;
use crate::nearest::{
    binding_fits, distances, find_min_satisfying_distance, is_last_nearest, last_nearest, lemma_at_most_trans,
    site_distance, site_distance_exec, some_allowed,
};
use crate::vectors::Distance;

verus! {

/// Where an expressed node's component lives.
#[derive(Clone, Copy, Debug, PartialEq, Eq, Structural)]
pub enum ComponentIndex {
    Output,
    /// Group and index among the genome's regular components.
    Regular(usize, usize),
    /// Group and index among the catalog's terminal components.
    Terminal(usize, usize),
}

/// A node of the phenotype.
#[derive(Debug)]
pub struct Expressed {
    pub label: String,
    pub activity: usize,
    pub index: ComponentIndex,
}

/// An edge of the phenotype: the ordinal of the binding site it resolves.
#[derive(Clone, Copy, Debug, PartialEq, Eq, Structural)]
pub enum Binding {
    Strong(usize),
    Weak(usize),
}

impl Expressed {
    pub fn from_component(component: &Component, index: ComponentIndex) -> (r: Expressed)
        ensures
            r.label@ == component.label@,
            r.activity == component.activity,
            r.index == index,
    {
        Expressed { label: component.label.clone(), activity: component.activity, index }
    }
}

impl Binding {
    /// A strong binding one ordinal lower; a weak binding is unchanged.
    pub fn decrement_strong(self) -> (r: Binding)
        requires
            self matches Binding::Strong(i) ==> i > 0,
        ensures
            r == match self {
                Binding::Strong(i) => Binding::Strong((i - 1) as usize),
                Binding::Weak(i) => Binding::Weak(i),
            },
    {
        match self {
            Binding::Strong(index) => Binding::Strong(index - 1),
            _ => self,
        }
    }
}

/// An edge: source node, target node and binding.
pub type Edge = (usize, usize, Binding);

/// The component that `index` refers to.
pub open spec fn component_at(cat: &Blueprints, chrom: &EgpChromosome, index: ComponentIndex) -> Component {
    match index {
        ComponentIndex::Output => chrom.output,
        ComponentIndex::Regular(g, i) => chrom.regular[g as int][i as int],
        ComponentIndex::Terminal(g, i) => cat.terminal[g as int][i as int],
    }
}

pub open spec fn origin_ok(cat: &Blueprints, chrom: &EgpChromosome, index: ComponentIndex) -> bool {
    match index {
        ComponentIndex::Output => true,
        ComponentIndex::Regular(g, i) => g < chrom.regular.len() && i < chrom.regular[g as int].len(),
        ComponentIndex::Terminal(g, i) => g < cat.terminal.len() && i < cat.terminal[g as int].len(),
    }
}

/// The node refers to a component and carries its label and activity.
pub open spec fn node_ok(cat: &Blueprints, chrom: &EgpChromosome, n: Expressed) -> bool {
    &&& origin_ok(cat, chrom, n.index)
    &&& n.label@ == component_at(cat, chrom, n.index).label@
    &&& n.activity == component_at(cat, chrom, n.index).activity
}

pub open spec fn all_true(n: int) -> Seq<bool> {
    Seq::new(n as nat, |j: int| true)
}

/// Regular component `i` of group `g` is expressed by one of `earlier`.
pub open spec fn expressed_before(earlier: Seq<Expressed>, g: int, i: int) -> bool {
    exists|n: int|
        0 <= n < earlier.len() && (#[trigger] earlier[n]).index == ComponentIndex::Regular(
            g as usize,
            i as usize,
        )
}

/// Which regular components of group `t` none of `earlier` expresses.
pub open spec fn unexpressed(chrom: &EgpChromosome, earlier: Seq<Expressed>, t: int) -> Seq<bool> {
    Seq::new(chrom.regular[t].len() as nat, |i: int| !expressed_before(earlier, t, i))
}

/// `child` is what strong site `k` of `parent` resolves to, given the nodes
/// `earlier` expressed before it. Over the site's group: the last nearest
/// regular component not yet expressed, when it is at least as near as the
/// last nearest terminal; else that terminal, every regular component not
/// yet expressed being farther than it.
pub open spec fn chosen_by_site(
    cat: &Blueprints,
    chrom: &EgpChromosome,
    parent: Component,
    k: int,
    child: ComponentIndex,
    earlier: Seq<Expressed>,
) -> bool {
    let t = parent.binding_sites_groups[k];
    let v = parent.binding_sites[k]@;
    let d = cat.total_activities as int;
    &&& 0 <= k < parent.binding_sites.len()
    &&& match child {
        ComponentIndex::Terminal(g, j) => {
            &&& g == t
            &&& is_last_nearest(
                distances(v, cat.terminal[t as int]@, d),
                all_true(cat.terminal[t as int].len() as int),
                j as int,
            )
            &&& forall|i: int|
                0 <= i < chrom.regular[t as int].len() && !expressed_before(earlier, t as int, i)
                    ==> !(#[trigger] site_distance(v, chrom.regular[t as int][i], d)).at_most(
                    site_distance(v, cat.terminal[t as int][j as int], d),
                )
        },
        ComponentIndex::Regular(g, i) => {
            &&& g == t
            &&& is_last_nearest(
                distances(v, chrom.regular[t as int]@, d),
                unexpressed(chrom, earlier, t as int),
                i as int,
            )
            &&& forall|j: int|
                0 <= j < cat.terminal[t as int].len() ==> site_distance(
                    v,
                    chrom.regular[g as int][i as int],
                    d,
                ).at_most(#[trigger] site_distance(v, cat.terminal[t as int][j], d))
        },
        ComponentIndex::Output => false,
    }
}

pub open spec fn strong_edge_ok(
    cat: &Blueprints,
    chrom: &EgpChromosome,
    nodes: Seq<Expressed>,
    e: Edge,
) -> bool {
    &&& e.0 < e.1 < nodes.len()
    &&& e.2 is Strong
    &&& chosen_by_site(
        cat,
        chrom,
        component_at(cat, chrom, nodes[e.0 as int].index),
        e.2->Strong_0 as int,
        nodes[e.1 as int].index,
        nodes.subrange(0, e.1 as int),
    )
}

/// The label looks for a weak partner.
pub open spec fn is_looking(cat: &Blueprints, label: Seq<char>) -> bool {
    exists|i: int| 0 <= i < cat.weak_map.len() && (#[trigger] cat.weak_map[i]).0@ == label
}

/// The label is looked for as a weak partner.
pub open spec fn is_offering(cat: &Blueprints, label: Seq<char>) -> bool {
    exists|i: int| 0 <= i < cat.weak_map.len() && (#[trigger] cat.weak_map[i]).1@ == label
}

pub open spec fn weak_distance(
    cat: &Blueprints,
    chrom: &EgpChromosome,
    nodes: Seq<Expressed>,
    p: int,
    k: int,
    q: int,
) -> Distance {
    site_distance(
        component_at(cat, chrom, nodes[p].index).weak_binding_sites[k]@,
        component_at(cat, chrom, nodes[q].index),
        cat.total_activities as int,
    )
}

/// Weak site `k` of a looking node `p` resolves to the offering node `q`:
/// the last of the offering nodes nearest to the site's vector.
pub open spec fn weak_edge_ok(
    cat: &Blueprints,
    chrom: &EgpChromosome,
    nodes: Seq<Expressed>,
    e: Edge,
) -> bool {
    let p = e.0 as int;
    let q = e.1 as int;
    &&& p < nodes.len()
    &&& q < nodes.len()
    &&& e.2 is Weak
    &&& is_looking(cat, nodes[p].label@)
    &&& is_offering(cat, nodes[q].label@)
    &&& e.2->Weak_0 < component_at(cat, chrom, nodes[p].index).weak_binding_sites.len()
    &&& forall|n: int|
        0 <= n < nodes.len() && is_offering(cat, (#[trigger] nodes[n]).label@) ==> weak_distance(
            cat,
            chrom,
            nodes,
            p,
            e.2->Weak_0 as int,
            q,
        ).at_most(weak_distance(cat, chrom, nodes, p, e.2->Weak_0 as int, n))
    &&& forall|n: int|
        q < n < nodes.len() && is_offering(cat, (#[trigger] nodes[n]).label@) ==> !weak_distance(
            cat,
            chrom,
            nodes,
            p,
            e.2->Weak_0 as int,
            n,
        ).at_most(weak_distance(cat, chrom, nodes, p, e.2->Weak_0 as int, q))
}

/// Some edge leaves `p` with binding `b`.
pub open spec fn has_edge(edges: Seq<Edge>, p: int, b: Binding) -> bool {
    exists|e: int| 0 <= e < edges.len() && (#[trigger] edges[e]).0 == p && edges[e].2 == b
}

/// No two edges leave one node with the same binding.
pub open spec fn bindings_unique(edges: Seq<Edge>) -> bool {
    forall|e1: int, e2: int|
        0 <= e1 < e2 < edges.len() ==> !((#[trigger] edges[e1]).0 == (#[trigger] edges[e2]).0
            && edges[e1].2 == edges[e2].2)
}

/// No two nodes express the same regular component.
pub open spec fn regulars_unique(nodes: Seq<Expressed>) -> bool {
    forall|a: int, b: int|
        0 <= a < nodes.len() && 0 <= b < nodes.len() && a != b && (#[trigger] nodes[a]).index is Regular
            ==> nodes[a].index != (#[trigger] nodes[b]).index
}

/// The first `s` edges are ordered by source node, and from one source by
/// site ordinal: parents are resolved breadth first, their sites in order.
pub open spec fn strong_in_order(edges: Seq<Edge>, s: int) -> bool {
    forall|e1: int, e2: int|
        0 <= e1 < e2 < s ==> (#[trigger] edges[e1]).0 < (#[trigger] edges[e2]).0 || (edges[e1].0
            == edges[e2].0 && edges[e1].2->Strong_0 < edges[e2].2->Strong_0)
}

/// The edges from `s` on are ordered by source node, and from one source by
/// site ordinal.
pub open spec fn weak_in_order(edges: Seq<Edge>, s: int) -> bool {
    forall|e1: int, e2: int|
        s <= e1 < e2 < edges.len() ==> (#[trigger] edges[e1]).0 < (#[trigger] edges[e2]).0 || (edges[e1].0
            == edges[e2].0 && edges[e1].2->Weak_0 < edges[e2].2->Weak_0)
}

/// What the phenotype of `chrom` under `cat` is made of: nodes `nodes`,
/// with the strong edges first (edge `e` creating node `e + 1`, so they form
/// a tree rooted at the output node) and the weak edges after them.
pub open spec fn phenotype_ok(
    cat: &Blueprints,
    chrom: &EgpChromosome,
    nodes: Seq<Expressed>,
    edges: Seq<Edge>,
) -> bool {
    let s = nodes.len() - 1;
    &&& nodes.len() >= 1
    &&& nodes[0].index == ComponentIndex::Output
    &&& forall|n: int| 0 < n < nodes.len() ==> !((#[trigger] nodes[n]).index is Output)
    &&& forall|n: int| 0 <= n < nodes.len() ==> node_ok(cat, chrom, #[trigger] nodes[n])
    &&& regulars_unique(nodes)
    &&& s <= edges.len()
    &&& forall|e: int|
        0 <= e < s ==> (#[trigger] edges[e]).1 == e + 1 && strong_edge_ok(cat, chrom, nodes, edges[e])
    &&& forall|e: int| s <= e < edges.len() ==> weak_edge_ok(cat, chrom, nodes, #[trigger] edges[e])
    &&& strong_in_order(edges, s)
    &&& weak_in_order(edges, s)
    &&& bindings_unique(edges)
    &&& forall|n: int, k: int|
        0 <= n < nodes.len() && 0 <= k < component_at(
            cat,
            chrom,
            nodes[n].index,
        ).binding_sites.len() ==> #[trigger] has_edge(edges, n, Binding::Strong(k as usize))
    &&& forall|n: int, k: int|
        0 <= n < nodes.len() && 0 <= k < component_at(
            cat,
            chrom,
            nodes[n].index,
        ).weak_binding_sites.len() && is_looking(cat, nodes[n].label@) && (exists|o: int|
            0 <= o < nodes.len() && is_offering(cat, (#[trigger] nodes[o]).label@)) ==> #[trigger] has_edge(
            edges,
            n,
            Binding::Weak(k as usize),
        )
}

/// The number of `true` entries of `s`.
pub open spec fn true_count(s: Seq<bool>) -> int
    decreases s.len(),
{
    if s.len() == 0 {
        0
    } else {
        true_count(s.drop_last()) + if s.last() {
            1int
        } else {
            0int
        }
    }
}

/// The number of `true` entries over all groups of `s`.
pub open spec fn nested_true(s: Seq<Vec<bool>>) -> int
    decreases s.len(),
{
    if s.len() == 0 {
        0
    } else {
        nested_true(s.drop_last()) + true_count(s.last()@)
    }
}

proof fn lemma_true_count_bound(s: Seq<bool>)
    ensures
        0 <= true_count(s) <= s.len(),
    decreases s.len(),
{
    if s.len() > 0 {
        lemma_true_count_bound(s.drop_last());
    }
}

proof fn lemma_true_count_set(s: Seq<bool>, i: int)
    requires
        0 <= i < s.len(),
        !s[i],
    ensures
        true_count(s.update(i, true)) == true_count(s) + 1,
    decreases s.len(),
{
    if i < s.len() - 1 {
        assert(s.update(i, true).drop_last() =~= s.drop_last().update(i, true));
        lemma_true_count_set(s.drop_last(), i);
    } else {
        assert(s.update(i, true).drop_last() =~= s.drop_last());
    }
}

proof fn lemma_true_count_none(s: Seq<bool>)
    requires
        forall|i: int| 0 <= i < s.len() ==> !(#[trigger] s[i]),
    ensures
        true_count(s) == 0,
    decreases s.len(),
{
    if s.len() > 0 {
        lemma_true_count_none(s.drop_last());
    }
}

proof fn lemma_nested_bound(s: Seq<Vec<bool>>)
    ensures
        0 <= nested_true(s) <= total_len(s),
    decreases s.len(),
{
    if s.len() > 0 {
        lemma_nested_bound(s.drop_last());
        lemma_true_count_bound(s.last()@);
    }
}

proof fn lemma_nested_set(s: Seq<Vec<bool>>, g: int, i: int, w: Vec<bool>)
    requires
        0 <= g < s.len(),
        0 <= i < s[g].len(),
        !s[g][i],
        w@ == s[g]@.update(i, true),
    ensures
        nested_true(s.update(g, w)) == nested_true(s) + 1,
    decreases s.len(),
{
    if g < s.len() - 1 {
        assert(s.update(g, w).drop_last() =~= s.drop_last().update(g, w));
        lemma_nested_set(s.drop_last(), g, i, w);
    } else {
        assert(s.update(g, w).drop_last() =~= s.drop_last());
        lemma_true_count_set(s[g]@, i);
    }
}

pub open spec fn marked(cat: &Blueprints, n: Expressed, offer: bool) -> bool {
    if offer {
        is_offering(cat, n.label@)
    } else {
        is_looking(cat, n.label@)
    }
}

/// `list` holds, in increasing order, exactly the marked nodes, and `pos`
/// gives each marked node's place in it.
pub open spec fn list_ok(
    cat: &Blueprints,
    nodes: Seq<Expressed>,
    list: Seq<usize>,
    pos: Seq<int>,
    offer: bool,
) -> bool {
    &&& pos.len() == nodes.len()
    &&& forall|m: int|
        0 <= m < list.len() ==> #[trigger] list[m] < nodes.len() && marked(
            cat,
            nodes[list[m] as int],
            offer,
        )
    &&& forall|a: int, b: int| 0 <= a < b < list.len() ==> #[trigger] list[a] < #[trigger] list[b]
    &&& forall|n: int|
        0 <= n < nodes.len() && marked(cat, #[trigger] nodes[n], offer) ==> 0 <= pos[n] < list.len()
            && list[pos[n]] == n
}

/// The state of the breadth-first strong pass.
struct Development {
    nodes: Vec<Expressed>,
    edges: Vec<Edge>,
    /// Nodes that may have strong sites (output and regular), in creation order.
    queue: Vec<usize>,
    /// Which regular components have been expressed.
    consumed: Vec<Vec<bool>>,
    looking: Vec<usize>,
    offering: Vec<usize>,
    slot: Ghost<Seq<int>>,
    lpos: Ghost<Seq<int>>,
    opos: Ghost<Seq<int>>,
}

impl Development {
    /// The queue entries before `head` are fully resolved, and the first
    /// `k` strong sites of the one at `head`.
    spec fn inv(&self, cat: &Blueprints, chrom: &EgpChromosome, head: int, k: int) -> bool {
        let nodes = self.nodes@;
        let edges = self.edges@;
        let queue = self.queue@;
        let slot = self.slot@;
        &&& nodes.len() == edges.len() + 1
        &&& nodes[0].index == ComponentIndex::Output
        &&& forall|n: int| 0 < n < nodes.len() ==> !((#[trigger] nodes[n]).index is Output)
        &&& forall|n: int| 0 <= n < nodes.len() ==> node_ok(cat, chrom, #[trigger] nodes[n])
        &&& regulars_unique(nodes)
        &&& self.consumed.len() == chrom.regular.len()
        &&& forall|g: int|
            0 <= g < chrom.regular.len() ==> (#[trigger] self.consumed[g]).len()
                == chrom.regular[g].len()
        &&& forall|n: int|
            0 <= n < nodes.len() && (#[trigger] nodes[n]).index is Regular ==> self.consumed[nodes[n].index->Regular_0 as int][nodes[n].index->Regular_1 as int]
        &&& forall|g: int, i: int|
            0 <= g < chrom.regular.len() && 0 <= i < chrom.regular[g].len() && #[trigger] self.consumed[g]@[i]
                ==> expressed_before(nodes, g, i)
        &&& queue.len() == 1 + nested_true(self.consumed@)
        &&& (0 <= head < queue.len() || (head == queue.len() && k == 0))
        &&& forall|q: int|
            0 <= q < queue.len() ==> #[trigger] queue[q] < nodes.len() && !(nodes[queue[q] as int].index is Terminal)
        &&& forall|a: int, b: int| 0 <= a < b < queue.len() ==> #[trigger] queue[a] < #[trigger] queue[b]
        &&& slot.len() == nodes.len()
        &&& forall|n: int|
            0 <= n < nodes.len() && !((#[trigger] nodes[n]).index is Terminal) ==> 0 <= slot[n] < queue.len()
                && queue[slot[n]] == n
        &&& forall|e: int|
            0 <= e < edges.len() ==> (#[trigger] edges[e]).1 == e + 1 && strong_edge_ok(
                cat,
                chrom,
                nodes,
                edges[e],
            ) && !(nodes[edges[e].0 as int].index is Terminal) && (slot[edges[e].0 as int] < head || (
            slot[edges[e].0 as int] == head && edges[e].2->Strong_0 < k))
        &&& bindings_unique(edges)
        &&& strong_in_order(edges, edges.len() as int)
        &&& forall|q: int, j: int|
            0 <= q < head && 0 <= j < component_at(
                cat,
                chrom,
                nodes[queue[q] as int].index,
            ).binding_sites.len() ==> #[trigger] has_edge(edges, queue[q] as int, Binding::Strong(j as usize))
        &&& head < queue.len() ==> 0 <= k <= component_at(
            cat,
            chrom,
            nodes[queue[head] as int].index,
        ).binding_sites.len()
        &&& head < queue.len() ==> forall|j: int|
            0 <= j < k ==> #[trigger] has_edge(edges, queue[head] as int, Binding::Strong(j as usize))
        &&& list_ok(cat, nodes, self.looking@, self.lpos@, false)
        &&& list_ok(cat, nodes, self.offering@, self.opos@, true)
    }
}

/// The component that `index` refers to.
fn get_component<'a>(
    blueprints: &'a Blueprints,
    chromosome: &'a EgpChromosome,
    index: ComponentIndex,
) -> (r: &'a Component)
    requires
        origin_ok(blueprints, chromosome, index),
    ensures
        *r == component_at(blueprints, chromosome, index),
{
    match index {
        ComponentIndex::Output => &chromosome.output,
        ComponentIndex::Regular(group, index) => &chromosome.regular[group][index],
        ComponentIndex::Terminal(group, index) => &blueprints.terminal[group][index],
    }
}

fn looks_for_partner(blueprints: &Blueprints, label: &String) -> (r: bool)
    ensures
        r == is_looking(blueprints, label@),
{
    let mut i: usize = 0;
    while i < blueprints.weak_map.len()
        invariant
            i <= blueprints.weak_map.len(),
            forall|j: int| 0 <= j < i ==> (#[trigger] blueprints.weak_map[j]).0@ != label@,
        decreases blueprints.weak_map.len() - i,
    {
        if blueprints.weak_map[i].0 == *label {
            return true;
        }
        i = i + 1;
    }
    false
}

fn offers_partner(blueprints: &Blueprints, label: &String) -> (r: bool)
    ensures
        r == is_offering(blueprints, label@),
{
    let mut i: usize = 0;
    while i < blueprints.weak_map.len()
        invariant
            i <= blueprints.weak_map.len(),
            forall|j: int| 0 <= j < i ==> (#[trigger] blueprints.weak_map[j]).1@ != label@,
        decreases blueprints.weak_map.len() - i,
    {
        if blueprints.weak_map[i].1 == *label {
            return true;
        }
        i = i + 1;
    }
    false
}

fn unconsumed(consumed: &Vec<bool>) -> (r: Vec<bool>)
    ensures
        r.len() == consumed.len(),
        forall|i: int| 0 <= i < r.len() ==> #[trigger] r[i] == !consumed[i],
{
    let mut r: Vec<bool> = Vec::new();
    let mut i: usize = 0;
    while i < consumed.len()
        invariant
            i <= consumed.len(),
            r.len() == i,
            forall|j: int| 0 <= j < i ==> #[trigger] r[j] == !consumed[j],
        decreases consumed.len() - i,
    {
        r.push(!consumed[i]);
        i = i + 1;
    }
    r
}

fn all_allowed(n: usize) -> (r: Vec<bool>)
    ensures
        r@ == all_true(n as int),
{
    let mut r: Vec<bool> = Vec::new();
    let mut i: usize = 0;
    while i < n
        invariant
            i <= n,
            r@ == all_true(i as int),
        decreases n - i,
    {
        r.push(true);
        i = i + 1;
        assert(r@ =~= all_true(i as int));
    }
    r
}

/// The component behind a node that may have strong sites fits the catalog.
proof fn lemma_component_fits(cat: &Blueprints, chrom: &EgpChromosome, index: ComponentIndex)
    requires
        cat.wf(),
        chrom.wf(cat),
        origin_ok(cat, chrom, index),
    ensures
        cat.component_fits(component_at(cat, chrom, index)),
        component_at(cat, chrom, index).profile_den() > 0,
{
    match index {
        ComponentIndex::Output => {},
        ComponentIndex::Regular(g, i) => {
            assert(cat.component_fits(chrom.regular[g as int][i as int]));
        },
        ComponentIndex::Terminal(g, i) => {
            assert(cat.component_fits(cat.terminal[g as int][i as int]));
        },
    }
}

/// `now` extends `start` by the nodes and strong edges of the first `k`
/// sites of `node`: one node and one edge `node -> new node` per site, in
/// site order; the queue and the looking and offering lists only gain new
/// nodes.
proof fn lemma_grown_step(start: &Development, before: &Development, now: &Development, node: int, k: int)
    requires
        0 <= k,
        before.nodes@.len() <= usize::MAX,
        grown_from(start, before, node, k),
        before.nodes@.len() == before.edges@.len() + 1,
        now.nodes@.len() == before.nodes@.len() + 1,
        now.nodes@.drop_last() == before.nodes@,
        now.edges@ == before.edges@.push((node as usize, before.nodes@.len() as usize, Binding::Strong(k as usize))),
        now.queue@ == before.queue@ || now.queue@ == before.queue@.push(before.nodes@.len() as usize),
        now.looking@ == before.looking@ || now.looking@ == before.looking@.push(before.nodes@.len() as usize),
        now.offering@ == before.offering@ || now.offering@ == before.offering@.push(before.nodes@.len() as usize),
    ensures
        grown_from(start, now, node, k + 1),
{
    let n0 = start.nodes@.len() as int;
    let e0 = start.edges@.len() as int;
    assert(now.nodes@.subrange(0, n0) =~= before.nodes@.subrange(0, n0));
    assert(now.edges@.subrange(0, e0) =~= before.edges@.subrange(0, e0));
    assert(now.queue@.subrange(0, start.queue@.len() as int) =~= before.queue@.subrange(0, start.queue@.len() as int));
    assert(now.looking@.subrange(0, start.looking@.len() as int) =~= before.looking@.subrange(0, start.looking@.len() as int));
    assert(now.offering@.subrange(0, start.offering@.len() as int) =~= before.offering@.subrange(0, start.offering@.len() as int));
    assert forall|e: int| e0 <= e < now.edges@.len() implies #[trigger] now.edges@[e] == (
        node as usize,
        (e + 1) as usize,
        Binding::Strong((e - e0) as usize),
    ) by {
        if e < now.edges@.len() - 1 {
            assert(now.edges@[e] == before.edges@[e]);
        }
    }
    assert forall|q: int| start.queue@.len() <= q < now.queue@.len() implies n0 <= #[trigger] now.queue@[q] by {
        if q < before.queue@.len() {
            assert(now.queue@[q] == before.queue@[q]);
        } else {
            assert(now.queue@[q] == before.nodes@.len() as usize);
        }
    }
    assert forall|q: int| start.looking@.len() <= q < now.looking@.len() implies n0 <= #[trigger] now.looking@[q] by {
        if q < before.looking@.len() {
            assert(now.looking@[q] == before.looking@[q]);
        } else {
            assert(now.looking@[q] == before.nodes@.len() as usize);
        }
    }
    assert forall|q: int| start.offering@.len() <= q < now.offering@.len() implies n0 <= #[trigger] now.offering@[q] by {
        if q < before.offering@.len() {
            assert(now.offering@[q] == before.offering@[q]);
        } else {
            assert(now.offering@[q] == before.nodes@.len() as usize);
        }
    }
}

spec fn grown_from(start: &Development, now: &Development, node: int, k: int) -> bool {
    let n0 = start.nodes@.len() as int;
    let e0 = start.edges@.len() as int;
    &&& now.nodes@.len() == n0 + k
    &&& now.edges@.len() == e0 + k
    &&& now.nodes@.subrange(0, n0) == start.nodes@
    &&& now.edges@.subrange(0, e0) == start.edges@
    &&& forall|e: int|
        e0 <= e < now.edges@.len() ==> #[trigger] now.edges@[e] == (
            node as usize,
            (e + 1) as usize,
            Binding::Strong((e - e0) as usize),
        )
    &&& now.queue@.len() >= start.queue@.len()
    &&& now.queue@.subrange(0, start.queue@.len() as int) == start.queue@
    &&& forall|q: int| start.queue@.len() <= q < now.queue@.len() ==> n0 <= #[trigger] now.queue@[q]
    &&& now.looking@.len() >= start.looking@.len()
    &&& now.looking@.subrange(0, start.looking@.len() as int) == start.looking@
    &&& forall|q: int| start.looking@.len() <= q < now.looking@.len() ==> n0 <= #[trigger] now.looking@[q]
    &&& now.offering@.len() >= start.offering@.len()
    &&& now.offering@.subrange(0, start.offering@.len() as int) == start.offering@
    &&& forall|q: int| start.offering@.len() <= q < now.offering@.len() ==> n0 <= #[trigger] now.offering@[q]
}

/// Regular component `i` of group `g` is expressed by a node from `from` on.
pub open spec fn expressed_since(nodes: Seq<Expressed>, from: int, g: int, i: int) -> bool {
    exists|n: int|
        from <= n < nodes.len() && (#[trigger] nodes[n]).index == ComponentIndex::Regular(
            g as usize,
            i as usize,
        )
}

/// What resolving the node at `head` did: `grown_from` over all its strong
/// sites; a regular component is consumed after exactly when it was before
/// or one of the new nodes expresses it, and no new node expresses one that
/// was consumed before.
spec fn satisfied(cat: &Blueprints, chrom: &EgpChromosome, start: &Development, now: &Development, head: int) -> bool {
    let node = start.queue@[head] as int;
    let n0 = start.nodes@.len() as int;
    &&& grown_from(
        start,
        now,
        node,
        component_at(cat, chrom, start.nodes@[node].index).binding_sites.len() as int,
    )
    &&& forall|g: int, i: int|
        0 <= g < chrom.regular.len() && 0 <= i < chrom.regular[g].len() ==> (#[trigger] now.consumed@[g]@[i]
            <==> start.consumed@[g]@[i] || expressed_since(now.nodes@, n0, g, i))
    &&& forall|n: int|
        n0 <= n < now.nodes@.len() && (#[trigger] now.nodes@[n]).index is Regular ==> !start.consumed@[now.nodes@[n].index->Regular_0 as int]@[now.nodes@[n].index->Regular_1 as int]
}

/// Resolves the strong sites of the node at `head` of the queue, in order:
/// each becomes a new node, the regular component of the site's group that
/// is nearest and not yet expressed when it is at least as near as the
/// nearest terminal of the group, else that terminal.
#[verifier::spinoff_prover]
#[verifier::rlimit(100)]
fn satisfy(blueprints: &Blueprints, chromosome: &EgpChromosome, dev: &mut Development, head: usize)
    requires
        blueprints.wf(),
        chromosome.wf(blueprints),
        old(dev).inv(blueprints, chromosome, head as int, 0),
        head < old(dev).queue.len(),
    ensures
        final(dev).inv(blueprints, chromosome, head + 1, 0),
        satisfied(blueprints, chromosome, old(dev), final(dev), head as int),
{
    let ghost start = *dev;
    let d = blueprints.total_activities;
    let node = dev.queue[head];
    proof {
        let n = node as int;
        assert(!(dev.nodes@[n].index is Terminal));
        let sl = dev.slot@[n];
        assert(dev.queue@[sl] == node);
        if sl < head {
            assert(dev.queue@[sl] < dev.queue@[head as int]);
        } else if sl > head {
            assert(dev.queue@[head as int] < dev.queue@[sl]);
        }
        assert(node_ok(blueprints, chromosome, dev.nodes@[n]));
        lemma_component_fits(blueprints, chromosome, dev.nodes@[n].index);
    }
    let component = get_component(blueprints, chromosome, dev.nodes[node].index);
    proof {
        assert(dev.nodes@.subrange(0, dev.nodes@.len() as int) =~= dev.nodes@);
        assert(dev.edges@.subrange(0, dev.edges@.len() as int) =~= dev.edges@);
        assert(dev.queue@.subrange(0, dev.queue@.len() as int) =~= dev.queue@);
        assert(dev.looking@.subrange(0, dev.looking@.len() as int) =~= dev.looking@);
        assert(dev.offering@.subrange(0, dev.offering@.len() as int) =~= dev.offering@);
    }
    let mut k: usize = 0;
    while k < component.binding_sites.len()
        invariant
            blueprints.wf(),
            chromosome.wf(blueprints),
            dev.inv(blueprints, chromosome, head as int, k as int),
            head < dev.queue.len(),
            dev.queue[head as int] == node,
            node < dev.nodes.len(),
            *component == component_at(blueprints, chromosome, dev.nodes[node as int].index),
            blueprints.component_fits(*component),
            dev.slot@[node as int] == head,
            d == blueprints.total_activities,
            grown_from(&start, dev, node as int, k as int),
            start.nodes@.len() == start.edges@.len() + 1,
            node == start.queue@[head as int],
            *component == component_at(blueprints, chromosome, start.nodes@[node as int].index),
        decreases component.binding_sites.len() - k,
    {
        let t = component.binding_sites_groups[k];
        let v = &component.binding_sites[k];
        proof {
            assert(crate::blueprints::targets_ok(component.binding_sites_groups@, blueprints.terminal@));
            assert(component.binding_sites_groups@[k as int] == t);
            assert(binding_fits(v@, d as int)) by {
                assert(crate::component::sites_fit(component.binding_sites@, d as int));
                assert(component.binding_sites@[k as int] == *v);
            }
            assert forall|j: int| 0 <= j < chromosome.regular[t as int].len() implies (#[trigger] chromosome.regular[t as int][j]).wf(d as int) by {
                assert(blueprints.component_fits(chromosome.regular[t as int][j]));
            }
            assert forall|j: int| 0 <= j < blueprints.terminal[t as int].len() implies (#[trigger] blueprints.terminal[t as int][j]).wf(d as int) by {
                assert(blueprints.component_fits(blueprints.terminal[t as int][j]));
            }
        }
        let allowed = unconsumed(&dev.consumed[t]);
        let regular_find = find_min_satisfying_distance(d, v, &chromosome.regular[t], &allowed);
        let all = all_allowed(blueprints.terminal[t].len());
        let terminal_find = find_min_satisfying_distance(d, v, &blueprints.terminal[t], &all);
        proof {
            assert(all@[0]);
        }
        let (tj, tdist) = terminal_find.unwrap();
        let child_index = match regular_find {
            Some((i, dist)) => {
                if dist.le(&tdist) {
                    ComponentIndex::Regular(t, i)
                } else {
                    ComponentIndex::Terminal(t, tj)
                }
            },
            None => ComponentIndex::Terminal(t, tj),
        };
        proof {
            let ds = distances(v@, blueprints.terminal[t as int]@, d as int);
            let rs = distances(v@, chromosome.regular[t as int]@, d as int);
            let earlier = dev.nodes@;
            assert(is_last_nearest(ds, all_true(blueprints.terminal[t as int].len() as int), tj as int));
            assert forall|i: int| 0 <= i < chromosome.regular[t as int].len() implies allowed@[i] == !expressed_before(earlier, t as int, i) by {
                if expressed_before(earlier, t as int, i) {
                    let n = choose|n: int|
                        0 <= n < earlier.len() && (#[trigger] earlier[n]).index == ComponentIndex::Regular(t, i as usize);
                    assert(dev.consumed@[t as int]@[i]);
                }
            }
            assert(allowed@ =~= unexpressed(chromosome, earlier, t as int));
            lemma_component_fits(blueprints, chromosome, ComponentIndex::Terminal(t, tj));
            if let ComponentIndex::Regular(g, i) = child_index {
                let dist = regular_find->Some_0.1;
                assert forall|j: int| 0 <= j < blueprints.terminal[t as int].len() implies site_distance(
                    v@,
                    chromosome.regular[g as int][i as int],
                    d as int,
                ).at_most(#[trigger] site_distance(v@, blueprints.terminal[t as int][j], d as int)) by {
                    assert(all_true(blueprints.terminal[t as int].len() as int)[j]);
                    assert(ds[tj as int].at_most(ds[j]));
                    lemma_at_most_trans(dist, tdist, ds[j]);
                }
                assert(allowed@[i as int]);
            } else {
                assert forall|i: int|
                    0 <= i < chromosome.regular[t as int].len() && !expressed_before(earlier, t as int, i)
                        implies !(#[trigger] site_distance(v@, chromosome.regular[t as int][i], d as int)).at_most(
                        site_distance(v@, blueprints.terminal[t as int][tj as int], d as int),
                    ) by {
                    assert(allowed@[i]);
                    if regular_find is Some {
                        let (bi, dist) = regular_find->Some_0;
                        assert(rs[bi as int].at_most(rs[i]));
                        lemma_component_fits(blueprints, chromosome, ComponentIndex::Regular(t, i as usize));
                        if rs[i].at_most(tdist) {
                            lemma_at_most_trans(dist, rs[i], tdist);
                        }
                    } else {
                        assert(some_allowed(allowed@));
                    }
                }
            }
            assert(chosen_by_site(blueprints, chromosome, *component, k as int, child_index, earlier));
        }
        let child_component = get_component(blueprints, chromosome, child_index);
        let child = dev.nodes.len();
        let looks = looks_for_partner(blueprints, &child_component.label);
        let offers = offers_partner(blueprints, &child_component.label);
        let ghost old_dev = *dev;
        dev.nodes.push(Expressed::from_component(child_component, child_index));
        dev.edges.push((node, child, Binding::Strong(k)));
        if looks {
            dev.lpos = Ghost(dev.lpos@.push(dev.looking.len() as int));
            dev.looking.push(child);
        } else {
            dev.lpos = Ghost(dev.lpos@.push(-1));
        }
        if offers {
            dev.opos = Ghost(dev.opos@.push(dev.offering.len() as int));
            dev.offering.push(child);
        } else {
            dev.opos = Ghost(dev.opos@.push(-1));
        }
        match child_index {
            ComponentIndex::Regular(g, i) => {
                let ghost before = dev.consumed@;
                dev.consumed[g].set(i, true);
                proof {
                    lemma_nested_set(before, g as int, i as int, dev.consumed@[g as int]);
                    assert(dev.consumed@ == before.update(g as int, dev.consumed@[g as int]));
                }
                dev.slot = Ghost(dev.slot@.push(dev.queue.len() as int));
                dev.queue.push(child);
            },
            _ => {
                dev.slot = Ghost(dev.slot@.push(-1));
            },
        }
        proof {
            let nodes = dev.nodes@;
            let edges = dev.edges@;
            assert(nodes.drop_last() == old_dev.nodes@);
            assert forall|n: int| 0 <= n < nodes.len() implies node_ok(blueprints, chromosome, #[trigger] nodes[n]) by {
                if n < nodes.len() - 1 {
                    assert(nodes[n] == old_dev.nodes@[n]);
                }
            }
            assert(regulars_unique(nodes)) by {
                assert forall|a: int, b: int|
                    0 <= a < nodes.len() && 0 <= b < nodes.len() && a != b && (#[trigger] nodes[a]).index is Regular
                        implies nodes[a].index != (#[trigger] nodes[b]).index by {
                    if a < child && b < child {
                        assert(nodes[a] == old_dev.nodes@[a]);
                        assert(nodes[b] == old_dev.nodes@[b]);
                    } else if a == child {
                        assert(nodes[b] == old_dev.nodes@[b]);
                        if old_dev.nodes@[b].index is Regular {
                            assert(old_dev.consumed@[old_dev.nodes@[b].index->Regular_0 as int]@[old_dev.nodes@[b].index->Regular_1 as int]);
                        }
                    } else {
                        assert(nodes[a] == old_dev.nodes@[a]);
                        assert(old_dev.consumed@[old_dev.nodes@[a].index->Regular_0 as int]@[old_dev.nodes@[a].index->Regular_1 as int]);
                    }
                }
            }
            assert forall|e: int| 0 <= e < edges.len() implies (#[trigger] edges[e]).1 == e + 1 && strong_edge_ok(
                blueprints,
                chromosome,
                nodes,
                edges[e],
            ) && !(nodes[edges[e].0 as int].index is Terminal) && (dev.slot@[edges[e].0 as int] < head || (
            dev.slot@[edges[e].0 as int] == head && edges[e].2->Strong_0 < k + 1)) by {
                if e < edges.len() - 1 {
                    assert(edges[e] == old_dev.edges@[e]);
                    assert(nodes[edges[e].0 as int] == old_dev.nodes@[edges[e].0 as int]);
                    assert(nodes[edges[e].1 as int] == old_dev.nodes@[edges[e].1 as int]);
                    assert(nodes.subrange(0, edges[e].1 as int) =~= old_dev.nodes@.subrange(0, edges[e].1 as int));
                } else {
                    assert(nodes.subrange(0, child as int) =~= old_dev.nodes@);
                }
            }
            assert(bindings_unique(edges)) by {
                assert forall|e1: int, e2: int|
                    0 <= e1 < e2 < edges.len() implies !((#[trigger] edges[e1]).0 == (#[trigger] edges[e2]).0
                        && edges[e1].2 == edges[e2].2) by {
                    assert(edges[e1] == old_dev.edges@[e1]);
                    if e2 < edges.len() - 1 {
                        assert(edges[e2] == old_dev.edges@[e2]);
                    }
                }
            }
            assert(strong_in_order(edges, edges.len() as int)) by {
                assert forall|e1: int, e2: int|
                    0 <= e1 < e2 < edges.len() implies (#[trigger] edges[e1]).0 < (#[trigger] edges[e2]).0 || (edges[e1].0
                        == edges[e2].0 && edges[e1].2->Strong_0 < edges[e2].2->Strong_0) by {
                    assert(edges[e1] == old_dev.edges@[e1]);
                    if e2 < edges.len() - 1 {
                        assert(edges[e2] == old_dev.edges@[e2]);
                    } else {
                        let src = edges[e1].0 as int;
                        let sl = dev.slot@[src];
                        if sl < head {
                            assert(dev.queue@[sl] == src);
                            assert(dev.queue@[sl] < dev.queue@[head as int]);
                        }
                    }
                }
            }
            assert forall|q: int, j: int|
                0 <= q < head && 0 <= j < component_at(
                    blueprints,
                    chromosome,
                    nodes[dev.queue@[q] as int].index,
                ).binding_sites.len() implies #[trigger] has_edge(edges, dev.queue@[q] as int, Binding::Strong(j as usize)) by {
                assert(dev.queue@[q] == old_dev.queue@[q]);
                assert(nodes[dev.queue@[q] as int] == old_dev.nodes@[dev.queue@[q] as int]);
                assert(has_edge(old_dev.edges@, old_dev.queue@[q] as int, Binding::Strong(j as usize)));
                let w = choose|w: int| 0 <= w < old_dev.edges@.len() && (#[trigger] old_dev.edges@[w]).0 == old_dev.queue@[q] as int && old_dev.edges@[w].2 == Binding::Strong(j as usize);
                assert(edges[w] == old_dev.edges@[w]);
            }
            assert forall|j: int| 0 <= j < k + 1 implies #[trigger] has_edge(edges, dev.queue@[head as int] as int, Binding::Strong(j as usize)) by {
                if j < k {
                    assert(has_edge(old_dev.edges@, old_dev.queue@[head as int] as int, Binding::Strong(j as usize)));
                    let w = choose|w: int| 0 <= w < old_dev.edges@.len() && (#[trigger] old_dev.edges@[w]).0 == old_dev.queue@[head as int] as int && old_dev.edges@[w].2 == Binding::Strong(j as usize);
                    assert(edges[w] == old_dev.edges@[w]);
                } else {
                    assert(edges[edges.len() - 1].0 == node);
                }
            }
            assert(list_ok(blueprints, nodes, dev.looking@, dev.lpos@, false)) by {
                assert forall|m: int| 0 <= m < dev.looking@.len() implies #[trigger] dev.looking@[m] < nodes.len() && marked(
                    blueprints,
                    nodes[dev.looking@[m] as int],
                    false,
                ) by {
                    if m < old_dev.looking@.len() {
                        assert(dev.looking@[m] == old_dev.looking@[m]);
                        assert(nodes[dev.looking@[m] as int] == old_dev.nodes@[dev.looking@[m] as int]);
                    }
                }
                assert forall|n: int| 0 <= n < nodes.len() && marked(blueprints, #[trigger] nodes[n], false) implies 0 <= dev.lpos@[n] < dev.looking@.len()
                    && dev.looking@[dev.lpos@[n]] == n by {
                    if n < child {
                        assert(nodes[n] == old_dev.nodes@[n]);
                    }
                }
            }
            assert(list_ok(blueprints, nodes, dev.offering@, dev.opos@, true)) by {
                assert forall|m: int| 0 <= m < dev.offering@.len() implies #[trigger] dev.offering@[m] < nodes.len() && marked(
                    blueprints,
                    nodes[dev.offering@[m] as int],
                    true,
                ) by {
                    if m < old_dev.offering@.len() {
                        assert(dev.offering@[m] == old_dev.offering@[m]);
                        assert(nodes[dev.offering@[m] as int] == old_dev.nodes@[dev.offering@[m] as int]);
                    }
                }
                assert forall|n: int| 0 <= n < nodes.len() && marked(blueprints, #[trigger] nodes[n], true) implies 0 <= dev.opos@[n] < dev.offering@.len()
                    && dev.offering@[dev.opos@[n]] == n by {
                    if n < child {
                        assert(nodes[n] == old_dev.nodes@[n]);
                    }
                }
            }
            assert forall|g: int, i: int|
                0 <= g < chromosome.regular.len() && 0 <= i < chromosome.regular[g].len() && #[trigger] dev.consumed[g]@[i]
                    implies expressed_before(nodes, g, i) by {
                if child_index == ComponentIndex::Regular(g as usize, i as usize) {
                    assert(nodes[child as int].index == ComponentIndex::Regular(g as usize, i as usize));
                } else {
                    assert(old_dev.consumed@[g]@[i]);
                    assert(expressed_before(old_dev.nodes@, g, i));
                    let n = choose|n: int|
                        0 <= n < old_dev.nodes@.len() && (#[trigger] old_dev.nodes@[n]).index == ComponentIndex::Regular(g as usize, i as usize);
                    assert(nodes[n] == old_dev.nodes@[n]);
                }
            }
            assert forall|n: int| 0 <= n < nodes.len() && (#[trigger] nodes[n]).index is Regular implies dev.consumed@[nodes[n].index->Regular_0 as int]@[nodes[n].index->Regular_1 as int] by {
                if n < child {
                    assert(nodes[n] == old_dev.nodes@[n]);
                }
            }
            assert forall|n: int| 0 <= n < nodes.len() && !((#[trigger] nodes[n]).index is Terminal) implies 0 <= dev.slot@[n] < dev.queue@.len()
                && dev.queue@[dev.slot@[n]] == n by {
                if n < child {
                    assert(nodes[n] == old_dev.nodes@[n]);
                }
            }
            assert forall|q: int| 0 <= q < dev.queue@.len() implies #[trigger] dev.queue@[q] < nodes.len() && !(nodes[dev.queue@[q] as int].index is Terminal) by {
                if q < old_dev.queue@.len() {
                    assert(dev.queue@[q] == old_dev.queue@[q]);
                    assert(nodes[dev.queue@[q] as int] == old_dev.nodes@[dev.queue@[q] as int]);
                }
            }
            assert forall|g: int| 0 <= g < chromosome.regular.len() implies (#[trigger] dev.consumed@[g]).len() == chromosome.regular[g].len() by {
                assert(old_dev.consumed@[g].len() == chromosome.regular[g].len());
            }
            lemma_grown_step(&start, &old_dev, dev, node as int, k as int);
        }
        k = k + 1;
    }
    proof {
        let n0 = start.nodes@.len() as int;
        let nodes = dev.nodes@;
        assert forall|n: int| 0 <= n < n0 implies nodes[n] == start.nodes@[n] by {
            assert(nodes.subrange(0, n0)[n] == nodes[n]);
        }
        assert forall|g: int, i: int|
            0 <= g < chromosome.regular.len() && 0 <= i < chromosome.regular[g].len() implies (#[trigger] dev.consumed@[g]@[i]
                <==> start.consumed@[g]@[i] || expressed_since(nodes, n0, g, i)) by {
            if dev.consumed@[g]@[i] {
                assert(expressed_before(nodes, g, i));
                let n = choose|n: int| 0 <= n < nodes.len() && (#[trigger] nodes[n]).index == ComponentIndex::Regular(g as usize, i as usize);
                if n < n0 {
                    assert(start.nodes@[n].index == ComponentIndex::Regular(g as usize, i as usize));
                } else {
                    assert(expressed_since(nodes, n0, g, i));
                }
            }
            if start.consumed@[g]@[i] {
                assert(expressed_before(start.nodes@, g, i));
                let n = choose|n: int| 0 <= n < start.nodes@.len() && (#[trigger] start.nodes@[n]).index == ComponentIndex::Regular(g as usize, i as usize);
                assert(nodes[n].index is Regular);
            }
            if expressed_since(nodes, n0, g, i) {
                let n = choose|n: int| n0 <= n < nodes.len() && (#[trigger] nodes[n]).index == ComponentIndex::Regular(g as usize, i as usize);
                assert(nodes[n].index is Regular);
            }
        }
        assert forall|n: int|
            n0 <= n < nodes.len() && (#[trigger] nodes[n]).index is Regular implies !start.consumed@[nodes[n].index->Regular_0 as int]@[nodes[n].index->Regular_1 as int] by {
            let g = nodes[n].index->Regular_0 as int;
            let i = nodes[n].index->Regular_1 as int;
            assert(node_ok(blueprints, chromosome, nodes[n]));
            if start.consumed@[g]@[i] {
                assert(expressed_before(start.nodes@, g, i));
                let m = choose|m: int| 0 <= m < start.nodes@.len() && (#[trigger] start.nodes@[m]).index == ComponentIndex::Regular(g as usize, i as usize);
                assert(nodes[m] == start.nodes@[m]);
                assert(regulars_unique(nodes));
                assert(nodes[n].index != nodes[m].index);
            }
        }
    }
}

/// Resolves the weak sites of the looking node `node`, in order: each binds
/// to the last of the offering nodes nearest to it. With no offering node
/// the sites stay unresolved. Offering nodes are not yet paired with looking
/// nodes by label: every offering node is a candidate for every weak site.
fn satisfy_weak(
    blueprints: &Blueprints,
    chromosome: &EgpChromosome,
    nodes: &Vec<Expressed>,
    edges: &mut Vec<Edge>,
    node: usize,
    offering: &Vec<usize>,
    opos: Ghost<Seq<int>>,
)
    requires
        blueprints.wf(),
        chromosome.wf(blueprints),
        forall|n: int| 0 <= n < nodes.len() ==> node_ok(blueprints, chromosome, #[trigger] nodes[n]),
        node < nodes.len(),
        is_looking(blueprints, nodes[node as int].label@),
        list_ok(blueprints, nodes@, offering@, opos@, true),
    ensures
        final(edges).len() == old(edges).len() + if offering.len() > 0 {
            component_at(blueprints, chromosome, nodes[node as int].index).weak_binding_sites.len() as int
        } else {
            0
        },
        forall|e: int| 0 <= e < old(edges).len() ==> #[trigger] final(edges)[e] == old(edges)[e],
        forall|e: int|
            old(edges).len() <= e < final(edges).len() ==> (#[trigger] final(edges)[e]).0 == node
                && final(edges)[e].2 == Binding::Weak((e - old(edges).len()) as usize) && weak_edge_ok(
                blueprints,
                chromosome,
                nodes@,
                final(edges)[e],
            ),
{
    let d = blueprints.total_activities;
    proof {
        assert(node_ok(blueprints, chromosome, nodes@[node as int]));
        lemma_component_fits(blueprints, chromosome, nodes@[node as int].index);
    }
    let component = get_component(blueprints, chromosome, nodes[node].index);
    if offering.len() == 0 {
        return;
    }
    let ghost start = edges@;
    let mut k: usize = 0;
    while k < component.weak_binding_sites.len()
        invariant
            blueprints.wf(),
            chromosome.wf(blueprints),
            forall|n: int| 0 <= n < nodes.len() ==> node_ok(blueprints, chromosome, #[trigger] nodes[n]),
            node < nodes.len(),
            is_looking(blueprints, nodes[node as int].label@),
            list_ok(blueprints, nodes@, offering@, opos@, true),
            offering.len() > 0,
            *component == component_at(blueprints, chromosome, nodes[node as int].index),
            blueprints.component_fits(*component),
            d == blueprints.total_activities,
            k <= component.weak_binding_sites.len(),
            edges.len() == start.len() + k,
            forall|e: int| 0 <= e < start.len() ==> #[trigger] edges@[e] == start[e],
            forall|e: int|
                start.len() <= e < edges.len() ==> (#[trigger] edges@[e]).0 == node && edges@[e].2
                    == Binding::Weak((e - start.len()) as usize) && weak_edge_ok(
                    blueprints,
                    chromosome,
                    nodes@,
                    edges@[e],
                ),
        decreases component.weak_binding_sites.len() - k,
    {
        let v = &component.weak_binding_sites[k];
        proof {
            assert(binding_fits(v@, d as int)) by {
                assert(crate::component::sites_fit(component.weak_binding_sites@, d as int));
                assert(component.weak_binding_sites@[k as int] == *v);
            }
        }
        let mut ds: Vec<Distance> = Vec::new();
        let mut m: usize = 0;
        while m < offering.len()
            invariant
                blueprints.wf(),
                chromosome.wf(blueprints),
                forall|n: int| 0 <= n < nodes.len() ==> node_ok(blueprints, chromosome, #[trigger] nodes[n]),
                list_ok(blueprints, nodes@, offering@, opos@, true),
                binding_fits(v@, d as int),
                d == blueprints.total_activities,
                *v == component_at(blueprints, chromosome, nodes[node as int].index).weak_binding_sites[k as int],
                m <= offering.len(),
                ds.len() == m,
                forall|j: int|
                    0 <= j < m ==> (#[trigger] ds[j]) == weak_distance(
                        blueprints,
                        chromosome,
                        nodes@,
                        node as int,
                        k as int,
                        offering[j] as int,
                    ) && ds[j].den > 0,
            decreases offering.len() - m,
        {
            let o = offering[m];
            proof {
                assert(node_ok(blueprints, chromosome, nodes@[o as int]));
                lemma_component_fits(blueprints, chromosome, nodes@[o as int].index);
            }
            let c = get_component(blueprints, chromosome, nodes[o].index);
            ds.push(site_distance_exec(v, c, d));
            m = m + 1;
        }
        let all = all_allowed(offering.len());
        proof {
            assert(all@[0]);
        }
        let best = last_nearest(&ds, &all).unwrap();
        let q = offering[best];
        let ghost before = edges@;
        edges.push((node, q, Binding::Weak(k)));
        proof {
            let e = (node, q, Binding::Weak(k));
            let nd = nodes@;
            assert(is_last_nearest(ds@, all@, best as int));
            assert forall|n: int|
                0 <= n < nd.len() && is_offering(blueprints, (#[trigger] nd[n]).label@) implies weak_distance(
                blueprints,
                chromosome,
                nd,
                node as int,
                k as int,
                q as int,
            ).at_most(weak_distance(blueprints, chromosome, nd, node as int, k as int, n)) by {
                assert(marked(blueprints, nd[n], true));
                let j = opos@[n];
                assert(all@[j]);
                assert(ds@[best as int].at_most(ds@[j]));
            }
            assert forall|n: int|
                q < n < nd.len() && is_offering(blueprints, (#[trigger] nd[n]).label@) implies !weak_distance(
                blueprints,
                chromosome,
                nd,
                node as int,
                k as int,
                n,
            ).at_most(weak_distance(blueprints, chromosome, nd, node as int, k as int, q as int)) by {
                assert(marked(blueprints, nd[n], true));
                let j = opos@[n];
                assert(all@[j]);
                if j <= best {
                    if j < best {
                        assert(offering@[j] < offering@[best as int]);
                    }
                }
                assert(j > best);
                assert(!ds@[j].at_most(ds@[best as int]));
            }
            assert(marked(blueprints, nd[q as int], true));
            assert(weak_edge_ok(blueprints, chromosome, nd, e));
            assert forall|i: int|
                start.len() <= i < edges.len() implies (#[trigger] edges@[i]).0 == node && edges@[i].2
                    == Binding::Weak((i - start.len()) as usize) && weak_edge_ok(
                    blueprints,
                    chromosome,
                    nodes@,
                    edges@[i],
                ) by {
                if i < edges.len() - 1 {
                    assert(edges@[i] == before[i]);
                }
            }
        }
        k = k + 1;
    }
}

/// Develops `chromosome` under `blueprints`: the strong pass, breadth
/// first from the output node, then the weak pass over the looking nodes in
/// creation order.
fn develop(blueprints: &Blueprints, chromosome: &EgpChromosome) -> (r: (Vec<Expressed>, Vec<Edge>))
    requires
        blueprints.wf(),
        chromosome.wf(blueprints),
    ensures
        phenotype_ok(blueprints, chromosome, r.0@, r.1@),
{
    let mut consumed: Vec<Vec<bool>> = Vec::new();
    let mut g: usize = 0;
    while g < chromosome.regular.len()
        invariant
            g <= chromosome.regular.len(),
            consumed.len() == g,
            forall|h: int| 0 <= h < g ==> (#[trigger] consumed[h]).len() == chromosome.regular[h].len(),
            forall|h: int, i: int| 0 <= h < g && 0 <= i < consumed[h].len() ==> !(#[trigger] consumed[h]@[i]),
            nested_true(consumed@) == 0,
        decreases chromosome.regular.len() - g,
    {
        let mut row: Vec<bool> = Vec::new();
        let mut i: usize = 0;
        while i < chromosome.regular[g].len()
            invariant
                g < chromosome.regular.len(),
                i <= chromosome.regular[g as int].len(),
                row.len() == i,
                forall|j: int| 0 <= j < i ==> !(#[trigger] row@[j]),
            decreases chromosome.regular[g as int].len() - i,
        {
            row.push(false);
            i = i + 1;
        }
        let ghost before = consumed@;
        consumed.push(row);
        proof {
            assert(consumed@.drop_last() =~= before);
            lemma_true_count_none(row@);
        }
        g = g + 1;
    }
    let output_node = Expressed::from_component(&chromosome.output, ComponentIndex::Output);
    let looks = looks_for_partner(blueprints, &chromosome.output.label);
    let offers = offers_partner(blueprints, &chromosome.output.label);
    let mut nodes: Vec<Expressed> = Vec::new();
    nodes.push(output_node);
    let mut looking: Vec<usize> = Vec::new();
    if looks {
        looking.push(0);
    }
    let mut offering: Vec<usize> = Vec::new();
    if offers {
        offering.push(0);
    }
    let mut queue: Vec<usize> = Vec::new();
    queue.push(0);
    let ghost lp: int = if looks { 0 } else { -1 };
    let ghost op: int = if offers { 0 } else { -1 };
    let ghost sl: Seq<int> = seq![0int];
    let ghost lps: Seq<int> = seq![lp];
    let ghost ops: Seq<int> = seq![op];
    let mut dev = Development {
        nodes,
        edges: Vec::new(),
        queue,
        consumed,
        looking,
        offering,
        slot: Ghost(sl),
        lpos: Ghost(lps),
        opos: Ghost(ops),
    };
    assert(dev.inv(blueprints, chromosome, 0, 0));
    let ghost r_total = total_len(chromosome.regular@);
    let mut head: usize = 0;
    while head < dev.queue.len()
        invariant
            blueprints.wf(),
            chromosome.wf(blueprints),
            dev.inv(blueprints, chromosome, head as int, 0),
            r_total == total_len(chromosome.regular@),
        decreases r_total + 1 - head,
    {
        proof {
            lemma_nested_bound(dev.consumed@);
            lemma_same_shape_total(dev.consumed@, chromosome.regular@);
        }
        satisfy(blueprints, chromosome, &mut dev, head);
        proof {
            lemma_nested_bound(dev.consumed@);
            lemma_same_shape_total(dev.consumed@, chromosome.regular@);
        }
        head = head + 1;
    }
    let Development { nodes, edges, queue, consumed, looking, offering, slot, lpos, opos } = dev;
    let ghost strong = edges@;
    let mut edges = edges;
    proof {
        assert forall|n: int, k: int|
            0 <= n < nodes.len() && 0 <= k < component_at(
                blueprints,
                chromosome,
                nodes[n].index,
            ).binding_sites.len() implies #[trigger] has_edge(strong, n, Binding::Strong(k as usize)) by {
            assert(node_ok(blueprints, chromosome, nodes@[n]));
            if nodes@[n].index is Terminal {
                let t = nodes@[n].index;
                assert(blueprints.terminal[t->Terminal_0 as int][t->Terminal_1 as int].binding_sites.len() == 0);
            } else {
                let q = slot@[n];
                assert(queue@[q] == n);
                assert(has_edge(strong, queue@[q] as int, Binding::Strong(k as usize)));
            }
        }
    }
    let mut m: usize = 0;
    while m < looking.len()
        invariant
            blueprints.wf(),
            chromosome.wf(blueprints),
            forall|n: int| 0 <= n < nodes.len() ==> node_ok(blueprints, chromosome, #[trigger] nodes[n]),
            list_ok(blueprints, nodes@, looking@, lpos@, false),
            list_ok(blueprints, nodes@, offering@, opos@, true),
            nodes.len() == strong.len() + 1,
            m <= looking.len(),
            strong.len() <= edges.len(),
            forall|e: int| 0 <= e < strong.len() ==> #[trigger] edges@[e] == strong[e],
            forall|e: int| 0 <= e < strong.len() ==> (#[trigger] strong[e]).2 is Strong,
            bindings_unique(edges@),
            weak_in_order(edges@, strong.len() as int),
            forall|e: int|
                strong.len() <= e < edges.len() ==> weak_edge_ok(blueprints, chromosome, nodes@, #[trigger] edges@[e])
                    && lpos@[edges@[e].0 as int] < m,
            forall|i: int, k: int|
                0 <= i < m && 0 <= k < component_at(
                    blueprints,
                    chromosome,
                    nodes[looking@[i] as int].index,
                ).weak_binding_sites.len() && offering.len() > 0 ==> #[trigger] has_edge(
                    edges@,
                    looking@[i] as int,
                    Binding::Weak(k as usize),
                ),
        decreases looking.len() - m,
    {
        let ghost before = edges@;
        let node = looking[m];
        proof {
            assert(marked(blueprints, nodes@[node as int], false));
        }
        satisfy_weak(blueprints, chromosome, &nodes, &mut edges, node, &offering, Ghost(opos@));
        proof {
            assert(lpos@[node as int] == m) by {
                let p = lpos@[node as int];
                assert(looking@[p] == node);
                if p < m {
                    assert(looking@[p] < looking@[m as int]);
                } else if p > m {
                    assert(looking@[m as int] < looking@[p]);
                }
            }
            assert forall|e: int|
                strong.len() <= e < edges.len() implies weak_edge_ok(blueprints, chromosome, nodes@, #[trigger] edges@[e])
                    && lpos@[edges@[e].0 as int] < m + 1 by {
                if e < before.len() {
                    assert(edges@[e] == before[e]);
                }
            }
            assert(weak_in_order(edges@, strong.len() as int)) by {
                assert forall|e1: int, e2: int|
                    strong.len() <= e1 < e2 < edges.len() implies (#[trigger] edges@[e1]).0 < (#[trigger] edges@[e2]).0 || (edges@[e1].0
                        == edges@[e2].0 && edges@[e1].2->Weak_0 < edges@[e2].2->Weak_0) by {
                    if e2 < before.len() {
                        assert(edges@[e1] == before[e1]);
                        assert(edges@[e2] == before[e2]);
                    } else if e1 < before.len() {
                        assert(edges@[e1] == before[e1]);
                        assert(weak_edge_ok(blueprints, chromosome, nodes@, before[e1]));
                        let src = before[e1].0 as int;
                        assert(marked(blueprints, nodes@[src], false));
                        let p = lpos@[src];
                        assert(looking@[p] == src);
                        assert(looking@[p] < looking@[m as int]);
                    }
                }
            }
            assert(bindings_unique(edges@)) by {
                assert forall|e1: int, e2: int|
                    0 <= e1 < e2 < edges.len() implies !((#[trigger] edges@[e1]).0 == (#[trigger] edges@[e2]).0
                        && edges@[e1].2 == edges@[e2].2) by {
                    if e2 < before.len() {
                        assert(edges@[e1] == before[e1]);
                        assert(edges@[e2] == before[e2]);
                    } else if e1 < strong.len() {
                        assert(edges@[e1] == strong[e1]);
                    } else if e1 < before.len() {
                        assert(edges@[e1] == before[e1]);
                        assert(weak_edge_ok(blueprints, chromosome, nodes@, before[e1]));
                        assert(marked(blueprints, nodes@[before[e1].0 as int], false));
                    }
                }
            }
            assert forall|i: int, k: int|
                0 <= i < m + 1 && 0 <= k < component_at(
                    blueprints,
                    chromosome,
                    nodes[looking@[i] as int].index,
                ).weak_binding_sites.len() && offering.len() > 0 implies #[trigger] has_edge(
                    edges@,
                    looking@[i] as int,
                    Binding::Weak(k as usize),
                ) by {
                if i < m {
                    assert(has_edge(before, looking@[i] as int, Binding::Weak(k as usize)));
                    let w = choose|w: int| 0 <= w < before.len() && (#[trigger] before[w]).0 == looking@[i] as int && before[w].2 == Binding::Weak(k as usize);
                    assert(edges@[w] == before[w]);
                } else {
                    let w = before.len() + k;
                    assert(edges@[w].0 == node);
                }
            }
        }
        m = m + 1;
    }
    proof {
        let nd = nodes@;
        let ed = edges@;
        assert forall|e: int| 0 <= e < strong.len() implies (#[trigger] ed[e]).1 == e + 1 && strong_edge_ok(blueprints, chromosome, nd, ed[e]) by {
            assert(ed[e] == strong[e]);
        }
        assert forall|n: int, k: int|
            0 <= n < nd.len() && 0 <= k < component_at(
                blueprints,
                chromosome,
                nd[n].index,
            ).binding_sites.len() implies #[trigger] has_edge(ed, n, Binding::Strong(k as usize)) by {
            assert(has_edge(strong, n, Binding::Strong(k as usize)));
            let w = choose|w: int| 0 <= w < strong.len() && (#[trigger] strong[w]).0 == n && strong[w].2 == Binding::Strong(k as usize);
            assert(ed[w] == strong[w]);
        }
        assert forall|n: int, k: int|
            0 <= n < nd.len() && 0 <= k < component_at(
                blueprints,
                chromosome,
                nd[n].index,
            ).weak_binding_sites.len() && is_looking(blueprints, nd[n].label@) && (exists|o: int|
                0 <= o < nd.len() && is_offering(blueprints, (#[trigger] nd[o]).label@)) implies #[trigger] has_edge(
                ed,
                n,
                Binding::Weak(k as usize),
            ) by {
            let o = choose|o: int| 0 <= o < nd.len() && is_offering(blueprints, (#[trigger] nd[o]).label@);
            assert(marked(blueprints, nd[o], true));
            assert(marked(blueprints, nd[n], false));
            let i = lpos@[n];
            assert(looking@[i] == n);
        }
    }
    (nodes, edges)
}

#[verifier::external_type_specification]
#[verifier::external_body]
#[verifier::reject_recursive_types(N)]
#[verifier::reject_recursive_types(E)]
#[verifier::reject_recursive_types(Ty)]
#[verifier::reject_recursive_types(Ix)]
pub struct ExGraph<N, E, Ty, Ix>(petgraph::graph::Graph<N, E, Ty, Ix>);

#[verifier::external_type_specification]
#[verifier::external_body]
pub struct ExDirected(petgraph::Directed);

/// The developed structure: a directed graph of expressed nodes and
/// binding edges, indexed by `usize` so that no index limit applies.
pub type Phenotype = petgraph::graph::Graph<Expressed, Binding, petgraph::Directed, usize>;

/// The nodes of a phenotype graph, in index order.
pub uninterp spec fn phenotype_nodes(g: Phenotype) -> Seq<Expressed>;

/// The edges of a phenotype graph, in index order, as source, target and weight.
pub uninterp spec fn phenotype_edges(g: Phenotype) -> Seq<Edge>;

/// Relies on petgraph's `Graph::with_capacity`: a graph without nodes or edges.
#[verifier::external_body]
fn phenotype_empty() -> (r: Phenotype)
    ensures
        phenotype_nodes(r).len() == 0,
        phenotype_edges(r).len() == 0,
{
    petgraph::graph::Graph::with_capacity(0, 0)
}

/// Relies on petgraph's `Graph::add_node`: the node is appended and its
/// index, the former node count, returned (with `usize` indices it never
/// reaches the index limit).
#[verifier::external_body]
fn phenotype_add_node(g: &mut Phenotype, node: Expressed) -> (r: usize)
    ensures
        phenotype_nodes(*final(g)) == phenotype_nodes(*old(g)).push(node),
        phenotype_edges(*final(g)) == phenotype_edges(*old(g)),
        r == phenotype_nodes(*old(g)).len(),
{
    g.add_node(node).index()
}

/// Relies on petgraph's `Graph::add_edge`: the edge is appended (it panics
/// only on an endpoint that is not a node, which `requires` rules out).
#[verifier::external_body]
fn phenotype_add_edge(g: &mut Phenotype, a: usize, b: usize, weight: Binding)
    requires
        a < phenotype_nodes(*old(g)).len(),
        b < phenotype_nodes(*old(g)).len(),
    ensures
        phenotype_edges(*final(g)) == phenotype_edges(*old(g)).push((a, b, weight)),
        phenotype_nodes(*final(g)) == phenotype_nodes(*old(g)),
{
    g.add_edge(petgraph::graph::NodeIndex::new(a), petgraph::graph::NodeIndex::new(b), weight);
}

/// The graph with exactly `nodes` and `edges`, in order.
fn to_phenotype(nodes: &Vec<Expressed>, edges: &Vec<Edge>) -> (r: Phenotype)
    requires
        forall|e: int| 0 <= e < edges.len() ==> (#[trigger] edges[e]).0 < nodes.len() && edges[e].1 < nodes.len(),
    ensures
        phenotype_nodes(r) == nodes@,
        phenotype_edges(r) == edges@,
{
    let mut g = phenotype_empty();
    let mut i: usize = 0;
    while i < nodes.len()
        invariant
            i <= nodes.len(),
            phenotype_nodes(g) == nodes@.subrange(0, i as int),
            phenotype_edges(g).len() == 0,
        decreases nodes.len() - i,
    {
        let n = Expressed { label: nodes[i].label.clone(), activity: nodes[i].activity, index: nodes[i].index };
        phenotype_add_node(&mut g, n);
        i = i + 1;
        assert(phenotype_nodes(g) =~= nodes@.subrange(0, i as int));
    }
    assert(phenotype_nodes(g) =~= nodes@);
    let mut e: usize = 0;
    while e < edges.len()
        invariant
            e <= edges.len(),
            phenotype_nodes(g) == nodes@,
            phenotype_edges(g) == edges@.subrange(0, e as int),
            forall|e: int| 0 <= e < edges.len() ==> (#[trigger] edges[e]).0 < nodes.len() && edges[e].1 < nodes.len(),
        decreases edges.len() - e,
    {
        let (a, b, w) = edges[e];
        phenotype_add_edge(&mut g, a, b, w);
        e = e + 1;
        assert(phenotype_edges(g) =~= edges@.subrange(0, e as int));
    }
    assert(phenotype_edges(g) =~= edges@);
    g
}

/// Develops `chromosome` under `blueprints` into its phenotype graph.
pub fn express(blueprints: &Blueprints, chromosome: &EgpChromosome) -> (r: Phenotype)
    requires
        blueprints.wf(),
        chromosome.wf(blueprints),
    ensures
        phenotype_ok(blueprints, chromosome, phenotype_nodes(r), phenotype_edges(r)),
{
    let (nodes, edges) = develop(blueprints, chromosome);
    proof {
        assert forall|e: int| 0 <= e < edges.len() implies (#[trigger] edges[e]).0 < nodes.len() && edges[e].1 < nodes.len() by {
            let s = nodes@.len() - 1;
            if e < s {
                assert(strong_edge_ok(blueprints, chromosome, nodes@, edges@[e]));
            } else {
                assert(weak_edge_ok(blueprints, chromosome, nodes@, edges@[e]));
            }
        }
    }
    to_phenotype(&nodes, &edges)
}

/// Within one phenotype no regular component instance is expressed by more
/// than one node, and so none is the strong-binding target of more than one.
pub proof fn regular_expressed_once(
    cat: &Blueprints,
    chrom: &EgpChromosome,
    nodes: Seq<Expressed>,
    edges: Seq<Edge>,
)
    requires
        phenotype_ok(cat, chrom, nodes, edges),
    ensures
        forall|a: int, b: int|
            0 <= a < nodes.len() && 0 <= b < nodes.len() && (#[trigger] nodes[a]).index is Regular
                && nodes[a].index == (#[trigger] nodes[b]).index ==> a == b,
        forall|e1: int, e2: int|
            0 <= e1 < edges.len() && 0 <= e2 < edges.len() && (#[trigger] edges[e1]).2 is Strong
                && (#[trigger] edges[e2]).2 is Strong && nodes[edges[e1].1 as int].index is Regular
                && nodes[edges[e1].1 as int].index == nodes[edges[e2].1 as int].index ==> e1 == e2,
{
    let s = nodes.len() - 1;
    assert forall|e1: int, e2: int|
        0 <= e1 < edges.len() && 0 <= e2 < edges.len() && (#[trigger] edges[e1]).2 is Strong
            && (#[trigger] edges[e2]).2 is Strong && nodes[edges[e1].1 as int].index is Regular
            && nodes[edges[e1].1 as int].index == nodes[edges[e2].1 as int].index implies e1 == e2 by {
        if s <= e1 {
            assert(weak_edge_ok(cat, chrom, nodes, edges[e1]));
        }
        if s <= e2 {
            assert(weak_edge_ok(cat, chrom, nodes, edges[e2]));
        }
        assert(edges[e1].1 == e1 + 1);
        assert(edges[e2].1 == e2 + 1);
        assert(nodes[e1 + 1].index is Regular);
    }
}

/// Every strong site of every node is resolved by exactly one strong edge,
/// and every weak site by at most one weak edge.
pub proof fn sites_resolved_once(
    cat: &Blueprints,
    chrom: &EgpChromosome,
    nodes: Seq<Expressed>,
    edges: Seq<Edge>,
)
    requires
        phenotype_ok(cat, chrom, nodes, edges),
    ensures
        forall|n: int, k: int|
            0 <= n < nodes.len() && 0 <= k < component_at(cat, chrom, nodes[n].index).binding_sites.len()
                ==> #[trigger] has_edge(edges, n, Binding::Strong(k as usize)),
        forall|e1: int, e2: int|
            0 <= e1 < edges.len() && 0 <= e2 < edges.len() && (#[trigger] edges[e1]).0 == (
            #[trigger] edges[e2]).0 && edges[e1].2 == edges[e2].2 ==> e1 == e2,
{
    assert forall|e1: int, e2: int|
        0 <= e1 < edges.len() && 0 <= e2 < edges.len() && (#[trigger] edges[e1]).0 == (
        #[trigger] edges[e2]).0 && edges[e1].2 == edges[e2].2 implies e1 == e2 by {
        if e1 < e2 {
            assert(bindings_unique(edges));
        } else if e2 < e1 {
            assert(bindings_unique(edges));
        }
    }
}

} // verus!
