use egp_develop::blueprints::{Blueprint, Blueprints};
use egp_develop::chromosome::EgpChromosome;
use egp_develop::component::Component;
use egp_develop::sampler::Sampler;
use egp_develop::vectors::ONE;
use egp_develop::{express, Binding, ComponentIndex, Phenotype};

fn bare(activity: usize, label: &str) -> Component {
    Component {
        activity,
        label: label.to_string(),
        binding_sites: vec![],
        binding_sites_groups: vec![],
        weak_binding_sites: vec![],
        weak_binding_sites_groups: vec![],
    }
}

fn output_with(sites: Vec<Vec<i64>>) -> Component {
    let n = sites.len();
    Component {
        activity: 0,
        label: "out".to_string(),
        binding_sites: sites,
        binding_sites_groups: vec![0; n],
        weak_binding_sites: vec![],
        weak_binding_sites_groups: vec![],
    }
}

/// One group: regular template R (activity 0) and terminal template T (activity 1).
fn one_group(weak_map: Vec<(String, String)>) -> Blueprints {
    let mut rng = Sampler::seeded(11);
    Blueprints::from_groups(
        Blueprint::single_main("out"),
        vec![vec![Blueprint::terminal("R")]],
        vec![vec![Blueprint::terminal("T")]],
        weak_map,
        &mut rng,
    )
    .unwrap()
}

fn origins(p: &Phenotype) -> Vec<ComponentIndex> {
    p.raw_nodes().iter().map(|n| n.weight.index).collect()
}

fn edges(p: &Phenotype) -> Vec<(usize, usize, Binding)> {
    p.raw_edges().iter().map(|e| (e.source().index(), e.target().index(), e.weight)).collect()
}

#[test]
fn empty_group_resolves_to_terminal() {
    let cat = one_group(vec![]);
    let chrom = EgpChromosome { output: output_with(vec![vec![ONE - 1, 0]]), regular: vec![vec![]] };
    let p = express(&cat, &chrom);
    assert_eq!(origins(&p), vec![ComponentIndex::Output, ComponentIndex::Terminal(0, 0)]);
    assert_eq!(edges(&p), vec![(0, 1, Binding::Strong(0))]);
    assert_eq!(p.raw_nodes()[1].weight.label, "T");
    assert_eq!(p.raw_nodes()[1].weight.activity, 1);
}

#[test]
fn nearer_regular_is_expressed_and_consumed() {
    let cat = one_group(vec![]);
    let chrom = EgpChromosome {
        output: output_with(vec![vec![ONE - 1, 0], vec![ONE - 1, 0]]),
        regular: vec![vec![bare(0, "R")]],
    };
    let p = express(&cat, &chrom);
    assert_eq!(
        origins(&p),
        vec![ComponentIndex::Output, ComponentIndex::Regular(0, 0), ComponentIndex::Terminal(0, 0)]
    );
    assert_eq!(edges(&p), vec![(0, 1, Binding::Strong(0)), (0, 2, Binding::Strong(1))]);
}

#[test]
fn nearer_terminal_wins_over_regular() {
    let cat = one_group(vec![]);
    let chrom = EgpChromosome { output: output_with(vec![vec![0, ONE - 1]]), regular: vec![vec![bare(0, "R")]] };
    let p = express(&cat, &chrom);
    assert_eq!(origins(&p), vec![ComponentIndex::Output, ComponentIndex::Terminal(0, 0)]);
}

#[test]
fn tie_goes_to_the_later_regular() {
    let cat = one_group(vec![]);
    let chrom = EgpChromosome {
        output: output_with(vec![vec![ONE - 1, 0]]),
        regular: vec![vec![bare(0, "R"), bare(0, "R")]],
    };
    let p = express(&cat, &chrom);
    assert_eq!(origins(&p), vec![ComponentIndex::Output, ComponentIndex::Regular(0, 1)]);
}

#[test]
fn regular_children_are_expanded_breadth_first() {
    let cat = one_group(vec![]);
    let mut r = bare(0, "R");
    r.binding_sites = vec![vec![ONE - 1, 0]];
    r.binding_sites_groups = vec![0];
    let chrom = EgpChromosome {
        output: output_with(vec![vec![ONE - 1, 0]]),
        regular: vec![vec![r, bare(0, "R")]],
    };
    let p = express(&cat, &chrom);
    // The instance whose binding vector leans its profile towards the site
    // is the nearer one; its own site then takes the bare instance.
    assert_eq!(
        origins(&p),
        vec![ComponentIndex::Output, ComponentIndex::Regular(0, 0), ComponentIndex::Regular(0, 1)]
    );
    assert_eq!(edges(&p), vec![(0, 1, Binding::Strong(0)), (1, 2, Binding::Strong(0))]);
}

#[test]
fn weak_site_binds_to_offering_node() {
    let cat = one_group(vec![("out".to_string(), "T".to_string())]);
    let mut output = output_with(vec![vec![0, ONE - 1]]);
    output.weak_binding_sites = vec![vec![0, 0]];
    output.weak_binding_sites_groups = vec![0];
    let chrom = EgpChromosome { output, regular: vec![vec![]] };
    let p = express(&cat, &chrom);
    assert_eq!(edges(&p), vec![(0, 1, Binding::Strong(0)), (0, 1, Binding::Weak(0))]);
}

#[test]
fn weak_site_without_offering_node_stays_open() {
    let cat = one_group(vec![("out".to_string(), "nothing".to_string())]);
    let mut output = output_with(vec![vec![0, ONE - 1]]);
    output.weak_binding_sites = vec![vec![0, 0]];
    output.weak_binding_sites_groups = vec![0];
    let chrom = EgpChromosome { output, regular: vec![vec![]] };
    let p = express(&cat, &chrom);
    assert_eq!(edges(&p), vec![(0, 1, Binding::Strong(0))]);
}

#[test]
fn expression_is_repeatable() {
    let mut rng = Sampler::seeded(12);
    let cat = Blueprints::from_groups(
        Blueprint::double_main("out"),
        vec![vec![Blueprint::double_main("a"), Blueprint::single_main("b"), Blueprint::terminal("c")]],
        vec![Blueprint::terminals(&["x", "y"])],
        vec![("a".to_string(), "x".to_string())],
        &mut rng,
    )
    .unwrap();
    let chrom = EgpChromosome::ancestor_from_blueprints(&cat, 30, &mut rng).unwrap();
    let first = express(&cat, &chrom);
    let second = express(&cat, &chrom);
    assert_eq!(origins(&first), origins(&second));
    assert_eq!(edges(&first), edges(&second));
    let first_labels: Vec<String> = first.raw_nodes().iter().map(|n| n.weight.label.clone()).collect();
    let second_labels: Vec<String> = second.raw_nodes().iter().map(|n| n.weight.label.clone()).collect();
    assert_eq!(first_labels, second_labels);
    // every regular instance is expressed at most once
    let mut regulars: Vec<ComponentIndex> =
        origins(&first).into_iter().filter(|o| matches!(o, ComponentIndex::Regular(_, _))).collect();
    let n = regulars.len();
    regulars.sort_by_key(|o| match o {
        ComponentIndex::Regular(g, i) => (*g, *i),
        _ => (0, 0),
    });
    regulars.dedup();
    assert_eq!(regulars.len(), n);
    // every node but the output has exactly one strong parent
    for child in 1..first.node_count() {
        let parents = edges(&first)
            .iter()
            .filter(|(_, t, b)| *t == child && matches!(b, Binding::Strong(_)))
            .count();
        assert_eq!(parents, 1);
    }
}

#[test]
fn decrement_strong_lowers_strong_only() {
    assert_eq!(Binding::Strong(3).decrement_strong(), Binding::Strong(2));
    assert_eq!(Binding::Weak(3).decrement_strong(), Binding::Weak(3));
}
