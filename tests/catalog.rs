use egp_develop::blueprints::{Blueprint, Blueprints, CatalogError};
use egp_develop::chromosome::EgpChromosome;
use egp_develop::sampler::Sampler;

fn catalog(rng: &mut Sampler) -> Blueprints {
    Blueprints::from_groups(
        Blueprint::single_main("out"),
        vec![
            vec![Blueprint::double_main("a"), Blueprint::terminal("b")],
            vec![Blueprint::terminal("c")],
        ],
        vec![Blueprint::terminals(&["x", "y"]), Blueprint::terminals(&["z"])],
        vec![],
        rng,
    )
    .unwrap()
}

#[test]
fn blueprint_constructors() {
    let t = Blueprint::terminal("t");
    assert_eq!(t.label, "t");
    assert!(t.binding_sites.is_empty() && t.weak_binding_sites.is_empty());
    assert_eq!(Blueprint::single_main("s").binding_sites, vec![0]);
    assert_eq!(Blueprint::double_main("d").binding_sites, vec![0, 0]);
    let ts = Blueprint::terminals(&["p", "q"]);
    assert_eq!(ts.len(), 2);
    assert_eq!(ts[1].label, "q");
}

#[test]
fn catalog_counts_and_numbers_activities() {
    let mut rng = Sampler::seeded(1);
    let c = catalog(&mut rng);
    assert_eq!(c.number_of_regulars, 3);
    assert_eq!(c.number_of_terminals, 3);
    assert_eq!(c.total_activities, 6);
    assert_eq!(c.activities_by_group, vec![4, 2]);
    let regular: Vec<usize> = c.regular.iter().flatten().map(|b| b.activity).collect();
    assert_eq!(regular, vec![0, 1, 2]);
    let terminal: Vec<usize> = c.terminal.iter().flatten().map(|t| t.activity).collect();
    assert_eq!(terminal, vec![3, 4, 5]);
    assert_eq!(c.terminal[0][1].label, "y");
    assert!(c.terminal.iter().flatten().all(|t| t.binding_sites.is_empty()));
    assert_eq!(c.output.activity, 0);
}

#[test]
fn recompute_activities_numbers_regulars_before_terminals() {
    let mut regular = vec![vec![Blueprint::terminal("a")], vec![Blueprint::terminal("b"), Blueprint::terminal("c")]];
    let mut terminal = vec![vec![Blueprint::terminal("x")], vec![Blueprint::terminal("y")]];
    Blueprints::recompute_activities(&mut regular, &mut terminal);
    assert_eq!(regular[1][1].activity, 2);
    assert_eq!(terminal[0][0].activity, 3);
    assert_eq!(terminal[1][0].activity, 4);
    assert_eq!(Blueprints::sum_group_lens(&regular), 3);
}

#[test]
fn catalog_group_count_mismatch() {
    let mut rng = Sampler::seeded(2);
    let r = Blueprints::from_groups(
        Blueprint::terminal("out"),
        vec![vec![Blueprint::terminal("a")]],
        vec![],
        vec![],
        &mut rng,
    );
    assert!(matches!(r, Err(CatalogError::GroupCountMismatch)));
}

#[test]
fn catalog_without_regulars() {
    let mut rng = Sampler::seeded(3);
    let r = Blueprints::from_groups(
        Blueprint::terminal("out"),
        vec![vec![]],
        vec![vec![Blueprint::terminal("t")]],
        vec![],
        &mut rng,
    );
    assert!(matches!(r, Err(CatalogError::NoRegularTemplates)));
}

#[test]
fn catalog_output_activity_out_of_range() {
    let mut rng = Sampler::seeded(4);
    let mut out = Blueprint::terminal("out");
    out.activity = 2;
    let r = Blueprints::from_groups(
        out,
        vec![vec![Blueprint::terminal("a")]],
        vec![vec![Blueprint::terminal("t")]],
        vec![],
        &mut rng,
    );
    assert!(matches!(r, Err(CatalogError::OutputActivityOutOfRange)));
}

#[test]
fn catalog_terminal_with_strong_site() {
    let mut rng = Sampler::seeded(5);
    let r = Blueprints::from_groups(
        Blueprint::terminal("out"),
        vec![vec![Blueprint::terminal("a")]],
        vec![vec![Blueprint::single_main("t")]],
        vec![],
        &mut rng,
    );
    assert!(matches!(r, Err(CatalogError::TerminalWithStrongSites)));
}

#[test]
fn catalog_site_into_group_without_terminal() {
    let mut rng = Sampler::seeded(6);
    let mut out = Blueprint::terminal("out");
    out.binding_sites = vec![1];
    let r = Blueprints::from_groups(
        out,
        vec![vec![Blueprint::terminal("a")], vec![Blueprint::terminal("b")]],
        vec![vec![Blueprint::terminal("t")], vec![]],
        vec![],
        &mut rng,
    );
    assert!(matches!(r, Err(CatalogError::BadBindingSites)));
}

#[test]
fn catalog_too_many_activities() {
    let mut rng = Sampler::seeded(7);
    let many: Vec<Blueprint> = (0..65536).map(|_| Blueprint::terminal("t")).collect();
    let r = Blueprints::from_groups(
        Blueprint::terminal("out"),
        vec![vec![Blueprint::terminal("a")]],
        vec![many],
        vec![],
        &mut rng,
    );
    assert!(matches!(r, Err(CatalogError::TooManyActivities)));
}

#[test]
fn ancestor_has_requested_size() {
    let mut rng = Sampler::seeded(8);
    let c = catalog(&mut rng);
    for size in [5usize, 6, 17, 100] {
        let chrom = EgpChromosome::ancestor_from_blueprints(&c, size, &mut rng).unwrap();
        let regulars: usize = chrom.regular.iter().map(|g| g.len()).sum();
        assert_eq!(regulars + c.number_of_terminals + 1, size);
        assert_eq!(chrom.regular.len(), 2);
        assert!(chrom.regular[1].iter().all(|x| x.label == "c" && x.activity == 2));
        assert_eq!(chrom.output.binding_sites.len(), 1);
        assert_eq!(chrom.output.binding_sites[0].len(), 6);
    }
}

#[test]
fn ancestor_too_small_is_refused() {
    let mut rng = Sampler::seeded(9);
    let c = catalog(&mut rng);
    let r = EgpChromosome::ancestor_from_blueprints(&c, 4, &mut rng);
    assert_eq!(r.err().unwrap().minimum, 5);
}

#[test]
fn make_group_follows_distribution() {
    let mut rng = Sampler::seeded(10);
    let bps = vec![Blueprint::terminal("a"), Blueprint::single_main("b")];
    let g = EgpChromosome::make_group(&bps, &vec![2, 1], 3, &mut rng);
    let labels: Vec<&str> = g.iter().map(|c| c.label.as_str()).collect();
    assert_eq!(labels, vec!["a", "a", "b"]);
    assert_eq!(g[2].binding_sites.len(), 1);
    assert!(g[2].binding_sites[0].iter().all(|x| (0..egp_develop::vectors::ONE).contains(x)));
    assert_eq!(EgpChromosome::make_many(&bps[0], 4, 3, &mut rng).len(), 4);
}

#[test]
fn catalog_duplicate_weak_label() {
    let mut rng = Sampler::seeded(13);
    let r = Blueprints::from_groups(
        Blueprint::terminal("out"),
        vec![vec![Blueprint::terminal("a")]],
        vec![vec![Blueprint::terminal("t")]],
        vec![("a".to_string(), "t".to_string()), ("a".to_string(), "out".to_string())],
        &mut rng,
    );
    assert!(matches!(r, Err(CatalogError::DuplicateWeakLabel)));
}

#[test]
fn shares_round_down_each_slot() {
    assert_eq!(egp_develop::chromosome::shares(&vec![1, 1, 2], 10), vec![2, 2, 5]);
    assert_eq!(egp_develop::chromosome::shares(&vec![0, 0], 7), vec![0, 0]);
    assert_eq!(egp_develop::chromosome::shares(&vec![3], 7), vec![7]);
}

#[test]
fn repair_fills_up_to_size() {
    let mut rng = Sampler::seeded(14);
    let r = egp_develop::chromosome::repair(vec![2, 2, 5], 10, &mut rng);
    assert_eq!(r.iter().sum::<usize>(), 10);
    assert!(r[0] >= 2 && r[1] >= 2 && r[2] >= 5);
}
