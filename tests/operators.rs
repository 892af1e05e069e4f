use egp_develop::blueprints::{Blueprint, Blueprints};
use egp_develop::chromosome::EgpChromosome;
use egp_develop::operators::{mutate, recombine};
use egp_develop::sampler::Sampler;

fn catalog(rng: &mut Sampler) -> Blueprints {
    Blueprints::from_groups(
        Blueprint::single_main("out"),
        vec![
            vec![Blueprint::double_main("a"), Blueprint::single_main("b"), Blueprint::terminal("c")],
            vec![Blueprint::terminal("d")],
        ],
        vec![Blueprint::terminals(&["x"]), Blueprint::terminals(&["y", "z"])],
        vec![],
        rng,
    )
    .unwrap()
}

fn lengths(c: &EgpChromosome) -> Vec<usize> {
    c.regular.iter().map(|g| g.len()).collect()
}

fn summary(c: &EgpChromosome) -> Vec<Vec<(usize, String, Vec<Vec<i64>>)>> {
    c.regular
        .iter()
        .map(|g| g.iter().map(|x| (x.activity, x.label.clone(), x.binding_sites.clone())).collect())
        .collect()
}

#[test]
fn mutation_keeps_group_sizes() {
    let mut rng = Sampler::seeded(20);
    let cat = catalog(&mut rng);
    let mut chrom = EgpChromosome::ancestor_from_blueprints(&cat, 40, &mut rng).unwrap();
    let before = lengths(&chrom);
    let output_sites = chrom.output.binding_sites.len();
    for _ in 0..1000 {
        mutate(&cat, &mut chrom, &mut rng);
        assert_eq!(lengths(&chrom), before);
    }
    assert_eq!(chrom.output.binding_sites.len(), output_sites);
}

#[test]
fn mutation_changes_some_binding_value() {
    let mut rng = Sampler::seeded(21);
    let cat = catalog(&mut rng);
    let mut chrom = EgpChromosome::ancestor_from_blueprints(&cat, 40, &mut rng).unwrap();
    let before = summary(&chrom);
    let before_output = chrom.output.binding_sites.clone();
    for _ in 0..50 {
        mutate(&cat, &mut chrom, &mut rng);
    }
    assert!(summary(&chrom) != before || chrom.output.binding_sites != before_output);
}

#[test]
fn recombine_with_zero_transfer_keeps_parent() {
    let mut rng = Sampler::seeded(22);
    let cat = catalog(&mut rng);
    let a = EgpChromosome::ancestor_from_blueprints(&cat, 30, &mut rng).unwrap();
    let b = EgpChromosome::ancestor_from_blueprints(&cat, 50, &mut rng).unwrap();
    for _ in 0..50 {
        let child = recombine(&cat, 0, &a, &b, &mut rng);
        assert_eq!(summary(&child), summary(&a));
        assert_eq!(child.output.binding_sites, a.output.binding_sites);
    }
}

#[test]
fn recombine_changes_one_group_by_at_most_n() {
    let mut rng = Sampler::seeded(23);
    let cat = catalog(&mut rng);
    let a = EgpChromosome::ancestor_from_blueprints(&cat, 30, &mut rng).unwrap();
    let b = EgpChromosome::ancestor_from_blueprints(&cat, 50, &mut rng).unwrap();
    let mut changed = false;
    for _ in 0..100 {
        let child = recombine(&cat, 3, &a, &b, &mut rng);
        let la = lengths(&a);
        let lc = lengths(&child);
        let differing: Vec<usize> = (0..la.len()).filter(|g| la[*g] != lc[*g]).collect();
        assert!(differing.len() <= 1);
        for g in differing {
            changed = true;
            assert!(la[g].abs_diff(lc[g]) <= 3);
        }
    }
    assert!(changed);
}

fn fixed_pair(rng: &mut Sampler) -> (Blueprints, EgpChromosome, EgpChromosome) {
    let cat = catalog(rng);
    let a = EgpChromosome::ancestor_from_blueprints(&cat, 12, rng).unwrap();
    let b = EgpChromosome::ancestor_from_blueprints(&cat, 20, rng).unwrap();
    (cat, a, b)
}

#[test]
fn transfer_run_appends_donor_run() {
    let mut rng = Sampler::seeded(30);
    let (cat, a, b) = fixed_pair(&mut rng);
    let l = b.regular[0].len();
    assert!(l >= 3);
    let child = egp_develop::operators::transfer_run(&cat, &a, &b, 0, 1, 2);
    assert_eq!(child.regular[0].len(), a.regular[0].len() + 2);
    let s = summary(&child);
    let sa = summary(&a);
    let sb = summary(&b);
    assert_eq!(s[0][..sa[0].len()], sa[0][..]);
    assert_eq!(s[0][sa[0].len()..], sb[0][1..3]);
    assert_eq!(s[1], sa[1]);
    // clamped at the end of the donor's group
    let clamped = egp_develop::operators::transfer_run(&cat, &a, &b, 0, l - 1, 5);
    assert_eq!(clamped.regular[0].len(), a.regular[0].len() + 1);
}

#[test]
fn remove_run_takes_out_clamped_run() {
    let mut rng = Sampler::seeded(31);
    let (cat, a, _) = fixed_pair(&mut rng);
    let l = a.regular[0].len();
    assert!(l >= 3);
    let child = egp_develop::operators::remove_run(&cat, &a, 0, 1, 1);
    let s = summary(&child);
    let sa = summary(&a);
    assert_eq!(child.regular[0].len(), l - 1);
    assert_eq!(s[0][0], sa[0][0]);
    assert_eq!(s[0][1..], sa[0][2..]);
    let clamped = egp_develop::operators::remove_run(&cat, &a, 0, l - 2, 10);
    assert_eq!(clamped.regular[0].len(), l - 2);
    assert_eq!(summary(&clamped)[1], sa[1]);
}

#[test]
fn relabel_changes_only_the_chosen_match() {
    let mut rng = Sampler::seeded(32);
    let (_, a, _) = fixed_pair(&mut rng);
    let act = a.regular[0][0].activity;
    let matches: Vec<usize> = (0..a.regular[0].len()).filter(|i| a.regular[0][*i].activity == act).collect();
    let mut c = a.duplicate();
    let target = matches[matches.len() - 1];
    egp_develop::operators::relabel(&mut c, 0, act, &"renamed".to_string(), matches.len() - 1);
    for i in 0..a.regular[0].len() {
        if i == target {
            assert_eq!(c.regular[0][i].label, "renamed");
            assert_eq!(c.regular[0][i].binding_sites, a.regular[0][i].binding_sites);
        } else {
            assert_eq!(c.regular[0][i].label, a.regular[0][i].label);
        }
    }
    let mut d = a.duplicate();
    egp_develop::operators::relabel(&mut d, 0, act, &"renamed".to_string(), matches.len());
    assert_eq!(summary(&d), summary(&a));
}
