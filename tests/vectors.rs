use egp_develop::sampler::Sampler;
use egp_develop::vectors::{average, difference, distance, norm, scale, sum, sum_many, ONE};

#[test]
fn scale_multiplies_each_entry() {
    assert_eq!(scale(&vec![1, -2, 3], 4), vec![4, -8, 12]);
}

#[test]
fn sum_and_difference_are_componentwise() {
    assert_eq!(sum(&vec![1, 2, 3], &vec![10, 20, 30]), vec![11, 22, 33]);
    assert_eq!(difference(&vec![1, 2, 3], &vec![10, 20, 30]), vec![-9, -18, -27]);
}

#[test]
fn norm_is_sum_of_absolute_values_under_the_root() {
    let n = norm(&vec![3, -4, 0]);
    assert_eq!(n.num, 7);
    assert_eq!(n.den, 1);
}

#[test]
fn distance_to_itself_is_zero() {
    let a = vec![5, ONE - 1, 0, 17];
    assert_eq!(distance(&a, &a).num, 0);
}

#[test]
fn distance_is_symmetric() {
    let a = vec![5, 9, 0];
    let b = vec![1, 12, 7];
    let ab = distance(&a, &b);
    let ba = distance(&b, &a);
    assert_eq!(ab.num, ba.num);
    assert_eq!(ab.num, 4 + 3 + 7);
    assert!(ab.le(&ba) && ba.le(&ab));
}

#[test]
fn distance_comparison_uses_the_fractions() {
    let a = egp_develop::vectors::Distance { num: 3, den: 2 };
    let b = egp_develop::vectors::Distance { num: 2, den: 1 };
    assert!(a.le(&b));
    assert!(!b.le(&a));
}

#[test]
fn sum_many_adds_all_vectors() {
    assert_eq!(sum_many(&vec![vec![1, 2], vec![3, 4], vec![5, 6]]), vec![9, 12]);
}

#[test]
fn average_of_one_is_itself() {
    let a = vec![4, -2, 9];
    let r = average(&vec![a.clone()]);
    assert_eq!(r.den, 1);
    assert_eq!(r.num, a);
}

#[test]
fn average_of_two_is_midpoint() {
    let r = average(&vec![vec![2, 4, 7], vec![6, 0, 8]]);
    assert_eq!(r.den, 2);
    assert_eq!(r.num, vec![8, 4, 15]);
}

#[test]
fn sampler_draws_stay_in_range_and_repeat_by_seed() {
    let mut a = Sampler::seeded(99);
    let mut b = Sampler::seeded(99);
    let mut seen_nonzero = false;
    for _ in 0..200 {
        let x = a.below(5);
        assert!(x < 5);
        assert_eq!(x, b.below(5));
        let u = a.unit();
        assert!((0..ONE).contains(&u));
        assert_eq!(u, b.unit());
        seen_nonzero |= x != 0;
    }
    assert!(seen_nonzero);
}
