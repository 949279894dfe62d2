use hyperstruc::bits::{binary_to_n, collect_n_digits, n_to_binary_vec, u64_to_binary_vec_u64};
use hyperstruc::enumeration::{
    collect_hypergroupoid, collect_hypergroupoid_with_scalar_identity, collect_hypergroups,
    collect_in_range, enumeration_hyperstructure, isomorphism_class, StructureKind,
};
use hyperstruc::error::HsError;
use hyperstruc::hs::{get_random_hypercomposition_table, HyperGroupoidMat};
use hyperstruc::perm::{permutaton_matrix_from_permutation, representation_permutation_subset};
use hyperstruc::relations::Relation;
use hyperstruc::search::{
    circumference_radius_d, circumference_radius_d_filtered, distance_tags, distance_tags_u1024,
    hg_in_circumference_radius_one,
};
use hyperstruc::utilities::{
    cartesian_product, get_complement_subset, get_min_max, get_subset, ones_positions, power_set,
    subset_as_u64, vec_to_set,
};
use hyperstruc::wide::{binary_to_u1024, collect_n_digits_u1024, U1024};
use std::collections::HashSet;

fn table(rows: &[&[u64]]) -> HyperGroupoidMat {
    let m: Vec<Vec<u64>> = rows.iter().map(|r| r.to_vec()).collect();
    HyperGroupoidMat::new_from_matrix(&m).unwrap()
}

#[test]
fn subsets_and_masks() {
    assert_eq!(get_subset(&6, &4), vec![1, 2]);
    assert_eq!(get_subset(&2, &3), vec![1]);
    assert_eq!(ones_positions(&5, &3), vec![0, 2]);
    assert_eq!(subset_as_u64(&vec![1, 2]), 6);
    assert_eq!(subset_as_u64(&get_subset(&8, &4)), 8);
    assert_eq!(get_complement_subset(&5, &3), 2);
    let s: HashSet<u64> = [1, 2, 0].into_iter().collect();
    assert_eq!(vec_to_set(&vec![1, 2, 0, 2]), s);
    assert_eq!(power_set(&2), vec![vec![], vec![0], vec![1], vec![0, 1]]);
    assert_eq!(cartesian_product(&vec![3, 5]), vec![(3, 3), (3, 5), (5, 3), (5, 5)]);
}

#[test]
fn binary_digits() {
    assert_eq!(n_to_binary_vec(&6, &4), vec![0, 1, 1, 0]);
    assert_eq!(n_to_binary_vec(&6, &1), vec![1, 1, 0]);
    assert_eq!(u64_to_binary_vec_u64(&5, &4), vec![0, 1, 0, 1]);
    assert_eq!(collect_n_digits(&3, &13), vec![1, 0, 1]);
    let bits = vec![
        1, 1, 0, 0, 1, 1, 1, 1, 1, 1, 1, 1, 1, 1, 1, 1, 1, 1, 1, 1, 1, 1, 1, 1, 1, 1, 1, 1, 1, 1, 1, 1,
        1, 1, 1, 1, 1, 1, 1, 1, 1, 1, 1, 1, 1, 1, 1, 1, 0, 1, 1, 0, 0, 0, 0, 0, 0, 0, 0, 0, 0, 0, 0, 0,
    ];
    assert_eq!(binary_to_n(&bits), 14987979559888969728u128);
}

#[test]
fn wide_integers() {
    let x = U1024::from_u128(0b1011);
    let words = x.u1024_to_binary_vec();
    assert_eq!(words.len(), 16);
    assert_eq!(words[15][60..], [1, 0, 1, 1]);
    assert_eq!(binary_to_u1024(&words), x);
    assert_eq!(U1024::from_binary_vec(&vec![1, 0, 1, 1]), x);
    assert_eq!(collect_n_digits_u1024(&6, &x), vec![0, 0, 1, 0, 1, 1]);
    assert_eq!(x.flip_bit(2), U1024::from_u128(0b1111));
    assert_eq!(x.flip_bit(64).0[1], 1);
    assert!(U1024::from_u128(3).lt(&x));
    assert!(!x.lt(&x));
    let mut long = vec![1u64];
    long.extend(vec![0u64; 1024]);
    assert_eq!(U1024::from_binary_vec(&long), U1024::from_u128(0));
}

#[test]
fn hamming_distance_properties() {
    assert_eq!(distance_tags(&185, &185, &2), 0);
    assert_eq!(distance_tags(&185, &184, &2), 1);
    assert_eq!(distance_tags(&0b1111_0000, &0b0000_1111, &2), 8);
    assert_eq!(distance_tags(&185, &77, &2), distance_tags(&77, &185, &2));
    let a = U1024::from_u128(185);
    let b = U1024::from_u128(77);
    assert_eq!(distance_tags_u1024(&a, &a, &2), 0);
    assert_eq!(distance_tags_u1024(&a, &b, &2), distance_tags_u1024(&b, &a, &2));
    assert_eq!(distance_tags_u1024(&a, &b, &2), distance_tags(&185, &77, &2) as usize);
    let h1 = table(&[&[2, 3], &[2, 1]]);
    let h2 = table(&[&[2, 3], &[2, 3]]);
    assert_eq!(h1.hamming_distance(&h2), 1);
    assert_eq!(h1.hamming_distance_u1024(&h2), 1);
    assert_eq!(h1.hamming_distance(&h1), 0);
}

#[test]
fn circumference_of_radius_zero_and_one() {
    let tag = U1024::from_u128(185);
    assert_eq!(circumference_radius_d(&tag, &0, &2), vec![tag]);
    let ring = circumference_radius_d(&tag, &1, &2);
    assert_eq!(ring.len(), 8);
    for t in &ring {
        assert_eq!(distance_tags_u1024(t, &tag, &2), 1);
    }
    assert_eq!(circumference_radius_d(&tag, &2, &2).len(), 28);
    let hg = U1024::from_u128(0b1111_1111);
    let near = hg_in_circumference_radius_one(&hg, &2);
    for t in &near {
        let h = HyperGroupoidMat::new_from_tag_u1024(t, &2).unwrap();
        assert!(h.is_hypergroup());
    }
    assert_eq!(near, circumference_radius_d_filtered(&hg, &1, &2));
}

#[test]
fn relabelling_elements() {
    assert_eq!(representation_permutation_subset(&6, &vec![1, 2, 0]), 5);
    assert_eq!(permutaton_matrix_from_permutation(&3, &vec![1, 2, 0]), vec![0, 0, 1, 1, 0, 0, 0, 1, 0]);
    let h = table(&[&[1, 2, 7], &[2, 7, 7], &[7, 7, 5]]);
    let same = h.isomorphic_hypergroup_from_permutation(&vec![0, 1, 2]);
    assert_eq!(same.hyper_composition, h.hyper_composition);
    let sigma = vec![1, 2, 0];
    let tau = vec![2, 0, 1];
    let composed: Vec<usize> = sigma.iter().map(|&i| tau[i]).collect();
    let two_steps = h.isomorphic_hypergroup_from_permutation(&sigma).isomorphic_hypergroup_from_permutation(&tau);
    let one_step = h.isomorphic_hypergroup_from_permutation(&composed);
    assert_eq!(two_steps.hyper_composition, one_step.hyper_composition);
    let swapped = table(&[&[2, 3], &[2, 1]]).isomorphic_hypergroup_from_permutation(&vec![1, 0]);
    assert_eq!(swapped.hyper_composition, vec![2, 1, 3, 1]);
    assert!(h.isomorphic_hypergroup_from_permutation(&sigma).is_hypergroup());
}

#[test]
fn isomorphism_classes() {
    let (rep, class) = isomorphism_class(&185, &2);
    let swapped = table(&[&[2, 1], &[3, 1]]).get_integer_tag();
    let mut expected = vec![185u128, swapped];
    expected.sort();
    assert_eq!(class, expected);
    assert_eq!(rep, expected[0]);
    let (rep, class) = isomorphism_class(&255, &2);
    assert_eq!((rep, class), (255, vec![255]));
}

#[test]
fn enumeration_for_two_elements() {
    let hg = collect_hypergroups(&2);
    let counts = enumeration_hyperstructure(StructureKind::Hypergroups, &2);
    assert_eq!(counts.len(), 2);
    assert_eq!(hg.len(), counts[0] + 2 * counts[1]);
    assert!(hg.contains(&255));
    for t in &hg {
        let h = HyperGroupoidMat::new_from_tag(t, &2).unwrap();
        assert!(h.is_hypergroup());
    }
    let all = collect_hypergroupoid(&2);
    assert_eq!(all.len(), 81);
    let (min, max) = get_min_max(&2);
    assert_eq!((min, max), (0b0101_0101, 255));
    assert_eq!(all[0], min);
    assert_eq!(all[80], max);
    let unital = collect_hypergroupoid_with_scalar_identity(&2);
    assert!(unital.contains(&table(&[&[1, 2], &[2, 1]]).get_integer_tag()));
    assert_eq!(collect_in_range(StructureKind::Hypergroupoids, 1, 0, 2), vec![1]);
    assert_eq!(enumeration_hyperstructure(StructureKind::Hypergroupoids, &1), vec![1]);
}

#[test]
fn relation_composition() {
    let r = Relation { a: vec![0, 1], b: vec![0, 1], rel: vec![(1, 2)] };
    let s = Relation { a: vec![0, 1], b: vec![0, 1], rel: vec![(2, 2)] };
    let c = r.mul(&s).unwrap();
    assert_eq!(c.rel, vec![(1, 2)]);
    let t = Relation { a: vec![0], b: vec![0], rel: vec![] };
    assert!(matches!(r.mul(&t), Err(HsError::DomainMismatch)));
    assert!(!r.is_reflexive());
    assert!(!r.is_symmetric());
    assert!(r.is_transitive());
    let chain = Relation { a: vec![0, 1, 2], b: vec![0, 1, 2], rel: vec![(1, 2), (2, 4)] };
    assert!(!chain.is_transitive());
}

#[test]
fn random_tables_are_valid() {
    let rows = get_random_hypercomposition_table(&3);
    assert_eq!(rows.len(), 3);
    for row in &rows {
        assert_eq!(row.len(), 3);
        for &e in row {
            assert!(e >= 1 && e < 8);
        }
    }
    let h = HyperGroupoidMat::new_random_from_cardinality(&4);
    assert_eq!(h.hyper_composition.len(), 16);
    assert!(h.hyper_composition.iter().all(|&e| e >= 1 && e < 16));
}

#[test]
fn binary_digits_of_zero() {
    assert_eq!(n_to_binary_vec(&0, &0), vec![0]);
    assert_eq!(n_to_binary_vec(&0, &3), vec![0, 0, 0]);
    assert_eq!(u64_to_binary_vec_u64(&0, &0), vec![0]);
    assert_eq!(n_to_binary_vec(&1, &0), vec![1]);
}

#[test]
fn relation_pairs_come_sorted() {
    let r = Relation { a: vec![1, 0], b: vec![0, 1], rel: vec![(2, 1), (1, 2), (1, 1)] };
    let s = Relation { a: vec![0, 1], b: vec![1, 0], rel: vec![(2, 2), (1, 2), (1, 1), (2, 1)] };
    let c = r.mul(&s).unwrap();
    assert_eq!(c.rel, vec![(1, 1), (1, 2), (2, 1), (2, 2)]);
    let h = HyperGroupoidMat::new_from_matrix(&vec![vec![1, 6, 1], vec![6, 1, 6], vec![1, 6, 1]]).unwrap();
    let beta = h.beta_relation();
    assert_eq!(beta.a, vec![0, 1, 2]);
    assert_eq!(beta.rel, vec![(1, 1), (1, 2), (1, 4), (2, 1), (2, 2), (2, 4), (4, 1), (4, 2), (4, 4)]);
}

#[test]
fn classes_start_at_their_smallest_member() {
    let eq = Relation {
        a: vec![2, 0, 1],
        b: vec![0, 1, 2],
        rel: vec![(1, 1), (2, 2), (4, 4), (1, 4), (4, 1)],
    };
    assert!(eq.is_equivalence());
    assert_eq!(eq.collect_classes(), vec![(1, vec![1, 4]), (2, vec![2])]);
}
