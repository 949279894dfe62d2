use hyperstruc::codec::{representing_hypergroupoid, representing_hypergroupoid_u1024};
use hyperstruc::error::HsError;
use hyperstruc::hs::{ElementKind, HyperGroupoidMat};
use hyperstruc::hypergroups::HyperGroup;
use hyperstruc::wide::U1024;

fn table(rows: &[&[u64]]) -> HyperGroupoidMat {
    let m: Vec<Vec<u64>> = rows.iter().map(|r| r.to_vec()).collect();
    HyperGroupoidMat::new_from_matrix(&m).unwrap()
}

#[test]
fn example_transposition_hg() {
    let cardinality = 5;
    let function = {
        |a: u64, b: u64| {
            if a != b {
                return 1 << a.max(b);
            } else {
                return (0..=a).into_iter().fold(0, |acc, x| acc | 1 << x);
            }
        }
    };
    let hg = HyperGroup::new_from_function(function, &cardinality).unwrap();
    assert!(hg.is_transposition());
}

#[test]
fn new_from_function_rejects_non_hypergroup() {
    let r = HyperGroup::new_from_function(|_a: u64, _b: u64| 1u64, &2);
    assert!(matches!(r, Err(HsError::PreconditionViolated)));
    let r = HyperGroup::new_from_function(|_a: u64, _b: u64| 0u64, &2);
    assert!(matches!(r, Err(HsError::MalformedTable)));
}

#[test]
fn tag_185_decodes_row_major() {
    let h = HyperGroupoidMat::new_from_tag(&185, &2).unwrap();
    assert_eq!(h.hyper_composition, vec![2, 3, 2, 1]);
    let m = table(&[&[2, 3], &[2, 1]]);
    assert_eq!(m.get_integer_tag(), 185);
    assert_eq!(m.get_integer_tag_u1024(), U1024::from_u128(185));
    let w = HyperGroupoidMat::new_from_tag_u1024(&U1024::from_u128(185), &2).unwrap();
    assert_eq!(w.hyper_composition, vec![2, 3, 2, 1]);
    assert_eq!(HyperGroupoidMat::new_from_tag(&185, &2).unwrap(), m);
}

#[test]
fn round_trip_tables_and_tags() {
    let m = table(&[&[1, 2, 7], &[2, 7, 7], &[7, 7, 5]]);
    let tag = m.get_integer_tag();
    let back = HyperGroupoidMat::new_from_tag(&tag, &3).unwrap();
    assert_eq!(back.hyper_composition, m.hyper_composition);
    assert_eq!(back.get_integer_tag(), tag);
    let wide = m.get_integer_tag_u1024();
    assert_eq!(wide, U1024::from_u128(tag));
    let back_wide = HyperGroupoidMat::new_from_tag_u1024(&wide, &3).unwrap();
    assert_eq!(back_wide.hyper_composition, m.hyper_composition);
    let big = HyperGroupoidMat::new_random_from_cardinality(&7);
    let big_tag = big.get_integer_tag_u1024();
    let big_back = HyperGroupoidMat::new_from_tag_u1024(&big_tag, &7).unwrap();
    assert_eq!(big_back.hyper_composition, big.hyper_composition);
}

#[test]
fn zero_chunk_is_rejected() {
    // chunks 10-00-10-01: the second product is empty
    assert!(!representing_hypergroupoid(&0b1000_1001, &2));
    assert!(matches!(HyperGroupoidMat::new_from_tag(&0b1000_1001, &2), Err(HsError::InvalidTag)));
    // chunks 00-01-01-01: the first product is empty
    assert!(!representing_hypergroupoid(&0b0001_0101, &2));
    // chunks 01-01-01-00: the last product is empty
    assert!(!representing_hypergroupoid(&0b0101_0100, &2));
    assert!(representing_hypergroupoid(&185, &2));
    assert!(!representing_hypergroupoid_u1024(&U1024::from_u128(0b1000_1001), &2));
    assert!(representing_hypergroupoid_u1024(&U1024::from_u128(22150143), &3));
    // a tag wider than n^3 bits is no table
    assert!(!representing_hypergroupoid(&(185 + 256), &2));
}

#[test]
fn malformed_tables_are_rejected() {
    let not_square = vec![vec![1u64, 2], vec![1u64]];
    assert!(matches!(HyperGroupoidMat::new_from_matrix(&not_square), Err(HsError::MalformedTable)));
    let empty_product = vec![vec![1u64, 0], vec![1u64, 2]];
    assert!(matches!(HyperGroupoidMat::new_from_matrix(&empty_product), Err(HsError::MalformedTable)));
    let outside = vec![vec![1u64, 4], vec![1u64, 2]];
    assert!(matches!(HyperGroupoidMat::new_from_matrix(&outside), Err(HsError::MalformedTable)));
    let none: Vec<Vec<u64>> = Vec::new();
    assert!(matches!(HyperGroupoidMat::new_from_matrix(&none), Err(HsError::MalformedTable)));
}

#[test]
fn three_element_example_is_a_hypergroup() {
    let h = table(&[&[1, 2, 7], &[2, 7, 7], &[7, 7, 5]]);
    assert!(h.is_reproductive());
    assert!(h.is_associative());
    assert!(h.is_hypergroup());
    assert_eq!(h.mul(&vec![1], &vec![0]), Ok(2));
    assert_eq!(h.mul(&vec![3], &vec![0]), Err(HsError::SubsetNotInCarrier));
    assert_eq!(h.left_division(&2, &4), 3);
    assert_eq!(h.right_division(&1, &2), 6);
    assert_eq!(h.mul_by_representation(&3, &1), 3);
}

#[test]
fn tag_22150143_is_a_hypergroup() {
    let h = HyperGroupoidMat::new_from_tag(&22150143, &3).unwrap();
    assert!(h.is_hypergroup());
}

#[test]
fn two_element_table_2_3_2_1() {
    // 0o0 = {1}, 0o1 = {0,1}, 1o0 = {1}, 1o1 = {0}: column 0 only reaches {1},
    // and (0o0)o0 = {1} differs from 0o(0o0) = {0,1}.
    let h = table(&[&[2, 3], &[2, 1]]);
    assert!(!h.is_reproductive());
    assert!(!h.is_associative());
    assert!(!h.is_hypergroup());
}

#[test]
fn row_short_of_carrier_is_not_reproductive() {
    let h = table(&[&[1, 1], &[3, 3]]);
    assert!(!h.is_reproductive());
    let full = table(&[&[3, 3], &[3, 3]]);
    assert!(full.is_reproductive());
    assert!(full.is_hypergroup());
    assert!(full.is_commutative());
}

#[test]
fn identities_and_scalars() {
    // a group: Z/2 with singletons
    let g = table(&[&[1, 2], &[2, 1]]);
    assert!(g.is_left_identity(&1));
    assert!(g.is_right_identity(&1));
    assert!(g.is_identity(&1));
    assert!(!g.is_identity(&2));
    assert!(g.is_left_scalar(&1));
    assert!(g.is_right_scalar(&2));
    assert_eq!(g.collect_identities(), vec![1]);
    assert_eq!(g.collect_left_identity(), vec![1]);
    assert_eq!(g.collect_right_identity(), vec![1]);
    assert_eq!(g.collect_scalars(), vec![1, 2]);
    assert_eq!(g.collect_scalar_identity(), vec![1]);
    assert_eq!(g.collect_elements(ElementKind::Scalar), vec![1, 2]);
    assert_eq!(g.get_singleton(), vec![1, 2]);
    let total = table(&[&[3, 3], &[3, 3]]);
    assert_eq!(total.collect_identities(), vec![1, 2]);
    assert_eq!(total.collect_scalars(), Vec::<u64>::new());
}

#[test]
fn beta_relation_of_parity_table() {
    let h = table(&[&[1, 6, 1], &[6, 1, 6], &[1, 6, 1]]);
    assert_eq!(h.collect_ph(), vec![1, 2, 4, 6, 7]);
    let beta = h.beta_relation();
    assert!(beta.is_reflexive());
    assert!(beta.is_symmetric());
    assert!(beta.is_transitive());
    assert!(beta.is_equivalence());
    assert_eq!(beta.rel.len(), 9);
    assert_eq!(beta.collect_classes(), vec![(1, vec![1, 2, 4])]);
}

#[test]
fn beta_relation_of_a_group_is_equality() {
    let g = table(&[&[1, 2], &[2, 1]]);
    assert_eq!(g.collect_ph(), vec![1, 2]);
    let beta = g.beta_relation();
    assert!(beta.is_equivalence());
    assert_eq!(beta.collect_classes(), vec![(1, vec![1]), (2, vec![2])]);
}

#[test]
fn element_masks_are_checked() {
    let g = table(&[&[1, 2], &[2, 1]]);
    assert_eq!(g.element_of(&2), Ok(1));
    assert_eq!(g.element_of(&3), Err(HsError::NotASingleton));
    assert_eq!(g.element_of(&4), Err(HsError::NotASingleton));
    let both: std::collections::HashSet<u64> = [0, 1].into_iter().collect();
    assert_eq!(g.get_subset_from_k(&3), both);
}

#[test]
fn relabelling_entries_in_place() {
    let h = table(&[&[2, 3], &[2, 1]]);
    let p = h.permutation_of_table(&vec![1, 0]);
    assert_eq!(p.hyper_composition, vec![1, 3, 1, 2]);
}

#[test]
fn wide_isomorphism_class() {
    let h = table(&[&[2, 3], &[2, 1]]);
    let (rep, class) = h.collect_isomorphism_class();
    let other = table(&[&[2, 1], &[3, 1]]).get_integer_tag_u1024();
    let own = h.get_integer_tag_u1024();
    assert_eq!(class.len(), 2);
    assert!(class.contains(&own) && class.contains(&other));
    assert!(rep == own || rep == other);
    assert!(!class[1].lt(&class[0]));
    let total = table(&[&[3, 3], &[3, 3]]);
    assert_eq!(total.collect_isomorphism_class().1.len(), 1);
}
