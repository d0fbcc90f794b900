use particle_chemistry::{
    catalyzed_on_contact, commit_conversion, conversion_types, draw_catalysts, draw_successors,
    initially_catalyzable, new_chemistry, ConversionType,
};
use rand_xoshiro::rand_core::SeedableRng;
use rand_xoshiro::Xoshiro256PlusPlus;

fn seeded(seed: u64) -> Xoshiro256PlusPlus {
    Xoshiro256PlusPlus::seed_from_u64(seed)
}

fn assert_permutation(succ: &[usize], n: usize) {
    assert_eq!(succ.len(), n);
    let mut seen = vec![false; n];
    for &s in succ {
        assert!(s < n);
        assert!(!seen[s], "index {} appears twice as an image", s);
        seen[s] = true;
    }
}

fn successor_of(types: &[ConversionType], i: usize) -> usize {
    match &types[i] {
        ConversionType::CONVERTS { converts_to, .. } => *converts_to,
        ConversionType::INERT => i,
    }
}

#[test]
fn successors_form_a_permutation() {
    for n in 1..40usize {
        for seed in 0..20u64 {
            let mut rng = seeded(seed);
            let succ = draw_successors(n, &mut rng);
            assert_permutation(&succ, n);
        }
    }
}

#[test]
fn successors_vary_with_the_seed() {
    let mut distinct = std::collections::HashSet::new();
    for seed in 0..50u64 {
        let mut rng = seeded(seed);
        distinct.insert(draw_successors(8, &mut rng));
    }
    assert!(distinct.len() > 10);
    let identity: Vec<usize> = (0..8).collect();
    assert!(distinct.iter().any(|s| *s != identity));
}

#[test]
fn catalyst_sets_are_never_empty() {
    for n in 1..12usize {
        for seed in 0..30u64 {
            let mut rng = seeded(seed);
            let c = draw_catalysts(n, &mut rng);
            assert_eq!(c.len(), n);
            assert!(c.iter().any(|&b| b));
        }
    }
}

#[test]
fn single_species_catalyst_set_is_that_species() {
    let mut rng = seeded(7);
    assert_eq!(draw_catalysts(1, &mut rng), vec![true]);
}

#[test]
fn chemistry_tables_fit_together() {
    for n in 1..25usize {
        for seed in 0..10u64 {
            let mut rng = seeded(seed);
            let (succ, cats) = new_chemistry(n, &mut rng);
            assert_permutation(&succ, n);
            assert_eq!(cats.len(), n);
            for j in 0..n {
                if succ[j] == j {
                    assert!(cats[j].is_empty());
                } else {
                    assert_eq!(cats[j].len(), n);
                    assert!(cats[j].iter().any(|&b| b));
                }
            }
        }
    }
}

#[test]
fn same_seed_same_chemistry() {
    for seed in [0u64, 1, 42, u64::MAX] {
        let mut a = seeded(seed);
        let mut b = seeded(seed);
        assert_eq!(new_chemistry(16, &mut a), new_chemistry(16, &mut b));
        let ta = conversion_types(16, true, &mut a);
        let tb = conversion_types(16, true, &mut b);
        for i in 0..16 {
            assert_eq!(successor_of(&ta, i), successor_of(&tb, i));
        }
    }
}

#[test]
fn conversion_table_is_well_formed() {
    for seed in 0..30u64 {
        let mut rng = seeded(seed);
        let types = conversion_types(10, true, &mut rng);
        assert_eq!(types.len(), 10);
        let succ: Vec<usize> = (0..10).map(|i| successor_of(&types, i)).collect();
        assert_permutation(&succ, 10);
        for (i, t) in types.iter().enumerate() {
            match t {
                ConversionType::CONVERTS { converts_to, catalysts } => {
                    assert_ne!(*converts_to, i);
                    assert_eq!(catalysts.len(), 10);
                    assert!(catalysts.iter().any(|&b| b));
                }
                ConversionType::INERT => {}
            }
        }
    }
}

#[test]
fn without_chemistry_every_species_is_inert() {
    let mut rng = seeded(3);
    let types = conversion_types(6, false, &mut rng);
    assert_eq!(types.len(), 6);
    assert!(types.iter().all(|t| matches!(t, ConversionType::INERT)));
}

#[test]
fn one_species_is_inert_with_or_without_chemistry() {
    for seed in 0..20u64 {
        for chemistry in [true, false] {
            let mut rng = seeded(seed);
            let types = conversion_types(1, chemistry, &mut rng);
            assert_eq!(types.len(), 1);
            assert!(matches!(types[0], ConversionType::INERT));
        }
    }
}

fn sample_table() -> Vec<ConversionType> {
    vec![
        ConversionType::CONVERTS { converts_to: 1, catalysts: vec![false, false, true] },
        ConversionType::CONVERTS { converts_to: 0, catalysts: vec![true, false, false] },
        ConversionType::INERT,
    ]
}

#[test]
fn fresh_particles_are_catalyzable_only_when_converting() {
    let t = sample_table();
    assert!(initially_catalyzable(&t, 0));
    assert!(initially_catalyzable(&t, 1));
    assert!(!initially_catalyzable(&t, 2));
}

#[test]
fn contact_with_a_catalyst_spends_the_flag() {
    let t = sample_table();
    assert!(!catalyzed_on_contact(&t, 0, true, 2));
    assert!(catalyzed_on_contact(&t, 0, true, 0));
    assert!(catalyzed_on_contact(&t, 0, true, 1));
    assert!(!catalyzed_on_contact(&t, 1, true, 0));
    assert!(catalyzed_on_contact(&t, 1, true, 2));
    assert!(!catalyzed_on_contact(&t, 0, false, 0));
}

#[test]
fn inert_contact_keeps_the_flag() {
    let t = sample_table();
    assert!(!catalyzed_on_contact(&t, 2, false, 0));
    assert!(catalyzed_on_contact(&t, 2, true, 1));
}

#[test]
fn commit_converts_spent_particles() {
    let t = sample_table();
    assert_eq!(commit_conversion(&t, 0, false), (1, true));
    assert_eq!(commit_conversion(&t, 1, false), (0, true));
    assert_eq!(commit_conversion(&t, 0, true), (0, true));
    assert_eq!(commit_conversion(&t, 2, false), (2, false));
    assert_eq!(commit_conversion(&t, 2, true), (2, true));
}

#[test]
fn inert_species_never_changes() {
    let t = sample_table();
    let mut species = 2usize;
    let mut flag = initially_catalyzable(&t, species);
    for tick in 0..100usize {
        for other in [0usize, 1, 2, tick % 3] {
            flag = catalyzed_on_contact(&t, species, flag, other);
        }
        let (s, f) = commit_conversion(&t, species, flag);
        species = s;
        flag = f;
        assert_eq!(species, 2);
    }
}

#[test]
fn converting_particle_cycles_through_its_chain() {
    let t = sample_table();
    let mut species = 0usize;
    let mut flag = initially_catalyzable(&t, species);
    flag = catalyzed_on_contact(&t, species, flag, 2);
    let (s, f) = commit_conversion(&t, species, flag);
    species = s;
    flag = f;
    assert_eq!((species, flag), (1, true));
    flag = catalyzed_on_contact(&t, species, flag, 0);
    let (s, f) = commit_conversion(&t, species, flag);
    assert_eq!((s, f), (0, true));
}
