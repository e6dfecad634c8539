use l4::maglev::{build_table, fill_table, params_from_hashes, permutation_params, SEED_OFFSET, SEED_SKIP};
use xxhash_rust::xxh3::xxh3_64_with_seed;

const M: usize = 65537;

fn keys(n: usize) -> Vec<String> {
    (0..n).map(|i| format!("10.0.{}.{}:80", i / 256, i % 256)).collect()
}

/// Round-robin filling done the obvious way, as a yardstick.
fn filled_by_hand(params: &[(usize, usize)]) -> Vec<u32> {
    let mut entry = vec![u32::MAX; M];
    let mut left = M;
    let mut turn = 0;
    while left > 0 {
        let j = turn % params.len();
        let (offset, skip) = params[j];
        let free = (0..M).map(|k| (offset + k * skip) % M).find(|&c| entry[c] == u32::MAX);
        entry[free.unwrap()] = j as u32;
        left -= 1;
        turn += 1;
    }
    entry
}

#[test]
fn no_backends_leaves_every_slot_empty() {
    let table = build_table(&[]);
    assert_eq!(table.len(), M);
    assert!(table.iter().all(|&slot| slot == u32::MAX));
}

#[test]
fn one_backend_owns_every_slot() {
    let table = build_table(&keys(1));
    assert_eq!(table.len(), M);
    assert!(table.iter().all(|&slot| slot == 0));
}

#[test]
fn slots_are_shared_out_evenly() {
    for n in [2usize, 3, 7, 650] {
        let table = build_table(&keys(n));
        let mut owned = vec![0usize; n];
        for &slot in &table {
            owned[slot as usize] += 1;
        }
        for (j, &count) in owned.iter().enumerate() {
            let expected = M / n + usize::from(j < M % n);
            assert_eq!(count, expected, "backend {j} of {n}");
        }
    }
}

#[test]
fn permutation_is_seeded_by_the_key() {
    for key in ["10.0.0.1:80", "", "172.18.0.10:3000"] {
        let offset = xxh3_64_with_seed(key.as_bytes(), SEED_OFFSET) as usize % M;
        let skip = xxh3_64_with_seed(key.as_bytes(), SEED_SKIP) as usize % (M - 1) + 1;
        assert_eq!(permutation_params(key), (offset, skip));
    }
    assert_ne!(permutation_params("10.0.0.1:80"), permutation_params("10.0.0.2:80"));
}

#[test]
fn seeds_are_fixed() {
    assert_eq!(SEED_OFFSET, 0xDEAD_BEEF);
    assert_eq!(SEED_SKIP, 0xCAFE_BABE);
}

#[test]
fn hashes_are_reduced_to_offset_and_skip() {
    assert_eq!(params_from_hashes(0, 0), (0, 1));
    assert_eq!(params_from_hashes(65536, 65535), (65536, 65536));
    assert_eq!(params_from_hashes(65537, 65536), (0, 1));
    assert_eq!(params_from_hashes(131080, 131079), (6, 8));
}

#[test]
fn permutation_visits_every_slot_once() {
    for (offset, skip) in [(0usize, 1usize), (65536, 65536), permutation_params("10.0.0.1:80")] {
        let mut seen = vec![false; M];
        for k in 0..M {
            let slot = (offset + k * skip) % M;
            assert!(!seen[slot]);
            seen[slot] = true;
        }
        assert!(seen.iter().all(|&s| s));
    }
}

#[test]
fn turns_alternate_between_backends() {
    // Both walk upwards from slot 0, so they take the slots in turn.
    let table = fill_table(&[(0, 1), (0, 1)]);
    for (slot, &owner) in table.iter().enumerate() {
        assert_eq!(owner as usize, slot % 2);
    }
    // One walks up and one walks down, so they meet in the middle.
    let table = fill_table(&[(0, 1), (65536, 65536)]);
    assert!(table[..32769].iter().all(|&owner| owner == 0));
    assert!(table[32769..].iter().all(|&owner| owner == 1));
}

#[test]
fn table_matches_round_robin_filling() {
    let params = [(5, 1), (5, 2), (100, 65530)];
    assert_eq!(fill_table(&params), filled_by_hand(&params));
}

#[test]
fn table_depends_on_the_keys_alone() {
    let names = keys(5);
    assert_eq!(build_table(&names), build_table(&names.clone()));
    let params: Vec<(usize, usize)> = names.iter().map(|k| permutation_params(k)).collect();
    assert_eq!(build_table(&names), fill_table(&params));
}

#[test]
fn losing_a_backend_moves_few_other_slots() {
    let all = keys(10);
    let before = build_table(&all);
    let after = build_table(&all[..9]);
    let moved = before.iter().zip(&after).filter(|(a, b)| **a != 9 && a != b).count();
    assert!(moved < M / 5, "{moved} slots moved");
}

#[test]
fn the_table_size_is_prime() {
    assert_eq!(l4::common::M as usize, M);
    assert!((2..M).all(|d| M % d != 0));
}
