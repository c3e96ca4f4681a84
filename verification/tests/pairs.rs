use mol_job::lennard_jones::{first_pair, next_pair};

fn all_pairs(n: usize) -> Vec<(usize, usize)> {
    let mut pairs = Vec::new();
    let mut pair = first_pair(n);
    while let Some((j1, j2)) = pair {
        pairs.push((j1, j2));
        pair = next_pair(n, j1, j2);
    }
    pairs
}

#[test]
fn pairs_of_four_particles() {
    assert_eq!(all_pairs(4), vec![(0, 1), (0, 2), (0, 3), (1, 2), (1, 3), (2, 3)]);
}

#[test]
fn fewer_than_two_particles_form_no_pair() {
    assert_eq!(first_pair(0), None);
    assert_eq!(first_pair(1), None);
}

#[test]
fn two_particles_form_one_pair() {
    assert_eq!(first_pair(2), Some((0, 1)));
    assert_eq!(next_pair(2, 0, 1), None);
}

#[test]
fn next_pair_moves_to_the_next_row() {
    assert_eq!(next_pair(5, 0, 4), Some((1, 2)));
    assert_eq!(next_pair(5, 2, 4), Some((3, 4)));
    assert_eq!(next_pair(5, 3, 4), None);
    assert_eq!(next_pair(5, 1, 2), Some((1, 3)));
}

#[test]
fn pair_count_is_n_times_n_minus_one_halved() {
    for n in 0..20usize {
        let pairs = all_pairs(n);
        assert_eq!(pairs.len(), n * n.saturating_sub(1) / 2);
        for (j1, j2) in pairs {
            assert!(j1 < j2 && j2 < n);
        }
    }
}

#[test]
fn pairs_match_the_nested_loop() {
    let n = 7;
    let mut expected = Vec::new();
    for j1 in 0..(n - 1) {
        for j2 in (j1 + 1)..n {
            expected.push((j1, j2));
        }
    }
    assert_eq!(all_pairs(n), expected);
}
