use mol_job::lattice::{cell_count, checked_number_of_atoms, lattice, next_site, number_of_atoms};

#[test]
fn number_of_atoms_multiplies_the_axes() {
    assert_eq!(number_of_atoms(&[2, 3, 4]), 24);
    assert_eq!(number_of_atoms(&[10, 10, 10]), 1000);
    assert_eq!(number_of_atoms(&[7]), 7);
}

#[test]
fn number_of_atoms_of_no_axis_is_one() {
    assert_eq!(number_of_atoms(&[]), 1);
}

#[test]
fn number_of_atoms_with_an_empty_axis_is_zero() {
    assert_eq!(number_of_atoms(&[5, 0, 3]), 0);
    assert_eq!(number_of_atoms(&[usize::MAX, usize::MAX, 0]), 0);
}

#[test]
fn checked_number_of_atoms_reports_overflow() {
    assert_eq!(checked_number_of_atoms(&[usize::MAX, 2]), None);
    assert_eq!(checked_number_of_atoms(&[usize::MAX, 1]), Some(usize::MAX));
    assert_eq!(checked_number_of_atoms(&[usize::MAX, 2, 0]), Some(0));
    assert_eq!(checked_number_of_atoms(&[3, 5]), Some(15));
}

#[test]
fn cell_count_of_perfect_powers() {
    assert_eq!(cell_count(1000, 3), 10);
    assert_eq!(cell_count(8, 3), 2);
    assert_eq!(cell_count(27, 3), 3);
    assert_eq!(cell_count(49, 2), 7);
    assert_eq!(cell_count(1024, 10), 2);
}

#[test]
fn cell_count_rounds_down() {
    assert_eq!(cell_count(999, 3), 9);
    assert_eq!(cell_count(1001, 3), 10);
    assert_eq!(cell_count(26, 3), 2);
    assert_eq!(cell_count(10, 3), 2);
    assert_eq!(cell_count(48, 2), 6);
    assert_eq!(cell_count(5, 100), 1);
}

#[test]
fn cell_count_of_small_numbers() {
    assert_eq!(cell_count(0, 3), 0);
    assert_eq!(cell_count(1, 3), 1);
    assert_eq!(cell_count(1, 1), 1);
    assert_eq!(cell_count(2, 2), 1);
    assert_eq!(cell_count(0, 1), 0);
}

#[test]
fn cell_count_in_one_dimension_is_the_number() {
    assert_eq!(cell_count(17, 1), 17);
    assert_eq!(cell_count(usize::MAX, 1), usize::MAX);
}

#[test]
fn cell_count_of_the_largest_number() {
    let root = cell_count(usize::MAX, 2) as u128;
    assert!(root * root <= usize::MAX as u128);
    assert!((root + 1) * (root + 1) > usize::MAX as u128);
    assert_eq!(cell_count(usize::MAX, usize::MAX), 1);
}

#[test]
fn lattice_counts_with_the_last_axis_fastest() {
    let sites = lattice(&[2, 3]);
    let expected: Vec<Vec<usize>> = vec![
        vec![0, 0],
        vec![0, 1],
        vec![0, 2],
        vec![1, 0],
        vec![1, 1],
        vec![1, 2],
    ];
    assert_eq!(sites, expected);
}

#[test]
fn lattice_on_one_axis() {
    assert_eq!(lattice(&[3]), vec![vec![0], vec![1], vec![2]]);
}

#[test]
fn lattice_with_an_empty_axis_has_no_site() {
    assert!(lattice(&[2, 0]).is_empty());
    assert!(lattice(&[0]).is_empty());
}

#[test]
fn lattice_length_is_the_number_of_atoms() {
    let cells = [3, 4, 5];
    let sites = lattice(&cells);
    assert_eq!(sites.len(), number_of_atoms(&cells));
    assert_eq!(sites[0], vec![0, 0, 0]);
    assert_eq!(sites[59], vec![2, 3, 4]);
    assert_eq!(sites[27], vec![1, 1, 2]);
}

#[test]
fn lattice_visits_each_cell_once() {
    let sites = lattice(&[3, 2, 4]);
    for (k, here) in sites.iter().enumerate() {
        assert_eq!((here[0] * 2 + here[1]) * 4 + here[2], k);
    }
}

#[test]
fn next_site_carries_over() {
    let cells = [2, 3];
    let mut current = vec![0, 2];
    assert!(next_site(&cells, &mut current));
    assert_eq!(current, vec![1, 0]);
    assert!(next_site(&cells, &mut current));
    assert_eq!(current, vec![1, 1]);
}

#[test]
fn next_site_after_the_last_returns_to_the_first() {
    let cells = [2, 2];
    let mut current = vec![1, 1];
    assert!(!next_site(&cells, &mut current));
    assert_eq!(current, vec![0, 0]);
}

#[test]
fn cubic_lattice() {
    let (count, sites) = mol_job::lattice::cubic_lattice(1000, 3);
    assert_eq!(count, 10);
    assert_eq!(sites.len(), 1000);
    assert_eq!(sites[0], vec![0, 0, 0]);
    assert_eq!(sites[123], vec![1, 2, 3]);
    assert_eq!(sites[999], vec![9, 9, 9]);
    let mut job = mol_job::job::Job::new();
    assert_eq!(0, job.run(100));
    assert_eq!(job.step_count(), 100);
}

#[test]
fn cubic_lattice_may_hold_fewer_than_asked() {
    let (count, sites) = mol_job::lattice::cubic_lattice(10, 3);
    assert_eq!(count, 2);
    assert_eq!(sites.len(), 8);
    let (count, sites) = mol_job::lattice::cubic_lattice(63, 2);
    assert_eq!(count, 7);
    assert_eq!(sites.len(), 49);
}

#[test]
fn cubic_lattice_of_no_particle_is_empty() {
    let (count, sites) = mol_job::lattice::cubic_lattice(0, 3);
    assert_eq!(count, 0);
    assert!(sites.is_empty());
}
