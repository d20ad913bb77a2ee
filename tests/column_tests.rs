use splice_phase::column::ColumnBaseCount;

#[test]
fn counts_each_base_in_either_case() {
    let c = ColumnBaseCount::new_from_column(&b"AaCgT- N".to_vec(), b'G');
    assert_eq!((c.n_a, c.n_c, c.n_g, c.n_t, c.n_dash, c.n_blank), (2, 1, 1, 1, 1, 1));
    assert_eq!(c.n_n, 1);
    assert_eq!(c.max_count, 2);
    assert_eq!(c.get_ref_base(), b'G');
    assert_eq!(c.get_depth(), 6);
}

#[test]
fn majority_ties_follow_alphabet_order() {
    let c = ColumnBaseCount::new_from_column(&b"CCGG".to_vec(), b'A');
    assert_eq!(c.get_major_base(), b'C');
    let c = ColumnBaseCount::new_from_column(&b"--T".to_vec(), b'A');
    assert_eq!(c.get_major_base(), b'-');
    let c = ColumnBaseCount::new_from_column(&b"   ".to_vec(), b'A');
    assert_eq!(c.n_n, 0);
    assert_eq!(c.get_major_base(), b'A');
    let c = ColumnBaseCount::new_from_column(&b"NnA ".to_vec(), b'A');
    assert_eq!(c.n_n, 2);
    assert_eq!(c.get_major_base(), b'N');
}

#[test]
fn empty_column_has_no_counts() {
    let c = ColumnBaseCount::new();
    assert_eq!(c.max_count, 0);
    assert_eq!(c.get_depth(), 0);
    assert_eq!(c.get_score2(&b'A'), 0);
}

#[test]
fn scores_of_a_column() {
    let c = ColumnBaseCount::new_from_column(&b"AAAC".to_vec(), b'A');
    assert_eq!(c.get_score1(&b'A'), 0);
    assert_eq!(c.get_score1(&b'C'), 1);
    assert_eq!(c.get_score2(&b'A'), 250);
    assert_eq!(c.get_score2(&b'C'), 750);
    assert_eq!(c.get_score(&b'A'), 125);
    assert_eq!(c.get_score(&b'C'), 875);
    assert_eq!(c.get_score2(&b'x'), 1000);
}
