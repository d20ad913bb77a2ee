use splice_phase::matrix::{normalize_read_row, realigned_cigar, MatrixError, MatrixRow, PileupMatrix};
use splice_phase::phase::CigarOp;

fn row(name: &str, bases: &str) -> MatrixRow {
    MatrixRow { name: name.as_bytes().to_vec(), bases: bases.as_bytes().to_vec() }
}

#[test]
fn column_profile_skips_the_reference_row() {
    let m = vec![row("ref", "ACGT"), row("r1", "AC-T"), row("r2", "AGGT")];
    let mut p = Vec::new();
    PileupMatrix::generate_column_profile(&m, &mut p).unwrap();
    assert_eq!(p.len(), 4);
    assert_eq!(p[1].ref_base, b'C');
    assert_eq!((p[1].n_c, p[1].n_g), (1, 1));
    assert_eq!(p[2].n_dash, 1);
    assert_eq!(p[3].n_t, 2);
}

#[test]
fn ragged_and_empty_matrices_are_refused() {
    let mut p = Vec::new();
    assert_eq!(PileupMatrix::generate_column_profile(&Vec::new(), &mut p), Err(MatrixError::EmptyMatrix));
    let m = vec![row("ref", "ACGT"), row("r1", "AC")];
    assert_eq!(PileupMatrix::generate_column_profile(&m, &mut p), Err(MatrixError::RaggedMatrix));
    assert!(p.is_empty());
}

#[test]
fn reduced_profile_drops_columns_without_bases() {
    let m = vec![row("ref", "ACNGTA"), row("r1", "AC GT "), row("r2", "A NGT ")];
    let mut p = Vec::new();
    let mut idx = Vec::new();
    let mut reduced = Vec::new();
    PileupMatrix::generate_reduced_profile(&m, &mut p, &mut idx, &mut reduced).unwrap();
    // the N-only column goes, the blank-only one stays
    assert_eq!(idx, vec![0, 1, 3, 4, 5]);
    assert_eq!(p.len(), 5);
    assert_eq!(reduced[1].bases, b"ACGT ".to_vec());
    assert_eq!(reduced[0].name, b"ref".to_vec());
}

#[test]
fn realignment_moves_a_misplaced_gap() {
    let m = vec![
        row("ref", "ACGTTACG"),
        row("r1", "ACGTTACG"),
        row("r2", "ACGTTACG"),
        row("r3", "ACG-TACG"),
        row("r4", "ACGT-ACG"),
    ];
    let mut best = Vec::new();
    let mut idx = Vec::new();
    PileupMatrix::profile_realign(&m, &mut best, &mut idx).unwrap();
    assert_eq!(idx, (0..8).collect::<Vec<usize>>());
    for r in best.iter() {
        assert_eq!(r.bases.len(), 8);
    }
}

#[test]
fn realigned_rows_are_written_back() {
    let mut pm = PileupMatrix::new();
    pm.base_matrix = vec![row("ref", "ACGTA"), row("r1", "ACGTA")];
    let realigned = vec![row("r1", "A-T")];
    pm.update_base_matrix_from_realign(&realigned, &vec![0, 1, 3]).unwrap();
    assert_eq!(pm.base_matrix[1].bases, b"A-GTA".to_vec());
    let bad = vec![row("r1", "A-")];
    assert_eq!(pm.update_base_matrix_from_realign(&bad, &vec![0, 1, 3]), Err(MatrixError::RealignLength));
}

#[test]
fn matrix_is_built_column_by_column() {
    let mut pm = PileupMatrix::new();
    pm.insert(&b"ref".to_vec(), &b"A".to_vec(), 100).unwrap();
    pm.insert(&b"r1".to_vec(), &b"A".to_vec(), 100).unwrap();
    pm.insert(&b"ref".to_vec(), &b"C".to_vec(), 101).unwrap();
    pm.insert(&b"r2".to_vec(), &b"C".to_vec(), 101).unwrap();
    assert_eq!(pm.max_idx, 1);
    assert_eq!(pm.current_pos, 101);
    assert_eq!(pm.positions, vec![(100, 0), (101, 1)]);
    assert_eq!(pm.base_matrix[0].bases, b"AC".to_vec());
    assert_eq!(pm.base_matrix[1].bases, b"A".to_vec());
    assert_eq!(pm.base_matrix[2].bases, b" C".to_vec());
    let mut lengths = Vec::new();
    lengths.push((b"ref".to_vec(), 0u32));
    lengths.push((b"r2".to_vec(), 2u32));
    pm.insert(&b"r2".to_vec(), &b"GT".to_vec(), 101).unwrap();
    pm.expand(&lengths, 101, 2).unwrap();
    assert_eq!(pm.max_idx, 2);
    assert_eq!(pm.base_matrix[0].bases, b"AC--".to_vec());
    assert_eq!(pm.base_matrix[2].bases, b" CGT".to_vec());
    pm.padding();
    assert_eq!(pm.base_matrix[1].bases, b"A  ".to_vec());
    assert_eq!(pm.base_matrix[0].bases, b"AC--".to_vec());
    let unknown = vec![(b"nobody".to_vec(), 0u32)];
    assert_eq!(pm.expand(&unknown, 102, 1), Err(MatrixError::UnknownRow));
    assert_eq!(pm.expand(&Vec::new(), 102, -10), Err(MatrixError::TooLarge));
    pm.clear();
    assert!(pm.base_matrix.is_empty() && pm.positions.is_empty());
    assert_eq!((pm.max_idx, pm.current_pos), (-1, -1));
}

#[test]
fn read_row_is_tidied_before_the_cigar() {
    let mut b = b"NN AC  GTN ".to_vec();
    let (first, last) = normalize_read_row(&mut b);
    assert_eq!((first, last), (3, 8));
    assert_eq!(b, b"   ACNNGT  ".to_vec());
}

#[test]
fn cigar_from_a_realigned_row() {
    let reference = b"  ACGTTTTACG-T".to_vec();
    let mut b = b"   CG-NNNAC GA".to_vec();
    let (first, last) = normalize_read_row(&mut b);
    let (ops, blanks) = realigned_cigar(&reference, &b, first, last).unwrap();
    let got: Vec<(u8, u32)> = ops.iter().map(|c: &CigarOp| (c.op, c.len)).collect();
    assert_eq!(got, vec![(b'M', 2), (b'D', 1), (b'N', 3), (b'M', 2), (b'N', 1), (b'I', 1), (b'M', 1)]);
    assert_eq!(blanks, 1);
    let bad_ref = b"-".to_vec();
    assert_eq!(realigned_cigar(&bad_ref, &b"-".to_vec(), 0, 0), Err(MatrixError::RealignLength));
}

#[test]
fn rows_without_a_match_are_passed_over() {
    let mut pm = PileupMatrix::new();
    pm.base_matrix = vec![row("ref", "ACGTA"), row("r1", "ACGTA")];
    let realigned = vec![row("ref", "XX"), row("r9", "A-T"), row("r1", "T-A")];
    pm.update_base_matrix_from_realign(&realigned, &vec![0, 1, 4]).unwrap();
    assert_eq!(pm.base_matrix[0].bases, b"ACGTA".to_vec());
    assert_eq!(pm.base_matrix[1].bases, b"T-GTA".to_vec());
    let outside = vec![row("r1", "AAA")];
    assert_eq!(pm.update_base_matrix_from_realign(&outside, &vec![0, 1, 9]), Err(MatrixError::RealignLength));
}

#[test]
fn blank_run_counts_reference_bases_only() {
    let reference = b" A-CGT".to_vec();
    let mut b = b"   CGT".to_vec();
    let (first, last) = normalize_read_row(&mut b);
    assert_eq!((first, last), (3, 5));
    let (ops, blanks) = realigned_cigar(&reference, &b, first, last).unwrap();
    assert_eq!(ops, vec![CigarOp { op: b'M', len: 3 }]);
    assert_eq!(blanks, 1);
}
