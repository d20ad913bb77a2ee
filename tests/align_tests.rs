use splice_phase::align::{
    banded_nw_splice_aware, nw_splice_aware, semi_nw_splice_aware, substitution_score, AlignError, MATCH_SCORE,
    MISMATCH_SCORE, NEG_INF,
};
use splice_phase::column::ColumnBaseCount;

fn column(bases: &str, ref_base: u8) -> ColumnBaseCount {
    ColumnBaseCount::new_from_column(&bases.as_bytes().to_vec(), ref_base)
}

fn profile_of(refs: &str, depth: usize) -> Vec<ColumnBaseCount> {
    refs.bytes().map(|b| column(&String::from_utf8(vec![b; depth]).unwrap(), b)).collect()
}

#[test]
fn perfect_match_scores_four_matches() {
    let profile = profile_of("AAAC", 4);
    let query = b"AAAC".to_vec();
    let (score, aq, ar, am) = nw_splice_aware(&query, &profile);
    assert_eq!(score, 4 * MATCH_SCORE);
    assert_eq!(aq, b"AAAC".to_vec());
    assert_eq!(ar, b"AAAC".to_vec());
    assert_eq!(am, b"AAAC".to_vec());
}

#[test]
fn mismatch_is_scored_against_the_reference_base() {
    let profile = profile_of("AAAC", 4);
    let (score, aq, _, _) = nw_splice_aware(&b"AAAA".to_vec(), &profile);
    assert_eq!(score, 3 * MATCH_SCORE + MISMATCH_SCORE);
    assert_eq!(aq, b"AAAA".to_vec());
}

#[test]
fn deletion_costs_gap_open_and_extend() {
    let profile = profile_of("ACGTACGT", 3);
    let (score, aq, ar, am) = nw_splice_aware(&b"ACGACGT".to_vec(), &profile);
    assert_eq!(aq.len(), ar.len());
    assert_eq!(ar.len(), am.len());
    assert_eq!(score, 7 * MATCH_SCORE - 3000);
    assert_eq!(ar, b"ACGTACGT".to_vec());
    assert_eq!(aq.iter().filter(|&&b| b == b'-').count(), 1);
}

#[test]
fn long_skip_becomes_an_intron() {
    let mut refs = String::from("ACGTACGTAC");
    refs.push_str(&"T".repeat(60));
    refs.push_str("GATTACAGAT");
    let profile = profile_of(&refs, 2);
    let query = b"ACGTACGTACGATTACAGAT".to_vec();
    let (score, aq, ar, am) = nw_splice_aware(&query, &profile);
    assert_eq!(aq.len(), profile.len());
    assert_eq!(ar.len(), am.len());
    assert_eq!(aq.iter().filter(|&&b| b == b'N').count(), 60);
    assert_eq!(score, 20 * MATCH_SCORE - 32000 - 2 * 9000);
}

#[test]
fn query_longer_than_profile_cannot_align() {
    let profile = profile_of("AC", 3);
    let (score, aq, ar, am) = nw_splice_aware(&b"ACG".to_vec(), &profile);
    assert_eq!(score, NEG_INF);
    assert_eq!(aq.len(), ar.len());
    assert_eq!(ar.len(), am.len());
}

#[test]
fn empty_query_leaves_profile_blank() {
    let profile = profile_of("ACG", 3);
    let (_, aq, ar, _) = nw_splice_aware(&Vec::new(), &profile);
    assert_eq!(aq, b"   ".to_vec());
    assert_eq!(ar, b"ACG".to_vec());
}

#[test]
fn lengths_agree_for_all_variants() {
    let profile = profile_of("ACGTTGCAACGT", 7);
    for q in ["ACGT", "TTGCA", "ACGTTGCAACGT", "GGGG", ""] {
        let query = q.as_bytes().to_vec();
        let (_, a, b, c) = nw_splice_aware(&query, &profile);
        assert!(a.len() == b.len() && b.len() == c.len());
        let (_, a, b, c) = semi_nw_splice_aware(&query, &profile);
        assert!(a.len() == b.len() && b.len() == c.len());
        if let Ok((_, a, b, c)) = banded_nw_splice_aware(&query, &profile, 12) {
            assert!(a.len() == b.len() && b.len() == c.len());
        }
    }
}

#[test]
fn semi_global_places_query_inside_profile() {
    let profile = profile_of("TTTTACGTTTTT", 3);
    let (score, aq, ar, _) = semi_nw_splice_aware(&b"ACGT".to_vec(), &profile);
    assert_eq!(score, 4 * MATCH_SCORE);
    assert_eq!(aq.len(), 12);
    assert_eq!(ar, b"TTTTACGTTTTT".to_vec());
    assert_eq!(&aq[4..8], b"ACGT");
    assert_eq!(&aq[8..], b"    ");
}

#[test]
fn wide_band_matches_global() {
    let profile = profile_of("ACGTTGCAACGTAGGT", 4);
    for q in ["ACGTTGCAACGTAGGT", "ACGTGCAACGTAGGT", "ACGTTGCAAGTAGG"] {
        let query = q.as_bytes().to_vec();
        let global = nw_splice_aware(&query, &profile);
        let banded = banded_nw_splice_aware(&query, &profile, query.len() + profile.len()).unwrap();
        assert_eq!(banded, global);
    }
}

#[test]
fn narrow_band_is_refused() {
    let profile = profile_of("ACGTACGTAC", 4);
    let r = banded_nw_splice_aware(&b"ACG".to_vec(), &profile, 2);
    assert_eq!(r, Err(AlignError::BandTooNarrow));
}

#[test]
fn deep_column_uses_frequency_score() {
    let col = column("AAAAAAAC", b'A');
    assert_eq!(col.get_depth(), 8);
    // A is the majority: score1 0, miscall 1/8 -> 125; mean 62; 2000 - 186
    assert_eq!(substitution_score(&col, b'A'), 2000 - 3 * 62);
    // C: score1 1, miscall 7/8 -> 875; mean 937; 2000 - 2811
    assert_eq!(substitution_score(&col, b'C'), 2000 - 3 * 937);
}
