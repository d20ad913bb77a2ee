use splice_phase::phase::{
    genotype_of, AlignedRead, BaseFreq, CandidateSNP, CigarOp, ErrorModel, PhaseError, PileupProfile, SNPFrag,
};

fn phred_model() -> ErrorModel {
    let err = |q: usize| 10f64.powf(-(q as f64) / 10.0);
    let micro = |x: f64| (x * 1_000_000.0).round() as i64;
    let floor = 1e-8f64;
    let log_ok: Vec<i64> = (0..256).map(|q| micro((1.0 - err(q)).max(floor).log10())).collect();
    let pair_weight: Vec<Vec<i64>> = (0..256)
        .map(|q1| {
            (0..256)
                .map(|q2| {
                    let (e1, e2) = (err(q1), err(q2));
                    let eps = (e1 * (1.0 - e2) + (1.0 - e1) * e2).clamp(floor, 1.0 - floor);
                    micro(((1.0 - eps) / eps).log10())
                })
                .collect()
        })
        .collect();
    ErrorModel { log_ok, pair_weight }
}

fn snp(pos: i64, a1: u8, a2: u8) -> CandidateSNP {
    CandidateSNP {
        chromosome: b"chr1".to_vec(),
        pos,
        alleles: [a1, a2],
        allele_counts: [5, 5],
        reference: a1,
        depth: 10,
    }
}

fn read(id: &str, pos: i64, cigar: Vec<(u8, u32)>, seq: &str) -> AlignedRead {
    AlignedRead {
        read_id: id.as_bytes().to_vec(),
        pos,
        leading_softclips: 0,
        cigar: cigar.into_iter().map(|(op, len)| CigarOp { op, len }).collect(),
        seq: seq.as_bytes().to_vec(),
        qual: vec![30; seq.len()],
    }
}

fn two_site_region() -> SNPFrag {
    let mut sf = SNPFrag::new();
    sf.snps.push(snp(2, b'A', b'G'));
    sf.snps.push(snp(5, b'C', b'T'));
    sf
}

fn freq(a: u32, c: u32, g: u32, t: u32, ref_base: u8) -> BaseFreq {
    BaseFreq { a, c, g, t, n: 0, d: 0, i: false, ref_base }
}

#[test]
fn candidate_sites_from_pileup() {
    let profile = PileupProfile {
        chromosome: b"chr2".to_vec(),
        start: 101,
        freq_vec: vec![
            freq(10, 0, 0, 0, b'A'),
            freq(6, 0, 4, 0, b'A'),
            BaseFreq { a: 9, c: 0, g: 0, t: 9, n: 0, d: 0, i: true, ref_base: b'A' },
            freq(0, 1, 0, 2, b'C'),
            freq(0, 0, 0, 12, b'C'),
        ],
    };
    let mut sf = SNPFrag::new();
    sf.get_candidate_snps(&profile, 250_000, 10, 750_000);
    assert_eq!(sf.snps.len(), 1);
    let s = &sf.snps[0];
    assert_eq!(s.pos, 101);
    assert_eq!(s.alleles, [b'A', b'G']);
    assert_eq!(s.allele_counts, [6, 4]);
    assert_eq!(s.depth, 10);
    assert_eq!(s.chromosome, b"chr2".to_vec());
    assert_eq!(sf.homo_snps.len(), 1);
    assert_eq!(sf.homo_snps[0].pos, 103);
    assert_eq!(sf.homo_snps[0].alleles[0], b'T');
}

#[test]
fn second_allele_at_threshold_is_not_a_candidate() {
    let profile = PileupProfile { chromosome: b"c".to_vec(), start: 1, freq_vec: vec![freq(3, 1, 0, 0, b'A')] };
    let mut sf = SNPFrag::new();
    sf.get_candidate_snps(&profile, 250_000, 4, 1_000_000);
    assert_eq!(sf.snps.len(), 0);
    sf.get_candidate_snps(&profile, 249_999, 4, 1_000_000);
    assert_eq!(sf.snps.len(), 1);
    assert_eq!(sf.snps[0].pos, 0);
}

#[test]
fn in_phase_reads_give_a_positive_edge_and_one_sign() {
    let model = phred_model();
    let mut sf = two_site_region();
    let mut reads = Vec::new();
    for k in 0..6 {
        reads.push(read(&format!("a{}", k), 0, vec![(b'M', 8)], "AAAAACAA"));
    }
    for k in 0..4 {
        reads.push(read(&format!("b{}", k), 0, vec![(b'M', 8)], "AAGAATAA"));
    }
    sf.get_fragments(&reads, &model).unwrap();
    assert_eq!(sf.fragments.len(), 10);
    assert_eq!(sf.edges.len(), 1);
    assert_eq!(sf.edges[0].snp_idxes, [0, 1]);
    assert_eq!(sf.edges[0].frag_idxes.len(), 10);
    assert!(sf.edges[0].w > 0);
    assert_eq!(sf.edges[0].w, 10 * model.pair_weight[30][30] as i128);
    sf.haplotype = vec![1, -1];
    sf.optimization_using_maxcut();
    assert_eq!(sf.haplotype[0], sf.haplotype[1]);
    assert!(sf.phased);
}

#[test]
fn read_after_last_site_adds_nothing() {
    let model = phred_model();
    let mut sf = two_site_region();
    sf.get_fragments(&vec![read("late", 6, vec![(b'M', 4)], "ACGT")], &model).unwrap();
    assert_eq!(sf.fragments.len(), 0);
    assert_eq!(sf.edges.len(), 0);
    assert!(sf.snp_cover_fragments.iter().all(|c| c.is_empty()));
}

#[test]
fn deletions_and_intron_skips_observe_a_gap() {
    let model = phred_model();
    let mut sf = two_site_region();
    sf.get_fragments(&vec![read("d", 0, vec![(b'S', 2), (b'M', 2), (b'D', 1), (b'M', 1), (b'N', 2), (b'M', 1)], "TTAAAA")], &model).unwrap();
    assert_eq!(sf.fragments.len(), 1);
    let list = &sf.fragments[0].list;
    assert_eq!(list.len(), 2);
    assert_eq!((list[0].snp_idx, list[0].base, list[0].p), (0, b'-', 0));
    assert_eq!((list[1].snp_idx, list[1].base, list[1].p), (1, b'-', 0));
    assert_eq!(sf.edges.len(), 0);
    assert_eq!(sf.snp_cover_fragments[0], vec![0]);
}

#[test]
fn soft_clip_shifts_the_read() {
    let model = phred_model();
    let mut sf = two_site_region();
    let mut r = read("s", 0, vec![(b'S', 2), (b'M', 6)], "TTAAGAAT");
    r.leading_softclips = 2;
    sf.get_fragments(&vec![r], &model).unwrap();
    let list = &sf.fragments[0].list;
    assert_eq!((list[0].base, list[0].p), (b'G', -1));
    assert_eq!((list[1].base, list[1].p), (b'T', -1));
    assert_eq!(list[0].log_err, -3_000_000);
}

#[test]
fn unknown_cigar_operation_is_an_error() {
    let model = phred_model();
    let mut sf = two_site_region();
    let r = sf.get_fragments(&vec![read("x", 0, vec![(b'X', 8)], "AAAAAAAA")], &model);
    assert_eq!(r, Err(PhaseError::UnknownCigarOp));
}

#[test]
fn alignment_past_the_read_is_an_error() {
    let model = phred_model();
    let mut sf = two_site_region();
    let r = sf.get_fragments(&vec![read("short", 0, vec![(b'M', 8)], "AA")], &model);
    assert_eq!(r, Err(PhaseError::QueryOutOfRange));
}

#[test]
fn unsorted_sites_are_an_error() {
    let model = phred_model();
    let mut sf = SNPFrag::new();
    sf.snps.push(snp(5, b'A', b'G'));
    sf.snps.push(snp(2, b'C', b'T'));
    let r = sf.get_fragments(&vec![read("u", 0, vec![(b'M', 8)], "AAAAAAAA")], &model);
    assert_eq!(r, Err(PhaseError::PositionOrder));
}

#[test]
fn cross_optimization_never_loses_likelihood() {
    let model = phred_model();
    let mut sf = two_site_region();
    let mut reads = Vec::new();
    for k in 0..5 {
        reads.push(read(&format!("a{}", k), 0, vec![(b'M', 8)], "AAAAACAA"));
        reads.push(read(&format!("b{}", k), 0, vec![(b'M', 8)], "AAGAATAA"));
    }
    sf.get_fragments(&reads, &model).unwrap();
    sf.haplotype = vec![1, 1];
    sf.haplotag = vec![1; sf.fragments.len()];
    let before = SNPFrag::cal_overall_probability(&sf, &sf.haplotag, &sf.haplotype);
    let after = sf.cross_optimize();
    assert!(after >= before);
    assert_eq!(after, SNPFrag::cal_overall_probability(&sf, &sf.haplotag, &sf.haplotype));
    // the two groups of reads end on opposite sides
    assert_ne!(sf.haplotag[0], sf.haplotag[1]);
    let tags = sf.read_assignments();
    assert!(tags.iter().all(|&t| t == 1 || t == 2));
    assert_ne!(tags[0], tags[1]);
}

#[test]
fn likelihood_of_observations() {
    let delta = vec![1, -1];
    let ps = vec![1, 1];
    let errs = vec![-1_000_000, -2_000_000];
    let oks = vec![-40_000, -4_000];
    assert_eq!(SNPFrag::cal_sigma_delta(1, &delta, &ps, &errs, &oks), -1_000_000 - 4_000);
    assert_eq!(SNPFrag::cal_delta_sigma(-1, &delta, &ps, &errs, &oks), -40_000 - 2_000_000);
    let (q1, q2, q3) = SNPFrag::cal_delta_sigma_sum(1, &delta, &ps, &errs, &oks);
    assert_eq!(q1, -1_004_000);
    assert_eq!(q2, -1_004_000);
    assert_eq!(q3, -2_040_000);
}

#[test]
fn restarts_keep_the_best_state() {
    let model = phred_model();
    let mut sf = two_site_region();
    let mut reads = Vec::new();
    for k in 0..4 {
        reads.push(read(&format!("a{}", k), 0, vec![(b'M', 8)], "AAAAACAA"));
        reads.push(read(&format!("b{}", k), 0, vec![(b'M', 8)], "AAGAATAA"));
    }
    sf.get_fragments(&reads, &model).unwrap();
    sf.init_haplotypes();
    sf.init_assignment();
    assert!(sf.haplotype.iter().all(|&s| s == 1 || s == -1));
    let best = sf.phase_with_restarts(10, 200_000);
    assert_eq!(best, SNPFrag::cal_overall_probability(&sf, &sf.haplotag, &sf.haplotype));
    let mut sf2 = two_site_region();
    sf2.get_fragments(&reads, &model).unwrap();
    sf2.init_haplotypes();
    sf2.init_assignment();
    let r = sf2.phase_with_restarts(0, 500_000);
    assert_eq!(r, SNPFrag::cal_overall_probability(&sf2, &sf2.haplotag, &sf2.haplotype));
    // both searches reach the state where the two groups sit on opposite sides
    assert_eq!(r, best);
}

#[test]
fn genotype_labels() {
    let s = snp(10, b'A', b'G');
    assert_eq!(genotype_of(&s, -1, true), (vec![b'G'], b"0|1".to_vec()));
    assert_eq!(genotype_of(&s, 1, true), (vec![b'G'], b"1|0".to_vec()));
    assert_eq!(genotype_of(&s, 1, false), (vec![b'G'], b"0/1".to_vec()));
    let mut t = snp(10, b'C', b'T');
    t.reference = b'T';
    assert_eq!(genotype_of(&t, -1, true), (vec![b'C'], b"0|1".to_vec()));
    t.reference = b'G';
    assert_eq!(genotype_of(&t, 1, false), (vec![b'C', b'T'], b"1/2".to_vec()));
    assert_eq!(genotype_of(&t, 1, true), (vec![b'C', b'T'], b"1|2".to_vec()));
}

#[test]
fn random_flip_reverses_listed_sides() {
    let model = phred_model();
    let mut sf = two_site_region();
    let reads = vec![read("a", 0, vec![(b'M', 8)], "AAAAACAA"), read("b", 0, vec![(b'M', 8)], "AAGAATAA")];
    sf.get_fragments(&reads, &model).unwrap();
    sf.haplotype = vec![1, -1];
    sf.haplotag = vec![1, 1];
    sf.random_flip(&vec![1], &vec![0, 1]);
    assert_eq!(sf.haplotype, vec![1, 1]);
    assert_eq!(sf.haplotag, vec![-1, -1]);
    sf.random_flip(&Vec::new(), &vec![1]);
    assert_eq!(sf.haplotag, vec![-1, 1]);
}

#[test]
fn cover_lists_name_the_fragments_at_each_site() {
    let model = phred_model();
    let mut sf = two_site_region();
    let reads = vec![
        read("both", 0, vec![(b'M', 8)], "AAAAACAA"),
        read("first", 0, vec![(b'M', 3)], "AAG"),
        read("second", 4, vec![(b'M', 3)], "ACA"),
    ];
    sf.get_fragments(&reads, &model).unwrap();
    assert_eq!(sf.fragments.len(), 3);
    assert_eq!(sf.snp_cover_fragments[0], vec![0, 1]);
    assert_eq!(sf.snp_cover_fragments[1], vec![0, 2]);
    assert_eq!(sf.edges.len(), 1);
    assert_eq!(sf.edges[0].frag_idxes, vec![0]);
}
