//! Read-backed phasing of candidate heterozygous sites: candidate calling from pileup
//! counts, per-read fragments and the weighted site graph, a max-cut start, and the
//! alternating likelihood ascent over haplotype and read assignment.
use vstd::prelude::*;
use crate::column::{BASE_A, BASE_C, BASE_G, BASE_T};
use rand::seq::SliceRandom;

verus! {

/// Frequencies are given in parts per million.
pub const FREQ_SCALE: u64 = 1_000_000;

/// Base counts of one reference position, as a pileup reports them.
#[derive(Clone, Copy, Debug)]
pub struct BaseFreq {
    pub a: u32,
    pub c: u32,
    pub g: u32,
    pub t: u32,
    /// Reads that skip the position inside an intron.
    pub n: u32,
    /// Reads with a deletion at the position.
    pub d: u32,
    /// The column is an insertion, not a reference position.
    pub i: bool,
    pub ref_base: u8,
}

/// Pileup of a region: one `BaseFreq` per column, from reference position `start`
/// (1-based) on.
pub struct PileupProfile {
    pub chromosome: Vec<u8>,
    pub start: i64,
    pub freq_vec: Vec<BaseFreq>,
}

/// A candidate site: 0-based position, the two most frequent alleles with their
/// counts (their frequencies are the counts over `depth`), reference base and depth.
#[derive(Debug)]
pub struct CandidateSNP {
    pub chromosome: Vec<u8>,
    pub pos: i64,
    pub alleles: [u8; 2],
    pub allele_counts: [u32; 2],
    pub reference: u8,
    pub depth: u64,
}

/// Depth of a position without intron skips and deletions.
pub open spec fn depth_of(bf: BaseFreq) -> int {
    bf.a + bf.c + bf.g + bf.t
}

pub open spec fn count_at(bf: BaseFreq, k: int) -> int {
    if k == 0 { bf.a as int } else if k == 1 { bf.c as int } else if k == 2 { bf.g as int } else { bf.t as int }
}

pub open spec fn base_code(k: int) -> u8 {
    if k == 0 { BASE_A } else if k == 1 { BASE_C } else if k == 2 { BASE_G } else { BASE_T }
}

/// Index (A, C, G, T) of the most frequent base, the first one on ties.
pub open spec fn first_allele(bf: BaseFreq) -> int {
    if bf.a >= bf.c && bf.a >= bf.g && bf.a >= bf.t {
        0
    } else if bf.c >= bf.g && bf.c >= bf.t {
        1
    } else if bf.g >= bf.t {
        2
    } else {
        3
    }
}

/// Index of the most frequent base other than the first allele, the first one on ties.
pub open spec fn second_allele(bf: BaseFreq) -> int {
    let k1 = first_allele(bf);
    let x = if k1 == 0 { 1int } else { 0int };
    let y = if k1 <= 1 { 2int } else { 1int };
    let z = if k1 <= 2 { 3int } else { 2int };
    if count_at(bf, x) >= count_at(bf, y) && count_at(bf, x) >= count_at(bf, z) {
        x
    } else if count_at(bf, y) >= count_at(bf, z) {
        y
    } else {
        z
    }
}

/// The position is a heterozygous candidate.
pub open spec fn is_het_candidate(bf: BaseFreq, min_allele_freq: u64, min_coverage: u32) -> bool {
    &&& !bf.i
    &&& depth_of(bf) >= min_coverage
    &&& depth_of(bf) > 0
    &&& count_at(bf, second_allele(bf)) * FREQ_SCALE > min_allele_freq * depth_of(bf)
}

/// The position is a homozygous non-reference candidate.
pub open spec fn is_homo_candidate(bf: BaseFreq, min_coverage: u32, min_homozygous_freq: u64) -> bool {
    &&& !bf.i
    &&& depth_of(bf) >= min_coverage
    &&& depth_of(bf) > 0
    &&& count_at(bf, first_allele(bf)) * FREQ_SCALE >= min_homozygous_freq * depth_of(bf)
    &&& base_code(first_allele(bf)) != bf.ref_base
}

/// Number of reference (non-insertion) columns in `cols`.
pub open spec fn ref_columns(cols: Seq<BaseFreq>) -> int
    decreases cols.len(),
{
    if cols.len() == 0 {
        0
    } else {
        ref_columns(cols.drop_last()) + if cols.last().i { 0int } else { 1int }
    }
}

/// 0-based reference position of column `idx`.
pub open spec fn position_of(profile_start: int, cols: Seq<BaseFreq>, idx: int) -> int {
    profile_start - 1 + ref_columns(cols.take(idx))
}

/// The candidate that position `idx` of the pileup gives.
pub open spec fn snp_of(s: CandidateSNP, chr: Seq<u8>, profile_start: int, cols: Seq<BaseFreq>, idx: int) -> bool {
    let bf = cols[idx];
    &&& s.chromosome@ == chr
    &&& s.pos == position_of(profile_start, cols, idx)
    &&& s.alleles[0] == base_code(first_allele(bf))
    &&& s.alleles[1] == base_code(second_allele(bf))
    &&& s.allele_counts[0] == count_at(bf, first_allele(bf))
    &&& s.allele_counts[1] == count_at(bf, second_allele(bf))
    &&& s.reference == bf.ref_base
    &&& s.depth == depth_of(bf)
}

/// Indices, in order, of the first `n` columns that are heterozygous candidates.
pub open spec fn het_indices(cols: Seq<BaseFreq>, n: int, min_allele_freq: u64, min_coverage: u32) -> Seq<int>
    decreases n,
{
    if n <= 0 {
        Seq::empty()
    } else {
        let prev = het_indices(cols, n - 1, min_allele_freq, min_coverage);
        if is_het_candidate(cols[n - 1], min_allele_freq, min_coverage) { prev.push(n - 1) } else { prev }
    }
}

/// Indices, in order, of the first `n` columns that are homozygous candidates.
pub open spec fn homo_indices(cols: Seq<BaseFreq>, n: int, min_coverage: u32, min_homozygous_freq: u64) -> Seq<int>
    decreases n,
{
    if n <= 0 {
        Seq::empty()
    } else {
        let prev = homo_indices(cols, n - 1, min_coverage, min_homozygous_freq);
        if is_homo_candidate(cols[n - 1], min_coverage, min_homozygous_freq) { prev.push(n - 1) } else { prev }
    }
}

proof fn lemma_ref_columns_step(cols: Seq<BaseFreq>, idx: int)
    requires
        0 <= idx < cols.len(),
    ensures
        ref_columns(cols.take(idx + 1)) == ref_columns(cols.take(idx)) + if cols[idx].i { 0int } else { 1int },
        0 <= ref_columns(cols.take(idx)) <= idx,
    decreases idx,
{
    assert(cols.take(idx + 1).drop_last() =~= cols.take(idx));
    if idx > 0 {
        lemma_ref_columns_step(cols, idx - 1);
    }
}

proof fn lemma_ref_columns_mono(cols: Seq<BaseFreq>, a: int, b: int)
    requires
        0 <= a <= b <= cols.len(),
    ensures
        ref_columns(cols.take(a)) <= ref_columns(cols.take(b)),
    decreases b - a,
{
    if a < b {
        lemma_ref_columns_mono(cols, a, b - 1);
        lemma_ref_columns_step(cols, b - 1);
    }
}

/// Positions of reference columns strictly increase with the column index.
proof fn lemma_positions_increase(start: int, cols: Seq<BaseFreq>, a: int, b: int)
    requires
        0 <= a < b < cols.len(),
        !cols[a].i,
    ensures
        position_of(start, cols, a) < position_of(start, cols, b),
{
    lemma_ref_columns_step(cols, a);
    lemma_ref_columns_mono(cols, a + 1, b);
}

/// The heterozygous candidate columns come in increasing order.
proof fn lemma_het_indices_increase(cols: Seq<BaseFreq>, n: int, f: u64, c: u32)
    requires
        n <= cols.len(),
    ensures
        forall|j: int, k: int| 0 <= j < k < het_indices(cols, n, f, c).len()
            ==> #[trigger] het_indices(cols, n, f, c)[j] < #[trigger] het_indices(cols, n, f, c)[k],
        forall|k: int| 0 <= k < het_indices(cols, n, f, c).len() ==> 0 <= #[trigger] het_indices(cols, n, f, c)[k] < n
            && is_het_candidate(cols[het_indices(cols, n, f, c)[k]], f, c),
    decreases n,
{
    if n > 0 {
        lemma_het_indices_increase(cols, n - 1, f, c);
        let prev = het_indices(cols, n - 1, f, c);
        let cur = het_indices(cols, n, f, c);
        assert forall|k: int| 0 <= k < cur.len() implies 0 <= #[trigger] cur[k] < n && is_het_candidate(cols[cur[k]], f, c) by {
            if k < prev.len() {
                assert(cur[k] == prev[k]);
            }
        }
        assert forall|j: int, k: int| 0 <= j < k < cur.len() implies #[trigger] cur[j] < #[trigger] cur[k] by {
            assert(cur[j] == prev[j]);
            if k < prev.len() {
                assert(cur[k] == prev[k]);
            }
        }
    }
}

/// Every position with enough depth whose second allele is frequent enough gives a
/// heterozygous candidate with its position, alleles and counts.
pub proof fn lemma_snp_candidacy(cols: Seq<BaseFreq>, n: int, min_allele_freq: u64, min_coverage: u32, idx: int)
    requires
        0 <= idx < n <= cols.len(),
        !cols[idx].i,
        depth_of(cols[idx]) >= min_coverage,
        count_at(cols[idx], second_allele(cols[idx])) * FREQ_SCALE > min_allele_freq * depth_of(cols[idx]),
    ensures
        exists|k: int| 0 <= k < het_indices(cols, n, min_allele_freq, min_coverage).len()
            && #[trigger] het_indices(cols, n, min_allele_freq, min_coverage)[k] == idx,
    decreases n,
{
    let hs = het_indices(cols, n, min_allele_freq, min_coverage);
    if idx == n - 1 {
        assert(depth_of(cols[idx]) > 0) by (nonlinear_arith)
            requires
                count_at(cols[idx], second_allele(cols[idx])) * FREQ_SCALE > min_allele_freq * depth_of(cols[idx]),
                depth_of(cols[idx]) >= 0,
                count_at(cols[idx], second_allele(cols[idx])) <= depth_of(cols[idx]),
                FREQ_SCALE == 1_000_000;
        assert(hs[hs.len() - 1] == idx);
    } else {
        lemma_snp_candidacy(cols, n - 1, min_allele_freq, min_coverage, idx);
        let prev = het_indices(cols, n - 1, min_allele_freq, min_coverage);
        let k = choose|k: int| 0 <= k < prev.len() && #[trigger] prev[k] == idx;
        assert(hs[k] == idx);
    }
}

fn two_major_alleles(bf: &BaseFreq) -> (r: (usize, usize))
    ensures
        r.0 as int == first_allele(*bf),
        r.1 as int == second_allele(*bf),
{
    let k1: usize = if bf.a >= bf.c && bf.a >= bf.g && bf.a >= bf.t {
        0
    } else if bf.c >= bf.g && bf.c >= bf.t {
        1
    } else if bf.g >= bf.t {
        2
    } else {
        3
    };
    let x: usize = if k1 == 0 { 1 } else { 0 };
    let y: usize = if k1 <= 1 { 2 } else { 1 };
    let z: usize = if k1 <= 2 { 3 } else { 2 };
    let cx = count_of_index(bf, x);
    let cy = count_of_index(bf, y);
    let cz = count_of_index(bf, z);
    let k2 = if cx >= cy && cx >= cz { x } else if cy >= cz { y } else { z };
    (k1, k2)
}

fn count_of_index(bf: &BaseFreq, k: usize) -> (r: u32)
    ensures
        r as int == count_at(*bf, k as int),
{
    if k == 0 { bf.a } else if k == 1 { bf.c } else if k == 2 { bf.g } else { bf.t }
}

fn code_of_index(k: usize) -> (r: u8)
    ensures
        r == base_code(k as int),
{
    if k == 0 { BASE_A } else if k == 1 { BASE_C } else if k == 2 { BASE_G } else { BASE_T }
}

fn copy_bytes(v: &Vec<u8>) -> (r: Vec<u8>)
    ensures
        r@ == v@,
{
    let r = v.clone();
    assert(r@ =~= v@);
    r
}

/// One edge of the site graph: two site indices (lower first), the fragments that
/// observe both, and the summed evidence that the two sites are in phase.
#[derive(Debug)]
pub struct Edge {
    pub snp_idxes: [usize; 2],
    pub frag_idxes: Vec<usize>,
    pub w: i128,
}

/// One read's observation at one candidate site. `p` is +1 for the first allele, -1
/// for the second and 0 for anything else. `log_err` and `log_ok` are the base-10
/// logarithms of the base's error probability and of its complement, in millionths.
#[derive(Clone, Copy, Debug)]
pub struct FragElem {
    pub snp_idx: usize,
    pub pos: i64,
    pub base: u8,
    pub baseq: u8,
    pub p: i32,
    pub log_err: i64,
    pub log_ok: i64,
}

/// The observations of one read, in site order.
#[derive(Debug)]
pub struct Fragment {
    pub fragment_idx: usize,
    pub read_id: Vec<u8>,
    pub list: Vec<FragElem>,
}

/// Everything phasing knows of one region.
pub struct SNPFrag {
    pub snps: Vec<CandidateSNP>,
    pub homo_snps: Vec<CandidateSNP>,
    pub fragments: Vec<Fragment>,
    /// For each site, the fragments that cover it.
    pub snp_cover_fragments: Vec<Vec<usize>>,
    /// One sign per site.
    pub haplotype: Vec<i32>,
    pub phased: bool,
    pub edges: Vec<Edge>,
    /// One sign per fragment.
    pub haplotag: Vec<i32>,
}

impl SNPFrag {
    /// An empty region.
    pub fn new() -> (r: SNPFrag)
        ensures
            r.snps.len() == 0 && r.homo_snps.len() == 0 && r.fragments.len() == 0,
            r.snp_cover_fragments.len() == 0 && r.haplotype.len() == 0,
            r.edges.len() == 0 && r.haplotag.len() == 0 && !r.phased,
    {
        SNPFrag {
            snps: Vec::new(),
            homo_snps: Vec::new(),
            fragments: Vec::new(),
            snp_cover_fragments: Vec::new(),
            haplotype: Vec::new(),
            phased: false,
            edges: Vec::new(),
            haplotag: Vec::new(),
        }
    }

    /// Scans the pileup once and appends the heterozygous candidates to `snps` and the
    /// homozygous non-reference ones to `homo_snps`. Frequencies are in parts per million.
    pub fn get_candidate_snps(
        &mut self,
        profile: &PileupProfile,
        min_allele_freq: u64,
        min_coverage: u32,
        min_homozygous_freq: u64,
    )
        requires
            0 <= profile.start <= i64::MAX - profile.freq_vec.len(),
            min_allele_freq <= FREQ_SCALE,
            min_homozygous_freq <= FREQ_SCALE,
        ensures
            ({
                let cols = profile.freq_vec@;
                let hs = het_indices(cols, cols.len() as int, min_allele_freq, min_coverage);
                let ms = homo_indices(cols, cols.len() as int, min_coverage, min_homozygous_freq);
                &&& final(self).snps.len() == old(self).snps.len() + hs.len()
                &&& final(self).homo_snps.len() == old(self).homo_snps.len() + ms.len()
                &&& forall|k: int| 0 <= k < old(self).snps.len() ==> #[trigger] final(self).snps@[k] == old(self).snps@[k]
                &&& forall|k: int| 0 <= k < old(self).homo_snps.len() ==> #[trigger] final(self).homo_snps@[k] == old(self).homo_snps@[k]
                &&& forall|k: int| 0 <= k < hs.len() ==> snp_of(
                    #[trigger] final(self).snps@[old(self).snps.len() + k], profile.chromosome@, profile.start as int, cols, hs[k])
                &&& forall|k: int| 0 <= k < ms.len() ==> snp_of(
                    #[trigger] final(self).homo_snps@[old(self).homo_snps.len() + k], profile.chromosome@, profile.start as int, cols, ms[k])
            }),
            final(self).fragments == old(self).fragments,
            final(self).snp_cover_fragments == old(self).snp_cover_fragments,
            final(self).haplotype == old(self).haplotype,
            final(self).haplotag == old(self).haplotag,
            final(self).edges == old(self).edges,
            final(self).phased == old(self).phased,
            old(self).snps.len() == 0 ==> sites_sorted(final(self).snps@),
    {
        let ghost cols = profile.freq_vec@;
        let ghost snps0 = self.snps@;
        let ghost homo0 = self.homo_snps@;
        let mut position: i64 = profile.start - 1;
        let mut idx: usize = 0;
        while idx < profile.freq_vec.len()
            invariant
                0 <= profile.start <= i64::MAX - profile.freq_vec.len(),
                cols == profile.freq_vec@,
                idx <= cols.len(),
                min_allele_freq <= FREQ_SCALE,
                min_homozygous_freq <= FREQ_SCALE,
                position == position_of(profile.start as int, cols, idx as int),
                self.fragments == old(self).fragments,
                self.snp_cover_fragments == old(self).snp_cover_fragments,
                self.haplotype == old(self).haplotype,
                self.haplotag == old(self).haplotag,
                self.edges == old(self).edges,
                self.phased == old(self).phased,
                snps0 == old(self).snps@,
                homo0 == old(self).homo_snps@,
                ({
                    let hs = het_indices(cols, idx as int, min_allele_freq, min_coverage);
                    let ms = homo_indices(cols, idx as int, min_coverage, min_homozygous_freq);
                    &&& self.snps.len() == snps0.len() + hs.len()
                    &&& self.homo_snps.len() == homo0.len() + ms.len()
                    &&& forall|k: int| 0 <= k < snps0.len() ==> #[trigger] self.snps@[k] == snps0[k]
                    &&& forall|k: int| 0 <= k < homo0.len() ==> #[trigger] self.homo_snps@[k] == homo0[k]
                    &&& forall|k: int| 0 <= k < hs.len() ==> snp_of(
                        #[trigger] self.snps@[snps0.len() + k], profile.chromosome@, profile.start as int, cols, hs[k])
                    &&& forall|k: int| 0 <= k < ms.len() ==> snp_of(
                        #[trigger] self.homo_snps@[homo0.len() + k], profile.chromosome@, profile.start as int, cols, ms[k])
                }),
            decreases cols.len() - idx,
        {
            let bf = &profile.freq_vec[idx];
            proof {
                lemma_ref_columns_step(cols, idx as int);
            }
            let ghost hs_prev = het_indices(cols, idx as int, min_allele_freq, min_coverage);
            let ghost ms_prev = homo_indices(cols, idx as int, min_coverage, min_homozygous_freq);
            let ghost snps_prev = self.snps@;
            let ghost homo_prev = self.homo_snps@;
            if !bf.i {
                let depth: u64 = bf.a as u64 + bf.c as u64 + bf.g as u64 + bf.t as u64;
                if depth >= min_coverage as u64 && depth > 0 {
                    let (k1, k2) = two_major_alleles(bf);
                    let c1 = count_of_index(bf, k1);
                    let c2 = count_of_index(bf, k2);
                    proof {
                        assert(min_allele_freq * depth <= FREQ_SCALE * depth) by (nonlinear_arith)
                            requires min_allele_freq <= FREQ_SCALE;
                        assert(min_homozygous_freq * depth <= FREQ_SCALE * depth) by (nonlinear_arith)
                            requires min_homozygous_freq <= FREQ_SCALE;
                    }
                    if c2 as u64 * FREQ_SCALE > min_allele_freq * depth {
                        let snp = CandidateSNP {
                            chromosome: copy_bytes(&profile.chromosome),
                            pos: position,
                            alleles: [code_of_index(k1), code_of_index(k2)],
                            allele_counts: [c1, c2],
                            reference: bf.ref_base,
                            depth,
                        };
                        self.snps.push(snp);
                    }
                    if c1 as u64 * FREQ_SCALE >= min_homozygous_freq * depth && code_of_index(k1) != bf.ref_base {
                        let snp = CandidateSNP {
                            chromosome: copy_bytes(&profile.chromosome),
                            pos: position,
                            alleles: [code_of_index(k1), code_of_index(k2)],
                            allele_counts: [c1, c2],
                            reference: bf.ref_base,
                            depth,
                        };
                        self.homo_snps.push(snp);
                    }
                }
                position = position + 1;
            }
            idx = idx + 1;
            proof {
                let hs = het_indices(cols, idx as int, min_allele_freq, min_coverage);
                let ms = homo_indices(cols, idx as int, min_coverage, min_homozygous_freq);
                assert forall|k: int| 0 <= k < hs.len() implies snp_of(
                    #[trigger] self.snps@[snps0.len() + k], profile.chromosome@, profile.start as int, cols, hs[k]) by {
                    if k < hs_prev.len() {
                        assert(self.snps@[snps0.len() + k] == snps_prev[snps0.len() + k]);
                    }
                }
                assert forall|k: int| 0 <= k < ms.len() implies snp_of(
                    #[trigger] self.homo_snps@[homo0.len() + k], profile.chromosome@, profile.start as int, cols, ms[k]) by {
                    if k < ms_prev.len() {
                        assert(self.homo_snps@[homo0.len() + k] == homo_prev[homo0.len() + k]);
                    }
                }
                assert forall|k: int| 0 <= k < snps0.len() implies #[trigger] self.snps@[k] == snps0[k] by {
                    assert(self.snps@[k] == snps_prev[k]);
                }
                assert forall|k: int| 0 <= k < homo0.len() implies #[trigger] self.homo_snps@[k] == homo0[k] by {
                    assert(self.homo_snps@[k] == homo_prev[k]);
                }
            }
        }
        proof {
            assert(cols.take(cols.len() as int) =~= cols);
            let hs = het_indices(cols, cols.len() as int, min_allele_freq, min_coverage);
            lemma_het_indices_increase(cols, cols.len() as int, min_allele_freq, min_coverage);
            if snps0.len() == 0 {
                assert forall|j: int, k: int| 0 <= j < k < self.snps.len() implies
                    #[trigger] self.snps@[j].pos < #[trigger] self.snps@[k].pos by {
                    assert(snp_of(self.snps@[0 + j], profile.chromosome@, profile.start as int, cols, hs[j]));
                    assert(snp_of(self.snps@[0 + k], profile.chromosome@, profile.start as int, cols, hs[k]));
                    assert(hs[j] < hs[k]);
                    lemma_positions_increase(profile.start as int, cols, hs[j], hs[k]);
                }
            }
        }
    }
}

/// One alignment operation of a read: its SAM letter and length.
#[derive(Clone, Copy, Debug, PartialEq, Eq, Structural)]
pub struct CigarOp {
    pub op: u8,
    pub len: u32,
}

/// A mapped read as the phasing needs it: 0-based start on the reference, the length
/// of its leading soft clip, its alignment, bases and base qualities.
pub struct AlignedRead {
    pub read_id: Vec<u8>,
    pub pos: i64,
    pub leading_softclips: u64,
    pub cigar: Vec<CigarOp>,
    pub seq: Vec<u8>,
    pub qual: Vec<u8>,
}

/// Internal inconsistencies met while reading alignments.
#[derive(Clone, Copy, Debug, PartialEq, Eq, Structural)]
pub enum PhaseError {
    /// An alignment operation other than M, I, D, N, S and H.
    UnknownCigarOp,
    /// The walk passed a candidate site without meeting it: sites out of order.
    PositionOrder,
    /// The alignment reaches past the read's bases or qualities.
    QueryOutOfRange,
}

pub const OP_M: u8 = 77;
pub const OP_I: u8 = 73;
pub const OP_D: u8 = 68;
pub const OP_N: u8 = 78;
pub const OP_S: u8 = 83;
pub const OP_H: u8 = 72;
/// Base recorded where a read has a deletion or an intron at a site.
pub const DELETED_BASE: u8 = 45;
/// Largest magnitude of any entry of an error model.
pub const MAX_LOG: i64 = 1_000_000_000;

/// The log-scale error model of base qualities, in millionths of a base-10 logarithm:
/// `log_ok[q]` is `log10(1 - e)` for the error probability `e = 10^(-q/10)`, and
/// `pair_weight[q1][q2]` is `log10((1 - x) / x)` for the probability `x` that exactly
/// one of two bases of qualities `q1` and `q2` is wrong.
pub struct ErrorModel {
    pub log_ok: Vec<i64>,
    pub pair_weight: Vec<Vec<i64>>,
}

impl ErrorModel {
    pub open spec fn wf(&self) -> bool {
        &&& self.log_ok.len() == 256
        &&& self.pair_weight.len() == 256
        &&& forall|q: int| 0 <= q < 256 ==> #[trigger] self.pair_weight[q].len() == 256
        &&& forall|q: int| 0 <= q < 256 ==> -MAX_LOG <= #[trigger] self.log_ok[q] <= 0
        &&& forall|q1: int, q2: int| 0 <= q1 < 256 && 0 <= q2 < 256 ==> -MAX_LOG <= #[trigger] self.pair_weight[q1][q2] <= MAX_LOG
    }
}

/// `log10(10^(-q/10))` in millionths.
pub open spec fn log_err_of(q: u8) -> int {
    -100_000 * q
}

/// +1 for the first allele, -1 for the second, 0 otherwise.
pub open spec fn allele_call(base: u8, alleles: [u8; 2]) -> int {
    if base == alleles[0] { 1 } else if base == alleles[1] { -1 } else { 0 }
}

/// Evidence that sites of two observations are in phase.
pub open spec fn pair_evidence(model: ErrorModel, a: FragElem, b: FragElem) -> int {
    a.p * b.p * model.pair_weight@[a.baseq as int]@[b.baseq as int]
}

impl SNPFrag {
    /// Sites, fragments, coverage lists and edges refer to one another consistently.
    pub open spec fn graph_wf(&self) -> bool {
        &&& self.snp_cover_fragments.len() == self.snps.len()
        &&& self.fragments_wf()
        &&& self.edges_wf()
        &&& self.covers_wf()
        &&& self.covers_exact()
    }

    /// Fragment `k` is in the coverage list of site `s` exactly when it observes `s`.
    pub open spec fn covers_exact(&self) -> bool {
        &&& forall|s: int, c: int| 0 <= s < self.snp_cover_fragments.len() && 0 <= c < self.snp_cover_fragments@[s].len()
            ==> has_site(self.fragments@[#[trigger] self.snp_cover_fragments@[s]@[c] as int], s)
        &&& forall|f: int, e: int| 0 <= f < self.fragments.len() && 0 <= e < self.fragments@[f].list.len()
            ==> in_cover(self.snp_cover_fragments@, #[trigger] self.fragments@[f].list@[e].snp_idx as int, f)
    }

    pub open spec fn fragments_wf(&self) -> bool {
        &&& forall|f: int| 0 <= f < self.fragments.len() ==> (#[trigger] self.fragments@[f]).fragment_idx == f
        &&& forall|f: int, e: int| 0 <= f < self.fragments.len() && 0 <= e < self.fragments@[f].list.len()
            ==> elem_ok(#[trigger] self.fragments@[f].list@[e], self.snps.len() as int)
                && self.fragments@[f].list@[e].snp_idx >= e
    }

    pub open spec fn covers_wf(&self) -> bool {
        forall|s: int, c: int| 0 <= s < self.snp_cover_fragments.len() && 0 <= c < self.snp_cover_fragments@[s].len()
            ==> #[trigger] self.snp_cover_fragments@[s]@[c] < self.fragments.len()
    }
}

/// An edge weight is at most `MAX_LOG` per fragment that contributed to it.
pub open spec fn weight_in_range(e: Edge) -> bool {
    -(e.frag_idxes.len() as int) * MAX_LOG <= e.w <= (e.frag_idxes.len() as int) * MAX_LOG
}

/// Bound on any edge weight: `2^94`.
pub const WEIGHT_BOUND: i128 = 0x4000_0000_0000_0000_0000_0000;

proof fn lemma_weight_bound(e: Edge)
    requires
        weight_in_range(e),
    ensures
        -WEIGHT_BOUND <= e.w <= WEIGHT_BOUND,
{
    let n = e.frag_idxes.len() as int;
    assert(n <= 0xffff_ffff_ffff_ffff);
    assert(n * MAX_LOG <= WEIGHT_BOUND) by (nonlinear_arith)
        requires 0 <= n <= 0xffff_ffff_ffff_ffff, MAX_LOG == 1_000_000_000, WEIGHT_BOUND == 0x4000_0000_0000_0000_0000_0000;
}

proof fn lemma_weight_room(e: Edge)
    requires
        weight_in_range(e),
    ensures
        -(e.frag_idxes.len() as int + 1) * MAX_LOG <= e.w - MAX_LOG,
        e.w + MAX_LOG <= (e.frag_idxes.len() as int + 1) * MAX_LOG,
        (e.frag_idxes.len() as int + 1) * MAX_LOG <= WEIGHT_BOUND,
{
    let n = e.frag_idxes.len() as int;
    assert(n <= 0xffff_ffff_ffff_ffff);
    assert((n + 1) * MAX_LOG <= WEIGHT_BOUND) by (nonlinear_arith)
        requires 0 <= n <= 0xffff_ffff_ffff_ffff, MAX_LOG == 1_000_000_000, WEIGHT_BOUND == 0x4000_0000_0000_0000_0000_0000;
}


/// One contribution to an edge: its key, weight and fragment.
pub struct EdgeEvent {
    pub key: [usize; 2],
    pub w: int,
    pub frag: usize,
}

/// Weight and fragments that `evs` give edge `key`, if any.
pub open spec fn fold_key(evs: Seq<EdgeEvent>, key: [usize; 2]) -> Option<(int, Seq<usize>)>
    decreases evs.len(),
{
    if evs.len() == 0 {
        None
    } else {
        let prev = fold_key(evs.drop_last(), key);
        let e = evs.last();
        if e.key == key {
            match prev {
                Some(v) => Some((v.0 + e.w, v.1.push(e.frag))),
                None => Some((e.w, seq![e.frag])),
            }
        } else {
            prev
        }
    }
}

/// The edges hold exactly what the contributions `evs` give each key.
pub open spec fn edges_hold(edges: Seq<Edge>, evs: Seq<EdgeEvent>) -> bool {
    &&& forall|x: int| 0 <= x < edges.len() ==> fold_key(evs, (#[trigger] edges[x]).snp_idxes) == Some((edges[x].w as int, edges[x].frag_idxes@))
    &&& forall|key: [usize; 2]| #[trigger] fold_key(evs, key) is Some ==> exists|x: int| 0 <= x < edges.len() && edges[x].snp_idxes == key
}

/// Contributions of observation `elem` of fragment `frag` paired with each of the
/// first `k` earlier observations `list`, both with an allele call.
pub open spec fn elem_events(list: Seq<FragElem>, elem: FragElem, model: ErrorModel, frag: usize, k: int) -> Seq<EdgeEvent>
    decreases k,
{
    if k <= 0 {
        Seq::empty()
    } else {
        let prev = elem_events(list, elem, model, frag, k - 1);
        let a = list[k - 1];
        if a.p != 0 && elem.p != 0 {
            prev.push(EdgeEvent { key: [a.snp_idx, elem.snp_idx], w: pair_evidence(model, a, elem), frag })
        } else {
            prev
        }
    }
}

/// Contributions of all pairs of observations of one fragment, in order.
pub open spec fn list_events(list: Seq<FragElem>, model: ErrorModel, frag: usize) -> Seq<EdgeEvent>
    decreases list.len(),
{
    if list.len() == 0 {
        Seq::empty()
    } else {
        let l = list.drop_last();
        list_events(l, model, frag) + elem_events(l, list.last(), model, frag, l.len() as int)
    }
}

/// Contributions of the first `n` fragments.
pub open spec fn frags_events(frags: Seq<Fragment>, model: ErrorModel, n: int) -> Seq<EdgeEvent>
    decreases n,
{
    if n <= 0 {
        Seq::empty()
    } else {
        frags_events(frags, model, n - 1) + list_events(frags[n - 1].list@, model, (n - 1) as usize)
    }
}

proof fn lemma_frags_events_prefix(a: Seq<Fragment>, b: Seq<Fragment>, model: ErrorModel, n: int)
    requires
        0 <= n <= a.len(),
        n <= b.len(),
        forall|f: int| 0 <= f < n ==> #[trigger] a[f] == b[f],
    ensures
        frags_events(a, model, n) == frags_events(b, model, n),
    decreases n,
{
    if n > 0 {
        lemma_frags_events_prefix(a, b, model, n - 1);
        assert(a[n - 1] == b[n - 1]);
    }
}

proof fn lemma_edge_event(before: Seq<Edge>, after: Seq<Edge>, evs: Seq<EdgeEvent>, key: [usize; 2], w: int, frag: usize)
    requires
        edges_hold(before, evs),
        forall|x: int, y: int| 0 <= x < y < before.len() ==> #[trigger] before[x].snp_idxes != #[trigger] before[y].snp_idxes,
        edge_added(before, after, key, w, frag),
    ensures
        edges_hold(after, evs.push(EdgeEvent { key, w, frag })),
{
    let nevs = evs.push(EdgeEvent { key, w, frag });
    assert(nevs.drop_last() =~= evs);
    if exists|x: int| 0 <= x < before.len() && (#[trigger] before[x]).snp_idxes == key {
        let x = choose|x: int| 0 <= x < before.len() && (#[trigger] before[x]).snp_idxes == key;
        assert forall|y: int| 0 <= y < after.len() implies fold_key(nevs, (#[trigger] after[y]).snp_idxes) == Some((after[y].w as int, after[y].frag_idxes@)) by {
            if y != x {
                assert(after[y] == before[y]);
                if y < x {
                    assert(before[y].snp_idxes != before[x].snp_idxes);
                } else {
                    assert(before[x].snp_idxes != before[y].snp_idxes);
                }
            } else {
                assert(fold_key(evs, before[x].snp_idxes) == Some((before[x].w as int, before[x].frag_idxes@)));
            }
        }
        assert forall|k2: [usize; 2]| #[trigger] fold_key(nevs, k2) is Some implies exists|z: int| 0 <= z < after.len() && after[z].snp_idxes == k2 by {
            if k2 == key {
                assert(after[x].snp_idxes == k2);
            } else {
                assert(fold_key(evs, k2) is Some);
                let z = choose|z: int| 0 <= z < before.len() && before[z].snp_idxes == k2;
                if z != x {
                    assert(after[z] == before[z]);
                }
            }
        }
    } else {
        assert(fold_key(evs, key) is None) by {
            if fold_key(evs, key) is Some {
                let z = choose|z: int| 0 <= z < before.len() && before[z].snp_idxes == key;
                assert(before[z].snp_idxes == key);
            }
        }
        let n = before.len() as int;
        assert forall|y: int| 0 <= y < after.len() implies fold_key(nevs, (#[trigger] after[y]).snp_idxes) == Some((after[y].w as int, after[y].frag_idxes@)) by {
            if y < n {
                assert(after[y] == before[y]);
                assert(before[y].snp_idxes != key);
            }
        }
        assert forall|k2: [usize; 2]| #[trigger] fold_key(nevs, k2) is Some implies exists|z: int| 0 <= z < after.len() && after[z].snp_idxes == k2 by {
            if k2 == key {
                assert(after[n].snp_idxes == k2);
            } else {
                assert(fold_key(evs, k2) is Some);
                let z = choose|z: int| 0 <= z < before.len() && before[z].snp_idxes == k2;
                assert(after[z] == before[z]);
            }
        }
    }
}

/// `after` is `before` with `w` added to the weight of the edge `key` and `frag` to its
/// fragments; an edge not there before is appended with weight `w` and `frag` alone.
pub open spec fn edge_added(before: Seq<Edge>, after: Seq<Edge>, key: [usize; 2], w: int, frag: usize) -> bool {
    if exists|x: int| 0 <= x < before.len() && (#[trigger] before[x]).snp_idxes == key {
        let x = choose|x: int| 0 <= x < before.len() && (#[trigger] before[x]).snp_idxes == key;
        &&& after.len() == before.len()
        &&& after[x].snp_idxes == key
        &&& after[x].w == before[x].w + w
        &&& after[x].frag_idxes@ == before[x].frag_idxes@.push(frag)
        &&& forall|y: int| 0 <= y < before.len() && y != x ==> #[trigger] after[y] == before[y]
    } else {
        &&& after.len() == before.len() + 1
        &&& after[before.len() as int].snp_idxes == key
        &&& after[before.len() as int].w == w
        &&& after[before.len() as int].frag_idxes@ == seq![frag]
        &&& forall|y: int| 0 <= y < before.len() ==> #[trigger] after[y] == before[y]
    }
}

impl SNPFrag {
    pub open spec fn edges_wf(&self) -> bool {
        &&& forall|x: int| 0 <= x < self.edges.len() ==> (#[trigger] self.edges@[x]).snp_idxes[0] < self.edges@[x].snp_idxes[1]
            && self.edges@[x].snp_idxes[1] < self.snps.len()
            && weight_in_range(self.edges@[x])
        &&& forall|x: int, y: int| 0 <= x < y < self.edges.len() ==> #[trigger] self.edges@[x].snp_idxes != #[trigger] self.edges@[y].snp_idxes
    }

    /// Adds the evidence of one read observing sites `a` and `b` (with `a` before `b`)
    /// to their edge, creating the edge on first sight.
    fn add_edge(&mut self, a: &FragElem, b: &FragElem, frag_idx: usize, model: &ErrorModel) -> (r: Result<(), PhaseError>)
        requires
            old(self).edges_wf(),
            a.snp_idx < b.snp_idx < old(self).snps.len(),
            -1 <= a.p <= 1,
            -1 <= b.p <= 1,
            model.wf(),
        ensures
            final(self).edges_wf(),
            final(self).snps == old(self).snps,
            final(self).homo_snps == old(self).homo_snps,
            final(self).fragments == old(self).fragments,
            final(self).snp_cover_fragments == old(self).snp_cover_fragments,
            final(self).haplotype == old(self).haplotype,
            final(self).haplotag == old(self).haplotag,
            final(self).phased == old(self).phased,
            r is Ok,
            exists|x: int| 0 <= x < final(self).edges.len()
                && (#[trigger] final(self).edges@[x]).snp_idxes == [a.snp_idx, b.snp_idx],
            edge_added(old(self).edges@, final(self).edges@, [a.snp_idx, b.snp_idx], pair_evidence(*model, *a, *b), frag_idx),
    {
        assert(model.pair_weight[a.baseq as int].len() == 256);
        let row = &model.pair_weight[a.baseq as usize];
        let pw = row[b.baseq as usize];
        assert(-MAX_LOG <= model.pair_weight[a.baseq as int][b.baseq as int] <= MAX_LOG);
        let w: i128 = if a.p == 0 || b.p == 0 { 0 } else if a.p == b.p { pw as i128 } else { -(pw as i128) };
        proof {
            assert(w == pair_evidence(*model, *a, *b)) by (nonlinear_arith)
                requires
                    -1 <= a.p <= 1,
                    -1 <= b.p <= 1,
                    pw == model.pair_weight@[a.baseq as int]@[b.baseq as int],
                    pair_evidence(*model, *a, *b) == a.p * b.p * model.pair_weight@[a.baseq as int]@[b.baseq as int],
                    w == (if a.p == 0 || b.p == 0 { 0 } else if a.p == b.p { pw as int } else { -pw });
        }
        let mut x: usize = 0;
        while x < self.edges.len()
            invariant
                x <= self.edges.len(),
                self == old(self),
                self.edges_wf(),
                w == pair_evidence(*model, *a, *b),
                -MAX_LOG <= w <= MAX_LOG,
                forall|y: int| 0 <= y < x ==> (#[trigger] self.edges@[y]).snp_idxes != [a.snp_idx, b.snp_idx],
            decreases self.edges.len() - x,
        {
            if self.edges[x].snp_idxes[0] == a.snp_idx && self.edges[x].snp_idxes[1] == b.snp_idx {
                let cur = self.edges[x].w;
                proof {
                    lemma_weight_room(self.edges@[x as int]);
                }
                let ghost before = self.edges@;
                self.edges[x].w = cur + w;
                self.edges[x].frag_idxes.push(frag_idx);
                proof {
                    assert forall|y: int| 0 <= y < self.edges.len() implies
                        #[trigger] self.edges@[y].snp_idxes == before[y].snp_idxes by {}
                    assert(self.edges@[x as int].snp_idxes =~= [a.snp_idx, b.snp_idx]);
                    assert(before[x as int].snp_idxes =~= [a.snp_idx, b.snp_idx]);
                    let xc = choose|z: int| 0 <= z < before.len() && (#[trigger] before[z]).snp_idxes == [a.snp_idx, b.snp_idx];
                    if xc != x {
                        if xc < x {
                            assert(before[xc].snp_idxes != before[x as int].snp_idxes);
                        } else {
                            assert(before[x as int].snp_idxes != before[xc].snp_idxes);
                        }
                    }
                    assert(self.edges@[x as int].frag_idxes@ == before[x as int].frag_idxes@.push(frag_idx));
                    assert(self.edges@[x as int].w == before[x as int].w + w);
                    assert(before == old(self).edges@);
                    assert forall|y: int| 0 <= y < before.len() && y != x implies #[trigger] self.edges@[y] == before[y] by {}
                    assert(edge_added(old(self).edges@, self.edges@, [a.snp_idx, b.snp_idx], w as int, frag_idx));
                    assert(weight_in_range(self.edges@[x as int]));
                    assert forall|y: int| 0 <= y < self.edges.len() implies (#[trigger] self.edges@[y]).snp_idxes[0] < self.edges@[y].snp_idxes[1]
                        && self.edges@[y].snp_idxes[1] < self.snps.len() && weight_in_range(self.edges@[y]) by {
                        if y != x {
                            assert(self.edges@[y] == before[y]);
                        }
                    }
                    assert forall|y: int, z: int| 0 <= y < z < self.edges.len() implies
                        #[trigger] self.edges@[y].snp_idxes != #[trigger] self.edges@[z].snp_idxes by {
                        assert(before[y].snp_idxes != before[z].snp_idxes);
                    }
                }
                return Ok(());
            }
            assert(self.edges@[x as int].snp_idxes != [a.snp_idx, b.snp_idx]) by {
                if self.edges@[x as int].snp_idxes == [a.snp_idx, b.snp_idx] {
                    assert(self.edges@[x as int].snp_idxes[0] == a.snp_idx);
                }
            }
            x = x + 1;
        }
        let mut frag_idxes: Vec<usize> = Vec::new();
        frag_idxes.push(frag_idx);
        let edge = Edge { snp_idxes: [a.snp_idx, b.snp_idx], frag_idxes, w };
        self.edges.push(edge);
        proof {
            let n = self.edges.len() - 1;
            assert(self.edges@[n as int].snp_idxes =~= [a.snp_idx, b.snp_idx]);
            assert forall|x: int, y: int| 0 <= x < y < self.edges.len() implies
                #[trigger] self.edges@[x].snp_idxes != #[trigger] self.edges@[y].snp_idxes by {
                if y == n {
                    assert(old(self).edges@[x].snp_idxes != [a.snp_idx, b.snp_idx]);
                } else {
                    assert(old(self).edges@[x].snp_idxes != old(self).edges@[y].snp_idxes);
                }
            }
        }
        Ok(())
    }
}

/// Site positions strictly increase.
pub open spec fn sites_sorted(snps: Seq<CandidateSNP>) -> bool {
    forall|j: int, k: int| 0 <= j < k < snps.len() ==> #[trigger] snps[j].pos < #[trigger] snps[k].pos
}

/// Every alignment operation is one of M, I, D, N, S and H.
pub open spec fn ops_known(cigar: Seq<CigarOp>) -> bool {
    forall|k: int| 0 <= k < cigar.len() ==> {
        let op = (#[trigger] cigar[k]).op;
        op == OP_M || op == OP_I || op == OP_D || op == OP_N || op == OP_S || op == OP_H
    }
}

pub open spec fn op_known(c: CigarOp) -> bool {
    c.op == OP_M || c.op == OP_I || c.op == OP_D || c.op == OP_N || c.op == OP_S || c.op == OP_H
}

/// The first `o` operations are known and the read bases they consume (after the
/// leading soft clip) are all in `seq` and `qual`.
pub open spec fn clean_prefix(read: AlignedRead, o: int) -> bool {
    &&& forall|k: int| 0 <= k < o ==> op_known(#[trigger] read.cigar@[k])
    &&& read.leading_softclips + qry_sum(read.cigar@, o) <= read.seq.len()
    &&& read.leading_softclips + qry_sum(read.cigar@, o) <= read.qual.len()
}

/// The whole alignment is known and fits the read.
pub open spec fn read_clean(read: AlignedRead) -> bool {
    clean_prefix(read, read.cigar.len() as int)
}

/// An unknown operation comes before the alignment has passed the last site, after a
/// clean prefix.
pub open spec fn unknown_before_last(read: AlignedRead, snps: Seq<CandidateSNP>) -> bool {
    &&& snps.len() > 0
    &&& read.pos <= snps.last().pos
    &&& exists|o: int| 0 <= o < read.cigar.len() && !op_known(#[trigger] read.cigar@[o]) && clean_prefix(read, o)
        && read.pos + ref_sum(read.cigar@, o) <= snps.last().pos
}

proof fn lemma_qry_sum_mono(cigar: Seq<CigarOp>, a: int, b: int)
    requires
        0 <= a <= b,
    ensures
        qry_sum(cigar, a) <= qry_sum(cigar, b),
    decreases b,
{
    if b > a {
        lemma_qry_sum_mono(cigar, a, b - 1);
    }
}

/// Read bases of operation `op_i` lie inside the read when a longer clean prefix does.
proof fn lemma_query_fits(read: AlignedRead, op_i: int, o: int)
    requires
        0 <= op_i < o <= read.cigar.len(),
        clean_prefix(read, o),
    ensures
        read.leading_softclips + qry_sum(read.cigar@, op_i + 1) <= read.seq.len(),
        read.leading_softclips + qry_sum(read.cigar@, op_i + 1) <= read.qual.len(),
        qry_sum(read.cigar@, op_i + 1) == qry_sum(read.cigar@, op_i) + qry_adv(read.cigar@[op_i]),
{
    lemma_qry_sum_mono(read.cigar@, op_i + 1, o);
}

/// Reference bases an operation spans.
pub open spec fn ref_adv(c: CigarOp) -> int {
    if c.op == OP_M || c.op == OP_D || c.op == OP_N { c.len as int } else { 0 }
}

/// Read bases an operation consumes after the leading soft clip.
pub open spec fn qry_adv(c: CigarOp) -> int {
    if c.op == OP_M || c.op == OP_I { c.len as int } else { 0 }
}

pub open spec fn ref_sum(cigar: Seq<CigarOp>, n: int) -> int
    decreases n,
{
    if n <= 0 { 0 } else { ref_sum(cigar, n - 1) + ref_adv(cigar[n - 1]) }
}

pub open spec fn qry_sum(cigar: Seq<CigarOp>, n: int) -> int
    decreases n,
{
    if n <= 0 { 0 } else { qry_sum(cigar, n - 1) + qry_adv(cigar[n - 1]) }
}

/// Reference position `p` lies at offset `d` of operation `o` of the read.
pub open spec fn read_covers(read: AlignedRead, o: int, d: int, p: int) -> bool {
    &&& 0 <= o < read.cigar.len()
    &&& 0 <= d < ref_adv(read.cigar@[o])
    &&& read.pos + ref_sum(read.cigar@, o) + d == p
}

/// The base (and quality) a read shows at offset `d` of operation `o`: its own for a
/// match, a deletion mark with quality 0 for a deletion or an intron skip.
pub open spec fn shows(read: AlignedRead, o: int, d: int, base: u8, baseq: u8) -> bool {
    if read.cigar@[o].op == OP_M {
        let q = read.leading_softclips + qry_sum(read.cigar@, o) + d;
        base == read.seq@[q] && baseq == read.qual@[q]
    } else {
        base == DELETED_BASE && baseq == 0
    }
}

/// The observation is what the read shows at its position.
pub open spec fn elem_from_read(read: AlignedRead, fe: FragElem) -> bool {
    exists|o: int, d: int| read_covers(read, o, d, fe.pos as int) && shows(read, o, d, fe.base, fe.baseq)
}

/// Fragment `fr` is what read `read` observes of the sites `snps`: the read's name, one
/// observation per site its alignment spans, each what the read shows there.
#[verifier::opaque]
pub open spec fn fragment_of_read(fr: Fragment, read: AlignedRead, snps: Seq<CandidateSNP>) -> bool {
    &&& fr.read_id@ == read.read_id@
    &&& fr.list.len() > 0
    &&& forall|k: int| 0 <= k < snps.len() ==> (read_spans(read, #[trigger] snps[k].pos as int)
        <==> exists|e: int| 0 <= e < fr.list.len() && fr.list@[e].snp_idx == k)
    &&& forall|e: int| 0 <= e < fr.list.len() ==> elem_from_read(read, #[trigger] fr.list@[e])
    &&& forall|e: int| 0 <= e < fr.list.len() ==> elem_at_site(#[trigger] fr.list@[e], snps)
    &&& forall|e1: int, e2: int| 0 <= e1 < e2 < fr.list.len() ==> #[trigger] fr.list@[e1].snp_idx < #[trigger] fr.list@[e2].snp_idx
}

/// An observation stands at its site, in genomic order terms: its position is the
/// site's, its call is the site's allele call of its base, and its error term is the
/// log of `10^(-q/10)`.
pub open spec fn elem_at_site(fe: FragElem, snps: Seq<CandidateSNP>) -> bool {
    &&& fe.snp_idx < snps.len()
    &&& fe.pos == snps[fe.snp_idx as int].pos
    &&& fe.p == allele_call(fe.base, snps[fe.snp_idx as int].alleles)
    &&& fe.log_err == log_err_of(fe.baseq)
}

/// Read `k` is the first that is not clean, and it meets an unknown operation before
/// passing the last site.
pub open spec fn unknown_read_at(reads: Seq<AlignedRead>, snps: Seq<CandidateSNP>, k: int) -> bool {
    &&& 0 <= k < reads.len()
    &&& forall|j: int| 0 <= j < k ==> read_clean(#[trigger] reads[j])
    &&& unknown_before_last(reads[k], snps)
}

pub open spec fn unknown_read_first(reads: Seq<AlignedRead>, snps: Seq<CandidateSNP>) -> bool {
    exists|k: int| unknown_read_at(reads, snps, k)
}

/// Every fragment comes from one of the first `k` reads, and each of them that spans a
/// site has a fragment.
pub open spec fn fragments_from_reads(frags: Seq<Fragment>, reads: Seq<AlignedRead>, k: int, snps: Seq<CandidateSNP>) -> bool {
    &&& forall|f: int| 0 <= f < frags.len() ==> exists|j: int| 0 <= j < k && fragment_of_read(#[trigger] frags[f], reads[j], snps)
    &&& forall|j: int| 0 <= j < k && spans_some(#[trigger] reads[j], snps)
        ==> exists|f: int| 0 <= f < frags.len() && fragment_of_read(#[trigger] frags[f], reads[j], snps)
}

/// The read's alignment spans some site.
#[verifier::opaque]
pub open spec fn spans_some(read: AlignedRead, snps: Seq<CandidateSNP>) -> bool {
    exists|x: int| 0 <= x < snps.len() && read_spans(read, #[trigger] snps[x].pos as int)
}

proof fn lemma_fragments_step(before: Seq<Fragment>, after: Seq<Fragment>, reads: Seq<AlignedRead>, k: int, snps: Seq<CandidateSNP>)
    requires
        0 <= k < reads.len(),
        fragments_from_reads(before, reads, k, snps),
        after.len() == before.len() || after.len() == before.len() + 1,
        forall|f: int| 0 <= f < before.len() ==> #[trigger] after[f] == before[f],
        after.len() > before.len() ==> fragment_of_read(after[before.len() as int], reads[k], snps),
        after.len() == before.len() ==> !spans_some(reads[k], snps),
    ensures
        fragments_from_reads(after, reads, k + 1, snps),
{
    assert forall|f: int| 0 <= f < after.len() implies exists|j: int| 0 <= j < k + 1 && fragment_of_read(#[trigger] after[f], reads[j], snps) by {
        if f < before.len() {
            let j = choose|j: int| 0 <= j < k && fragment_of_read(before[f], reads[j], snps);
            assert(after[f] == before[f]);
            assert(fragment_of_read(after[f], reads[j], snps));
        } else {
            assert(fragment_of_read(after[f], reads[k], snps));
        }
    }
    assert forall|j: int| 0 <= j < k + 1 && spans_some(#[trigger] reads[j], snps)
        implies exists|f: int| 0 <= f < after.len() && fragment_of_read(#[trigger] after[f], reads[j], snps) by {
        if j < k {
            let f = choose|f: int| 0 <= f < before.len() && fragment_of_read(before[f], reads[j], snps);
            assert(after[f] == before[f]);
            assert(fragment_of_read(after[f], reads[j], snps));
        } else {
            let f = before.len() as int;
            assert(fragment_of_read(after[f], reads[j], snps));
        }
    }
}

/// The read's alignment spans the reference position of site `k`.
pub open spec fn read_spans(read: AlignedRead, p: int) -> bool {
    read.pos <= p < read.pos + ref_sum(read.cigar@, read.cigar.len() as int)
}

proof fn lemma_ref_sum_mono(cigar: Seq<CigarOp>, a: int, b: int)
    requires
        0 <= a <= b,
    ensures
        ref_sum(cigar, a) <= ref_sum(cigar, b),
    decreases b,
{
    if b > a {
        lemma_ref_sum_mono(cigar, a, b - 1);
    }
}

/// The fragment observes site `s`.
pub open spec fn has_site(fr: Fragment, s: int) -> bool {
    exists|e: int| 0 <= e < fr.list.len() && #[trigger] fr.list@[e].snp_idx == s
}

/// Fragment index `f` is in the coverage list of site `s`.
pub open spec fn in_cover(covers: Seq<Vec<usize>>, s: int, f: int) -> bool {
    exists|c: int| 0 <= c < covers[s].len() && #[trigger] covers[s]@[c] == f
}

/// An observation fit to enter a fragment of a graph over `n_snps` sites.
pub open spec fn elem_ok(e: FragElem, n_snps: int) -> bool {
    &&& e.snp_idx < n_snps
    &&& -1 <= e.p <= 1
    &&& -MAX_LOG <= e.log_err <= 0
    &&& -MAX_LOG <= e.log_ok <= 0
}

impl SNPFrag {
    /// Appends `elem` to the fragment being built and adds its evidence, against each
    /// earlier observation with an allele call, to the edges.
    fn observe_site(&mut self, list: &mut Vec<FragElem>, elem: FragElem, frag_idx: usize, model: &ErrorModel, Ghost(base): Ghost<Seq<EdgeEvent>>) -> (r: Result<(), PhaseError>)
        requires
            old(self).edges_wf(),
            model.wf(),
            elem_ok(elem, old(self).snps.len() as int),
            forall|k: int| 0 <= k < old(list).len() ==> #[trigger] old(list)@[k].snp_idx < elem.snp_idx
                && elem_ok(old(list)@[k], old(self).snps.len() as int),
        ensures
            final(self).edges_wf(),
            final(self).snps == old(self).snps,
            final(self).homo_snps == old(self).homo_snps,
            final(self).fragments == old(self).fragments,
            final(self).snp_cover_fragments == old(self).snp_cover_fragments,
            final(self).haplotype == old(self).haplotype,
            final(self).haplotag == old(self).haplotag,
            final(self).phased == old(self).phased,
            r is Ok,
            final(list)@ == old(list)@.push(elem),
            forall|k: int| 0 <= k < final(list).len() ==> elem_ok(#[trigger] final(list)@[k], old(self).snps.len() as int),
            edges_hold(old(self).edges@, base) ==> edges_hold(final(self).edges@, base + elem_events(old(list)@, elem, *model, frag_idx, old(list).len() as int)),
    {
        let ghost h = edges_hold(self.edges@, base);
        let mut k: usize = 0;
        while k < list.len()
            invariant
                k <= list.len(),
                list@ == old(list)@,
                h ==> edges_hold(self.edges@, base + elem_events(old(list)@, elem, *model, frag_idx, k as int)),
                h == edges_hold(old(self).edges@, base),
                self.edges_wf(),
                model.wf(),
                elem_ok(elem, old(self).snps.len() as int),
                forall|x: int| 0 <= x < old(list).len() ==> #[trigger] old(list)@[x].snp_idx < elem.snp_idx
                    && elem_ok(old(list)@[x], old(self).snps.len() as int),
                self.snps == old(self).snps,
                self.homo_snps == old(self).homo_snps,
                self.fragments == old(self).fragments,
                self.snp_cover_fragments == old(self).snp_cover_fragments,
                self.haplotype == old(self).haplotype,
                self.haplotag == old(self).haplotag,
                self.phased == old(self).phased,
            decreases list.len() - k,
        {
            let prev = list[k];
            assert(old(list)@[k as int].snp_idx < elem.snp_idx);
            let ghost evs = base + elem_events(old(list)@, elem, *model, frag_idx, k as int);
            let ghost edges_before = self.edges@;
            if prev.p != 0 && elem.p != 0 {
                let _ = self.add_edge(&prev, &elem, frag_idx, model);
                proof {
                    let ev = EdgeEvent { key: [prev.snp_idx, elem.snp_idx], w: pair_evidence(*model, prev, elem), frag: frag_idx };
                    if h {
                    lemma_edge_event(edges_before, self.edges@, evs, [prev.snp_idx, elem.snp_idx], pair_evidence(*model, prev, elem), frag_idx);
                    }
                    assert(evs.push(ev) =~= base + elem_events(old(list)@, elem, *model, frag_idx, k + 1));
                }
            } else {
                assert(evs =~= base + elem_events(old(list)@, elem, *model, frag_idx, k + 1));
            }
            k = k + 1;
        }
        list.push(elem);
        Ok(())
    }

    /// A read-base range error at operation `op_i`, which is known, comes neither from a
    /// clean read nor before an unknown operation met ahead of the last site.
    proof fn lemma_no_query_error(&self, read: AlignedRead, op_i: int, sorted: bool)
        requires
            0 <= op_i < read.cigar.len(),
            op_known(read.cigar@[op_i]),
            forall|o: int| 0 <= o < op_i ==> op_known(#[trigger] read.cigar@[o]),
        ensures
            read_clean(read) ==> read.leading_softclips + qry_sum(read.cigar@, op_i + 1) <= read.seq.len()
                && read.leading_softclips + qry_sum(read.cigar@, op_i + 1) <= read.qual.len(),
            unknown_before_last(read, self.snps@) ==> read.leading_softclips + qry_sum(read.cigar@, op_i + 1) <= read.seq.len()
                && read.leading_softclips + qry_sum(read.cigar@, op_i + 1) <= read.qual.len(),
            qry_sum(read.cigar@, op_i + 1) == qry_sum(read.cigar@, op_i) + qry_adv(read.cigar@[op_i]),
    {
        if read_clean(read) {
            lemma_query_fits(read, op_i, read.cigar.len() as int);
        }
        if unknown_before_last(read, self.snps@) {
            let o = choose|o: int| 0 <= o < read.cigar.len() && !op_known(#[trigger] read.cigar@[o]) && clean_prefix(read, o)
                && read.pos + ref_sum(read.cigar@, o) <= self.snps@[self.snps.len() - 1].pos;
            assert(o > op_i);
            lemma_query_fits(read, op_i, o);
        }
    }

    /// Builds the fragment of one read: its observations at the candidate sites its
    /// alignment spans, in site order, and the edges between them. A read that starts
    /// after the last site, or that covers no site, leaves the graph as it is.
    pub fn add_read_fragment(&mut self, read: &AlignedRead, model: &ErrorModel) -> (r: Result<(), PhaseError>)
        requires
            old(self).graph_wf(),
            model.wf(),
            forall|k: int| 0 <= k < old(self).snps.len() ==> #[trigger] old(self).snps@[k].pos < i64::MAX,
        ensures
            final(self).graph_wf(),
            final(self).snps == old(self).snps,
            final(self).homo_snps == old(self).homo_snps,
            final(self).haplotype == old(self).haplotype,
            final(self).haplotag == old(self).haplotag,
            final(self).phased == old(self).phased,
            final(self).fragments.len() == old(self).fragments.len() || final(self).fragments.len() == old(self).fragments.len() + 1,
            forall|f: int| 0 <= f < old(self).fragments.len() ==> #[trigger] final(self).fragments@[f] == old(self).fragments@[f],
            final(self).fragments.len() > old(self).fragments.len() ==> ({
                let fr = final(self).fragments@[old(self).fragments.len() as int];
                &&& fr.read_id@ == read.read_id@
                &&& fr.list.len() > 0
                &&& forall|e: int| 0 <= e < fr.list.len() ==> (#[trigger] fr.list@[e]).pos == final(self).snps@[fr.list@[e].snp_idx as int].pos
                &&& forall|e1: int, e2: int| 0 <= e1 < e2 < fr.list.len() ==> #[trigger] fr.list@[e1].snp_idx < #[trigger] fr.list@[e2].snp_idx
                &&& forall|e: int| 0 <= e < fr.list.len() ==> (#[trigger] fr.list@[e]).p == allele_call(fr.list@[e].base, final(self).snps@[fr.list@[e].snp_idx as int].alleles)
                &&& forall|e: int| 0 <= e < fr.list.len() ==> (#[trigger] fr.list@[e]).log_err == log_err_of(fr.list@[e].baseq)
            }),
            (old(self).snps.len() == 0 || read.pos > old(self).snps@[old(self).snps.len() - 1].pos) ==> {
                &&& r is Ok
                &&& final(self).fragments == old(self).fragments
                &&& final(self).edges == old(self).edges
                &&& final(self).snp_cover_fragments == old(self).snp_cover_fragments
            },
            sites_sorted(old(self).snps@) ==> r != Err::<(), PhaseError>(PhaseError::PositionOrder),
            ops_known(read.cigar@) ==> r != Err::<(), PhaseError>(PhaseError::UnknownCigarOp),
            sites_sorted(old(self).snps@) && read_clean(*read) ==> r is Ok,
            sites_sorted(old(self).snps@) && unknown_before_last(*read, old(self).snps@)
                ==> r == Err::<(), PhaseError>(PhaseError::UnknownCigarOp),
            r is Ok && edges_hold(old(self).edges@, frags_events(old(self).fragments@, *model, old(self).fragments.len() as int))
                ==> edges_hold(final(self).edges@, frags_events(final(self).fragments@, *model, final(self).fragments.len() as int)),
            r is Ok && sites_sorted(old(self).snps@) ==> ((final(self).fragments.len() > old(self).fragments.len())
                <==> exists|k: int| 0 <= k < old(self).snps.len() && read_spans(*read, #[trigger] old(self).snps@[k].pos as int)),
            r is Ok && sites_sorted(old(self).snps@) && final(self).fragments.len() > old(self).fragments.len() ==> ({
                let fr = final(self).fragments@[old(self).fragments.len() as int];
                &&& forall|k: int| 0 <= k < old(self).snps.len() ==> (read_spans(*read, #[trigger] old(self).snps@[k].pos as int)
                    <==> exists|e: int| 0 <= e < fr.list.len() && fr.list@[e].snp_idx == k)
                &&& forall|e: int| 0 <= e < fr.list.len() ==> elem_from_read(*read, #[trigger] fr.list@[e])
            }),
    {
        let n = self.snps.len();
        if n == 0 {
            return Ok(());
        }
        let last_pos = self.snps[n - 1].pos;
        if read.pos > last_pos {
            return Ok(());
        }
        let mut snp_offset: usize = 0;
        while snp_offset < n && self.snps[snp_offset].pos < read.pos
            invariant
                snp_offset <= n,
                n == self.snps.len(),
                n > 0 && read.pos <= self.snps@[n - 1].pos,
                forall|k: int| 0 <= k < snp_offset ==> #[trigger] self.snps@[k].pos < read.pos,
            decreases n - snp_offset,
        {
            snp_offset = snp_offset + 1;
        }
        if snp_offset >= n {
            return Err(PhaseError::PositionOrder);
        }
        let ghost sorted = sites_sorted(self.snps@);
        let ghost first_k = snp_offset as int;
        let ghost base = frags_events(self.fragments@, *model, self.fragments.len() as int);
        let ghost h0 = edges_hold(self.edges@, base);
        proof {
            assert(base + list_events(Seq::<FragElem>::empty(), *model, self.fragments.len()) =~= base);
        }
        let ghost old_self = *self;
        assert(old_self == *old(self));
        let frag_idx = self.fragments.len();
        let mut snp_pos: i64 = self.snps[snp_offset].pos;
        let mut pos_on_ref: i64 = read.pos;
        let mut pos_on_query: u64 = read.leading_softclips;
        let mut list: Vec<FragElem> = Vec::new();
        let mut op_i: usize = 0;
        let mut done = false;
        while op_i < read.cigar.len() && !done
            invariant
                self.edges_wf(),
                model.wf(),
                old_self == *old(self),
                old_self.graph_wf(),
                n == self.snps.len(),
                n > 0 && read.pos <= self.snps@[n - 1].pos,
                sorted == sites_sorted(self.snps@),
                sorted && !done ==> pos_on_ref <= snp_pos,
                first_k <= snp_offset,
                0 <= first_k < n,
                read.pos <= self.snps@[first_k].pos,
                forall|k: int| 0 <= k < first_k ==> #[trigger] self.snps@[k].pos < read.pos,
                list.len() == snp_offset - first_k,
                forall|e: int| 0 <= e < list.len() ==> #[trigger] list@[e].snp_idx == first_k + e,
                forall|e: int| 0 <= e < list.len() ==> elem_from_read(*read, #[trigger] list@[e]),
                sorted && done ==> snp_offset == n,
                last_pos == self.snps@[n - 1].pos,
                base == frags_events(old_self.fragments@, *model, old_self.fragments.len() as int),
                h0 == edges_hold(old_self.edges@, base),
                h0 ==> edges_hold(self.edges@, base + list_events(list@, *model, frag_idx)),
                sorted || !done ==> forall|o: int| 0 <= o < op_i ==> op_known(#[trigger] read.cigar@[o]),
                sorted && done ==> last_pos < read.pos + ref_sum(read.cigar@, op_i as int),
                !done ==> pos_on_ref == read.pos + ref_sum(read.cigar@, op_i as int),
                !done ==> pos_on_query == read.leading_softclips + qry_sum(read.cigar@, op_i as int),
                self.snps == old_self.snps,
                self.homo_snps == old_self.homo_snps,
                self.fragments == old_self.fragments,
                self.snp_cover_fragments == old_self.snp_cover_fragments,
                self.haplotype == old_self.haplotype,
                self.haplotag == old_self.haplotag,
                self.phased == old_self.phased,
                frag_idx == self.fragments.len(),
                forall|k: int| 0 <= k < n ==> #[trigger] self.snps@[k].pos < i64::MAX,
                op_i <= read.cigar.len(),
                !done ==> snp_offset < n && snp_pos == self.snps@[snp_offset as int].pos,
                snp_offset <= n,
                list.len() <= snp_offset,
                forall|k: int| 0 <= k < list.len() ==> #[trigger] list@[k].snp_idx < snp_offset
                    && list@[k].snp_idx >= k
                    && elem_ok(list@[k], n as int)
                    && list@[k].pos == self.snps@[list@[k].snp_idx as int].pos
                    && list@[k].p == allele_call(list@[k].base, self.snps@[list@[k].snp_idx as int].alleles)
                    && list@[k].log_err == log_err_of(list@[k].baseq),
                forall|e1: int, e2: int| 0 <= e1 < e2 < list.len() ==> #[trigger] list@[e1].snp_idx < #[trigger] list@[e2].snp_idx,
            decreases read.cigar.len() - op_i,
        {
            if pos_on_ref > last_pos {
                proof {
                    if sorted && !done && (snp_offset as int) < n - 1 {
                        assert(self.snps@[snp_offset as int].pos < self.snps@[n - 1].pos);
                    }
                }
                done = true;
            } else {
                let cg = read.cigar[op_i];
                if cg.op == OP_S || cg.op == OP_H {
                } else if cg.op == OP_I {
                    if pos_on_query > u64::MAX - cg.len as u64 {
                        proof {
                            self.lemma_no_query_error(*read, op_i as int, sorted);
                        }
                        return Err(PhaseError::QueryOutOfRange);
                    }
                    pos_on_query = pos_on_query + cg.len as u64;
                } else if cg.op == OP_M || cg.op == OP_D || cg.op == OP_N {
                    let consumes_query = cg.op == OP_M;
                    let mut step: u32 = 0;
                    while step < cg.len && !done
                        invariant
                            self.edges_wf(),
                            model.wf(),
                            old_self == *old(self),
                            old_self.graph_wf(),
                            n == self.snps.len(),
                            n > 0 && read.pos <= self.snps@[n - 1].pos,
                            sorted == sites_sorted(self.snps@),
                            sorted && !done ==> pos_on_ref <= snp_pos,
                            first_k <= snp_offset,
                            0 <= first_k < n,
                            read.pos <= self.snps@[first_k].pos,
                            forall|k: int| 0 <= k < first_k ==> #[trigger] self.snps@[k].pos < read.pos,
                            list.len() == snp_offset - first_k,
                            forall|e: int| 0 <= e < list.len() ==> #[trigger] list@[e].snp_idx == first_k + e,
                            forall|e: int| 0 <= e < list.len() ==> elem_from_read(*read, #[trigger] list@[e]),
                            sorted && done ==> snp_offset == n,
                            op_i < read.cigar.len(),
                            last_pos == self.snps@[n - 1].pos,
                            base == frags_events(old_self.fragments@, *model, old_self.fragments.len() as int),
                            h0 == edges_hold(old_self.edges@, base),
                            h0 ==> edges_hold(self.edges@, base + list_events(list@, *model, frag_idx)),
                            forall|o: int| 0 <= o < op_i ==> op_known(#[trigger] read.cigar@[o]),
                            sorted && done ==> last_pos < read.pos + ref_sum(read.cigar@, op_i + 1),
                            cg == read.cigar@[op_i as int],
                            consumes_query == (cg.op == OP_M),
                            cg.op == OP_M || cg.op == OP_D || cg.op == OP_N,
                            !done ==> pos_on_ref == read.pos + ref_sum(read.cigar@, op_i as int) + step,
                            !done ==> pos_on_query == read.leading_softclips + qry_sum(read.cigar@, op_i as int) + (if consumes_query { step as int } else { 0 }),
                            self.snps == old_self.snps,
                            self.homo_snps == old_self.homo_snps,
                            self.fragments == old_self.fragments,
                            self.snp_cover_fragments == old_self.snp_cover_fragments,
                            self.haplotype == old_self.haplotype,
                            self.haplotag == old_self.haplotag,
                            self.phased == old_self.phased,
                            frag_idx == self.fragments.len(),
                            forall|k: int| 0 <= k < n ==> #[trigger] self.snps@[k].pos < i64::MAX,
                            step <= cg.len,
                            !done ==> snp_offset < n && snp_pos == self.snps@[snp_offset as int].pos,
                            snp_offset <= n,
                            list.len() <= snp_offset,
                            forall|k: int| 0 <= k < list.len() ==> #[trigger] list@[k].snp_idx < snp_offset
                                && list@[k].snp_idx >= k
                                && elem_ok(list@[k], n as int)
                                && list@[k].pos == self.snps@[list@[k].snp_idx as int].pos
                                && list@[k].p == allele_call(list@[k].base, self.snps@[list@[k].snp_idx as int].alleles)
                    && list@[k].log_err == log_err_of(list@[k].baseq),
                            forall|e1: int, e2: int| 0 <= e1 < e2 < list.len() ==> #[trigger] list@[e1].snp_idx < #[trigger] list@[e2].snp_idx,
                        decreases cg.len - step,
                    {
                        if pos_on_ref > snp_pos {
                            return Err(PhaseError::PositionOrder);
                        }
                        let ghost old_snp_pos = snp_pos;
                        if pos_on_ref == snp_pos {
                            let alleles = self.snps[snp_offset].alleles;
                            let elem = if consumes_query {
                                if pos_on_query >= read.seq.len() as u64 || pos_on_query >= read.qual.len() as u64 {
                                    proof {
                                        self.lemma_no_query_error(*read, op_i as int, sorted);
                                    }
                                    return Err(PhaseError::QueryOutOfRange);
                                }
                                let base = read.seq[pos_on_query as usize];
                                let baseq = read.qual[pos_on_query as usize];
                                let p: i32 = if base == alleles[0] { 1 } else if base == alleles[1] { -1 } else { 0 };
                                FragElem {
                                    snp_idx: snp_offset,
                                    pos: pos_on_ref,
                                    base,
                                    baseq,
                                    p,
                                    log_err: -100_000 * baseq as i64,
                                    log_ok: model.log_ok[baseq as usize],
                                }
                            } else {
                                let p: i32 = if DELETED_BASE == alleles[0] { 1 } else if DELETED_BASE == alleles[1] { -1 } else { 0 };
                                FragElem {
                                    snp_idx: snp_offset,
                                    pos: pos_on_ref,
                                    base: DELETED_BASE,
                                    baseq: 0,
                                    p,
                                    log_err: 0,
                                    log_ok: 0,
                                }
                            };
                            let ghost list_before = list@;
                            let ghost b2 = base + list_events(list@, *model, frag_idx);
                            let _ = self.observe_site(&mut list, elem, frag_idx, model, Ghost(b2));
                            proof {
                                assert(list@.drop_last() =~= list_before);
                                assert(b2 + elem_events(list_before, elem, *model, frag_idx, list_before.len() as int)
                                    =~= base + list_events(list@, *model, frag_idx));
                            }
                            proof {
                                assert forall|e: int| 0 <= e < list.len() implies elem_from_read(*read, #[trigger] list@[e]) by {
                                    if e < list_before.len() {
                                        assert(list@[e] == list_before[e]);
                                    } else {
                                        assert(read_covers(*read, op_i as int, step as int, list@[e].pos as int));
                                        assert(shows(*read, op_i as int, step as int, list@[e].base, list@[e].baseq));
                                    }
                                }
                                assert forall|e: int| 0 <= e < list.len() implies #[trigger] list@[e].snp_idx == first_k + e by {
                                    if e < list_before.len() {
                                        assert(list@[e] == list_before[e]);
                                    }
                                }
                                assert forall|e1: int, e2: int| 0 <= e1 < e2 < list.len() implies
                                    #[trigger] list@[e1].snp_idx < #[trigger] list@[e2].snp_idx by {
                                    if e2 < list_before.len() {
                                        assert(list_before[e1].snp_idx < list_before[e2].snp_idx);
                                    } else {
                                        assert(list_before[e1].snp_idx < snp_offset);
                                    }
                                }
                            }
                            snp_offset = snp_offset + 1;
                            if snp_offset >= n {
                                done = true;
                            } else {
                                snp_pos = self.snps[snp_offset].pos;
                                proof {
                                    if sorted {
                                        assert(self.snps@[snp_offset - 1].pos < self.snps@[snp_offset as int].pos);
                                    }
                                }
                            }
                        }
                        if !done {
                            if consumes_query {
                                if pos_on_query == u64::MAX {
                                    proof {
                                        self.lemma_no_query_error(*read, op_i as int, sorted);
                                    }
                                    return Err(PhaseError::QueryOutOfRange);
                                }
                                pos_on_query = pos_on_query + 1;
                            }
                            pos_on_ref = pos_on_ref + 1;
                        }
                        step = step + 1;
                    }
                } else {
                    return Err(PhaseError::UnknownCigarOp);
                }
            }
            op_i = op_i + 1;
        }
        proof {
            if sorted && unknown_before_last(*read, self.snps@) {
                let o = choose|o: int| 0 <= o < read.cigar.len() && !op_known(#[trigger] read.cigar@[o]) && clean_prefix(*read, o)
                    && read.pos + ref_sum(read.cigar@, o) <= self.snps@[n - 1].pos;
                assert(o >= op_i);
                lemma_ref_sum_mono(read.cigar@, op_i as int, o);
            }
        }
        let ghost list_g = list@;
        proof {
            if sorted {
                let ref_end = read.pos + ref_sum(read.cigar@, read.cigar.len() as int);
                assert forall|k: int| snp_offset <= k < n implies #[trigger] self.snps@[k].pos >= ref_end by {
                    if !done {
                        if k > snp_offset {
                            assert(self.snps@[snp_offset as int].pos < self.snps@[k].pos);
                        }
                    }
                }
                assert forall|k: int| 0 <= k < n implies (read_spans(*read, #[trigger] self.snps@[k].pos as int)
                    <==> (first_k <= k < snp_offset)) by {
                    if first_k <= k < snp_offset {
                        let e = k - first_k;
                        assert(list@[e].snp_idx == k);
                        assert(elem_from_read(*read, list@[e]));
                        let (o, d) = choose|o: int, d: int| read_covers(*read, o, d, list@[e].pos as int)
                            && shows(*read, o, d, list@[e].base, list@[e].baseq);
                        lemma_ref_sum_mono(read.cigar@, 0, o);
                        lemma_ref_sum_mono(read.cigar@, o + 1, read.cigar.len() as int);
                    } else if k > first_k {
                        assert(self.snps@[k].pos >= ref_end);
                    } else if k < first_k {
                        assert(self.snps@[k].pos < read.pos);
                    }
                }
            }
        }
        if list.len() > 0 {
            let ghost frags_before = self.fragments@;
            let len = list.len();
            let mut covered: Vec<usize> = Vec::new();
            let mut k: usize = 0;
            while k < len
                invariant
                    k <= len == list.len(),
                    covered.len() == k,
                    forall|x: int| 0 <= x < k ==> #[trigger] covered@[x] == list@[x].snp_idx,
                decreases len - k,
            {
                covered.push(list[k].snp_idx);
                k = k + 1;
            }
            let fragment = Fragment { fragment_idx: frag_idx, read_id: copy_bytes(&read.read_id), list };
            self.fragments.push(fragment);
            proof {
                assert forall|f: int| 0 <= f < frags_before.len() implies #[trigger] self.fragments@[f] == frags_before[f] by {}
                assert(self.fragments_wf()) by {
                    assert forall|f: int, e: int| 0 <= f < self.fragments.len() && 0 <= e < self.fragments@[f].list.len()
                        implies elem_ok(#[trigger] self.fragments@[f].list@[e], self.snps.len() as int) by {
                        if f < frags_before.len() {
                            assert(elem_ok(old_self.fragments@[f].list@[e], n as int));
                        } else {
                            assert(self.fragments@[f].list@[e].snp_idx < snp_offset);
                            assert(self.fragments@[f].list@[e].snp_idx >= e);
                        }
                    }
                }
            }
            let ghost frags_after = self.fragments@;
            let ghost edges_at_push = self.edges@;
            proof {
                if h0 {
                    let n0 = old_self.fragments.len() as int;
                    lemma_frags_events_prefix(old_self.fragments@, frags_after, *model, n0);
                    assert(frags_after[n0].list@ == list_g);
                    assert(frags_events(frags_after, *model, n0 + 1)
                        == frags_events(frags_after, *model, n0) + list_events(frags_after[n0].list@, *model, n0 as usize));
                    assert(edges_hold(self.edges@, frags_events(frags_after, *model, frags_after.len() as int)));
                }

                assert(frags_after[frag_idx as int].list@ == list_g);
                assert forall|s: int, c: int| 0 <= s < self.snp_cover_fragments.len() && 0 <= c < self.snp_cover_fragments@[s].len()
                    implies has_site(frags_after[#[trigger] self.snp_cover_fragments@[s]@[c] as int], s) by {
                    let f = self.snp_cover_fragments@[s]@[c] as int;
                    assert(has_site(old_self.fragments@[f], s));
                    assert(frags_after[f] == old_self.fragments@[f]);
                }
                assert forall|f: int, e: int| 0 <= f < frag_idx && 0 <= e < frags_after[f].list.len()
                    implies in_cover(self.snp_cover_fragments@, #[trigger] frags_after[f].list@[e].snp_idx as int, f) by {
                    assert(frags_after[f] == old_self.fragments@[f]);
                    assert(in_cover(old_self.snp_cover_fragments@, old_self.fragments@[f].list@[e].snp_idx as int, f));
                }
            }
            let mut k: usize = 0;
            while k < len
                invariant
                    self.fragments@ == frags_after,
                    self.edges@ == edges_at_push,
                    self.fragments_wf(),
                    self.edges_wf(),
                    self.snps == old_self.snps,
                    self.homo_snps == old_self.homo_snps,
                    self.haplotype == old_self.haplotype,
                    self.haplotag == old_self.haplotag,
                    self.phased == old_self.phased,
                    k <= len == covered.len(),
                    n == self.snps.len(),
                    self.snp_cover_fragments.len() == n,
                    self.fragments.len() == frag_idx + 1,
                    forall|x: int| 0 <= x < len ==> #[trigger] covered@[x] < n,
                    forall|s: int, c: int| 0 <= s < self.snp_cover_fragments.len() && 0 <= c < self.snp_cover_fragments@[s].len()
                        ==> #[trigger] self.snp_cover_fragments@[s]@[c] < self.fragments.len(),
                    forall|x: int| 0 <= x < len ==> #[trigger] covered@[x] == list_g[x].snp_idx,
                    frags_after[frag_idx as int].list@ == list_g,
                    list_g.len() == len,
                    forall|s: int, c: int| 0 <= s < self.snp_cover_fragments.len() && 0 <= c < self.snp_cover_fragments@[s].len()
                        ==> has_site(frags_after[#[trigger] self.snp_cover_fragments@[s]@[c] as int], s),
                    forall|f: int, e: int| 0 <= f < frag_idx && 0 <= e < frags_after[f].list.len()
                        ==> in_cover(self.snp_cover_fragments@, #[trigger] frags_after[f].list@[e].snp_idx as int, f),
                    forall|e: int| 0 <= e < k ==> in_cover(self.snp_cover_fragments@, #[trigger] list_g[e].snp_idx as int, frag_idx as int),
                decreases len - k,
            {
                let s = covered[k];
                let ghost before = self.snp_cover_fragments@;
                self.snp_cover_fragments[s].push(frag_idx);
                proof {
                    assert(has_site(frags_after[frag_idx as int], s as int)) by {
                        assert(frags_after[frag_idx as int].list@[k as int].snp_idx == s);
                    }
                    assert forall|s2: int, c: int| 0 <= s2 < self.snp_cover_fragments.len() && 0 <= c < self.snp_cover_fragments@[s2].len()
                        implies has_site(frags_after[#[trigger] self.snp_cover_fragments@[s2]@[c] as int], s2) by {
                        if s2 != s as int || c < before[s2].len() {
                            assert(self.snp_cover_fragments@[s2]@[c] == before[s2]@[c]);
                        }
                    }
                    assert forall|s2: int, f: int| 0 <= s2 < n && in_cover(before, s2, f) implies in_cover(self.snp_cover_fragments@, s2, f) by {
                        let c = choose|c: int| 0 <= c < before[s2].len() && #[trigger] before[s2]@[c] == f;
                        assert(self.snp_cover_fragments@[s2]@[c] == before[s2]@[c]);
                    }
                    assert(in_cover(self.snp_cover_fragments@, s as int, frag_idx as int)) by {
                        assert(self.snp_cover_fragments@[s as int]@[before[s as int].len() as int] == frag_idx);
                    }
                    assert forall|f: int, e: int| 0 <= f < frag_idx && 0 <= e < frags_after[f].list.len()
                        implies in_cover(self.snp_cover_fragments@, #[trigger] frags_after[f].list@[e].snp_idx as int, f) by {
                        assert(in_cover(before, frags_after[f].list@[e].snp_idx as int, f));
                        assert(frags_after[f].list@[e].snp_idx < n) by {
                            assert(elem_ok(frags_after[f].list@[e], n as int));
                        }
                    }
                    assert forall|e: int| 0 <= e < k + 1 implies in_cover(self.snp_cover_fragments@, #[trigger] list_g[e].snp_idx as int, frag_idx as int) by {
                        if e < k {
                            assert(in_cover(before, list_g[e].snp_idx as int, frag_idx as int));
                            assert(list_g[e].snp_idx < n);
                        }
                    }
                    assert forall|s2: int, c: int| 0 <= s2 < self.snp_cover_fragments.len() && 0 <= c < self.snp_cover_fragments@[s2].len()
                        implies #[trigger] self.snp_cover_fragments@[s2]@[c] < self.fragments.len() by {
                        if s2 != s as int || c < before[s2].len() {
                            assert(self.snp_cover_fragments@[s2]@[c] == before[s2]@[c]);
                        }
                    }
                }
                k = k + 1;
            }
            proof {
                let fr = self.fragments@[frag_idx as int];
                assert(fr.list@ == list_g);
                if sorted {
                    assert forall|k: int| 0 <= k < n implies (read_spans(*read, #[trigger] self.snps@[k].pos as int)
                        <==> exists|e: int| 0 <= e < fr.list.len() && fr.list@[e].snp_idx == k) by {
                        if first_k <= k < snp_offset {
                            assert(fr.list@[k - first_k].snp_idx == k);
                        }
                    }
                    assert(read_spans(*read, self.snps@[first_k].pos as int));
                }
            }
        } else {
            proof {
                if sorted {
                    assert(snp_offset == first_k);
                }
                assert(list@ =~= Seq::<FragElem>::empty());
                assert(base + list_events(list@, *model, frag_idx) =~= base);
            }
        }
        Ok(())
    }
}

/// Largest number of sites and of fragments in one region.
pub const MAX_SITES: usize = 4_294_967_295;

/// Log-likelihood (millionths of a base-10 log) of one observation when its read is
/// on side `sigma` and its site on side `delta`: the error term where the signs agree
/// with the call, the complement term where they do not, nothing without a call.
pub open spec fn elem_ll(fe: FragElem, sigma: int, delta: int) -> int {
    if fe.p == 0 {
        0
    } else if sigma * delta == fe.p {
        fe.log_err as int
    } else {
        fe.log_ok as int
    }
}

/// Log-likelihood of a fragment's observations with the read on side `sigma`.
pub open spec fn frag_ll(list: Seq<FragElem>, sigma: int, hap: Seq<i32>) -> int
    decreases list.len(),
{
    if list.len() == 0 {
        0
    } else {
        frag_ll(list.drop_last(), sigma, hap) + elem_ll(list.last(), sigma, hap[list.last().snp_idx as int] as int)
    }
}

/// Joint log-likelihood of the first `n` fragments under a read assignment and a haplotype.
pub open spec fn total_ll(frags: Seq<Fragment>, tag: Seq<i32>, hap: Seq<i32>, n: int) -> int
    decreases n,
{
    if n <= 0 {
        0
    } else {
        total_ll(frags, tag, hap, n - 1) + frag_ll(frags[n - 1].list@, tag[n - 1] as int, hap)
    }
}

/// Log-likelihood of a side `x` against the sides `ys` of the other party of each
/// observation, from their calls, error and complement terms.
pub open spec fn obs_ll(x: int, ys: Seq<i32>, ps: Seq<i32>, errs: Seq<i64>, oks: Seq<i64>, n: int) -> int
    decreases n,
{
    if n <= 0 {
        0
    } else {
        obs_ll(x, ys, ps, errs, oks, n - 1) + if x * ys[n - 1] == ps[n - 1] { errs[n - 1] as int } else { oks[n - 1] as int }
    }
}

pub open spec fn is_sign(v: i32) -> bool {
    v == 1 || v == -1
}

pub open spec fn all_signs(v: Seq<i32>) -> bool {
    forall|k: int| 0 <= k < v.len() ==> is_sign(#[trigger] v[k])
}

proof fn lemma_frag_ll_bounds(list: Seq<FragElem>, sigma: int, hap: Seq<i32>, n_snps: int)
    requires
        forall|e: int| 0 <= e < list.len() ==> elem_ok(#[trigger] list[e], n_snps),
    ensures
        -(list.len() as int) * MAX_LOG <= frag_ll(list, sigma, hap) <= 0,
    decreases list.len(),
{
    if list.len() > 0 {
        let l = list.drop_last();
        assert forall|e: int| 0 <= e < l.len() implies elem_ok(#[trigger] l[e], n_snps) by {
            assert(l[e] == list[e]);
        }
        lemma_frag_ll_bounds(l, sigma, hap, n_snps);
        assert(elem_ok(list[list.len() - 1], n_snps));
    }
}

impl SNPFrag {
    /// Graph consistent, one sign per site and per fragment, sizes within range.
    pub open spec fn phasing_wf(&self) -> bool {
        &&& self.graph_wf()
        &&& self.snps.len() <= MAX_SITES
        &&& self.fragments.len() <= MAX_SITES
        &&& self.haplotype.len() == self.snps.len()
        &&& self.haplotag.len() == self.fragments.len()
        &&& all_signs(self.haplotype@)
        &&& all_signs(self.haplotag@)
    }

    proof fn lemma_fragment_bounds(&self, f: int, sigma: int, hap: Seq<i32>)
        requires
            self.graph_wf(),
            self.snps.len() <= MAX_SITES,
            0 <= f < self.fragments.len(),
        ensures
            self.fragments@[f].list.len() <= self.snps.len(),
            -(MAX_SITES as int) * MAX_LOG <= frag_ll(self.fragments@[f].list@, sigma, hap) <= 0,
    {
        let list = self.fragments@[f].list@;
        assert forall|e: int| 0 <= e < list.len() implies elem_ok(#[trigger] list[e], self.snps.len() as int) by {
            assert(elem_ok(self.fragments@[f].list@[e], self.snps.len() as int));
        }
        if list.len() > 0 {
            assert(elem_ok(self.fragments@[f].list@[list.len() - 1], self.snps.len() as int)
                && self.fragments@[f].list@[list.len() - 1].snp_idx >= list.len() - 1);
        }
        lemma_frag_ll_bounds(list, sigma, hap, self.snps.len() as int);
        assert(-(list.len() as int) * MAX_LOG >= -(MAX_SITES as int) * MAX_LOG) by (nonlinear_arith)
            requires list.len() <= MAX_SITES, MAX_LOG > 0;
    }

    /// Log-likelihood of fragment `f` with its read on side `sigma`.
    fn frag_log_likelihood(&self, f: usize, sigma: i32, hap: &Vec<i32>) -> (r: i128)
        requires
            self.graph_wf(),
            self.snps.len() <= MAX_SITES,
            f < self.fragments.len(),
            hap.len() == self.snps.len(),
            is_sign(sigma),
            all_signs(hap@),
        ensures
            r as int == frag_ll(self.fragments@[f as int].list@, sigma as int, hap@),
            -(MAX_SITES as int) * MAX_LOG <= r <= 0,
    {
        let list = &self.fragments[f].list;
        let mut acc: i128 = 0;
        let mut e: usize = 0;
        proof {
            self.lemma_fragment_bounds(f as int, sigma as int, hap@);
        }
        while e < list.len()
            invariant
                e <= list.len(),
                *list == self.fragments@[f as int].list,
                self.graph_wf(),
                f < self.fragments.len(),
                hap.len() == self.snps.len(),
                is_sign(sigma),
                all_signs(hap@),
                acc as int == frag_ll(list@.take(e as int), sigma as int, hap@),
                -(e as int) * MAX_LOG <= acc <= 0,
                list.len() <= MAX_SITES,
            decreases list.len() - e,
        {
            let fe = list[e];
            proof {
                assert(elem_ok(self.fragments@[f as int].list@[e as int], self.snps.len() as int));
                assert(list@.take(e + 1).drop_last() =~= list@.take(e as int));
            }
            if fe.p != 0 {
                let d = hap[fe.snp_idx];
                let same = (sigma == d) == (fe.p == 1);
                proof {
                    assert(same == (sigma * d == fe.p)) by (nonlinear_arith)
                        requires is_sign(sigma), is_sign(d), fe.p == 1 || fe.p == -1, same == ((sigma == d) == (fe.p == 1));
                }
                if same {
                    acc = acc + fe.log_err as i128;
                } else {
                    acc = acc + fe.log_ok as i128;
                }
            }
            e = e + 1;
        }
        proof {
            assert(list@.take(list.len() as int) =~= list@);
            assert(-(list.len() as int) * MAX_LOG >= -(MAX_SITES as int) * MAX_LOG) by (nonlinear_arith)
                requires list.len() <= MAX_SITES, MAX_LOG > 0;
        }
        acc
    }

    /// Joint log-likelihood of all fragments under read assignment `sigma` and
    /// haplotype `delta`.
    pub fn cal_overall_probability(snpfrag: &SNPFrag, sigma: &Vec<i32>, delta: &Vec<i32>) -> (r: i128)
        requires
            snpfrag.graph_wf(),
            snpfrag.snps.len() <= MAX_SITES,
            snpfrag.fragments.len() <= MAX_SITES,
            sigma.len() == snpfrag.fragments.len(),
            delta.len() == snpfrag.snps.len(),
            all_signs(sigma@),
            all_signs(delta@),
        ensures
            r as int == total_ll(snpfrag.fragments@, sigma@, delta@, sigma.len() as int),
            -(MAX_SITES as int) * (MAX_SITES as int) * MAX_LOG <= r <= 0,
    {
        let mut acc: i128 = 0;
        let mut k: usize = 0;
        while k < sigma.len()
            invariant
                k <= sigma.len() == snpfrag.fragments.len(),
                snpfrag.graph_wf(),
                snpfrag.snps.len() <= MAX_SITES,
                snpfrag.fragments.len() <= MAX_SITES,
                delta.len() == snpfrag.snps.len(),
                all_signs(sigma@),
                all_signs(delta@),
                acc as int == total_ll(snpfrag.fragments@, sigma@, delta@, k as int),
                -(k as int) * (MAX_SITES as int) * MAX_LOG <= acc <= 0,
            decreases sigma.len() - k,
        {
            assert(is_sign(sigma@[k as int]));
            let l = snpfrag.frag_log_likelihood(k, sigma[k], delta);
            proof {
                assert(-(k as int) * (MAX_SITES as int) * MAX_LOG - (MAX_SITES as int) * MAX_LOG
                    == -(k + 1) * (MAX_SITES as int) * MAX_LOG) by (nonlinear_arith);
                assert(-(k + 1) * (MAX_SITES as int) * MAX_LOG >= -(MAX_SITES as int) * (MAX_SITES as int) * MAX_LOG) by (nonlinear_arith)
                    requires k < MAX_SITES, MAX_LOG > 0;
            }
            acc = acc + l;
            k = k + 1;
        }
        proof {
            assert(-(k as int) * (MAX_SITES as int) * MAX_LOG >= -(MAX_SITES as int) * (MAX_SITES as int) * MAX_LOG) by (nonlinear_arith)
                requires k <= MAX_SITES, MAX_LOG > 0;
        }
        acc
    }
}

/// Observation vectors of one party against the other: their sides, calls, error and
/// complement terms, one entry per observation.
pub open spec fn obs_ok(ys: Seq<i32>, ps: Seq<i32>, errs: Seq<i64>, oks: Seq<i64>) -> bool {
    &&& ps.len() == ys.len()
    &&& errs.len() == ys.len()
    &&& oks.len() == ys.len()
    &&& all_signs(ys)
    &&& forall|k: int| 0 <= k < ys.len() ==> -MAX_LOG <= #[trigger] errs[k] <= 0 && -MAX_LOG <= oks[k] <= 0
}

fn obs_log_likelihood(x: i32, ys: &Vec<i32>, ps: &Vec<i32>, errs: &Vec<i64>, oks: &Vec<i64>) -> (r: i128)
    requires
        is_sign(x),
        obs_ok(ys@, ps@, errs@, oks@),
    ensures
        r as int == obs_ll(x as int, ys@, ps@, errs@, oks@, ys.len() as int),
        -(ys.len() as int) * MAX_LOG <= r <= 0,
{
    let mut acc: i128 = 0;
    let mut k: usize = 0;
    while k < ys.len()
        invariant
            k <= ys.len(),
            is_sign(x),
            obs_ok(ys@, ps@, errs@, oks@),
            acc as int == obs_ll(x as int, ys@, ps@, errs@, oks@, k as int),
            -(k as int) * MAX_LOG <= acc <= 0,
        decreases ys.len() - k,
    {
        let y = ys[k];
        assert(is_sign(ys@[k as int]));
        assert(-MAX_LOG <= errs@[k as int] <= 0 && -MAX_LOG <= oks@[k as int] <= 0);
        let prod: i32 = if x == y { 1 } else { -1 };
        proof {
            assert(prod == x * y) by (nonlinear_arith)
                requires is_sign(x), is_sign(y), prod == (if x == y { 1i32 } else { -1i32 });
        }
        if prod == ps[k] {
            acc = acc + errs[k] as i128;
        } else {
            acc = acc + oks[k] as i128;
        }
        k = k + 1;
    }
    acc
}


pub type Observations = (Seq<i32>, Seq<i32>, Seq<i64>, Seq<i64>);

/// The observations of site `i` in one fragment whose read is on side `sigma`: the
/// side, call, error and complement terms of each element at `i` with a call.
pub open spec fn list_obs(list: Seq<FragElem>, sigma: i32, i: int) -> Observations
    decreases list.len(),
{
    if list.len() == 0 {
        (Seq::empty(), Seq::empty(), Seq::empty(), Seq::empty())
    } else {
        let prev = list_obs(list.drop_last(), sigma, i);
        let fe = list.last();
        if fe.snp_idx == i && fe.p != 0 {
            (prev.0.push(sigma), prev.1.push(fe.p), prev.2.push(fe.log_err), prev.3.push(fe.log_ok))
        } else {
            prev
        }
    }
}

/// The observations of site `i` in the first `c` fragments of its coverage list.
pub open spec fn site_obs(frags: Seq<Fragment>, covers: Seq<usize>, tag: Seq<i32>, i: int, c: int) -> Observations
    decreases c,
{
    if c <= 0 {
        (Seq::empty(), Seq::empty(), Seq::empty(), Seq::empty())
    } else {
        let prev = site_obs(frags, covers, tag, i, c - 1);
        let k = covers[c - 1] as int;
        let cur = list_obs(frags[k].list@, tag[k], i);
        (prev.0 + cur.0, prev.1 + cur.1, prev.2 + cur.2, prev.3 + cur.3)
    }
}

impl SNPFrag {
    /// The observations of site `i` by the reads that cover it.
    pub open spec fn site_observations_spec(&self, i: int) -> Observations {
        site_obs(self.fragments@, self.snp_cover_fragments@[i]@, self.haplotag@, i, self.snp_cover_fragments@[i].len() as int)
    }
}

impl SNPFrag {
    /// Log-likelihood of a read on side `sigma_k`, against the sides `delta` of the
    /// sites it covers, their calls `ps`, and their error and complement terms. It is
    /// left unnormalised: the posterior of a side is this likelihood over the sum for
    /// both sides, which is the same for both, so comparing the two sides' values
    /// decides as comparing their floored posteriors does.
    pub fn cal_sigma_delta(sigma_k: i32, delta: &Vec<i32>, ps: &Vec<i32>, log_errs: &Vec<i64>, log_oks: &Vec<i64>) -> (r: i128)
        requires
            is_sign(sigma_k),
            obs_ok(delta@, ps@, log_errs@, log_oks@),
        ensures
            r as int == obs_ll(sigma_k as int, delta@, ps@, log_errs@, log_oks@, delta.len() as int),
            -(delta.len() as int) * MAX_LOG <= r <= 0,
    {
        obs_log_likelihood(sigma_k, delta, ps, log_errs, log_oks)
    }

    /// Log-likelihood of a site on side `delta_i`, against the sides `sigma` of the
    /// reads that cover it, their calls `ps`, and their error and complement terms.
    /// Unnormalised, as `cal_sigma_delta`.
    pub fn cal_delta_sigma(delta_i: i32, sigma: &Vec<i32>, ps: &Vec<i32>, log_errs: &Vec<i64>, log_oks: &Vec<i64>) -> (r: i128)
        requires
            is_sign(delta_i),
            obs_ok(sigma@, ps@, log_errs@, log_oks@),
        ensures
            r as int == obs_ll(delta_i as int, sigma@, ps@, log_errs@, log_oks@, sigma.len() as int),
            -(sigma.len() as int) * MAX_LOG <= r <= 0,
    {
        obs_log_likelihood(delta_i, sigma, ps, log_errs, log_oks)
    }

    /// The three log sums behind a site's phase quality: the site on side `delta_i`,
    /// every read where its call says, and every read against its call.
    pub fn cal_delta_sigma_sum(delta_i: i32, sigma: &Vec<i32>, ps: &Vec<i32>, log_errs: &Vec<i64>, log_oks: &Vec<i64>) -> (r: (i128, i128, i128))
        requires
            is_sign(delta_i),
            obs_ok(sigma@, ps@, log_errs@, log_oks@),
        ensures
            r.0 as int == obs_ll(delta_i as int, sigma@, ps@, log_errs@, log_oks@, sigma.len() as int),
            r.1 as int == obs_ll(1, sigma@, ps@, log_errs@, log_oks@, sigma.len() as int),
            r.2 as int == obs_ll(1, sigma@, ps@, log_oks@, log_errs@, sigma.len() as int),
    {
        let q1 = obs_log_likelihood(delta_i, sigma, ps, log_errs, log_oks);
        let q2 = obs_log_likelihood(1, sigma, ps, log_errs, log_oks);
        assert forall|k: int| 0 <= k < sigma.len() implies -MAX_LOG <= #[trigger] log_oks@[k] <= 0 && -MAX_LOG <= log_errs@[k] <= 0 by {
            assert(-MAX_LOG <= log_errs@[k] <= 0 && -MAX_LOG <= log_oks@[k] <= 0);
        }
        assert(obs_ok(sigma@, ps@, log_oks@, log_errs@));
        let q3 = obs_log_likelihood(1, sigma, ps, log_oks, log_errs);
        (q1, q2, q3)
    }

    /// The observations of site `i` by the reads that cover it, with the reads' sides.
    fn site_observations(&self, i: usize) -> (r: (Vec<i32>, Vec<i32>, Vec<i64>, Vec<i64>))
        requires
            self.phasing_wf(),
            i < self.snps.len(),
        ensures
            obs_ok(r.0@, r.1@, r.2@, r.3@),
            (r.0@, r.1@, r.2@, r.3@) == self.site_observations_spec(i as int),
    {
        let mut sigma: Vec<i32> = Vec::new();
        let mut ps: Vec<i32> = Vec::new();
        let mut errs: Vec<i64> = Vec::new();
        let mut oks: Vec<i64> = Vec::new();
        let covers = &self.snp_cover_fragments[i];
        let mut c: usize = 0;
        while c < covers.len()
            invariant
                self.phasing_wf(),
                i < self.snps.len(),
                *covers == self.snp_cover_fragments@[i as int],
                c <= covers.len(),
                obs_ok(sigma@, ps@, errs@, oks@),
                (sigma@, ps@, errs@, oks@) == site_obs(self.fragments@, covers@, self.haplotag@, i as int, c as int),
            decreases covers.len() - c,
        {
            let k = covers[c];
            assert(self.snp_cover_fragments@[i as int]@[c as int] < self.fragments.len());
            let list = &self.fragments[k].list;
            let ghost base = (sigma@, ps@, errs@, oks@);
            let mut e: usize = 0;
            while e < list.len()
                invariant
                    self.phasing_wf(),
                    k < self.fragments.len(),
                    *list == self.fragments@[k as int].list,
                    e <= list.len(),
                    obs_ok(sigma@, ps@, errs@, oks@),
                    ({
                        let cur = list_obs(list@.take(e as int), self.haplotag@[k as int], i as int);
                        (sigma@, ps@, errs@, oks@) == (base.0 + cur.0, base.1 + cur.1, base.2 + cur.2, base.3 + cur.3)
                    }),
                decreases list.len() - e,
            {
                let fe = list[e];
                assert(elem_ok(self.fragments@[k as int].list@[e as int], self.snps.len() as int));
                proof {
                    assert(list@.take(e + 1).drop_last() =~= list@.take(e as int));
                }
                let ghost before = (sigma@, ps@, errs@, oks@);
                if fe.snp_idx == i && fe.p != 0 {
                    assert(is_sign(self.haplotag@[k as int]));
                    sigma.push(self.haplotag[k]);
                    ps.push(fe.p);
                    errs.push(fe.log_err);
                    oks.push(fe.log_ok);
                    proof {
                        let n = sigma.len() - 1;
                        assert forall|x: int| 0 <= x < sigma.len() implies is_sign(#[trigger] sigma@[x]) by {
                            if x < n {
                                assert(sigma@[x] == before.0[x]);
                            }
                        }
                        assert forall|x: int| 0 <= x < sigma.len() implies -MAX_LOG <= #[trigger] errs@[x] <= 0 && -MAX_LOG <= oks@[x] <= 0 by {
                            if x < n {
                                assert(errs@[x] == before.2[x]);
                                assert(oks@[x] == before.3[x]);
                            }
                        }
                        let cur = list_obs(list@.take(e as int), self.haplotag@[k as int], i as int);
                        assert(sigma@ =~= base.0 + cur.0.push(self.haplotag@[k as int]));
                        assert(ps@ =~= base.1 + cur.1.push(fe.p));
                        assert(errs@ =~= base.2 + cur.2.push(fe.log_err));
                        assert(oks@ =~= base.3 + cur.3.push(fe.log_ok));
                    }
                }
                e = e + 1;
            }
            proof {
                assert(list@.take(list.len() as int) =~= list@);
            }
            c = c + 1;
        }
        (sigma, ps, errs, oks)
    }
}

/// The read step: every read takes the side under which its observations are more
/// likely, keeping its side on a tie.
pub open spec fn sigma_step_spec(frags: Seq<Fragment>, tag: Seq<i32>, hap: Seq<i32>) -> Seq<i32> {
    Seq::new(tag.len(), |k: int|
        if frag_ll(frags[k].list@, tag[k] as int, hap) < frag_ll(frags[k].list@, -tag[k], hap) { (-tag[k]) as i32 } else { tag[k] })
}

/// The site step: every site takes the side under which the observations of the
/// reads covering it are more likely, keeping its side on a tie.
pub open spec fn delta_step_spec(frags: Seq<Fragment>, covers: Seq<Vec<usize>>, tag: Seq<i32>, hap: Seq<i32>) -> Seq<i32> {
    Seq::new(hap.len(), |i: int| {
        let o = site_obs(frags, covers[i]@, tag, i, covers[i].len() as int);
        if obs_ll(hap[i] as int, o.0, o.1, o.2, o.3, o.0.len() as int) < obs_ll(-hap[i], o.0, o.1, o.2, o.3, o.0.len() as int) {
            (-hap[i]) as i32
        } else {
            hap[i]
        }
    })
}

/// State of the likelihood ascent: read sides, site sides, and whether each step is
/// still improving.
pub type AscentState = (Seq<i32>, Seq<i32>, bool, bool);

/// One round of the ascent: the read step, kept only if it strictly raises the joint
/// log-likelihood, then the site step under the same rule. A step that is not kept
/// marks its side as no longer improving.
pub open spec fn ascent_round(frags: Seq<Fragment>, covers: Seq<Vec<usize>>, st: AscentState) -> AscentState {
    let n = frags.len() as int;
    let tag2 = sigma_step_spec(frags, st.0, st.1);
    let keep_tag = total_ll(frags, tag2, st.1, n) > total_ll(frags, st.0, st.1, n);
    let tag = if keep_tag { tag2 } else { st.0 };
    let hap2 = delta_step_spec(frags, covers, tag, st.1);
    let keep_hap = total_ll(frags, tag, hap2, n) > total_ll(frags, tag, st.1, n);
    (tag, if keep_hap { hap2 } else { st.1 }, keep_tag && st.2, keep_hap && st.3)
}

/// The state after `m` rounds.
pub open spec fn ascent(frags: Seq<Fragment>, covers: Seq<Vec<usize>>, st: AscentState, m: nat) -> AscentState
    decreases m,
{
    if m == 0 { st } else { ascent_round(frags, covers, ascent(frags, covers, st, (m - 1) as nat)) }
}

/// The ascent from `st` first has neither step improving after `m` rounds.
pub open spec fn ascent_done_at(frags: Seq<Fragment>, covers: Seq<Vec<usize>>, st: AscentState, m: nat) -> bool {
    &&& !ascent(frags, covers, st, m).2
    &&& !ascent(frags, covers, st, m).3
    &&& forall|j: nat| j < m ==> (#[trigger] ascent(frags, covers, st, j)).2 || ascent(frags, covers, st, j).3
}

/// Where the ascent from read sides `tag` and site sides `hap` stops.
pub open spec fn ascent_end(frags: Seq<Fragment>, covers: Seq<Vec<usize>>, tag: Seq<i32>, hap: Seq<i32>) -> AscentState {
    let st = (tag, hap, true, true);
    ascent(frags, covers, st, choose|m: nat| ascent_done_at(frags, covers, st, m))
}

proof fn lemma_ascent_end(frags: Seq<Fragment>, covers: Seq<Vec<usize>>, tag: Seq<i32>, hap: Seq<i32>, m: nat)
    requires
        ascent_done_at(frags, covers, (tag, hap, true, true), m),
    ensures
        ascent_end(frags, covers, tag, hap) == ascent(frags, covers, (tag, hap, true, true), m),
{
    let st = (tag, hap, true, true);
    let m2 = choose|m2: nat| ascent_done_at(frags, covers, st, m2);
    assert(ascent_done_at(frags, covers, st, m2));
    if m2 < m {
        assert(ascent(frags, covers, st, m2).2 || ascent(frags, covers, st, m2).3);
    } else if m < m2 {
        assert(ascent(frags, covers, st, m).2 || ascent(frags, covers, st, m).3);
    }
}

impl SNPFrag {
    /// Each read moves to the side under which its own observations are more likely;
    /// a tie keeps it where it is.
    fn sigma_step(&self) -> (r: Vec<i32>)
        requires
            self.phasing_wf(),
        ensures
            r.len() == self.haplotag.len(),
            all_signs(r@),
            forall|k: int| 0 <= k < r.len() ==> #[trigger] r@[k] == if frag_ll(self.fragments@[k].list@, self.haplotag@[k] as int, self.haplotype@)
                < frag_ll(self.fragments@[k].list@, -self.haplotag@[k], self.haplotype@) {
                -self.haplotag@[k]
            } else {
                self.haplotag@[k] as int
            },
    {
        let mut tmp: Vec<i32> = Vec::new();
        let mut k: usize = 0;
        while k < self.haplotag.len()
            invariant
                self.phasing_wf(),
                k <= self.haplotag.len(),
                tmp.len() == k,
                all_signs(tmp@),
                forall|x: int| 0 <= x < k ==> #[trigger] tmp@[x] == if frag_ll(self.fragments@[x].list@, self.haplotag@[x] as int, self.haplotype@)
                    < frag_ll(self.fragments@[x].list@, -self.haplotag@[x], self.haplotype@) {
                    -self.haplotag@[x]
                } else {
                    self.haplotag@[x] as int
                },
            decreases self.haplotag.len() - k,
        {
            let sigma_k = self.haplotag[k];
            assert(is_sign(self.haplotag@[k as int]));
            let flipped: i32 = -sigma_k;
            let keep = self.frag_log_likelihood(k, sigma_k, &self.haplotype);
            let flip = self.frag_log_likelihood(k, flipped, &self.haplotype);
            if keep < flip {
                tmp.push(flipped);
            } else {
                tmp.push(sigma_k);
            }
            k = k + 1;
        }
        tmp
    }

    /// Each site moves to the side under which the observations of the reads covering
    /// it are more likely; a tie keeps it where it is.
    fn delta_step(&self) -> (r: Vec<i32>)
        requires
            self.phasing_wf(),
        ensures
            r.len() == self.haplotype.len(),
            all_signs(r@),
            forall|i: int| 0 <= i < r.len() ==> #[trigger] r@[i] == ({
                let o = self.site_observations_spec(i);
                if obs_ll(self.haplotype@[i] as int, o.0, o.1, o.2, o.3, o.0.len() as int)
                    < obs_ll(-self.haplotype@[i], o.0, o.1, o.2, o.3, o.0.len() as int) {
                    -self.haplotype@[i]
                } else {
                    self.haplotype@[i] as int
                }
            }),
    {
        let mut tmp: Vec<i32> = Vec::new();
        let mut i: usize = 0;
        while i < self.haplotype.len()
            invariant
                self.phasing_wf(),
                i <= self.haplotype.len(),
                tmp.len() == i,
                all_signs(tmp@),
                forall|x: int| 0 <= x < i ==> #[trigger] tmp@[x] == ({
                    let o = self.site_observations_spec(x);
                    if obs_ll(self.haplotype@[x] as int, o.0, o.1, o.2, o.3, o.0.len() as int)
                        < obs_ll(-self.haplotype@[x], o.0, o.1, o.2, o.3, o.0.len() as int) {
                        -self.haplotype@[x]
                    } else {
                        self.haplotype@[x] as int
                    }
                }),
            decreases self.haplotype.len() - i,
        {
            let delta_i = self.haplotype[i];
            assert(is_sign(self.haplotype@[i as int]));
            let (sigma, ps, errs, oks) = self.site_observations(i);
            let keep = SNPFrag::cal_delta_sigma(delta_i, &sigma, &ps, &errs, &oks);
            let flip = SNPFrag::cal_delta_sigma(-delta_i, &sigma, &ps, &errs, &oks);
            if keep < flip {
                tmp.push(-delta_i);
            } else {
                tmp.push(delta_i);
            }
            i = i + 1;
        }
        tmp
    }

    /// Alternates the read step and the site step, keeping a step's result only when
    /// it strictly raises the joint log-likelihood, until neither step has just been
    /// kept. Returns the final joint log-likelihood: it is never below the starting
    /// one, and equals it exactly when nothing was changed.
    pub fn cross_optimize(&mut self) -> (r: i128)
        requires
            old(self).phasing_wf(),
        ensures
            final(self).phasing_wf(),
            final(self).snps == old(self).snps,
            final(self).homo_snps == old(self).homo_snps,
            final(self).fragments == old(self).fragments,
            final(self).snp_cover_fragments == old(self).snp_cover_fragments,
            final(self).edges == old(self).edges,
            final(self).phased == old(self).phased,
            r as int == total_ll(final(self).fragments@, final(self).haplotag@, final(self).haplotype@, final(self).fragments.len() as int),
            r as int >= total_ll(old(self).fragments@, old(self).haplotag@, old(self).haplotype@, old(self).fragments.len() as int),
            r as int == total_ll(old(self).fragments@, old(self).haplotag@, old(self).haplotype@, old(self).fragments.len() as int)
                ==> final(self).haplotag == old(self).haplotag && final(self).haplotype == old(self).haplotype,
            exists|m: nat| {
                &&& ascent(old(self).fragments@, old(self).snp_cover_fragments@, (old(self).haplotag@, old(self).haplotype@, true, true), m)
                    == (final(self).haplotag@, final(self).haplotype@, false, false)
                &&& forall|j: nat| j < m ==> {
                    let st = #[trigger] ascent(old(self).fragments@, old(self).snp_cover_fragments@, (old(self).haplotag@, old(self).haplotype@, true, true), j);
                    st.2 || st.3
                }
            },
            ascent_end(old(self).fragments@, old(self).snp_cover_fragments@, old(self).haplotag@, old(self).haplotype@)
                == (final(self).haplotag@, final(self).haplotype@, false, false),
    {
        let ghost start = total_ll(self.fragments@, self.haplotag@, self.haplotype@, self.fragments.len() as int);
        let mut haplotag_increase = true;
        let mut phasing_increase = true;
        let mut current = SNPFrag::cal_overall_probability(self, &self.haplotag, &self.haplotype);
        let ghost st0: AscentState = (self.haplotag@, self.haplotype@, true, true);
        let ghost mut m: nat = 0;
        while haplotag_increase || phasing_increase
            invariant
                st0 == (old(self).haplotag@, old(self).haplotype@, true, true),
                ascent(self.fragments@, self.snp_cover_fragments@, st0, m) == (self.haplotag@, self.haplotype@, haplotag_increase, phasing_increase),
                forall|j: nat| j < m ==> {
                    let st = #[trigger] ascent(self.fragments@, self.snp_cover_fragments@, st0, j);
                    st.2 || st.3
                },
                self.phasing_wf(),
                self.snps == old(self).snps,
                self.homo_snps == old(self).homo_snps,
                self.fragments == old(self).fragments,
                self.snp_cover_fragments == old(self).snp_cover_fragments,
                self.edges == old(self).edges,
                self.phased == old(self).phased,
                start == total_ll(old(self).fragments@, old(self).haplotag@, old(self).haplotype@, old(self).fragments.len() as int),
                current as int == total_ll(self.fragments@, self.haplotag@, self.haplotype@, self.fragments.len() as int),
                current as int >= start,
                current <= 0,
                current as int == start ==> self.haplotag == old(self).haplotag && self.haplotype == old(self).haplotype,
            decreases -current * 3 + (if haplotag_increase { 1int } else { 0int }) + (if phasing_increase { 1int } else { 0int }),
        {
            let ghost prev: AscentState = (self.haplotag@, self.haplotype@, haplotag_increase, phasing_increase);
            let tmp_haplotag = self.sigma_step();
            proof {
                assert(tmp_haplotag@ =~= sigma_step_spec(self.fragments@, self.haplotag@, self.haplotype@)) by {
                    assert forall|k: int| 0 <= k < tmp_haplotag.len() implies tmp_haplotag@[k] == sigma_step_spec(self.fragments@, self.haplotag@, self.haplotype@)[k] by {
                        assert(is_sign(self.haplotag@[k]));
                    }
                }
            }
            let p_tag = SNPFrag::cal_overall_probability(self, &tmp_haplotag, &self.haplotype);
            if p_tag > current {
                self.haplotag = tmp_haplotag;
                current = p_tag;
            } else {
                haplotag_increase = false;
            }
            let tmp_haplotype = self.delta_step();
            proof {
                assert(tmp_haplotype@ =~= delta_step_spec(self.fragments@, self.snp_cover_fragments@, self.haplotag@, self.haplotype@)) by {
                    assert forall|i: int| 0 <= i < tmp_haplotype.len() implies tmp_haplotype@[i]
                        == delta_step_spec(self.fragments@, self.snp_cover_fragments@, self.haplotag@, self.haplotype@)[i] by {
                        assert(is_sign(self.haplotype@[i]));
                    }
                }
            }
            let p_hap = SNPFrag::cal_overall_probability(self, &self.haplotag, &tmp_haplotype);
            if p_hap > current {
                self.haplotype = tmp_haplotype;
                current = p_hap;
            } else {
                phasing_increase = false;
            }
            proof {
                assert(ascent(self.fragments@, self.snp_cover_fragments@, st0, m + 1)
                    == ascent_round(self.fragments@, self.snp_cover_fragments@, prev));
                m = m + 1;
            }
        }
        proof {
            assert(ascent_done_at(self.fragments@, self.snp_cover_fragments@, st0, m));
            lemma_ascent_end(self.fragments@, self.snp_cover_fragments@, old(self).haplotag@, old(self).haplotype@, m);
        }
        current
    }
}

/// Relies on rand::random: a value drawn from the thread-local generator. Nothing is
/// known of the value drawn.
pub assume_specification<T>[ rand::random::<T> ]() -> (r: T)
    where
        rand::distributions::Standard: rand::distributions::Distribution<T>,
;

impl SNPFrag {
    /// A random side for every site.
    pub fn init_haplotypes(&mut self)
        ensures
            final(self).haplotype.len() == old(self).snps.len(),
            all_signs(final(self).haplotype@),
            final(self).snps == old(self).snps,
            final(self).homo_snps == old(self).homo_snps,
            final(self).fragments == old(self).fragments,
            final(self).snp_cover_fragments == old(self).snp_cover_fragments,
            final(self).edges == old(self).edges,
            final(self).haplotag == old(self).haplotag,
            final(self).phased == old(self).phased,
    {
        let mut hap: Vec<i32> = Vec::new();
        let mut i: usize = 0;
        while i < self.snps.len()
            invariant
                i <= self.snps.len(),
                hap.len() == i,
                all_signs(hap@),
            decreases self.snps.len() - i,
        {
            let coin: bool = rand::random::<bool>();
            hap.push(if coin { -1 } else { 1 });
            i = i + 1;
        }
        self.haplotype = hap;
    }

    /// A random side for every read.
    pub fn init_assignment(&mut self)
        ensures
            final(self).haplotag.len() == old(self).fragments.len(),
            all_signs(final(self).haplotag@),
            final(self).snps == old(self).snps,
            final(self).homo_snps == old(self).homo_snps,
            final(self).fragments == old(self).fragments,
            final(self).snp_cover_fragments == old(self).snp_cover_fragments,
            final(self).edges == old(self).edges,
            final(self).haplotype == old(self).haplotype,
            final(self).phased == old(self).phased,
    {
        let mut tag: Vec<i32> = Vec::new();
        let mut k: usize = 0;
        while k < self.fragments.len()
            invariant
                k <= self.fragments.len(),
                tag.len() == k,
                all_signs(tag@),
            decreases self.fragments.len() - k,
        {
            let coin: bool = rand::random::<bool>();
            tag.push(if coin { -1 } else { 1 });
            k = k + 1;
        }
        self.haplotag = tag;
    }

    /// Builds the fragments and the site graph of a fresh region from its reads, in
    /// order. Stops at the first read whose alignment is inconsistent.
    /// One read of `get_fragments`, its result stated over whole fragments.
    fn add_read_step(&mut self, read: &AlignedRead, model: &ErrorModel) -> (r: Result<(), PhaseError>)
        requires
            old(self).graph_wf(),
            model.wf(),
            forall|k: int| 0 <= k < old(self).snps.len() ==> #[trigger] old(self).snps@[k].pos < i64::MAX,
        ensures
            final(self).graph_wf(),
            final(self).snps == old(self).snps,
            final(self).homo_snps == old(self).homo_snps,
            final(self).haplotype == old(self).haplotype,
            final(self).haplotag == old(self).haplotag,
            final(self).phased == old(self).phased,
            final(self).snp_cover_fragments.len() == old(self).snp_cover_fragments.len(),
            final(self).fragments.len() == old(self).fragments.len() || final(self).fragments.len() == old(self).fragments.len() + 1,
            forall|f: int| 0 <= f < old(self).fragments.len() ==> #[trigger] final(self).fragments@[f] == old(self).fragments@[f],
            sites_sorted(old(self).snps@) ==> r != Err::<(), PhaseError>(PhaseError::PositionOrder),
            ops_known(read.cigar@) ==> r != Err::<(), PhaseError>(PhaseError::UnknownCigarOp),
            sites_sorted(old(self).snps@) && read_clean(*read) ==> r is Ok,
            sites_sorted(old(self).snps@) && unknown_before_last(*read, old(self).snps@)
                ==> r == Err::<(), PhaseError>(PhaseError::UnknownCigarOp),
            r is Ok && sites_sorted(old(self).snps@) && final(self).fragments.len() > old(self).fragments.len()
                ==> fragment_of_read(final(self).fragments@[old(self).fragments.len() as int], *read, old(self).snps@),
            r is Ok && sites_sorted(old(self).snps@) && final(self).fragments.len() == old(self).fragments.len()
                ==> !spans_some(*read, old(self).snps@),
            r is Ok && edges_hold(old(self).edges@, frags_events(old(self).fragments@, *model, old(self).fragments.len() as int))
                ==> edges_hold(final(self).edges@, frags_events(final(self).fragments@, *model, final(self).fragments.len() as int)),
    {
        let r = self.add_read_fragment(read, model);
        proof {
            reveal(fragment_of_read);
            reveal(spans_some);
        }
        r
    }

    pub fn get_fragments(&mut self, reads: &Vec<AlignedRead>, model: &ErrorModel) -> (r: Result<(), PhaseError>)
        requires
            old(self).fragments.len() == 0,
            old(self).edges.len() == 0,
            old(self).snp_cover_fragments.len() == 0,
            model.wf(),
            forall|k: int| 0 <= k < old(self).snps.len() ==> #[trigger] old(self).snps@[k].pos < i64::MAX,
        ensures
            final(self).graph_wf(),
            final(self).fragments.len() <= reads.len(),
            final(self).snp_cover_fragments.len() == old(self).snps.len(),
            sites_sorted(old(self).snps@) ==> r != Err::<(), PhaseError>(PhaseError::PositionOrder),
            (forall|k: int| 0 <= k < reads.len() ==> ops_known((#[trigger] reads@[k]).cigar@))
                ==> r != Err::<(), PhaseError>(PhaseError::UnknownCigarOp),
            r is Ok && sites_sorted(old(self).snps@) ==> fragments_from_reads(final(self).fragments@, reads@, reads.len() as int, old(self).snps@),
            sites_sorted(old(self).snps@) && (forall|k: int| 0 <= k < reads.len() ==> read_clean(#[trigger] reads@[k])) ==> r is Ok,
            sites_sorted(old(self).snps@) && unknown_read_first(reads@, old(self).snps@)
                ==> r == Err::<(), PhaseError>(PhaseError::UnknownCigarOp),
            r is Ok ==> edges_hold(final(self).edges@, frags_events(final(self).fragments@, *model, final(self).fragments.len() as int)),
            final(self).snps == old(self).snps,
            final(self).homo_snps == old(self).homo_snps,
            final(self).haplotype == old(self).haplotype,
            final(self).haplotag == old(self).haplotag,
            final(self).phased == old(self).phased,
    {
        let mut s: usize = 0;
        while s < self.snps.len()
            invariant
                s <= self.snps.len(),
                self.snp_cover_fragments.len() == s,
                forall|x: int| 0 <= x < s ==> (#[trigger] self.snp_cover_fragments@[x]).len() == 0,
                self.fragments.len() == 0,
                self.edges.len() == 0,
                self.snps == old(self).snps,
                self.homo_snps == old(self).homo_snps,
                self.haplotype == old(self).haplotype,
                self.haplotag == old(self).haplotag,
                self.phased == old(self).phased,
            decreases self.snps.len() - s,
        {
            self.snp_cover_fragments.push(Vec::new());
            s = s + 1;
        }
        proof {
            assert(frags_events(self.fragments@, *model, 0) =~= Seq::<EdgeEvent>::empty());
            assert forall|key: [usize; 2]| #[trigger] fold_key(Seq::<EdgeEvent>::empty(), key) is None by {}
        }
        let mut k: usize = 0;
        while k < reads.len()
            invariant
                k <= reads.len(),
                edges_hold(self.edges@, frags_events(self.fragments@, *model, self.fragments.len() as int)),
                self.graph_wf(),
                self.snp_cover_fragments.len() == old(self).snps.len(),
                sites_sorted(old(self).snps@) ==> fragments_from_reads(self.fragments@, reads@, k as int, old(self).snps@),
                sites_sorted(old(self).snps@) ==> forall|j: int| 0 <= j < k ==> !unknown_read_at(reads@, old(self).snps@, j),
                model.wf(),
                self.fragments.len() <= k,
                forall|x: int| 0 <= x < self.snps.len() ==> #[trigger] self.snps@[x].pos < i64::MAX,
                self.snps == old(self).snps,
                self.homo_snps == old(self).homo_snps,
                self.haplotype == old(self).haplotype,
                self.haplotag == old(self).haplotag,
                self.phased == old(self).phased,
            decreases reads.len() - k,
        {
            let ghost before = self.fragments@;
            let res = self.add_read_step(&reads[k], model);
            if res.is_err() {
                proof {
                    if sites_sorted(old(self).snps@) && unknown_read_first(reads@, old(self).snps@) {
                        let k0 = choose|k0: int| unknown_read_at(reads@, old(self).snps@, k0);
                        if k0 > k {
                            assert(read_clean(reads@[k as int]));
                        }
                    }
                }
                return res;
            }
            proof {
                if sites_sorted(old(self).snps@) {
                    lemma_fragments_step(before, self.fragments@, reads@, k as int, old(self).snps@);
                    assert(!unknown_read_at(reads@, old(self).snps@, k as int));
                    assert forall|j: int| 0 <= j < k + 1 implies !unknown_read_at(reads@, old(self).snps@, j) by {
                        if j < k {
                        }
                    }
                }
            }
            k = k + 1;
        }
        Ok(())
    }
}

/// Rounds of the max-cut search.
pub const MAXCUT_ROUNDS: usize = 3;

/// An edge's weight as the haplotype signs it: positive where the haplotype agrees
/// with the evidence.
pub open spec fn signed_weight(e: Edge, hap: Seq<i32>) -> int {
    e.w * hap[e.snp_idxes[0] as int] * hap[e.snp_idxes[1] as int]
}

/// Sum of the signed weights of the first `n` edges.
pub open spec fn signed_sum(edges: Seq<Edge>, hap: Seq<i32>, n: int) -> int
    decreases n,
{
    if n <= 0 {
        0
    } else {
        signed_sum(edges, hap, n - 1) + signed_weight(edges[n - 1], hap)
    }
}

spec fn edges_in_range(edges: Seq<Edge>, n: int) -> bool {
    forall|x: int| 0 <= x < edges.len() ==> (#[trigger] edges[x]).snp_idxes[0] < n && edges[x].snp_idxes[1] < n
        && -WEIGHT_BOUND <= edges[x].w <= WEIGHT_BOUND
}

impl SNPFrag {
    proof fn lemma_edges_in_range(&self)
        requires
            self.edges_wf(),
        ensures
            edges_in_range(self.edges@, self.snps.len() as int),
    {
        assert forall|x: int| 0 <= x < self.edges.len() implies (#[trigger] self.edges@[x]).snp_idxes[0] < self.snps.len()
            && self.edges@[x].snp_idxes[1] < self.snps.len() && -WEIGHT_BOUND <= self.edges@[x].w <= WEIGHT_BOUND by {
            lemma_weight_bound(self.edges@[x]);
        }
    }
}

proof fn lemma_signed_sum_bound(edges: Seq<Edge>, hap: Seq<i32>, n: int)
    requires
        0 <= n <= edges.len(),
        edges_in_range(edges, hap.len() as int),
        all_signs(hap),
    ensures
        -n * WEIGHT_BOUND <= signed_sum(edges, hap, n) <= n * WEIGHT_BOUND,
    decreases n,
{
    if n > 0 {
        lemma_signed_sum_bound(edges, hap, n - 1);
        let e = edges[n - 1];
        let a = hap[e.snp_idxes[0] as int];
        let b = hap[e.snp_idxes[1] as int];
        assert(is_sign(a) && is_sign(b));
        assert(-WEIGHT_BOUND <= e.w * a * b <= WEIGHT_BOUND) by (nonlinear_arith)
            requires is_sign(a), is_sign(b), -WEIGHT_BOUND <= e.w <= WEIGHT_BOUND;
    }
}

/// Sum of the signed weights of all edges under `hap`.
fn signed_weight_sum(edges: &Vec<Edge>, hap: &Vec<i32>) -> (r: i128)
    requires
        edges.len() <= MAX_SITES,
        edges_in_range(edges@, hap.len() as int),
        all_signs(hap@),
    ensures
        r as int == signed_sum(edges@, hap@, edges.len() as int),
{
    let mut acc: i128 = 0;
    let mut x: usize = 0;
    while x < edges.len()
        invariant
            x <= edges.len() <= MAX_SITES,
            edges_in_range(edges@, hap.len() as int),
            all_signs(hap@),
            acc as int == signed_sum(edges@, hap@, x as int),
        decreases edges.len() - x,
    {
        let sw = edge_signed_weight(&edges[x], hap);
        proof {
            lemma_signed_sum_bound(edges@, hap@, x + 1);
            assert((x + 1) * WEIGHT_BOUND <= (MAX_SITES as int) * WEIGHT_BOUND) by (nonlinear_arith)
                requires x < MAX_SITES;
        }
        acc = acc + sw;
        x = x + 1;
    }
    acc
}

fn edge_signed_weight(e: &Edge, hap: &Vec<i32>) -> (r: i128)
    requires
        -WEIGHT_BOUND <= e.w <= WEIGHT_BOUND,
        e.snp_idxes[0] < hap.len() && e.snp_idxes[1] < hap.len(),
        all_signs(hap@),
    ensures
        r as int == signed_weight(*e, hap@),
{
    let a = hap[e.snp_idxes[0]];
    let b = hap[e.snp_idxes[1]];
    assert(is_sign(hap@[e.snp_idxes[0] as int]) && is_sign(hap@[e.snp_idxes[1] as int]));
    let r: i128 = if a == b { e.w as i128 } else { -(e.w as i128) };
    proof {
        assert(r == e.w * a * b) by (nonlinear_arith)
            requires is_sign(a), is_sign(b), r == (if a == b { e.w as int } else { -(e.w as int) });
    }
    r
}

fn bool_vec(n: usize) -> (r: Vec<bool>)
    ensures
        r.len() == n,
        forall|k: int| 0 <= k < n ==> !#[trigger] r@[k],
{
    let mut v: Vec<bool> = Vec::new();
    let mut k: usize = 0;
    while k < n
        invariant
            k <= n,
            v.len() == k,
            forall|x: int| 0 <= x < k ==> !#[trigger] v@[x],
        decreases n - k,
    {
        v.push(false);
        k = k + 1;
    }
    v
}

/// Index of the first edge of least signed weight among the live ones, if any.
/// The first live edge of least signed weight among the first `k`.
pub open spec fn lightest_spec(sw: Seq<i128>, live: Seq<bool>, k: int) -> Option<int>
    decreases k,
{
    if k <= 0 {
        None
    } else {
        let prev = lightest_spec(sw, live, k - 1);
        if live[k - 1] {
            match prev {
                Some(b) => if sw[k - 1] < sw[b] { Some(k - 1) } else { prev },
                None => Some(k - 1),
            }
        } else {
            prev
        }
    }
}

fn lightest_live_edge(sw: &Vec<i128>, live: &Vec<bool>) -> (r: Option<usize>)
    requires
        sw.len() == live.len(),
    ensures
        r matches Some(x) ==> lightest_spec(sw@, live@, sw.len() as int) == Some(x as int),
        r is None ==> lightest_spec(sw@, live@, sw.len() as int) is None,
        r matches Some(x) ==> x < sw.len() && live@[x as int]
            && forall|y: int| 0 <= y < sw.len() && live@[y] ==> sw@[x as int] <= #[trigger] sw@[y],
        r is None ==> forall|y: int| 0 <= y < sw.len() ==> !#[trigger] live@[y],
{
    let mut best: Option<usize> = None;
    let mut x: usize = 0;
    while x < sw.len()
        invariant
            x <= sw.len() == live.len(),
            best matches Some(b) ==> b < x && live@[b as int]
                && forall|y: int| 0 <= y < x && live@[y] ==> sw@[b as int] <= #[trigger] sw@[y],
            best is None ==> forall|y: int| 0 <= y < x ==> !#[trigger] live@[y],
            best matches Some(bb) ==> lightest_spec(sw@, live@, x as int) == Some(bb as int),
            best is None ==> lightest_spec(sw@, live@, x as int) is None,
        decreases sw.len() - x,
    {
        if live[x] {
            match best {
                Some(b) => {
                    if sw[x] < sw[b] {
                        best = Some(x);
                    }
                },
                None => {
                    best = Some(x);
                },
            }
        }
        x = x + 1;
    }
    best
}

spec fn weights_bounded(sw: Seq<i128>) -> bool {
    forall|x: int| 0 <= x < sw.len() ==> -WEIGHT_BOUND <= #[trigger] sw[x] <= WEIGHT_BOUND
}

/// Summed signed weight of the first `x` edges that join `cand` to a member.
pub open spec fn conn_spec(edges: Seq<Edge>, sw: Seq<i128>, cand: int, members: Seq<bool>, x: int) -> int
    decreases x,
{
    if x <= 0 {
        0
    } else {
        let a = edges[x - 1].snp_idxes[0] as int;
        let b = edges[x - 1].snp_idxes[1] as int;
        conn_spec(edges, sw, cand, members, x - 1) + if (a == cand && members[b]) || (b == cand && members[a]) {
            sw[x - 1] as int
        } else {
            0
        }
    }
}

/// Summed signed weight of the edges joining `cand` to the members of a set.
fn connection(edges: &Vec<Edge>, sw: &Vec<i128>, cand: usize, members: &Vec<bool>) -> (r: i128)
    requires
        sw.len() == edges.len() <= MAX_SITES,
        weights_bounded(sw@),
        edges_in_range(edges@, members.len() as int),
    ensures
        -(MAX_SITES as int) * WEIGHT_BOUND <= r <= (MAX_SITES as int) * WEIGHT_BOUND,
        r as int == conn_spec(edges@, sw@, cand as int, members@, edges.len() as int),
{
    let mut acc: i128 = 0;
    let mut x: usize = 0;
    while x < edges.len()
        invariant
            x <= edges.len() == sw.len() <= MAX_SITES,
            weights_bounded(sw@),
            edges_in_range(edges@, members.len() as int),
            -x * WEIGHT_BOUND <= acc <= x * WEIGHT_BOUND,
            acc as int == conn_spec(edges@, sw@, cand as int, members@, x as int),
        decreases edges.len() - x,
    {
        let a = edges[x].snp_idxes[0];
        let b = edges[x].snp_idxes[1];
        assert(a < members.len() && b < members.len());
        if (a == cand && members[b]) || (b == cand && members[a]) {
            assert(-WEIGHT_BOUND <= sw@[x as int] <= WEIGHT_BOUND);
            acc = acc + sw[x];
        }
        x = x + 1;
    }
    proof {
        assert(x * WEIGHT_BOUND <= (MAX_SITES as int) * WEIGHT_BOUND) by (nonlinear_arith)
            requires x <= MAX_SITES;
    }
    acc
}

pub open spec fn abs_int(x: int) -> int {
    if x < 0 { -x } else { x }
}

/// Scan of the first `k` candidate sites: the open site whose connections to the two
/// sides differ most (the first on ties), with that difference.
pub open spec fn scan_spec(edges: Seq<Edge>, sw: Seq<i128>, nodeset: Seq<bool>, s1: Seq<bool>, s2: Seq<bool>, k: int) -> (int, Option<int>)
    decreases k,
{
    if k <= 0 {
        (0, None)
    } else {
        let prev = scan_spec(edges, sw, nodeset, s1, s2, k - 1);
        let c = k - 1;
        if nodeset[c] && !s1[c] && !s2[c] {
            let d = conn_spec(edges, sw, c, s1, edges.len() as int) - conn_spec(edges, sw, c, s2, edges.len() as int);
            if abs_int(d) > abs_int(prev.0) { (d, Some(c)) } else { prev }
        } else {
            prev
        }
    }
}

/// State of the growth of the two sides.
pub struct GrowState {
    pub nodeset: Seq<bool>,
    pub live: Seq<bool>,
    pub s1: Seq<bool>,
    pub s2: Seq<bool>,
    pub big: Seq<bool>,
    pub count: int,
    pub left: int,
    pub fuel: int,
    pub done: bool,
}

/// Sites left open after the current component closes.
pub open spec fn closed_nodes(nodeset: Seq<bool>, s1: Seq<bool>, s2: Seq<bool>) -> Seq<bool> {
    Seq::new(nodeset.len(), |i: int| nodeset[i] && !(s1[i] || s2[i]))
}

/// The open-site count after closing the component over the first `k` sites.
pub open spec fn closed_left(nodeset: Seq<bool>, s1: Seq<bool>, s2: Seq<bool>, left: int, k: int) -> int
    decreases k,
{
    if k <= 0 {
        left
    } else {
        let prev = closed_left(nodeset, s1, s2, left, k - 1);
        if (s1[k - 1] || s2[k - 1]) && nodeset[k - 1] && prev > 0 { prev - 1 } else { prev }
    }
}

pub open spec fn union_bools(a: Seq<bool>, b: Seq<bool>) -> Seq<bool> {
    Seq::new(a.len(), |i: int| a[i] || b[i])
}

/// Edges still live once both their sites are open.
pub open spec fn live_after(edges: Seq<Edge>, live: Seq<bool>, nodeset: Seq<bool>) -> Seq<bool> {
    Seq::new(live.len(), |x: int| live[x] && nodeset[edges[x].snp_idxes[0] as int] && nodeset[edges[x].snp_idxes[1] as int])
}

pub open spec fn only(n: int, a: int) -> Seq<bool> {
    Seq::new(n as nat, |i: int| i == a)
}

/// One pass of the growth: place the best connected open site on its side, or close
/// the component and seed the next from the lightest live edge, or finish.
pub open spec fn grow_step(edges: Seq<Edge>, sw: Seq<i128>, n: int, st: GrowState) -> GrowState {
    let sc = scan_spec(edges, sw, st.nodeset, st.s1, st.s2, n);
    match sc.1 {
        Some(node) => GrowState {
            s1: if sc.0 > 0 { st.s1.update(node, true) } else { st.s1 },
            s2: if sc.0 > 0 { st.s2 } else { st.s2.update(node, true) },
            count: st.count + 1,
            fuel: st.fuel - 1,
            ..st
        },
        None => {
            let ns = closed_nodes(st.nodeset, st.s1, st.s2);
            let lv = live_after(edges, st.live, ns);
            let base = GrowState {
                nodeset: ns,
                live: lv,
                big: union_bools(st.big, st.s1),
                left: closed_left(st.nodeset, st.s1, st.s2, st.left, n),
                fuel: st.fuel - 1,
                ..st
            };
            match lightest_spec(sw, lv, sw.len() as int) {
                None => GrowState { done: true, ..base },
                Some(e1) => if sw[e1] >= 0 {
                    GrowState { done: true, ..base }
                } else {
                    GrowState {
                        s1: only(n, edges[e1].snp_idxes[0] as int),
                        s2: only(n, edges[e1].snp_idxes[1] as int),
                        count: 2,
                        ..base
                    }
                },
            }
        },
    }
}

/// The growth run to its end.
pub open spec fn grow_run(edges: Seq<Edge>, sw: Seq<i128>, n: int, st: GrowState) -> GrowState
    decreases st.fuel,
{
    if st.count < st.left && st.fuel > 0 && !st.done {
        grow_run(edges, sw, n, grow_step(edges, sw, n, st))
    } else {
        st
    }
}

/// The first side of a round's cut grown from edge `e0`.
pub open spec fn grow_result(edges: Seq<Edge>, sw: Seq<i128>, n: int, nodeset: Seq<bool>, node_count: int, live: Seq<bool>, e0: int) -> Seq<bool> {
    let st = GrowState {
        nodeset,
        live,
        s1: only(n, edges[e0].snp_idxes[0] as int),
        s2: only(n, edges[e0].snp_idxes[1] as int),
        big: Seq::new(n as nat, |_i: int| false),
        count: 2,
        left: node_count,
        fuel: 2 * n + 2,
        done: false,
    };
    let fin = grow_run(edges, sw, n, st);
    union_bools(fin.big, fin.s1)
}

/// Sites that have an edge among the first `x` edges, marked in edge order, with
/// their number (capped at `n`).
pub open spec fn edge_nodes(edges: Seq<Edge>, n: int, x: int) -> (Seq<bool>, int)
    decreases x,
{
    if x <= 0 {
        (Seq::new(n as nat, |_i: int| false), 0)
    } else {
        let prev = edge_nodes(edges, n, x - 1);
        let a = edges[x - 1].snp_idxes[0] as int;
        let b = edges[x - 1].snp_idxes[1] as int;
        let s1 = if !prev.0[a] && prev.1 < n { (prev.0.update(a, true), prev.1 + 1) } else { prev };
        if !s1.0[b] && s1.1 < n { (s1.0.update(b, true), s1.1 + 1) } else { s1 }
    }
}

pub open spec fn signed_ws(edges: Seq<Edge>, hap: Seq<i32>) -> Seq<i128> {
    Seq::new(edges.len(), |x: int| signed_weight(edges[x], hap) as i128)
}

pub open spec fn all_live(ne: int) -> Seq<bool> {
    Seq::new(ne as nat, |_x: int| true)
}

/// `hap` with the sides of the marked sites reversed.
pub open spec fn flip_where(hap: Seq<i32>, big: Seq<bool>) -> Seq<i32> {
    Seq::new(hap.len(), |i: int| if big[i] { (-hap[i]) as i32 } else { hap[i] })
}

/// One max-cut round: stop when no edge is live or the lightest has non-negative
/// signed weight; else grow the cut from the lightest edge and keep the flip of its
/// first side only on a strict gain.
pub open spec fn maxcut_round(edges: Seq<Edge>, hap: Seq<i32>, n: int) -> (Seq<i32>, bool) {
    let ne = edges.len() as int;
    let sw = signed_ws(edges, hap);
    match lightest_spec(sw, all_live(ne), ne) {
        None => (hap, true),
        Some(e0) => if sw[e0] >= 0 {
            (hap, true)
        } else {
            let nodes = edge_nodes(edges, n, ne);
            let big = grow_result(edges, sw, n, nodes.0, nodes.1, all_live(ne), e0);
            let t = flip_where(hap, big);
            if signed_sum(edges, t, ne) > signed_sum(edges, hap, ne) { (t, false) } else { (hap, false) }
        },
    }
}

/// The haplotype after at most `r` max-cut rounds.
pub open spec fn maxcut_spec(edges: Seq<Edge>, hap: Seq<i32>, n: int, r: nat) -> Seq<i32>
    decreases r,
{
    if r == 0 {
        hap
    } else {
        let step = maxcut_round(edges, hap, n);
        if step.1 { step.0 } else { maxcut_spec(edges, step.0, n, (r - 1) as nat) }
    }
}

impl SNPFrag {
    /// Starting haplotype by a greedy max-cut of the site graph, for at most
    /// `MAXCUT_ROUNDS` rounds. A round grows two sides from the endpoints of the most
    /// negative edge, placing next the site whose connections to the two sides differ
    /// most, and starts a new component when no open site is connected; it then flips
    /// the first side and keeps the flip only when that raises the signed weight sum.
    /// The search stops early once no edge has a negative signed weight.
    pub fn optimization_using_maxcut(&mut self)
        requires
            old(self).edges_wf(),
            old(self).edges.len() <= MAX_SITES,
            old(self).snps.len() <= MAX_SITES,
            old(self).haplotype.len() == old(self).snps.len(),
            all_signs(old(self).haplotype@),
        ensures
            final(self).haplotype.len() == old(self).haplotype.len(),
            all_signs(final(self).haplotype@),
            signed_sum(final(self).edges@, final(self).haplotype@, final(self).edges.len() as int)
                >= signed_sum(old(self).edges@, old(self).haplotype@, old(self).edges.len() as int),
            old(self).edges.len() == 1 ==> signed_weight(final(self).edges@[0], final(self).haplotype@) >= 0,
            final(self).haplotype@ == maxcut_spec(old(self).edges@, old(self).haplotype@, old(self).snps.len() as int, MAXCUT_ROUNDS as nat),
            final(self).haplotype != old(self).haplotype ==> final(self).phased
                && signed_sum(final(self).edges@, final(self).haplotype@, final(self).edges.len() as int)
                > signed_sum(old(self).edges@, old(self).haplotype@, old(self).edges.len() as int),
            (forall|x: int| 0 <= x < old(self).edges.len() ==> signed_weight(#[trigger] old(self).edges@[x], old(self).haplotype@) >= 0)
                ==> final(self).haplotype == old(self).haplotype,
            final(self).snps == old(self).snps,
            final(self).homo_snps == old(self).homo_snps,
            final(self).fragments == old(self).fragments,
            final(self).snp_cover_fragments == old(self).snp_cover_fragments,
            final(self).edges == old(self).edges,
            final(self).haplotag == old(self).haplotag,
            !old(self).phased ==> (final(self).phased <==> final(self).haplotype != old(self).haplotype),
            old(self).phased ==> final(self).phased,
    {
        let n = self.snps.len();
        let ne = self.edges.len();
        let ghost start = signed_sum(self.edges@, self.haplotype@, ne as int);
        let mut round: usize = 0;
        let mut stop = false;
        while round < MAXCUT_ROUNDS && !stop
            invariant
                self.edges_wf(),
                n == self.snps.len(),
                n <= MAX_SITES,
                ne == self.edges.len() <= MAX_SITES,
                self.haplotype.len() == n,
                all_signs(self.haplotype@),
                self.snps == old(self).snps,
                self.homo_snps == old(self).homo_snps,
                self.fragments == old(self).fragments,
                self.snp_cover_fragments == old(self).snp_cover_fragments,
                self.edges == old(self).edges,
                self.haplotag == old(self).haplotag,
                start == signed_sum(old(self).edges@, old(self).haplotype@, ne as int),
                signed_sum(self.edges@, self.haplotype@, ne as int) >= start,
                self.haplotype != old(self).haplotype ==> self.phased && signed_sum(self.edges@, self.haplotype@, ne as int) > start,
                !old(self).phased ==> (self.phased <==> self.haplotype != old(self).haplotype),
                old(self).phased ==> self.phased,
                (forall|x: int| 0 <= x < ne ==> signed_weight(#[trigger] old(self).edges@[x], old(self).haplotype@) >= 0)
                    ==> (self.haplotype == old(self).haplotype && (round > 0 ==> stop)),
                ne == 1 && round > 0 ==> signed_weight(self.edges@[0], self.haplotype@) >= 0,
                stop ==> round > 0,
                round <= MAXCUT_ROUNDS,
                (if stop { self.haplotype@ } else { maxcut_spec(self.edges@, self.haplotype@, n as int, (MAXCUT_ROUNDS - round) as nat) })
                    == maxcut_spec(old(self).edges@, old(self).haplotype@, n as int, MAXCUT_ROUNDS as nat),
            decreases MAXCUT_ROUNDS - round,
        {
            let ghost hap0 = self.haplotype@;
            let ghost rem = (MAXCUT_ROUNDS - round) as nat;
            let ghost step = maxcut_round(self.edges@, hap0, n as int);
            round = round + 1;
            proof {
                self.lemma_edges_in_range();
            }
            // signed weights under the current haplotype, and the sites that have edges
            let mut sw: Vec<i128> = Vec::new();
            let mut nodeset = bool_vec(n);
            let mut node_count: usize = 0;
            let mut x: usize = 0;
            while x < ne
                invariant
                    x <= ne == self.edges.len() <= MAX_SITES,
                    self.edges_wf(),
                    n == self.snps.len(),
                    self.haplotype.len() == n,
                    all_signs(self.haplotype@),
                    sw.len() == x,
                    nodeset.len() == n,
                    node_count <= n,
                    node_count <= 2 * x,
                    weights_bounded(sw@),
                    forall|y: int| 0 <= y < x ==> #[trigger] sw@[y] == signed_weight(self.edges@[y], self.haplotype@),
                    (nodeset@, node_count as int) == edge_nodes(self.edges@, n as int, x as int),
                    edges_in_range(self.edges@, n as int),
                decreases ne - x,
            {
                let e = &self.edges[x];
                proof {
                    lemma_weight_bound(self.edges@[x as int]);
                }
                let w = edge_signed_weight(e, &self.haplotype);
                proof {
                    let a = self.haplotype@[e.snp_idxes[0] as int];
                    let b = self.haplotype@[e.snp_idxes[1] as int];
                    assert(is_sign(a) && is_sign(b));
                    assert(-WEIGHT_BOUND <= e.w * a * b <= WEIGHT_BOUND) by (nonlinear_arith)
                        requires is_sign(a), is_sign(b), -WEIGHT_BOUND <= e.w <= WEIGHT_BOUND;
                }
                sw.push(w);
                let a = e.snp_idxes[0];
                let b = e.snp_idxes[1];
                if !nodeset[a] && node_count < n {
                    nodeset.set(a, true);
                    node_count = node_count + 1;
                }
                if !nodeset[b] && node_count < n {
                    nodeset.set(b, true);
                    node_count = node_count + 1;
                }
                x = x + 1;
            }
            let sum_hap_wts = signed_weight_sum(&self.edges, &self.haplotype);
            let mut live: Vec<bool> = Vec::new();
            let mut x: usize = 0;
            while x < ne
                invariant
                    x <= ne,
                    live.len() == x,
                    forall|y: int| 0 <= y < x ==> #[trigger] live@[y],
                decreases ne - x,
            {
                live.push(true);
                x = x + 1;
            }
            proof {
                assert(live@ =~= all_live(ne as int));
                assert(sw@ =~= signed_ws(self.edges@, self.haplotype@)) by {
                    assert forall|y: int| 0 <= y < ne implies #[trigger] sw@[y] == signed_ws(self.edges@, self.haplotype@)[y] by {
                        assert(-WEIGHT_BOUND <= sw@[y] <= WEIGHT_BOUND);
                    }
                }
            }
            let first = lightest_live_edge(&sw, &live);
            match first {
                None => {
                    proof {
                        if ne == 1 {
                            assert(live@[0]);
                        }
                    }
                    stop = true;
                },
                Some(e0) => {
                    if sw[e0] >= 0 {
                        stop = true;
                        proof {
                            assert forall|y: int| 0 <= y < ne implies #[trigger] sw@[y] >= 0 by {
                                assert(live@[y]);
                            }
                        }
                    } else {
                        proof {
                            assert(signed_weight(self.edges@[e0 as int], self.haplotype@) < 0);
                        }
                        let big_s1 = self.grow_cut(&sw, &mut nodeset, node_count, &mut live, e0);
                        // flip the first side and keep it only if the signed sum rises
                        let mut t_haplotype: Vec<i32> = Vec::new();
                        let mut i: usize = 0;
                        while i < n
                            invariant
                                i <= n == self.haplotype.len() == big_s1.len(),
                                all_signs(self.haplotype@),
                                t_haplotype.len() == i,
                                all_signs(t_haplotype@),
                                forall|y: int| 0 <= y < i ==> #[trigger] t_haplotype@[y] == (if big_s1@[y] { -self.haplotype@[y] } else { self.haplotype@[y] as int }),
                            decreases n - i,
                        {
                            let h = self.haplotype[i];
                            assert(is_sign(self.haplotype@[i as int]));
                            t_haplotype.push(if big_s1[i] { -h } else { h });
                            i = i + 1;
                        }
                        let t_sum_hap_wts = signed_weight_sum(&self.edges, &t_haplotype);
                        proof {
                            assert(t_haplotype@ =~= flip_where(hap0, big_s1@));
                        }
                        proof {
                            if ne == 1 {
                                let e = self.edges@[0];
                                let a = e.snp_idxes[0] as int;
                                let b = e.snp_idxes[1] as int;
                                assert(a < b);
                                assert(big_s1@[a] && !big_s1@[b]);
                                let ha = self.haplotype@[a];
                                let hb = self.haplotype@[b];
                                assert(t_haplotype@[a] == -ha && t_haplotype@[b] == hb);
                                reveal_with_fuel(signed_sum, 2);
                                assert(signed_sum(self.edges@, self.haplotype@, 1) == signed_weight(e, self.haplotype@));
                                assert(signed_sum(self.edges@, t_haplotype@, 1) == signed_weight(e, t_haplotype@));
                                assert(signed_weight(e, t_haplotype@) == -signed_weight(e, self.haplotype@)) by (nonlinear_arith)
                                    requires
                                        signed_weight(e, t_haplotype@) == e.w * t_haplotype@[a] * t_haplotype@[b],
                                        signed_weight(e, self.haplotype@) == e.w * ha * hb,
                                        t_haplotype@[a] == -ha,
                                        t_haplotype@[b] == hb;
                                assert(sw@[e0 as int] == signed_weight(e, self.haplotype@));
                            }
                        }
                        if t_sum_hap_wts > sum_hap_wts {
                            self.haplotype = t_haplotype;
                            self.phased = true;
                        }
                        proof {
                            if ne == 1 {
                                assert(signed_weight(self.edges@[0], self.haplotype@) >= 0);
                            }
                        }
                    }
                },
            }
            proof {
                assert(self.haplotype@ == step.0);
                assert(stop == step.1);
                assert(rem >= 1);
                assert(maxcut_spec(self.edges@, hap0, n as int, rem)
                    == (if step.1 { step.0 } else { maxcut_spec(self.edges@, step.0, n as int, (rem - 1) as nat) }));
            }
        }
    }

    /// Grows the two sides of one round from edge `e0` and returns the first side.
    fn grow_cut(&self, sw: &Vec<i128>, nodeset: &mut Vec<bool>, node_count: usize, live: &mut Vec<bool>, e0: usize) -> (r: Vec<bool>)
        requires
            self.edges_wf(),
            self.edges.len() <= MAX_SITES,
            sw.len() == self.edges.len() == old(live).len(),
            old(nodeset).len() == self.snps.len(),
            weights_bounded(sw@),
            e0 < self.edges.len(),
            node_count <= self.snps.len(),
            self.snps.len() <= MAX_SITES,
        ensures
            r.len() == self.snps.len(),
            node_count <= 2 ==> forall|x: int| 0 <= x < r.len() ==> #[trigger] r@[x] == (x == self.edges@[e0 as int].snp_idxes[0]),
            r@ == grow_result(self.edges@, sw@, self.snps.len() as int, old(nodeset)@, node_count as int, old(live)@, e0 as int),
    {
        let n = self.snps.len();
        let ne = self.edges.len();
        proof {
            self.lemma_edges_in_range();
        }
        let mut big_s1 = bool_vec(n);
        let mut s1 = bool_vec(n);
        let mut s2 = bool_vec(n);
        let mut count: usize = 2;
        let mut nodes_left: usize = node_count;
        let a0 = self.edges[e0].snp_idxes[0];
        let b0 = self.edges[e0].snp_idxes[1];
        s1.set(a0, true);
        s2.set(b0, true);
        let ghost s1_init = s1@;
        // each pass places a site or closes a component, so 2n + 2 passes suffice
        let mut fuel: u64 = 2 * n as u64 + 2;
        let mut done = false;
        let ghost init = GrowState {
            nodeset: nodeset@, live: live@, s1: s1@, s2: s2@, big: big_s1@,
            count: 2, left: node_count as int, fuel: 2 * n + 2, done: false,
        };
        proof {
            assert(s1@ =~= only(n as int, a0 as int));
            assert(s2@ =~= only(n as int, b0 as int));
            assert(big_s1@ =~= Seq::new(n as nat, |_i: int| false));
        }
        while count < nodes_left && fuel > 0 && !done
            invariant
                grow_run(self.edges@, sw@, n as int, GrowState {
                    nodeset: nodeset@, live: live@, s1: s1@, s2: s2@, big: big_s1@,
                    count: count as int, left: nodes_left as int, fuel: fuel as int, done,
                }) == grow_run(self.edges@, sw@, n as int, init),
                init.s1 == only(n as int, self.edges@[e0 as int].snp_idxes[0] as int),
                init.s2 == only(n as int, self.edges@[e0 as int].snp_idxes[1] as int),
                init.big == Seq::new(n as nat, |_i: int| false),
                init.nodeset == old(nodeset)@,
                init.live == old(live)@,
                init.count == 2 && init.left == node_count && init.fuel == 2 * n + 2 && !init.done,
                self.edges_wf(),
                n == self.snps.len(),
                ne == self.edges.len() <= MAX_SITES,
                sw.len() == ne == live.len(),
                nodeset.len() == n,
                s1.len() == n,
                s2.len() == n,
                big_s1.len() == n,
                weights_bounded(sw@),
                edges_in_range(self.edges@, n as int),
                nodes_left <= n,
                2 <= count,
                nodes_left <= node_count,
                node_count <= 2 ==> s1@ == s1_init && forall|x: int| 0 <= x < n ==> !#[trigger] big_s1@[x],
            decreases fuel,
        {
            let ghost cur = GrowState {
                nodeset: nodeset@, live: live@, s1: s1@, s2: s2@, big: big_s1@,
                count: count as int, left: nodes_left as int, fuel: fuel as int, done,
            };
            let ghost nxt = grow_step(self.edges@, sw@, n as int, cur);
            fuel = fuel - 1;
            let mut best_val: i128 = 0;
            let mut best_node: Option<usize> = None;
            let mut cand: usize = 0;
            while cand < n
                invariant
                    best_val as int == scan_spec(self.edges@, sw@, nodeset@, s1@, s2@, cand as int).0,
                    best_node matches Some(bb) ==> scan_spec(self.edges@, sw@, nodeset@, s1@, s2@, cand as int).1 == Some(bb as int),
                    best_node is None ==> scan_spec(self.edges@, sw@, nodeset@, s1@, s2@, cand as int).1 is None,
                    cand <= n == nodeset.len() == s1.len() == s2.len(),
                    ne == self.edges.len() <= MAX_SITES,
                    sw.len() == ne,
                    weights_bounded(sw@),
                    edges_in_range(self.edges@, n as int),
                    best_node matches Some(b) ==> b < n,
                    best_node is None ==> best_val == 0,
                    -2 * (MAX_SITES as int) * WEIGHT_BOUND <= best_val <= 2 * (MAX_SITES as int) * WEIGHT_BOUND,
                decreases n - cand,
            {
                if nodeset[cand] && !s1[cand] && !s2[cand] {
                    let w1 = connection(&self.edges, sw, cand, &s1);
                    let w2 = connection(&self.edges, sw, cand, &s2);
                    let diff = w1 - w2;
                    let abs_diff = if diff < 0 { -diff } else { diff };
                    let abs_best = if best_val < 0 { -best_val } else { best_val };
                    if abs_diff > abs_best {
                        best_val = diff;
                        best_node = Some(cand);
                    }
                }
                cand = cand + 1;
            }
            match best_node {
                None => {
                    // no open site touches this component: close it
                    let ghost ns0 = nodeset@;
                    let ghost big0 = big_s1@;
                    let ghost left0 = nodes_left as int;
                    let mut i: usize = 0;
                    while i < n
                        invariant
                            i <= n == nodeset.len() == s1.len() == s2.len() == big_s1.len(),
                            nodes_left <= n,
                            nodes_left <= node_count,
                            ns0.len() == n && big0.len() == n,
                            forall|j: int| 0 <= j < i ==> #[trigger] nodeset@[j] == closed_nodes(ns0, s1@, s2@)[j],
                            forall|j: int| i <= j < n ==> #[trigger] nodeset@[j] == ns0[j],
                            forall|j: int| 0 <= j < i ==> #[trigger] big_s1@[j] == union_bools(big0, s1@)[j],
                            forall|j: int| i <= j < n ==> #[trigger] big_s1@[j] == big0[j],
                            nodes_left as int == closed_left(ns0, s1@, s2@, left0, i as int),
                        decreases n - i,
                    {
                        if (s1[i] || s2[i]) && nodeset[i] {
                            nodeset.set(i, false);
                            if nodes_left > 0 {
                                nodes_left = nodes_left - 1;
                            }
                        }
                        if s1[i] {
                            big_s1.set(i, true);
                        }
                        i = i + 1;
                    }
                    proof {
                        assert(nodeset@ =~= closed_nodes(ns0, s1@, s2@));
                        assert(big_s1@ =~= union_bools(big0, s1@));
                    }
                    let ghost lv0 = live@;
                    let mut x: usize = 0;
                    while x < ne
                        invariant
                            x <= ne == live.len() == self.edges.len(),
                            nodeset.len() == n,
                            edges_in_range(self.edges@, n as int),
                            lv0.len() == ne,
                            forall|j: int| 0 <= j < x ==> #[trigger] live@[j] == live_after(self.edges@, lv0, nodeset@)[j],
                            forall|j: int| x <= j < ne ==> #[trigger] live@[j] == lv0[j],
                        decreases ne - x,
                    {
                        let a = self.edges[x].snp_idxes[0];
                        let b = self.edges[x].snp_idxes[1];
                        if !nodeset[a] || !nodeset[b] {
                            live.set(x, false);
                        }
                        x = x + 1;
                    }
                    proof {
                        assert(live@ =~= live_after(self.edges@, lv0, nodeset@));
                    }
                    let next = lightest_live_edge(sw, live);
                    match next {
                        None => {
                            done = true;
                        },
                        Some(e1) => {
                            if sw[e1] >= 0 {
                                done = true;
                            } else {
                                s1 = bool_vec(n);
                                s2 = bool_vec(n);
                                s1.set(self.edges[e1].snp_idxes[0], true);
                                s2.set(self.edges[e1].snp_idxes[1], true);
                                count = 2;
                                proof {
                                    assert(s1@ =~= only(n as int, self.edges@[e1 as int].snp_idxes[0] as int));
                                    assert(s2@ =~= only(n as int, self.edges@[e1 as int].snp_idxes[1] as int));
                                }
                            }
                        },
                    }
                },
                Some(node) => {
                    if best_val > 0 {
                        s1.set(node, true);
                    } else {
                        s2.set(node, true);
                    }
                    assert(count < nodes_left);
                    count = count + 1;
                },
            }
            proof {
                let after = GrowState {
                    nodeset: nodeset@, live: live@, s1: s1@, s2: s2@, big: big_s1@,
                    count: count as int, left: nodes_left as int, fuel: fuel as int, done,
                };
                assert(after == nxt);
            }
        }
        let ghost big0 = big_s1@;
        let mut i: usize = 0;
        while i < n
            invariant
                i <= n == s1.len() == big_s1.len(),
                big0.len() == n,
                forall|x: int| 0 <= x < i ==> #[trigger] big_s1@[x] == (big0[x] || s1@[x]),
                forall|x: int| i <= x < n ==> #[trigger] big_s1@[x] == big0[x],
            decreases n - i,
        {
            if s1[i] {
                big_s1.set(i, true);
            }
            i = i + 1;
        }
        proof {
            if node_count <= 2 {
                assert forall|x: int| 0 <= x < n implies #[trigger] big_s1@[x] == (x == self.edges@[e0 as int].snp_idxes[0]) by {
                    assert(s1_init[x] == (x == a0));
                }
            }
        }
        big_s1
    }
}

/// `log10(2)` in millionths: a read is tagged when its side is at least twice as
/// likely as the other.
pub const LOG10_TWO: i128 = 301_030;

/// Relies on rand's `SliceRandom::choose_multiple` over `0..n`: `min(amount, n)` of the
/// indices, drawn without repetition.
#[verifier::external_body]
fn choose_indices(n: usize, amount: usize) -> (r: Vec<usize>)
    ensures
        r.len() == if amount < n { amount } else { n },
        forall|k: int| 0 <= k < r.len() ==> #[trigger] r@[k] < n,
        forall|j: int, k: int| 0 <= j < k < r.len() ==> #[trigger] r@[j] != #[trigger] r@[k],
{
    let mut rng = rand::thread_rng();
    let all: Vec<usize> = (0..n).collect();
    all.choose_multiple(&mut rng, amount).cloned().collect()
}

/// Haplotag of a read: 1 or 2 for its side when that side is more than twice as
/// likely as the other, else 0.
pub open spec fn tag_of(sigma: int, keep: int, flip: int) -> i32 {
    if keep - flip > LOG10_TWO {
        if sigma == 1 { 1 } else { 2 }
    } else {
        0
    }
}

impl SNPFrag {
    /// The haplotag of every fragment's read, in fragment order.
    pub fn read_assignments(&self) -> (r: Vec<i32>)
        requires
            self.phasing_wf(),
        ensures
            r.len() == self.fragments.len(),
            forall|k: int| 0 <= k < r.len() ==> #[trigger] r@[k] == tag_of(
                self.haplotag@[k] as int,
                frag_ll(self.fragments@[k].list@, self.haplotag@[k] as int, self.haplotype@),
                frag_ll(self.fragments@[k].list@, -self.haplotag@[k], self.haplotype@),
            ),
    {
        let mut tags: Vec<i32> = Vec::new();
        let mut k: usize = 0;
        while k < self.fragments.len()
            invariant
                self.phasing_wf(),
                k <= self.fragments.len(),
                tags.len() == k,
                forall|x: int| 0 <= x < k ==> #[trigger] tags@[x] == tag_of(
                    self.haplotag@[x] as int,
                    frag_ll(self.fragments@[x].list@, self.haplotag@[x] as int, self.haplotype@),
                    frag_ll(self.fragments@[x].list@, -self.haplotag@[x], self.haplotype@),
                ),
            decreases self.fragments.len() - k,
        {
            let sigma_k = self.haplotag[k];
            assert(is_sign(self.haplotag@[k as int]));
            let keep = self.frag_log_likelihood(k, sigma_k, &self.haplotype);
            let flip = self.frag_log_likelihood(k, -sigma_k, &self.haplotype);
            let tag: i32 = if keep - flip > LOG10_TWO {
                if sigma_k == 1 { 1 } else { 2 }
            } else {
                0
            };
            tags.push(tag);
            k = k + 1;
        }
        tags
    }

}

fn copy_signs(v: &Vec<i32>) -> (r: Vec<i32>)
    ensures
        r@ == v@,
{
    let mut r: Vec<i32> = Vec::new();
    let mut k: usize = 0;
    while k < v.len()
        invariant
            k <= v.len(),
            r@ == v@.take(k as int),
        decreases v.len() - k,
    {
        r.push(v[k]);
        k = k + 1;
        assert(r@ =~= v@.take(k as int));
    }
    assert(v@.take(v.len() as int) =~= v@);
    r
}

/// Joint log-likelihood where the ascent from `tag` and `hap` stops.
pub open spec fn end_ll(frags: Seq<Fragment>, covers: Seq<Vec<usize>>, tag: Seq<i32>, hap: Seq<i32>) -> int {
    let e = ascent_end(frags, covers, tag, hap);
    total_ll(frags, e.0, e.1, frags.len() as int)
}

/// How many of `len` sides a random flip of `ppm` parts per million reverses.
pub fn flip_count(len: usize, ppm: u64) -> (r: usize)
    requires
        len <= MAX_SITES,
        ppm <= FREQ_SCALE,
    ensures
        r as int == (len as int * ppm as int) / FREQ_SCALE as int,
        r <= len,
{
    proof {
        assert(len * ppm <= MAX_SITES * FREQ_SCALE) by (nonlinear_arith)
            requires len <= MAX_SITES, ppm <= FREQ_SCALE;
        assert((len as int * ppm as int) / FREQ_SCALE as int <= len) by (nonlinear_arith)
            requires ppm <= FREQ_SCALE, FREQ_SCALE == 1_000_000, len >= 0;
    }
    ((len as u64 * ppm) / FREQ_SCALE) as usize
}

/// A sign vector of length `n`.
pub open spec fn sign_vector(v: Seq<i32>, n: int) -> bool {
    v.len() == n && all_signs(v)
}

/// All entries from `t` on are +1.
pub open spec fn ones_from(v: Seq<i32>, t: int) -> bool {
    forall|k: int| t <= k < v.len() ==> #[trigger] v[k] == 1
}

/// `v` is one of `haps`.
pub open spec fn listed(haps: Seq<Seq<i32>>, v: Seq<i32>) -> bool {
    exists|h: int| 0 <= h < haps.len() && #[trigger] haps[h] == v
}

pub open spec fn hview(haps: Seq<Vec<i32>>) -> Seq<Seq<i32>> {
    Seq::new(haps.len(), |h: int| haps[h]@)
}

/// Read sides before run `h` of the enumeration: each run starts where the previous
/// one's ascent stopped.
pub open spec fn enum_tag(frags: Seq<Fragment>, covers: Seq<Vec<usize>>, tag0: Seq<i32>, haps: Seq<Seq<i32>>, h: nat) -> Seq<i32>
    decreases h,
{
    if h == 0 {
        tag0
    } else {
        ascent_end(frags, covers, enum_tag(frags, covers, tag0, haps, (h - 1) as nat), haps[h - 1]).0
    }
}

/// The joint log-likelihood that run `h` of the enumeration reaches.
pub open spec fn enum_run(frags: Seq<Fragment>, covers: Seq<Vec<usize>>, tag0: Seq<i32>, haps: Seq<Seq<i32>>, h: nat) -> int {
    end_ll(frags, covers, enum_tag(frags, covers, tag0, haps, h), haps[h as int])
}

/// `v` with every sign from position `t` on reversed.
pub open spec fn block_flip(v: Seq<i32>, t: int) -> Seq<i32> {
    Seq::new(v.len(), |j: int| if j < t { v[j] } else { (-v[j]) as i32 })
}

/// The block flips of `v` from each of its `n` positions, in order.
pub open spec fn block_flips(v: Seq<i32>, n: int) -> Seq<Seq<i32>> {
    Seq::new(n as nat, |t: int| block_flip(v, t))
}

/// Largest number of sites whose haplotypes are all enumerated.
pub const MAX_ENUM_SITES: usize = 20;

impl SNPFrag {
    /// Region driver of the likelihood ascent, a restart heuristic with no guarantee of
    /// reaching the optimum. With fewer than `max_enum_snps` sites, the ascent starts
    /// from every haplotype in turn; otherwise it starts from the current state, then
    /// from each block flip of the best haplotype (every sign from one site on
    /// reversed), then from a random flip of `flip_fraction_ppm` (parts per million)
    /// of the sites and of the reads. The best state found is kept; returns its joint
    /// log-likelihood.
    pub fn phase_with_restarts(&mut self, max_enum_snps: usize, flip_fraction_ppm: u64) -> (r: i128)
        requires
            old(self).phasing_wf(),
            max_enum_snps <= MAX_ENUM_SITES,
            flip_fraction_ppm <= FREQ_SCALE,
        ensures
            final(self).phasing_wf(),
            final(self).snps == old(self).snps,
            final(self).homo_snps == old(self).homo_snps,
            final(self).fragments == old(self).fragments,
            final(self).snp_cover_fragments == old(self).snp_cover_fragments,
            final(self).edges == old(self).edges,
            r as int == total_ll(final(self).fragments@, final(self).haplotag@, final(self).haplotype@, final(self).fragments.len() as int),
            old(self).snps.len() >= max_enum_snps ==> r as int >= end_ll(old(self).fragments@, old(self).snp_cover_fragments@,
                old(self).haplotag@, old(self).haplotype@),
            old(self).snps.len() < max_enum_snps ==> r as int >= end_ll(old(self).fragments@, old(self).snp_cover_fragments@,
                old(self).haplotag@, Seq::new(old(self).snps.len() as nat, |_i: int| 1i32)),
            old(self).snps.len() >= max_enum_snps ==> ({
                let e0 = ascent_end(old(self).fragments@, old(self).snp_cover_fragments@, old(self).haplotag@, old(self).haplotype@);
                forall|t: nat| t < old(self).snps.len() ==> r as int >= #[trigger] enum_run(old(self).fragments@,
                    old(self).snp_cover_fragments@, e0.0, block_flips(e0.1, old(self).snps.len() as int), t)
            }),
            old(self).snps.len() < max_enum_snps ==> exists|hv: Seq<Seq<i32>>| {
                &&& hv.len() == pow2(old(self).snps.len() as nat)
                &&& forall|v: Seq<i32>| #[trigger] sign_vector(v, old(self).snps.len() as int) ==> listed(hv, v)
                &&& forall|h: nat| h < hv.len() ==> r as int >= #[trigger] enum_run(old(self).fragments@, old(self).snp_cover_fragments@,
                    old(self).haplotag@, hv, h)
                &&& exists|h: nat| h < hv.len() && r as int == #[trigger] enum_run(old(self).fragments@, old(self).snp_cover_fragments@,
                    old(self).haplotag@, hv, h)
            },
    {
        let n = self.snps.len();
        let ghost ones = Seq::new(n as nat, |_i: int| 1i32);
        let ghost bound = if n < max_enum_snps {
            end_ll(self.fragments@, self.snp_cover_fragments@, self.haplotag@, ones)
        } else {
            end_ll(self.fragments@, self.snp_cover_fragments@, self.haplotag@, self.haplotype@)
        };
        let mut have = false;
        let mut best_prob: i128 = 0;
        let mut best_hap: Vec<i32> = copy_signs(&self.haplotype);
        let mut best_tag: Vec<i32> = copy_signs(&self.haplotag);
        if n < max_enum_snps {
            let mut haps: Vec<Vec<i32>> = Vec::new();
            let mut init: Vec<i32> = Vec::new();
            let mut i: usize = 0;
            while i < n
                invariant
                    i <= n,
                    init.len() == i,
                    all_signs(init@),
                    init@ =~= Seq::new(i as nat, |_i: int| 1i32),
                decreases n - i,
            {
                init.push(1);
                i = i + 1;
            }
            haps.push(init);
            proof {
                assert forall|v: Seq<i32>| #[trigger] sign_vector(v, n as int) && ones_from(v, 0) implies listed(hview(haps@), v) by {
                    assert(v =~= ones);
                    assert(hview(haps@)[0] == ones);
                }
            }
            let mut ti: usize = 0;
            while ti < n
                invariant
                    ti <= n < MAX_ENUM_SITES,
                    1 <= haps.len() <= 0x10_0000,
                    haps.len() == pow2(ti as nat),
                    forall|h: int| 0 <= h < haps.len() ==> (#[trigger] haps@[h]).len() == n && all_signs(haps@[h]@),
                    haps@[0]@ == ones,
                    forall|v: Seq<i32>| #[trigger] sign_vector(v, n as int) && ones_from(v, ti as int) ==> listed(hview(haps@), v),
                decreases n - ti,
            {
                let count = haps.len();
                let ghost pre = hview(haps@);
                let mut tj: usize = 0;
                while tj < count
                    invariant
                        tj <= count <= haps.len(),
                        haps.len() == count + tj,
                        ti < n,
                        forall|h: int| 0 <= h < haps.len() ==> (#[trigger] haps@[h]).len() == n && all_signs(haps@[h]@),
                        haps@[0]@ == ones,
                        pre.len() == count,
                        forall|j: int| 0 <= j < count ==> #[trigger] haps@[j]@ == pre[j],
                        forall|j: int| 0 <= j < tj ==> #[trigger] haps@[count + j]@ == pre[j].update(ti as int, -pre[j][ti as int] as i32),
                    decreases count - tj,
                {
                    let mut tmp = copy_signs(&haps[tj]);
                    let v = tmp[ti];
                    assert(is_sign(haps@[tj as int]@[ti as int]));
                    tmp.set(ti, -v);
                    proof {
                        assert forall|x: int| 0 <= x < tmp.len() implies is_sign(#[trigger] tmp@[x]) by {
                            if x != ti {
                                assert(is_sign(haps@[tj as int]@[x]));
                            }
                        }
                    }
                    let ghost hb = haps@;
                    haps.push(tmp);
                    proof {
                        assert(haps@[count + tj as int]@ =~= pre[tj as int].update(ti as int, -pre[tj as int][ti as int] as i32));
                        assert forall|j: int| 0 <= j < count implies #[trigger] haps@[j]@ == pre[j] by {
                            assert(haps@[j] == hb[j]);
                        }
                        assert forall|j: int| 0 <= j < tj + 1 implies #[trigger] haps@[count + j]@ == pre[j].update(ti as int, -pre[j][ti as int] as i32) by {
                            if j < tj {
                                assert(haps@[count + j] == hb[count + j]);
                            }
                        }
                    }
                    tj = tj + 1;
                }
                proof {
                    lemma_pow2_bound(ti as nat);
                    let hv = hview(haps@);
                    assert forall|v: Seq<i32>| #[trigger] sign_vector(v, n as int) && ones_from(v, ti + 1) implies listed(hv, v) by {
                        assert(is_sign(v[ti as int]));
                        if v[ti as int] == 1 {
                            assert(ones_from(v, ti as int));
                            assert(sign_vector(v, n as int));
                            let h = choose|h: int| 0 <= h < pre.len() && #[trigger] pre[h] == v;
                            assert(hv[h] == haps@[h]@);
                        } else {
                            let w = v.update(ti as int, 1i32);
                            assert(sign_vector(w, n as int));
                            assert(ones_from(w, ti as int));
                            let h = choose|h: int| 0 <= h < pre.len() && #[trigger] pre[h] == w;
                            assert(hv[count + h] == haps@[count + h]@);
                            assert(pre[h].update(ti as int, -pre[h][ti as int] as i32) =~= v);
                            assert(hv[count + h] == v);
                        }
                    }
                }
                ti = ti + 1;
            }
            let ghost hv = hview(haps@);
            proof {
                assert forall|v: Seq<i32>| #[trigger] sign_vector(v, n as int) implies listed(hv, v) by {
                    assert(ones_from(v, n as int));
                }
            }
            let mut h: usize = 0;
            while h < haps.len()
                invariant
                    h <= haps.len(),
                    forall|x: int| 0 <= x < haps.len() ==> (#[trigger] haps@[x]).len() == n && all_signs(haps@[x]@),
                    self.phasing_wf(),
                    n == self.snps.len(),
                    self.snps == old(self).snps,
                    self.homo_snps == old(self).homo_snps,
                    self.fragments == old(self).fragments,
                    self.snp_cover_fragments == old(self).snp_cover_fragments,
                    self.edges == old(self).edges,
                    best_hap.len() == n && best_tag.len() == self.fragments.len(),
                    all_signs(best_hap@) && all_signs(best_tag@),
                    have ==> best_prob as int == total_ll(self.fragments@, best_tag@, best_hap@, self.fragments.len() as int),
                    haps.len() >= 1,
                    haps@[0]@ == ones,
                    n < max_enum_snps,
                    bound == end_ll(old(self).fragments@, old(self).snp_cover_fragments@, old(self).haplotag@, ones),
                    h == 0 ==> self.haplotag == old(self).haplotag,
                    h > 0 ==> have && best_prob >= bound,
                    h == 0 ==> !have,
                    hv == hview(haps@),
                    self.haplotag@ == enum_tag(old(self).fragments@, old(self).snp_cover_fragments@, old(self).haplotag@, hv, h as nat),
                    forall|g: nat| g < h ==> best_prob as int >= #[trigger] enum_run(old(self).fragments@, old(self).snp_cover_fragments@,
                        old(self).haplotag@, hv, g),
                    h > 0 ==> exists|g: nat| g < h && best_prob as int == #[trigger] enum_run(old(self).fragments@, old(self).snp_cover_fragments@,
                        old(self).haplotag@, hv, g),
                decreases haps.len() - h,
            {
                self.haplotype = copy_signs(&haps[h]);
                let ghost tag_h = self.haplotag@;
                let prob = self.cross_optimize();
                let ghost bp0 = best_prob;
                let ghost have0 = have;
                proof {
                    assert(hv[h as int] == haps@[h as int]@);
                    assert(prob as int == enum_run(old(self).fragments@, old(self).snp_cover_fragments@, old(self).haplotag@, hv, h as nat));
                    assert(self.haplotag@ == enum_tag(old(self).fragments@, old(self).snp_cover_fragments@, old(self).haplotag@, hv, (h + 1) as nat));
                }
                if !have || prob > best_prob {
                    have = true;
                    best_prob = prob;
                    best_hap = copy_signs(&self.haplotype);
                    best_tag = copy_signs(&self.haplotag);
                }
                proof {
                    assert forall|g: nat| g < h + 1 implies best_prob as int >= #[trigger] enum_run(old(self).fragments@, old(self).snp_cover_fragments@,
                        old(self).haplotag@, hv, g) by {}
                    if best_prob == prob {
                        assert(enum_run(old(self).fragments@, old(self).snp_cover_fragments@, old(self).haplotag@, hv, h as nat) == best_prob as int);
                    } else {
                        assert(best_prob == bp0 && have0);
                        assert(h > 0);
                        let g = choose|g: nat| g < h && bp0 as int == #[trigger] enum_run(old(self).fragments@, old(self).snp_cover_fragments@,
                            old(self).haplotag@, hv, g);
                        assert(g < h + 1);
                    }
                }
                h = h + 1;
            }
            proof {
                assert(hv.len() == pow2(n as nat));
            }
            if !have {
                best_prob = SNPFrag::cal_overall_probability(self, &self.haplotag, &self.haplotype);
                best_hap = copy_signs(&self.haplotype);
                best_tag = copy_signs(&self.haplotag);
            }
        } else {
            best_prob = self.cross_optimize();
            assert(best_prob >= bound);
            best_hap = copy_signs(&self.haplotype);
            best_tag = copy_signs(&self.haplotag);
            self.haplotag = copy_signs(&best_tag);
            self.haplotype = copy_signs(&best_hap);
            let unflipped = copy_signs(&best_hap);
            let ghost e0 = ascent_end(old(self).fragments@, old(self).snp_cover_fragments@, old(self).haplotag@, old(self).haplotype@);
            let ghost bv = block_flips(unflipped@, n as int);
            assert(unflipped@ == e0.1 && self.haplotag@ == e0.0);
            let mut ti: usize = 0;
            while ti < n
                invariant
                    ti <= n,
                    unflipped.len() == n,
                    e0 == ascent_end(old(self).fragments@, old(self).snp_cover_fragments@, old(self).haplotag@, old(self).haplotype@),
                    unflipped@ == e0.1,
                    bv == block_flips(unflipped@, n as int),
                    self.haplotag@ == enum_tag(old(self).fragments@, old(self).snp_cover_fragments@, e0.0, bv, ti as nat),
                    forall|g: nat| g < ti ==> best_prob as int >= #[trigger] enum_run(old(self).fragments@, old(self).snp_cover_fragments@,
                        e0.0, bv, g),
                    all_signs(unflipped@),
                    self.phasing_wf(),
                    n == self.snps.len(),
                    self.snps == old(self).snps,
                    self.homo_snps == old(self).homo_snps,
                    self.fragments == old(self).fragments,
                    self.snp_cover_fragments == old(self).snp_cover_fragments,
                    self.edges == old(self).edges,
                    best_hap.len() == n && best_tag.len() == self.fragments.len(),
                    all_signs(best_hap@) && all_signs(best_tag@),
                    best_prob as int == total_ll(self.fragments@, best_tag@, best_hap@, self.fragments.len() as int),
                    best_prob >= bound,
                decreases n - ti,
            {
                let mut tmp: Vec<i32> = Vec::new();
                let mut tj: usize = 0;
                while tj < n
                    invariant
                        tj <= n == unflipped.len(),
                        all_signs(unflipped@),
                        tmp.len() == tj,
                        all_signs(tmp@),
                        forall|x: int| 0 <= x < tj ==> #[trigger] tmp@[x] == (if x < ti { unflipped@[x] } else { (-unflipped@[x]) as i32 }),
                    decreases n - tj,
                {
                    let v = unflipped[tj];
                    assert(is_sign(unflipped@[tj as int]));
                    tmp.push(if tj < ti { v } else { -v });
                    tj = tj + 1;
                }
                proof {
                    assert(tmp@ =~= bv[ti as int]);
                }
                self.haplotype = tmp;
                let prob = self.cross_optimize();
                proof {
                    assert(prob as int == enum_run(old(self).fragments@, old(self).snp_cover_fragments@, e0.0, bv, ti as nat));
                    assert(self.haplotag@ == enum_tag(old(self).fragments@, old(self).snp_cover_fragments@, e0.0, bv, (ti + 1) as nat));
                }
                if prob > best_prob {
                    best_prob = prob;
                    best_hap = copy_signs(&self.haplotype);
                    best_tag = copy_signs(&self.haplotag);
                }
                proof {
                    assert forall|g: nat| g < ti + 1 implies best_prob as int >= #[trigger] enum_run(old(self).fragments@,
                        old(self).snp_cover_fragments@, e0.0, bv, g) by {}
                }
                ti = ti + 1;
            }
            self.haplotag = copy_signs(&best_tag);
            self.haplotype = copy_signs(&best_hap);
            proof {
                assert(n * flip_fraction_ppm <= MAX_SITES * FREQ_SCALE) by (nonlinear_arith)
                    requires n <= MAX_SITES, flip_fraction_ppm <= FREQ_SCALE;
                assert(self.haplotag.len() * flip_fraction_ppm <= MAX_SITES * FREQ_SCALE) by (nonlinear_arith)
                    requires self.haplotag.len() <= MAX_SITES, flip_fraction_ppm <= FREQ_SCALE;
            }
            let num_flip_haplotype = flip_count(n, flip_fraction_ppm);
            let num_flip_haplotag = flip_count(self.haplotag.len(), flip_fraction_ppm);
            let chosen_hap = choose_indices(n, num_flip_haplotype);
            let chosen_tag = choose_indices(self.haplotag.len(), num_flip_haplotag);
            self.random_flip(&chosen_hap, &chosen_tag);
            let prob = self.cross_optimize();
            if prob > best_prob {
                best_prob = prob;
                best_hap = copy_signs(&self.haplotype);
                best_tag = copy_signs(&self.haplotag);
            }
        }
        self.haplotag = best_tag;
        self.haplotype = best_hap;
        best_prob
    }
}

pub open spec fn pow2(k: nat) -> nat
    decreases k,
{
    if k == 0 { 1 } else { 2 * pow2((k - 1) as nat) }
}

proof fn lemma_pow2_below(k: nat)
    requires
        k <= MAX_ENUM_SITES,
    ensures
        pow2(k) <= pow2(MAX_ENUM_SITES as nat),
    decreases MAX_ENUM_SITES - k,
{
    if k < MAX_ENUM_SITES {
        lemma_pow2_below(k + 1);
    }
}

proof fn lemma_pow2_bound(k: nat)
    requires
        k < MAX_ENUM_SITES,
    ensures
        pow2(k + 1) <= 0x10_0000,
        pow2(k + 1) == 2 * pow2(k),
{
    lemma_pow2_below(k + 1);
    reveal_with_fuel(pow2, 21);
    assert(pow2(20) == 0x10_0000);
}

pub const GT_BAR: u8 = 124;
pub const GT_SLASH: u8 = 47;
pub const GT_0: u8 = 48;
pub const GT_1: u8 = 49;
pub const GT_2: u8 = 50;

/// Alternate alleles and genotype of a heterozygous site with haplotype sign `hp`:
/// a site whose first allele is the reference reports the second as alternate, and
/// the other way round; a site with neither allele on the reference reports both.
/// Phased genotypes read `0|1` for sign -1 and `1|0` otherwise (`1|2` for two
/// alternates); unphased ones read `0/1` or `1/2`.
pub open spec fn het_call(snp: CandidateSNP, hp: i32, phased: bool) -> (Seq<u8>, Seq<u8>) {
    let sep = if phased { GT_BAR } else { GT_SLASH };
    if snp.alleles[0] == snp.reference {
        (seq![snp.alleles[1]], if phased && hp != -1 { seq![GT_1, sep, GT_0] } else { seq![GT_0, sep, GT_1] })
    } else if snp.alleles[1] == snp.reference {
        (seq![snp.alleles[0]], if phased && hp != -1 { seq![GT_1, sep, GT_0] } else { seq![GT_0, sep, GT_1] })
    } else {
        (seq![snp.alleles[0], snp.alleles[1]], seq![GT_1, sep, GT_2])
    }
}

fn bytes3(a: u8, b: u8, c: u8) -> (r: Vec<u8>)
    ensures
        r@ == seq![a, b, c],
{
    let mut v: Vec<u8> = Vec::new();
    v.push(a);
    v.push(b);
    v.push(c);
    assert(v@ =~= seq![a, b, c]);
    v
}

/// Alternate alleles and genotype label of a heterozygous site (see `het_call`).
pub fn genotype_of(snp: &CandidateSNP, hp: i32, phased: bool) -> (r: (Vec<u8>, Vec<u8>))
    ensures
        (r.0@, r.1@) == het_call(*snp, hp, phased),
{
    let sep = if phased { GT_BAR } else { GT_SLASH };
    let mut alt: Vec<u8> = Vec::new();
    if snp.alleles[0] == snp.reference || snp.alleles[1] == snp.reference {
        alt.push(if snp.alleles[0] == snp.reference { snp.alleles[1] } else { snp.alleles[0] });
        let gt = if phased && hp != -1 { bytes3(GT_1, sep, GT_0) } else { bytes3(GT_0, sep, GT_1) };
        proof {
            if snp.alleles[0] == snp.reference {
                assert(alt@ =~= seq![snp.alleles[1]]);
            } else {
                assert(alt@ =~= seq![snp.alleles[0]]);
            }
        }
        (alt, gt)
    } else {
        alt.push(snp.alleles[0]);
        alt.push(snp.alleles[1]);
        assert(alt@ =~= seq![snp.alleles[0], snp.alleles[1]]);
        (alt, bytes3(GT_1, sep, GT_2))
    }
}

impl SNPFrag {
    /// The three log sums behind the phase quality of site `i` (see `cal_delta_sigma_sum`).
    pub fn phase_quality_sums(&self, i: usize) -> (r: (i128, i128, i128))
        requires
            self.phasing_wf(),
            i < self.snps.len(),
        ensures
            ({
                let o = self.site_observations_spec(i as int);
                &&& r.0 as int == obs_ll(self.haplotype@[i as int] as int, o.0, o.1, o.2, o.3, o.0.len() as int)
                &&& r.1 as int == obs_ll(1, o.0, o.1, o.2, o.3, o.0.len() as int)
                &&& r.2 as int == obs_ll(1, o.0, o.1, o.3, o.2, o.0.len() as int)
            }),
    {
        let (sigma, ps, errs, oks) = self.site_observations(i);
        assert(is_sign(self.haplotype@[i as int]));
        SNPFrag::cal_delta_sigma_sum(self.haplotype[i], &sigma, &ps, &errs, &oks)
    }
}

/// Millionths cut to whole units, towards zero.
pub open spec fn whole_units(w: int) -> int {
    if w >= 0 { w / 1_000_000 } else { -((-w) / 1_000_000) }
}

/// Sum of the signed weights, truncated to whole log units, of the edges at site `i`.
pub open spec fn edge_phase_score_spec(edges: Seq<Edge>, hap: Seq<i32>, i: int, n: int) -> int
    decreases n,
{
    if n <= 0 {
        0
    } else {
        let e = edges[n - 1];
        edge_phase_score_spec(edges, hap, i, n - 1) + if e.snp_idxes[0] == i || e.snp_idxes[1] == i {
            whole_units(e.w as int) * hap[e.snp_idxes[0] as int] * hap[e.snp_idxes[1] as int]
        } else {
            0
        }
    }
}

impl SNPFrag {
    /// Phase score of site `i` from the graph alone: the summed signed weights of its
    /// edges, each cut to whole base-10 log units (towards zero).
    pub fn edge_phase_score(&self, i: usize) -> (r: i128)
        requires
            self.edges_wf(),
            self.edges.len() <= MAX_SITES,
            self.haplotype.len() == self.snps.len(),
            all_signs(self.haplotype@),
        ensures
            r as int == edge_phase_score_spec(self.edges@, self.haplotype@, i as int, self.edges.len() as int),
    {
        let mut acc: i128 = 0;
        let mut x: usize = 0;
        while x < self.edges.len()
            invariant
                x <= self.edges.len() <= MAX_SITES,
                self.edges_wf(),
                self.haplotype.len() == self.snps.len(),
                all_signs(self.haplotype@),
                acc as int == edge_phase_score_spec(self.edges@, self.haplotype@, i as int, x as int),
                -(x as int) * WEIGHT_BOUND <= acc <= (x as int) * WEIGHT_BOUND,
            decreases self.edges.len() - x,
        {
            let e = &self.edges[x];
            if e.snp_idxes[0] == i || e.snp_idxes[1] == i {
                let a = self.haplotype[e.snp_idxes[0]];
                let b = self.haplotype[e.snp_idxes[1]];
                assert(is_sign(self.haplotype@[e.snp_idxes[0] as int]) && is_sign(self.haplotype@[e.snp_idxes[1] as int]));
                proof {
                    lemma_weight_bound(self.edges@[x as int]);
                }
                let units: i128 = if e.w >= 0 { e.w / 1_000_000 } else { -((-e.w) / 1_000_000) };
                proof {
                    assert(units == whole_units(e.w as int));
                    assert(-WEIGHT_BOUND <= units <= WEIGHT_BOUND) by (nonlinear_arith)
                        requires units == (if e.w >= 0 { e.w as int / 1_000_000 } else { -((-(e.w as int)) / 1_000_000) }),
                            -WEIGHT_BOUND <= e.w <= WEIGHT_BOUND;
                }
                let t: i128 = if a == b { units } else { -units };
                proof {
                    assert(t == units * a * b) by (nonlinear_arith)
                        requires is_sign(a), is_sign(b), t == (if a == b { units as int } else { -(units as int) });
                    assert((x as int + 1) * WEIGHT_BOUND <= (MAX_SITES as int) * WEIGHT_BOUND) by (nonlinear_arith)
                        requires x < MAX_SITES;
                }
                acc = acc + t;
            }
            x = x + 1;
        }
        acc
    }
}

/// `v` with the sign of every listed index reversed.
pub open spec fn flipped(v: Seq<i32>, idx: Seq<usize>) -> Seq<i32> {
    Seq::new(v.len(), |i: int| if idx.contains(i as usize) { (-v[i]) as i32 } else { v[i] })
}

/// Indices below `n`, none listed twice.
pub open spec fn distinct_below(idx: Seq<usize>, n: int) -> bool {
    &&& forall|k: int| 0 <= k < idx.len() ==> #[trigger] idx[k] < n
    &&& forall|j: int, k: int| 0 <= j < k < idx.len() ==> #[trigger] idx[j] != #[trigger] idx[k]
}

fn flip_signs(v: &mut Vec<i32>, idx: &Vec<usize>)
    requires
        all_signs(old(v)@),
        distinct_below(idx@, old(v).len() as int),
    ensures
        final(v)@ == flipped(old(v)@, idx@),
        all_signs(final(v)@),
{
    let mut c: usize = 0;
    while c < idx.len()
        invariant
            c <= idx.len(),
            v.len() == old(v).len(),
            all_signs(old(v)@),
            distinct_below(idx@, old(v).len() as int),
            v@ =~= flipped(old(v)@, idx@.take(c as int)),
        decreases idx.len() - c,
    {
        let i = idx[c];
        let x = v[i];
        proof {
            assert(!idx@.take(c as int).contains(i)) by {
                if idx@.take(c as int).contains(i) {
                    let j = choose|j: int| 0 <= j < c && idx@.take(c as int)[j] == i;
                    assert(idx@[j] == idx@[c as int]);
                }
            }
            assert(is_sign(old(v)@[i as int]));
        }
        v.set(i, -x);
        proof {
            let t1 = idx@.take(c + 1);
            assert forall|y: int| 0 <= y < v.len() implies #[trigger] v@[y] == flipped(old(v)@, t1)[y] by {
                assert(t1.contains(y as usize) == (idx@.take(c as int).contains(y as usize) || y == i)) by {
                    if t1.contains(y as usize) {
                        let j = choose|j: int| 0 <= j < t1.len() && t1[j] == y as usize;
                        if j < c {
                            assert(idx@.take(c as int)[j] == y as usize);
                        }
                    }
                    if idx@.take(c as int).contains(y as usize) {
                        let j = choose|j: int| 0 <= j < c && idx@.take(c as int)[j] == y as usize;
                        assert(t1[j] == y as usize);
                    }
                    if y == i {
                        assert(t1[c as int] == i);
                    }
                }
            }
        }
        c = c + 1;
    }
    proof {
        assert(idx@.take(idx.len() as int) =~= idx@);
        assert forall|y: int| 0 <= y < v.len() implies is_sign(#[trigger] v@[y]) by {
            assert(is_sign(old(v)@[y]));
        }
    }
}

impl SNPFrag {
    /// The perturbation of the restart heuristic: reverses the sides of the listed
    /// sites and reads.
    pub fn random_flip(&mut self, hap_idx: &Vec<usize>, tag_idx: &Vec<usize>)
        requires
            old(self).phasing_wf(),
            distinct_below(hap_idx@, old(self).haplotype.len() as int),
            distinct_below(tag_idx@, old(self).haplotag.len() as int),
        ensures
            final(self).phasing_wf(),
            final(self).haplotype@ == flipped(old(self).haplotype@, hap_idx@),
            final(self).haplotag@ == flipped(old(self).haplotag@, tag_idx@),
            final(self).snps == old(self).snps,
            final(self).homo_snps == old(self).homo_snps,
            final(self).fragments == old(self).fragments,
            final(self).snp_cover_fragments == old(self).snp_cover_fragments,
            final(self).edges == old(self).edges,
            final(self).phased == old(self).phased,
    {
        flip_signs(&mut self.haplotype, hap_idx);
        flip_signs(&mut self.haplotag, tag_idx);
    }
}

/// A read that starts after every site is the source of no fragment: in a graph built
/// by `get_fragments`, no fragment is what it observes, so it adds no observation to
/// any coverage list and no contribution to any edge.
pub proof fn lemma_late_read_adds_nothing(frags: Seq<Fragment>, read: AlignedRead, snps: Seq<CandidateSNP>)
    requires
        forall|k: int| 0 <= k < snps.len() ==> #[trigger] snps[k].pos < read.pos,
    ensures
        !spans_some(read, snps),
        forall|f: int| 0 <= f < frags.len() ==> !fragment_of_read(#[trigger] frags[f], read, snps),
{
    reveal(spans_some);
    reveal(fragment_of_read);
    assert forall|f: int| 0 <= f < frags.len() implies !fragment_of_read(#[trigger] frags[f], read, snps) by {
        if fragment_of_read(frags[f], read, snps) {
            let e = frags[f].list@[0];
            assert(elem_at_site(e, snps));
            let k = e.snp_idx as int;
            assert(exists|e2: int| 0 <= e2 < frags[f].list.len() && frags[f].list@[e2].snp_idx == k);
            assert(read_spans(read, snps[k].pos as int));
        }
    }
}

} // verus!















