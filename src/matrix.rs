//! The realignment matrix: one row of aligned bytes per read plus the reference row,
//! the column profiles built from it, and the iterative realignment of every read
//! against the profile of the others.
use vstd::prelude::*;
use crate::column::{ColumnBaseCount, GAP, BASE_N, BLANK, occurrences, max6, lemma_occurrences_bound};
use crate::align::{nw_splice_aware, lemma_global_fills_profile, MAX_ALIGN_LEN, trace, full_input, Trace};
use crate::phase::{CigarOp, OP_M, OP_I, OP_D, OP_N};

verus! {

/// One named row of the matrix.
pub struct MatrixRow {
    pub name: Vec<u8>,
    pub bases: Vec<u8>,
}

/// Failures of realignment.
#[derive(Clone, Copy, Debug, PartialEq, Eq, Structural)]
pub enum MatrixError {
    /// The matrix has no row.
    EmptyMatrix,
    /// Rows of unequal length.
    RaggedMatrix,
    /// A realigned read does not fill the profile exactly.
    RealignLength,
    /// The matrix is too large to realign.
    TooLarge,
    /// No row carries the name given.
    UnknownRow,
}

/// The name of the reference row.
pub open spec fn is_ref_name(name: Seq<u8>) -> bool {
    name == seq![114u8, 101u8, 102u8]
}

fn is_ref_row(name: &Vec<u8>) -> (r: bool)
    ensures
        r == is_ref_name(name@),
{
    let r = name.len() == 3 && name[0] == 114 && name[1] == 101 && name[2] == 102;
    proof {
        if r {
            assert(name@ =~= seq![114u8, 101u8, 102u8]);
        }
    }
    r
}

/// All rows have `ncols` bytes.
pub open spec fn rectangular(rows: Seq<MatrixRow>, ncols: int) -> bool {
    forall|k: int| 0 <= k < rows.len() ==> (#[trigger] rows[k]).bases.len() == ncols
}

/// The bytes of column `i` in the read rows among the first `n`, in row order.
pub open spec fn read_column(rows: Seq<MatrixRow>, i: int, n: int) -> Seq<u8>
    decreases n,
{
    if n <= 0 {
        Seq::empty()
    } else if is_ref_name(rows[n - 1].name@) {
        read_column(rows, i, n - 1)
    } else {
        read_column(rows, i, n - 1).push(rows[n - 1].bases@[i])
    }
}

/// The byte of column `i` in the last reference row among the first `n` (0 if none).
pub open spec fn ref_byte(rows: Seq<MatrixRow>, i: int, n: int) -> u8
    decreases n,
{
    if n <= 0 {
        0
    } else if is_ref_name(rows[n - 1].name@) {
        rows[n - 1].bases@[i]
    } else {
        ref_byte(rows, i, n - 1)
    }
}

proof fn lemma_read_column_len(rows: Seq<MatrixRow>, i: int, n: int)
    ensures
        read_column(rows, i, n).len() <= if n < 0 { 0 } else { n },
    decreases n,
{
    if n > 0 {
        lemma_read_column_len(rows, i, n - 1);
    }
}

/// The profile of column `i`.
pub open spec fn column_profile_of(c: ColumnBaseCount, rows: Seq<MatrixRow>, i: int) -> bool {
    c.counts_column(read_column(rows, i, rows.len() as int), ref_byte(rows, i, rows.len() as int))
}

fn column_at(base_matrix: &Vec<MatrixRow>, i: usize) -> (r: ColumnBaseCount)
    requires
        base_matrix.len() <= u16::MAX,
        rectangular(base_matrix@, base_matrix@[0].bases.len() as int),
        base_matrix.len() > 0,
        i < base_matrix@[0].bases.len(),
    ensures
        column_profile_of(r, base_matrix@, i as int),
{
    let ghost rows = base_matrix@;
    let mut ref_base: u8 = 0;
    let mut column_bases: Vec<u8> = Vec::new();
    let mut k: usize = 0;
    while k < base_matrix.len()
        invariant
            k <= base_matrix.len() <= u16::MAX,
            rows == base_matrix@,
            rectangular(rows, rows[0].bases.len() as int),
            i < rows[0].bases.len(),
            column_bases@ == read_column(rows, i as int, k as int),
            ref_base == ref_byte(rows, i as int, k as int),
        decreases base_matrix.len() - k,
    {
        let row = &base_matrix[k];
        assert(rows[k as int].bases.len() == rows[0].bases.len());
        if is_ref_row(&row.name) {
            ref_base = row.bases[i];
        } else {
            column_bases.push(row.bases[i]);
        }
        k = k + 1;
    }
    proof {
        lemma_read_column_len(rows, i as int, rows.len() as int);
    }
    ColumnBaseCount::new_from_column(&column_bases, ref_base)
}

impl PileupMatrix {
    /// Appends the profile of every column of the matrix, in column order.
    pub fn generate_column_profile(base_matrix: &Vec<MatrixRow>, column_base_counts: &mut Vec<ColumnBaseCount>) -> (r: Result<(), MatrixError>)
        requires
            base_matrix.len() <= u16::MAX,
        ensures
            r is Err <==> base_matrix.len() == 0 || !rectangular(base_matrix@, base_matrix@[0].bases.len() as int),
            r is Err ==> final(column_base_counts)@ == old(column_base_counts)@,
            r is Ok ==> {
                &&& final(column_base_counts).len() == old(column_base_counts).len() + base_matrix@[0].bases.len()
                &&& forall|k: int| 0 <= k < old(column_base_counts).len() ==> #[trigger] final(column_base_counts)@[k] == old(column_base_counts)@[k]
                &&& forall|i: int| 0 <= i < base_matrix@[0].bases.len() ==> column_profile_of(
                    #[trigger] final(column_base_counts)@[old(column_base_counts).len() + i], base_matrix@, i)
            },
    {
        if base_matrix.len() == 0 {
            return Err(MatrixError::EmptyMatrix);
        }
        let ncols = base_matrix[0].bases.len();
        let mut k: usize = 0;
        while k < base_matrix.len()
            invariant
                k <= base_matrix.len(),
                ncols == base_matrix@[0].bases.len(),
                forall|x: int| 0 <= x < k ==> (#[trigger] base_matrix@[x]).bases.len() == ncols,
            decreases base_matrix.len() - k,
        {
            if base_matrix[k].bases.len() != ncols {
                return Err(MatrixError::RaggedMatrix);
            }
            k = k + 1;
        }
        let ghost start = column_base_counts@;
        let mut i: usize = 0;
        while i < ncols
            invariant
                i <= ncols == base_matrix@[0].bases.len(),
                base_matrix.len() > 0,
                base_matrix.len() <= u16::MAX,
                rectangular(base_matrix@, ncols as int),
                column_base_counts.len() == start.len() + i,
                forall|x: int| 0 <= x < start.len() ==> #[trigger] column_base_counts@[x] == start[x],
                forall|x: int| 0 <= x < i ==> column_profile_of(#[trigger] column_base_counts@[start.len() + x], base_matrix@, x),
            decreases ncols - i,
        {
            let cbc = column_at(base_matrix, i);
            column_base_counts.push(cbc);
            i = i + 1;
        }
        Ok(())
    }
}

/// Column `i` is left out of the reduced profile when no read shows a base or a gap
/// there but some read shows an N.
pub open spec fn column_kept(rows: Seq<MatrixRow>, i: int) -> bool {
    let col = read_column(rows, i, rows.len() as int);
    !(crate::column::occurrences(col, 65, 97) + crate::column::occurrences(col, 67, 99)
        + crate::column::occurrences(col, 71, 103) + crate::column::occurrences(col, 84, 116)
        + crate::column::occurrences(col, 45, 45) == 0 && crate::column::occurrences(col, 78, 110) > 0)
}

/// The kept columns among the first `n`, in order.
pub open spec fn kept_indices(rows: Seq<MatrixRow>, n: int) -> Seq<int>
    decreases n,
{
    if n <= 0 {
        Seq::empty()
    } else if column_kept(rows, n - 1) {
        kept_indices(rows, n - 1).push(n - 1)
    } else {
        kept_indices(rows, n - 1)
    }
}

proof fn lemma_kept_bounded(rows: Seq<MatrixRow>, n: int)
    ensures
        forall|k: int| 0 <= k < kept_indices(rows, n).len() ==> 0 <= #[trigger] kept_indices(rows, n)[k] < n,
        kept_indices(rows, n).len() <= if n < 0 { 0 } else { n },
    decreases n,
{
    if n > 0 {
        lemma_kept_bounded(rows, n - 1);
        let prev = kept_indices(rows, n - 1);
        assert forall|k: int| 0 <= k < kept_indices(rows, n).len() implies 0 <= #[trigger] kept_indices(rows, n)[k] < n by {
            if k < prev.len() {
                assert(prev[k] < n - 1);
            }
        }
    }
}

/// The bytes of `row` at the columns `idx`.
pub open spec fn pick(row: Seq<u8>, idx: Seq<int>) -> Seq<u8> {
    Seq::new(idx.len(), |k: int| row[idx[k]])
}

impl PileupMatrix {
    /// Profile and matrix restricted to the columns that hold a base or a gap in some
    /// read. Appends the kept profiles and their column indices, and replaces
    /// `reduced_base_matrix` with the matrix of the kept columns.
    pub fn generate_reduced_profile(
        base_matrix: &Vec<MatrixRow>,
        column_base_counts: &mut Vec<ColumnBaseCount>,
        column_indexes: &mut Vec<usize>,
        reduced_base_matrix: &mut Vec<MatrixRow>,
    ) -> (r: Result<(), MatrixError>)
        requires
            base_matrix.len() <= u16::MAX,
        ensures
            r is Err <==> base_matrix.len() == 0 || !rectangular(base_matrix@, base_matrix@[0].bases.len() as int),
            r is Ok ==> {
                let kept = kept_indices(base_matrix@, base_matrix@[0].bases.len() as int);
                &&& final(column_base_counts).len() == old(column_base_counts).len() + kept.len()
                &&& final(column_indexes).len() == old(column_indexes).len() + kept.len()
                &&& forall|k: int| 0 <= k < old(column_base_counts).len() ==> #[trigger] final(column_base_counts)@[k] == old(column_base_counts)@[k]
                &&& forall|k: int| 0 <= k < old(column_indexes).len() ==> #[trigger] final(column_indexes)@[k] == old(column_indexes)@[k]
                &&& forall|k: int| 0 <= k < kept.len() ==> #[trigger] final(column_indexes)@[old(column_indexes).len() + k] == kept[k]
                    && column_profile_of(final(column_base_counts)@[old(column_base_counts).len() + k], base_matrix@, kept[k])
                &&& final(reduced_base_matrix).len() == base_matrix.len()
                &&& forall|x: int| 0 <= x < base_matrix.len() ==> (#[trigger] final(reduced_base_matrix)@[x]).name@ == base_matrix@[x].name@
                    && final(reduced_base_matrix)@[x].bases@ == pick(base_matrix@[x].bases@, kept)
            },
    {
        if base_matrix.len() == 0 {
            return Err(MatrixError::EmptyMatrix);
        }
        let ncols = base_matrix[0].bases.len();
        let mut k: usize = 0;
        while k < base_matrix.len()
            invariant
                k <= base_matrix.len(),
                ncols == base_matrix@[0].bases.len(),
                forall|x: int| 0 <= x < k ==> (#[trigger] base_matrix@[x]).bases.len() == ncols,
            decreases base_matrix.len() - k,
        {
            if base_matrix[k].bases.len() != ncols {
                return Err(MatrixError::RaggedMatrix);
            }
            k = k + 1;
        }
        let ghost rows = base_matrix@;
        let ghost c0 = column_base_counts@;
        let ghost i0 = column_indexes@;
        let mut kept: Vec<usize> = Vec::new();
        let mut i: usize = 0;
        while i < ncols
            invariant
                i <= ncols == rows[0].bases.len(),
                rows == base_matrix@,
                base_matrix.len() > 0,
                base_matrix.len() <= u16::MAX,
                rectangular(rows, ncols as int),
                kept.len() == kept_indices(rows, i as int).len(),
                forall|x: int| 0 <= x < kept.len() ==> #[trigger] kept@[x] == kept_indices(rows, i as int)[x],
                column_base_counts.len() == c0.len() + kept.len(),
                column_indexes.len() == i0.len() + kept.len(),
                forall|x: int| 0 <= x < c0.len() ==> #[trigger] column_base_counts@[x] == c0[x],
                forall|x: int| 0 <= x < i0.len() ==> #[trigger] column_indexes@[x] == i0[x],
                forall|x: int| 0 <= x < kept.len() ==> #[trigger] column_indexes@[i0.len() + x] == kept@[x],
                forall|x: int| 0 <= x < kept.len() ==> column_profile_of(#[trigger] column_base_counts@[c0.len() + x], rows, kept@[x] as int),
            decreases ncols - i,
        {
            let cbc = column_at(base_matrix, i);
            let support = cbc.n_a as u64 + cbc.n_c as u64 + cbc.n_g as u64 + cbc.n_t as u64 + cbc.n_dash as u64;
            proof {
                lemma_kept_bounded(rows, i as int);
            }
            if !(support == 0 && cbc.n_n > 0) {
                let ghost cb = column_base_counts@;
                let ghost ci = column_indexes@;
                let ghost kp = kept@;
                column_base_counts.push(cbc);
                column_indexes.push(i);
                kept.push(i);
                proof {
                    assert forall|x: int| 0 <= x < kept.len() implies column_indexes@[i0.len() + x] == kept@[x]
                        && column_profile_of(#[trigger] column_base_counts@[c0.len() + x], rows, kept@[x] as int) by {
                        if x < kp.len() {
                            assert(ci[i0.len() + x] == kp[x]);
                            assert(column_profile_of(cb[c0.len() + x], rows, kp[x] as int));
                        } else {
                            assert(x == kp.len());
                            assert(column_indexes@[i0.len() + x] == i);
                            assert(kept@[x] == i);
                            assert(column_base_counts@[c0.len() + x] == cbc);
                            assert(column_profile_of(cbc, rows, i as int));
                        }
                    }
                }
            }
            i = i + 1;
        }
        let ghost kept_spec = kept_indices(rows, ncols as int);
        proof {
            lemma_kept_bounded(rows, ncols as int);
        }
        reduced_base_matrix.clear();
        let mut r: usize = 0;
        while r < base_matrix.len()
            invariant
                r <= base_matrix.len(),
                rows == base_matrix@,
                rectangular(rows, ncols as int),
                kept.len() == kept_spec.len(),
                forall|x: int| 0 <= x < kept.len() ==> #[trigger] kept@[x] == kept_spec[x],
                forall|x: int| 0 <= x < kept_spec.len() ==> 0 <= #[trigger] kept_spec[x] < ncols,
                reduced_base_matrix.len() == r,
                forall|x: int| 0 <= x < r ==> (#[trigger] reduced_base_matrix@[x]).name@ == rows[x].name@
                    && reduced_base_matrix@[x].bases@ == pick(rows[x].bases@, kept_spec),
            decreases base_matrix.len() - r,
        {
            let row = &base_matrix[r];
            let mut bases: Vec<u8> = Vec::new();
            let mut k: usize = 0;
            while k < kept.len()
                invariant
                    k <= kept.len() == kept_spec.len(),
                    *row == rows[r as int],
                    row.bases.len() == ncols,
                    forall|x: int| 0 <= x < kept.len() ==> #[trigger] kept@[x] == kept_spec[x],
                    forall|x: int| 0 <= x < kept_spec.len() ==> 0 <= #[trigger] kept_spec[x] < ncols,
                    bases@ =~= pick(row.bases@, kept_spec).take(k as int),
                decreases kept.len() - k,
            {
                assert(0 <= kept_spec[k as int] < ncols);
                bases.push(row.bases[kept[k]]);
                k = k + 1;
            }
            assert(bases@ =~= pick(row.bases@, kept_spec));
            reduced_base_matrix.push(MatrixRow { name: copy_name(&row.name), bases });
            r = r + 1;
        }
        Ok(())
    }
}

fn copy_name(v: &Vec<u8>) -> (r: Vec<u8>)
    ensures
        r@ == v@,
{
    let r = v.clone();
    assert(r@ =~= v@);
    r
}

/// A nonempty rectangular matrix whose read rows each have no more read bases than
/// the reduced profile has columns, within the aligner's size bound.
pub open spec fn realign_fits(rows: Seq<MatrixRow>) -> bool {
    let kept = kept_indices(rows, rows[0].bases.len() as int);
    &&& rows.len() > 0
    &&& rectangular(rows, rows[0].bases.len() as int)
    &&& kept.len() <= MAX_ALIGN_LEN
    &&& forall|x: int| 0 <= x < rows.len() && !is_ref_name(rows[x].name@) ==> ungapped((#[trigger] rows[x]).bases@).len() <= kept.len()
        && ungapped(rows[x].bases@).len() <= MAX_ALIGN_LEN - kept.len()
}

/// The bytes of a row that are read bases: blanks, gaps and N removed.
pub open spec fn ungapped(s: Seq<u8>) -> Seq<u8>
    decreases s.len(),
{
    if s.len() == 0 {
        Seq::empty()
    } else if s.last() == BLANK || s.last() == GAP || s.last() == BASE_N {
        ungapped(s.drop_last())
    } else {
        ungapped(s.drop_last()).push(s.last())
    }
}

proof fn lemma_ungapped_len(s: Seq<u8>)
    ensures
        ungapped(s).len() <= s.len(),
    decreases s.len(),
{
    if s.len() > 0 {
        lemma_ungapped_len(s.drop_last());
    }
}

fn strip_gaps(bases: &Vec<u8>) -> (r: Vec<u8>)
    ensures
        r@ == ungapped(bases@),
        r.len() <= bases.len(),
{
    let mut r: Vec<u8> = Vec::new();
    let mut k: usize = 0;
    while k < bases.len()
        invariant
            k <= bases.len(),
            r@ == ungapped(bases@.take(k as int)),
        decreases bases.len() - k,
    {
        let b = bases[k];
        proof {
            assert(bases@.take(k + 1).drop_last() =~= bases@.take(k as int));
        }
        if !(b == BLANK || b == GAP || b == BASE_N) {
            r.push(b);
        }
        k = k + 1;
    }
    proof {
        assert(bases@.take(bases.len() as int) =~= bases@);
        lemma_ungapped_len(bases@);
    }
    r
}

/// Sum over the columns of the score of their majority base.
pub open spec fn profile_score_spec(p: Seq<ColumnBaseCount>, n: int) -> int
    decreases n,
{
    if n <= 0 {
        0
    } else {
        profile_score_spec(p, n - 1) + p[n - 1].score_spec(p[n - 1].major_base_spec())
    }
}

/// Sum over the columns of the score of their majority base.
pub fn profile_score(profile: &Vec<ColumnBaseCount>) -> (r: i64)
    requires
        profile.len() <= MAX_ALIGN_LEN,
    ensures
        r as int == profile_score_spec(profile@, profile.len() as int),
        r <= 1000 * profile.len(),
        -32_767_500 * profile.len() <= r,
{
    let mut acc: i64 = 0;
    let mut i: usize = 0;
    while i < profile.len()
        invariant
            i <= profile.len() <= MAX_ALIGN_LEN,
            acc as int == profile_score_spec(profile@, i as int),
            -32_767_500 * i <= acc <= 1000 * i,
        decreases profile.len() - i,
    {
        let c = &profile[i];
        let s = c.get_score(&c.get_major_base());
        acc = acc + s;
        i = i + 1;
    }
    acc
}

fn copy_rows(rows: &Vec<MatrixRow>) -> (r: Vec<MatrixRow>)
    ensures
        r.len() == rows.len(),
        forall|k: int| 0 <= k < rows.len() ==> (#[trigger] r@[k]).name@ == rows@[k].name@ && r@[k].bases@ == rows@[k].bases@,
{
    let mut r: Vec<MatrixRow> = Vec::new();
    let mut k: usize = 0;
    while k < rows.len()
        invariant
            k <= rows.len(),
            r.len() == k,
            forall|x: int| 0 <= x < k ==> (#[trigger] r@[x]).name@ == rows@[x].name@ && r@[x].bases@ == rows@[x].bases@,
        decreases rows.len() - k,
    {
        r.push(MatrixRow { name: copy_name(&rows[k].name), bases: copy_name(&rows[k].bases) });
        k = k + 1;
    }
    r
}

impl PileupMatrix {
    /// Realigns every read row, in row order, against the reduced profile of the matrix,
    /// rebuilding the profile after each read; repeats the pass while the profile score
    /// rises. `best_column_indexes` receives the kept columns, and `best_reduced_base_matrix`
    /// the realigned reduced matrix after each pass that raised the score.
    pub fn profile_realign(
        base_matrix: &Vec<MatrixRow>,
        best_reduced_base_matrix: &mut Vec<MatrixRow>,
        best_column_indexes: &mut Vec<usize>,
    ) -> (r: Result<(), MatrixError>)
        requires
            base_matrix.len() <= u16::MAX,
        ensures
            r is Ok ==> {
                let kept = kept_indices(base_matrix@, base_matrix@[0].bases.len() as int);
                &&& base_matrix.len() > 0 && rectangular(base_matrix@, base_matrix@[0].bases.len() as int)
                &&& final(best_column_indexes).len() == kept.len()
                &&& forall|k: int| 0 <= k < kept.len() ==> #[trigger] final(best_column_indexes)@[k] == kept[k]
                &&& final(best_reduced_base_matrix)@ == old(best_reduced_base_matrix)@ || {
                    &&& final(best_reduced_base_matrix).len() == base_matrix.len()
                    &&& forall|x: int| 0 <= x < base_matrix.len() ==> (#[trigger] final(best_reduced_base_matrix)@[x]).name@ == base_matrix@[x].name@
                        && final(best_reduced_base_matrix)@[x].bases.len() == kept.len()
                }
            },
            (base_matrix.len() == 0 || !rectangular(base_matrix@, base_matrix@[0].bases.len() as int)) ==> r is Err,
            realign_fits(base_matrix@) ==> r is Ok,
            r is Ok ==> exists|m: nat| {
                &&& #[trigger] realign_stops_after(base_matrix@, kept_count(base_matrix@), m)
                &&& m == 0 ==> final(best_reduced_base_matrix)@ == old(best_reduced_base_matrix)@
                &&& m > 0 ==> rows_view(final(best_reduced_base_matrix)@)
                    == realign_rounds(base_matrix@, reduced_v(base_matrix@), kept_count(base_matrix@), m)
            },
    {
        let mut profile: Vec<ColumnBaseCount> = Vec::new();
        let mut column_indexes: Vec<usize> = Vec::new();
        let mut reduced: Vec<MatrixRow> = Vec::new();
        let res = PileupMatrix::generate_reduced_profile(base_matrix, &mut profile, &mut column_indexes, &mut reduced);
        if res.is_err() {
            return res;
        }
        let ghost kept = kept_indices(base_matrix@, base_matrix@[0].bases.len() as int);
        best_column_indexes.clear();
        let mut k: usize = 0;
        while k < column_indexes.len()
            invariant
                k <= column_indexes.len(),
                best_column_indexes.len() == k,
                forall|x: int| 0 <= x < k ==> #[trigger] best_column_indexes@[x] == column_indexes@[x],
            decreases column_indexes.len() - k,
        {
            best_column_indexes.push(column_indexes[k]);
            k = k + 1;
        }
        proof {
            assert forall|x: int| 0 <= x < kept.len() implies #[trigger] best_column_indexes@[x] == kept[x] by {
                assert(column_indexes@[0 + x] == kept[x]);
            }
        }
        let kc = profile.len();
        assert(kc == kept.len());
        if kc > MAX_ALIGN_LEN {
            return Err(MatrixError::TooLarge);
        }
        proof {
            assert forall|x: int| 0 <= x < reduced.len() implies (#[trigger] reduced@[x]).bases.len() == kc by {
                assert(reduced@[x].bases@ == pick(base_matrix@[x].bases@, kept));
            }
            assert(kc == kept.len());
            assert(rows_view(reduced@) =~= reduced_v(base_matrix@));
        }
        let ghost red0 = rows_view(reduced@);
        let mut fresh0: Vec<ColumnBaseCount> = Vec::new();
        let res0 = PileupMatrix::generate_column_profile(&reduced, &mut fresh0);
        if res0.is_err() {
            return res0;
        }
        profile = fresh0;
        proof {
            assert(reduced@[0].bases.len() == kc);
            assert forall|i: int| 0 <= i < kc implies column_profile_of(#[trigger] profile@[i], reduced@, i) by {
                assert(profile@[0 + i] == profile@[i]);
            }
            lemma_profile_v(reduced@, profile@, kc as int);
        }
        let ghost mut m: nat = 0;
        let mut old_score: i64 = i64::MIN;
        let mut new_score: i64 = profile_score(&profile);
        while new_score > old_score
            invariant
                profile.len() == kc <= MAX_ALIGN_LEN,
                reduced.len() == base_matrix.len(),
                reduced.len() > 0,
                reduced.len() <= u16::MAX,
                rectangular(reduced@, kc as int),
                new_score <= 1000 * kc,
                old_score <= 1000 * kc || old_score == i64::MIN,
                kc == kept.len(),
                kept == kept_indices(base_matrix@, base_matrix@[0].bases.len() as int),
                forall|x: int| 0 <= x < reduced.len() ==> (#[trigger] reduced@[x]).name@ == base_matrix@[x].name@,
                best_reduced_base_matrix@ == old(best_reduced_base_matrix)@ || {
                    &&& best_reduced_base_matrix.len() == base_matrix.len()
                    &&& forall|x: int| 0 <= x < base_matrix.len() ==> (#[trigger] best_reduced_base_matrix@[x]).name@ == base_matrix@[x].name@
                        && best_reduced_base_matrix@[x].bases.len() == kept.len()
                },
                best_column_indexes.len() == kept.len(),
                forall|x: int| 0 <= x < kept.len() ==> #[trigger] best_column_indexes@[x] == kept[x],
                red0 == reduced_v(base_matrix@),
                rows_view(reduced@) == realign_rounds(base_matrix@, red0, kc as nat, m),
                profile@ == profile_v(rows_view(reduced@), kc as int),
                new_score as int == score_v(realign_rounds(base_matrix@, red0, kc as nat, m), kc as nat),
                m == 0 ==> old_score == i64::MIN && best_reduced_base_matrix@ == old(best_reduced_base_matrix)@,
                m >= 1 ==> old_score as int == score_v(realign_rounds(base_matrix@, red0, kc as nat, (m - 1) as nat), kc as nat),
                forall|j: nat| j + 1 < m ==> score_v(#[trigger] realign_rounds(base_matrix@, red0, kc as nat, j + 1), kc as nat)
                    > score_v(realign_rounds(base_matrix@, red0, kc as nat, j), kc as nat),
                m >= 1 && new_score > old_score ==> rows_view(best_reduced_base_matrix@) == realign_rounds(base_matrix@, red0, kc as nat, m),
                m >= 1 && !(new_score > old_score) ==> (m == 1 ==> best_reduced_base_matrix@ == old(best_reduced_base_matrix)@)
                    && (m >= 2 ==> rows_view(best_reduced_base_matrix@) == realign_rounds(base_matrix@, red0, kc as nat, (m - 1) as nat)),
            decreases 1000 * kc - old_score,
        {
            let ghost start_round = rows_view(reduced@);
            let ghost prev_best = best_reduced_base_matrix@;
            let mut r: usize = 0;
            while r < base_matrix.len()
                invariant
                    r <= base_matrix.len() == reduced.len(),
                    reduced.len() > 0,
                    reduced.len() <= u16::MAX,
                    profile.len() == kc <= MAX_ALIGN_LEN,
                    rectangular(reduced@, kc as int),
                    forall|x: int| 0 <= x < reduced.len() ==> (#[trigger] reduced@[x]).name@ == base_matrix@[x].name@,
                    kc == kept.len(),
                    kept == kept_indices(base_matrix@, base_matrix@[0].bases.len() as int),
                    rows_view(reduced@) == pass_v(base_matrix@, start_round, kc as nat, r as int),
                    profile@ == profile_v(rows_view(reduced@), kc as int),
                decreases base_matrix.len() - r,
            {
                if !is_ref_row(&base_matrix[r].name) {
                    let query = strip_gaps(&base_matrix[r].bases);
                    if query.len() > MAX_ALIGN_LEN - kc {
                        assert(!realign_fits(base_matrix@)) by {
                            if realign_fits(base_matrix@) {
                                assert(!is_ref_name(base_matrix@[r as int].name@));
                            }
                        }
                        return Err(MatrixError::TooLarge);
                    }
                    let (_score, aligned_query, _ref_target, _major_target) = nw_splice_aware(&query, &profile);
                    if aligned_query.len() != kc {
                        assert(!realign_fits(base_matrix@)) by {
                            if realign_fits(base_matrix@) {
                                assert(!is_ref_name(base_matrix@[r as int].name@));
                                lemma_global_fills_profile(query@, profile@);
                            }
                        }
                        return Err(MatrixError::RealignLength);
                    }
                    let ghost before = reduced@;
                    reduced[r].bases = aligned_query;
                    proof {
                        assert forall|x: int| 0 <= x < reduced.len() implies (#[trigger] reduced@[x]).bases.len() == kc
                            && reduced@[x].name@ == base_matrix@[x].name@ by {
                            if x != r {
                                assert(reduced@[x] == before[x]);
                            }
                        }
                        assert(rows_view(reduced@) =~= pass_v(base_matrix@, start_round, kc as nat, r + 1));
                    }
                    let mut fresh: Vec<ColumnBaseCount> = Vec::new();
                    let res = PileupMatrix::generate_column_profile(&reduced, &mut fresh);
                    if res.is_err() {
                        return res;
                    }
                    profile = fresh;
                    proof {
                        assert(reduced@[0].bases.len() == kc);
                        assert forall|i: int| 0 <= i < kc implies column_profile_of(#[trigger] profile@[i], reduced@, i) by {
                            assert(profile@[0 + i] == profile@[i]);
                        }
                        lemma_profile_v(reduced@, profile@, kc as int);
                    }
                } else {
                    proof {
                        assert(rows_view(reduced@) == pass_v(base_matrix@, start_round, kc as nat, r + 1));
                    }
                }
                r = r + 1;
            }
            proof {
                assert(rows_view(reduced@) == realign_rounds(base_matrix@, red0, kc as nat, m + 1));
            }
            old_score = new_score;
            new_score = profile_score(&profile);
            if new_score > old_score {
                *best_reduced_base_matrix = copy_rows(&reduced);
                proof {
                    assert(rows_view(best_reduced_base_matrix@) =~= rows_view(reduced@));
                }
            }
            proof {
                m = m + 1;
            }
        }
        proof {
            assert(m >= 1);
            assert(kept_count(base_matrix@) == kc);
            assert(realign_stops_after(base_matrix@, kc as nat, (m - 1) as nat)) by {
                assert forall|j: nat| j < (m - 1) as nat implies score_v(#[trigger] realign_rounds(base_matrix@, reduced_v(base_matrix@), kc as nat, j + 1), kc as nat)
                    > score_v(realign_rounds(base_matrix@, reduced_v(base_matrix@), kc as nat, j), kc as nat) by {
                    assert(j + 1 < m);
                }
            }
        }
        Ok(())
    }
}

/// The profile column that a column of bytes gives.
pub open spec fn column_spec(col: Seq<u8>, ref_base: u8) -> ColumnBaseCount {
    let a = occurrences(col, 65, 97) as int;
    let c = occurrences(col, 67, 99) as int;
    let g = occurrences(col, 71, 103) as int;
    let t = occurrences(col, 84, 116) as int;
    let n = occurrences(col, 78, 110) as int;
    let d = occurrences(col, 45, 45) as int;
    ColumnBaseCount {
        n_a: a as u16,
        n_c: c as u16,
        n_g: g as u16,
        n_t: t as u16,
        n_n: n as u16,
        n_dash: d as u16,
        n_blank: occurrences(col, 32, 32) as u16,
        max_count: max6(a, c, g, t, n, d) as u16,
        ref_base,
    }
}

proof fn lemma_counts_column_is_spec(cb: ColumnBaseCount, col: Seq<u8>, ref_base: u8)
    requires
        cb.counts_column(col, ref_base),
        col.len() <= u16::MAX,
    ensures
        cb == column_spec(col, ref_base),
{
    lemma_occurrences_bound(col, 65, 97);
    lemma_occurrences_bound(col, 67, 99);
    lemma_occurrences_bound(col, 71, 103);
    lemma_occurrences_bound(col, 84, 116);
    lemma_occurrences_bound(col, 78, 110);
    lemma_occurrences_bound(col, 45, 45);
    lemma_occurrences_bound(col, 32, 32);
}

/// `read_column` over the rows' names and bytes.
pub open spec fn read_column_v(rows: Seq<(Seq<u8>, Seq<u8>)>, i: int, n: int) -> Seq<u8>
    decreases n,
{
    if n <= 0 {
        Seq::empty()
    } else if is_ref_name(rows[n - 1].0) {
        read_column_v(rows, i, n - 1)
    } else {
        read_column_v(rows, i, n - 1).push(rows[n - 1].1[i])
    }
}

/// `ref_byte` over the rows' names and bytes.
pub open spec fn ref_byte_v(rows: Seq<(Seq<u8>, Seq<u8>)>, i: int, n: int) -> u8
    decreases n,
{
    if n <= 0 {
        0
    } else if is_ref_name(rows[n - 1].0) {
        rows[n - 1].1[i]
    } else {
        ref_byte_v(rows, i, n - 1)
    }
}

/// The column profile of `ncols` columns of the rows.
pub open spec fn profile_v(rows: Seq<(Seq<u8>, Seq<u8>)>, ncols: int) -> Seq<ColumnBaseCount> {
    Seq::new(ncols as nat, |i: int| column_spec(read_column_v(rows, i, rows.len() as int), ref_byte_v(rows, i, rows.len() as int)))
}

proof fn lemma_read_column_view(rows: Seq<MatrixRow>, i: int, n: int)
    requires
        n <= rows.len(),
    ensures
        read_column(rows, i, n) == read_column_v(rows_view(rows), i, n),
        ref_byte(rows, i, n) == ref_byte_v(rows_view(rows), i, n),
    decreases n,
{
    if n > 0 {
        lemma_read_column_view(rows, i, n - 1);
    }
}

proof fn lemma_profile_v(rows: Seq<MatrixRow>, prof: Seq<ColumnBaseCount>, ncols: int)
    requires
        rows.len() <= u16::MAX,
        prof.len() == ncols,
        forall|i: int| 0 <= i < ncols ==> column_profile_of(#[trigger] prof[i], rows, i),
    ensures
        prof == profile_v(rows_view(rows), ncols),
{
    assert forall|i: int| 0 <= i < ncols implies #[trigger] prof[i] == profile_v(rows_view(rows), ncols)[i] by {
        lemma_read_column_view(rows, i, rows.len() as int);
        lemma_read_column_len(rows, i, rows.len() as int);
        lemma_counts_column_is_spec(prof[i], read_column(rows, i, rows.len() as int), ref_byte(rows, i, rows.len() as int));
    }
    assert(prof =~= profile_v(rows_view(rows), ncols));
}

/// One realignment pass over the first `r` rows: each read row, in order, is aligned
/// (bases only) against the profile of the rows as they stand, and replaced by the
/// aligned query.
pub open spec fn pass_v(base: Seq<MatrixRow>, red: Seq<(Seq<u8>, Seq<u8>)>, kc: nat, r: int) -> Seq<(Seq<u8>, Seq<u8>)>
    decreases r,
{
    if r <= 0 {
        red
    } else {
        let prev = pass_v(base, red, kc, r - 1);
        if is_ref_name(base[r - 1].name@) {
            prev
        } else {
            let q = ungapped(base[r - 1].bases@);
            let prof = profile_v(prev, kc as int);
            prev.update(r - 1, (prev[r - 1].0, trace(full_input(q, prof, false), kc, q.len(), Trace::M).0))
        }
    }
}

/// The reduced rows after `m` full passes from `red`.
pub open spec fn realign_rounds(base: Seq<MatrixRow>, red: Seq<(Seq<u8>, Seq<u8>)>, kc: nat, m: nat) -> Seq<(Seq<u8>, Seq<u8>)>
    decreases m,
{
    if m == 0 { red } else { pass_v(base, realign_rounds(base, red, kc, (m - 1) as nat), kc, base.len() as int) }
}

/// Summed majority-base score of the profile of the rows.
pub open spec fn score_v(rows: Seq<(Seq<u8>, Seq<u8>)>, kc: nat) -> int {
    profile_score_spec(profile_v(rows, kc as int), kc as int)
}

/// Number of kept columns.
pub open spec fn kept_count(base: Seq<MatrixRow>) -> nat {
    kept_indices(base, base[0].bases.len() as int).len()
}

/// The reduced matrix first built: each row at the kept columns.
pub open spec fn reduced_v(base: Seq<MatrixRow>) -> Seq<(Seq<u8>, Seq<u8>)> {
    let kept = kept_indices(base, base[0].bases.len() as int);
    Seq::new(base.len(), |x: int| (base[x].name@, pick(base[x].bases@, kept)))
}

/// Passes run from the first reduced matrix: the first `m` each raised the score, the
/// next did not.
pub open spec fn realign_stops_after(base: Seq<MatrixRow>, kc: nat, m: nat) -> bool {
    &&& forall|j: nat| j < m ==> score_v(#[trigger] realign_rounds(base, reduced_v(base), kc, j + 1), kc)
        > score_v(realign_rounds(base, reduced_v(base), kc, j), kc)
    &&& score_v(realign_rounds(base, reduced_v(base), kc, m + 1), kc) <= score_v(realign_rounds(base, reduced_v(base), kc, m), kc)
}

/// Names and bytes of the rows.
pub open spec fn rows_view(rows: Seq<MatrixRow>) -> Seq<(Seq<u8>, Seq<u8>)> {
    Seq::new(rows.len(), |k: int| (rows[k].name@, rows[k].bases@))
}

/// Index of the first viewed row named `name`.
pub open spec fn view_named(rows: Seq<(Seq<u8>, Seq<u8>)>, name: Seq<u8>) -> Option<int>
    decreases rows.len(),
{
    if rows.len() == 0 {
        None
    } else {
        match view_named(rows.drop_last(), name) {
            Some(k) => Some(k),
            None => if rows.last().0 == name { Some(rows.len() - 1) } else { None },
        }
    }
}

/// `b` after writing `vals[i]` at `cols[i]` for the first `n` pairs, in order.
pub open spec fn write_seq(b: Seq<u8>, cols: Seq<usize>, vals: Seq<u8>, n: int) -> Seq<u8>
    decreases n,
{
    if n <= 0 {
        b
    } else {
        write_seq(b, cols, vals, n - 1).update(cols[n - 1] as int, vals[n - 1])
    }
}

/// The matrix after the first `n` realigned rows were written back: each read row goes
/// to the first row of its name, if any, at the kept columns.
pub open spec fn written_back(rows: Seq<(Seq<u8>, Seq<u8>)>, realign: Seq<MatrixRow>, cols: Seq<usize>, n: int) -> Seq<(Seq<u8>, Seq<u8>)>
    decreases n,
{
    if n <= 0 {
        rows
    } else {
        let prev = written_back(rows, realign, cols, n - 1);
        let q = realign[n - 1];
        if is_ref_name(q.name@) {
            prev
        } else {
            match view_named(prev, q.name@) {
                Some(t) => prev.update(t, (prev[t].0, write_seq(prev[t].1, cols, q.bases@, cols.len() as int))),
                None => prev,
            }
        }
    }
}

proof fn lemma_view_named(rows: Seq<MatrixRow>, name: Seq<u8>)
    ensures
        view_named(rows_view(rows), name) == row_named(rows, name),
    decreases rows.len(),
{
    if rows.len() > 0 {
        lemma_view_named(rows.drop_last(), name);
        assert(rows_view(rows).drop_last() =~= rows_view(rows.drop_last()));
    }
}

/// Writes the realigned bytes of every read row back into the full matrix, at the
/// kept columns, into the first row of the same name (a read row with no such row is
/// passed over). Fails, leaving rows as far as written, when a realigned read row does
/// not have one byte per kept column or a kept column lies outside its row.
/// Realigned row `q` cannot be written back: it is a read row without one byte per
/// kept column, or a kept column lies outside the first matrix row of its name.
pub open spec fn write_back_fails_at(rows: Seq<MatrixRow>, realign: Seq<MatrixRow>, cols: Seq<usize>, q: int) -> bool {
    &&& 0 <= q < realign.len()
    &&& !is_ref_name(realign[q].name@)
    &&& (realign[q].bases.len() != cols.len() || match row_named(rows, realign[q].name@) {
        Some(t) => exists|i: int| 0 <= i < cols.len() && #[trigger] cols[i] >= rows[t].bases.len(),
        None => false,
    })
}

fn write_back(
    base_matrix: &mut Vec<MatrixRow>,
    realign_base_matrix: &Vec<MatrixRow>,
    column_indexes: &Vec<usize>,
) -> (r: Result<(), MatrixError>)
    ensures
        final(base_matrix).len() == old(base_matrix).len(),
        forall|x: int| 0 <= x < old(base_matrix).len() ==> (#[trigger] final(base_matrix)@[x]).name@ == old(base_matrix)@[x].name@
            && final(base_matrix)@[x].bases.len() == old(base_matrix)@[x].bases.len(),
        r is Ok ==> rows_view(final(base_matrix)@) == written_back(
            rows_view(old(base_matrix)@), realign_base_matrix@, column_indexes@, realign_base_matrix.len() as int),
        r is Err <==> exists|q: int| write_back_fails_at(old(base_matrix)@, realign_base_matrix@, column_indexes@, q),
        r is Err ==> r == Err::<(), MatrixError>(MatrixError::RealignLength),
{
    let mut q: usize = 0;
    while q < realign_base_matrix.len()
        invariant
            q <= realign_base_matrix.len(),
            base_matrix.len() == old(base_matrix).len(),
            forall|x: int| 0 <= x < old(base_matrix).len() ==> (#[trigger] base_matrix@[x]).name@ == old(base_matrix)@[x].name@
                && base_matrix@[x].bases.len() == old(base_matrix)@[x].bases.len(),
            rows_view(base_matrix@) == written_back(rows_view(old(base_matrix)@), realign_base_matrix@, column_indexes@, q as int),
            forall|q2: int| 0 <= q2 < q ==> !#[trigger] write_back_fails_at(old(base_matrix)@, realign_base_matrix@, column_indexes@, q2),
        decreases realign_base_matrix.len() - q,
    {
        let row = &realign_base_matrix[q];
        let ghost prev = rows_view(base_matrix@);
        proof {
            lemma_view_named(base_matrix@, row.name@);
            lemma_names_kept(old(base_matrix)@, base_matrix@, row.name@);
        }
        if !is_ref_row(&row.name) {
            if row.bases.len() != column_indexes.len() {
                assert(write_back_fails_at(old(base_matrix)@, realign_base_matrix@, column_indexes@, q as int));
                return Err(MatrixError::RealignLength);
            }
            match find_row(base_matrix, &row.name) {
                None => {},
                Some(t) => {
                    assert(row_named(old(base_matrix)@, row.name@) == Some(t as int));
                    let ghost start_bases = base_matrix@[t as int].bases@;
                    let mut i: usize = 0;
                    while i < column_indexes.len()
                        invariant
                            i <= column_indexes.len() == row.bases.len(),
                            t < base_matrix.len() == old(base_matrix).len(),
                            prev.len() == base_matrix.len(),
                            start_bases == prev[t as int].1,
                            forall|x: int| 0 <= x < old(base_matrix).len() ==> (#[trigger] base_matrix@[x]).name@ == old(base_matrix)@[x].name@
                                && base_matrix@[x].bases.len() == old(base_matrix)@[x].bases.len(),
                            forall|x: int| 0 <= x < prev.len() && x != t ==> #[trigger] rows_view(base_matrix@)[x] == prev[x],
                            base_matrix@[t as int].name@ == prev[t as int].0,
                            base_matrix@[t as int].bases@ == write_seq(start_bases, column_indexes@, row.bases@, i as int),
                            forall|i2: int| 0 <= i2 < i ==> #[trigger] column_indexes@[i2] < old(base_matrix)@[t as int].bases.len(),
                            row_named(old(base_matrix)@, row.name@) == Some(t as int),
                            !is_ref_name(row.name@),
                            *row == realign_base_matrix@[q as int],
                            q < realign_base_matrix.len(),
                        decreases column_indexes.len() - i,
                    {
                        let c = column_indexes[i];
                        if c >= base_matrix[t].bases.len() {
                            proof {
                                assert(column_indexes@[i as int] >= old(base_matrix)@[t as int].bases.len());
                                assert(write_back_fails_at(old(base_matrix)@, realign_base_matrix@, column_indexes@, q as int));
                            }
                            return Err(MatrixError::RealignLength);
                        }
                        let ghost before = base_matrix@;
                        base_matrix[t].bases.set(c, row.bases[i]);
                        proof {
                            assert forall|x: int| 0 <= x < old(base_matrix).len() implies (#[trigger] base_matrix@[x]).name@ == old(base_matrix)@[x].name@
                                && base_matrix@[x].bases.len() == old(base_matrix)@[x].bases.len() by {
                                if x != t {
                                    assert(base_matrix@[x] == before[x]);
                                }
                            }
                            assert forall|x: int| 0 <= x < prev.len() && x != t implies #[trigger] rows_view(base_matrix@)[x] == prev[x] by {
                                assert(base_matrix@[x] == before[x]);
                                assert(rows_view(before)[x] == prev[x]);
                            }
                        }
                        i = i + 1;
                    }
                    proof {
                        let target = written_back(rows_view(old(base_matrix)@), realign_base_matrix@, column_indexes@, q + 1);
                        assert(rows_view(base_matrix@) =~= target);
                        assert(!write_back_fails_at(old(base_matrix)@, realign_base_matrix@, column_indexes@, q as int));
                    }
                },
            }
        }
        proof {
            assert(!write_back_fails_at(old(base_matrix)@, realign_base_matrix@, column_indexes@, q as int));
            assert forall|q2: int| 0 <= q2 < q + 1 implies !#[trigger] write_back_fails_at(old(base_matrix)@, realign_base_matrix@, column_indexes@, q2) by {}
        }
        q = q + 1;
    }
    proof {
        assert forall|q2: int| !#[trigger] write_back_fails_at(old(base_matrix)@, realign_base_matrix@, column_indexes@, q2) by {
            if 0 <= q2 < q {
            }
        }
    }
    Ok(())
}

fn same_bytes(a: &Vec<u8>, b: &Vec<u8>) -> (r: bool)
    ensures
        r == (a@ == b@),
{
    if a.len() != b.len() {
        return false;
    }
    let mut k: usize = 0;
    while k < a.len()
        invariant
            k <= a.len() == b.len(),
            forall|x: int| 0 <= x < k ==> a@[x] == b@[x],
        decreases a.len() - k,
    {
        if a[k] != b[k] {
            return false;
        }
        k = k + 1;
    }
    assert(a@ =~= b@);
    true
}

pub open spec fn is_read_byte(b: u8) -> bool {
    b != BLANK && b != BASE_N
}

/// Tidies a realigned read row: N outside the read's first and last base becomes
/// blank, blank between them becomes N. Returns the first and last base indices.
pub fn normalize_read_row(base_vec: &mut Vec<u8>) -> (r: (usize, usize))
    ensures
        final(base_vec).len() == old(base_vec).len(),
        old(base_vec).len() > 0 ==> r.0 <= r.1 < old(base_vec).len(),
        (exists|i: int| 0 <= i < old(base_vec).len() && is_read_byte(#[trigger] old(base_vec)@[i]))
            ==> is_read_byte(old(base_vec)@[r.0 as int]) && is_read_byte(old(base_vec)@[r.1 as int]),
        !(exists|i: int| 0 <= i < old(base_vec).len() && is_read_byte(#[trigger] old(base_vec)@[i])) ==> r == (0usize, 0usize),
        forall|i: int| 0 <= i < r.0 ==> !is_read_byte(#[trigger] old(base_vec)@[i]),
        forall|i: int| r.1 < i < old(base_vec).len() ==> !is_read_byte(#[trigger] old(base_vec)@[i]),
        forall|i: int| 0 <= i < old(base_vec).len() ==> #[trigger] final(base_vec)@[i] == if r.0 <= i <= r.1 {
            if old(base_vec)@[i] == BLANK { BASE_N } else { old(base_vec)@[i] }
        } else {
            if old(base_vec)@[i] == BASE_N { BLANK } else { old(base_vec)@[i] }
        },
{
    let n = base_vec.len();
    let mut first: usize = 0;
    let mut k: usize = 0;
    let mut found = false;
    while k < n && !found
        invariant
            k <= n == base_vec.len(),
            base_vec@ == old(base_vec)@,
            found ==> first < n && is_read_byte(base_vec@[first as int]) && first == k - 1,
            !found ==> first == 0,
            forall|i: int| 0 <= i < (if found { first as int } else { k as int }) ==> !is_read_byte(#[trigger] base_vec@[i]),
        decreases n - k + (if found { 0int } else { 1int }),
    {
        if is_read_u8(base_vec[k]) {
            first = k;
            found = true;
        }
        k = k + 1;
    }
    let mut last: usize = first;
    let mut k: usize = n;
    let mut found_last = false;
    while k > first && !found_last
        invariant
            first <= k <= n == base_vec.len(),
            base_vec@ == old(base_vec)@,
            found_last ==> first <= last < n && is_read_byte(base_vec@[last as int]),
            found ==> first < n && is_read_byte(base_vec@[first as int]),
            !found ==> first == 0 && forall|i: int| 0 <= i < n ==> !is_read_byte(#[trigger] base_vec@[i]),
            !found_last ==> last == first,
            forall|i: int| (if found_last { last as int } else { k as int - 1 }) < i < n ==> !is_read_byte(#[trigger] base_vec@[i]),
            n > 0 ==> first < n,
        decreases k,
    {
        if is_read_u8(base_vec[k - 1]) {
            last = k - 1;
            found_last = true;
        }
        k = k - 1;
    }
    proof {
        if !found_last && n > 0 {
            assert(last == first && first < n);
        }
    }
    let ghost any_read = exists|i: int| 0 <= i < old(base_vec).len() && is_read_byte(#[trigger] old(base_vec)@[i]);
    proof {
        if any_read {
            let w = choose|i: int| 0 <= i < old(base_vec).len() && is_read_byte(#[trigger] old(base_vec)@[i]);
            assert(found);
        }
    }
    let mut i: usize = 0;
    while i < n
        invariant
            i <= n == base_vec.len(),
            n > 0 ==> first <= last < n,
            any_read == exists|i: int| 0 <= i < old(base_vec).len() && is_read_byte(#[trigger] old(base_vec)@[i]),
            any_read ==> is_read_byte(old(base_vec)@[first as int]) && is_read_byte(old(base_vec)@[last as int]),
            !any_read ==> first == 0 && last == 0,
            forall|x: int| i <= x < n ==> #[trigger] base_vec@[x] == old(base_vec)@[x],
            forall|x: int| 0 <= x < i ==> #[trigger] base_vec@[x] == if first <= x <= last {
                if old(base_vec)@[x] == BLANK { BASE_N } else { old(base_vec)@[x] }
            } else {
                if old(base_vec)@[x] == BASE_N { BLANK } else { old(base_vec)@[x] }
            },
        decreases n - i,
    {
        let b = base_vec[i];
        if i >= first && i <= last {
            if b == BLANK {
                base_vec.set(i, BASE_N);
            }
        } else if b == BASE_N {
            base_vec.set(i, BLANK);
        }
        i = i + 1;
    }
    (first, last)
}

fn is_read_u8(b: u8) -> (r: bool)
    ensures
        r == is_read_byte(b),
{
    b != BLANK && b != BASE_N
}

/// The operation of column `i` after the first: M for a base on a reference base, D
/// for a gap on a reference base, I for a base on a reference gap, N for an intron
/// skip on a reference base; None where both are gaps, or the read skips a reference
/// gap; an error for any other pair.
pub open spec fn column_op(base: u8, rf: u8) -> Option<Option<u8>> {
    if base != GAP && base != BASE_N && rf != GAP && rf != BASE_N {
        Some(Some(OP_M))
    } else if base == GAP && rf != GAP && rf != BASE_N {
        Some(Some(OP_D))
    } else if base != GAP && base != BASE_N && rf == GAP {
        Some(Some(OP_I))
    } else if base == BASE_N && rf != BASE_N && rf != GAP {
        Some(Some(OP_N))
    } else if (base == BASE_N && rf == GAP) || (base == GAP && rf == GAP) {
        Some(None)
    } else {
        None
    }
}

/// The operation that opens the alignment at its first base.
pub open spec fn first_op(base: u8, rf: u8) -> Option<u8> {
    if base != GAP && rf != GAP {
        Some(OP_M)
    } else if base == GAP && rf != GAP {
        Some(OP_D)
    } else if base != GAP && rf == GAP {
        Some(OP_I)
    } else {
        None
    }
}

/// The operation of column `i` of the range starting at `first` (none for a skipped
/// column).
pub open spec fn col_op_at(base: Seq<u8>, rf: Seq<u8>, first: int, i: int) -> Option<u8> {
    if i == first {
        first_op(base[i], rf[i])
    } else {
        match column_op(base[i], rf[i]) {
            Some(o) => o,
            None => None,
        }
    }
}

/// The operations of columns `first..i`, skipped columns left out.
pub open spec fn col_ops(base: Seq<u8>, rf: Seq<u8>, first: int, i: int) -> Seq<u8>
    decreases i - first,
{
    if i <= first {
        Seq::empty()
    } else {
        let prev = col_ops(base, rf, first, i - 1);
        match col_op_at(base, rf, first, i - 1) {
            Some(o) => prev.push(o),
            None => prev,
        }
    }
}

/// Run-length encoding of a sequence of operations.
pub open spec fn rle(ops: Seq<u8>) -> Seq<CigarOp>
    decreases ops.len(),
{
    if ops.len() == 0 {
        Seq::empty()
    } else {
        let r = rle(ops.drop_last());
        let o = ops.last();
        if r.len() > 0 && r.last().op == o {
            r.update(r.len() - 1, CigarOp { op: o, len: (r.last().len + 1) as u32 })
        } else {
            r.push(CigarOp { op: o, len: 1 })
        }
    }
}

/// Reference bases (neither blank, gap nor N) under the run of blanks that opens the
/// read row, from column `k` on.
pub open spec fn blank_run(base: Seq<u8>, rf: Seq<u8>, k: int) -> nat
    decreases base.len() - k,
{
    if 0 <= k < base.len() && k < rf.len() && base[k] == BLANK {
        (if rf[k] != BLANK && rf[k] != GAP && rf[k] != BASE_N { 1nat } else { 0nat }) + blank_run(base, rf, k + 1)
    } else {
        0
    }
}

/// The alignment operations of a read row against the reference row over columns
/// `first..=last`, consecutive equal operations merged into one run, and the number of
/// leading blank columns that sit on reference bases. `base_vec` should already be
/// tidied by `normalize_read_row`.
pub fn realigned_cigar(ref_seq: &Vec<u8>, base_vec: &Vec<u8>, first: usize, last: usize) -> (r: Result<(Vec<CigarOp>, u64), MatrixError>)
    requires
        first <= last < u32::MAX,
    ensures
        r is Err <==> (last >= base_vec.len() || last >= ref_seq.len()
            || first_op(base_vec@[first as int], ref_seq@[first as int]) is None
            || exists|i: int| first < i <= last && #[trigger] column_op(base_vec@[i], ref_seq@[i]) is None),
        r matches Ok(v) ==> v.0.len() >= 1
            && (forall|k: int| 0 <= k < v.0.len() ==> (#[trigger] v.0@[k]).len >= 1
                && (v.0@[k].op == OP_M || v.0@[k].op == OP_I || v.0@[k].op == OP_D || v.0@[k].op == OP_N))
            && (forall|k: int| 0 < k < v.0.len() ==> #[trigger] v.0@[k].op != v.0@[k - 1].op)
            && v.0@[0].op == first_op(base_vec@[first as int], ref_seq@[first as int])->0
            && v.0@ == rle(col_ops(base_vec@, ref_seq@, first as int, last + 1))
            && v.1 == blank_run(base_vec@, ref_seq@, 0),
{
    if last >= base_vec.len() || last >= ref_seq.len() {
        return Err(MatrixError::RealignLength);
    }
    let b0 = base_vec[first];
    let r0 = ref_seq[first];
    let op0 = if b0 != GAP && r0 != GAP {
        OP_M
    } else if b0 == GAP && r0 != GAP {
        OP_D
    } else if b0 != GAP && r0 == GAP {
        OP_I
    } else {
        return Err(MatrixError::RealignLength);
    };
    let mut ops: Vec<CigarOp> = Vec::new();
    let mut prev_op = op0;
    let mut prev_len: u32 = 1;
    proof {
        let c1 = col_ops(base_vec@, ref_seq@, first as int, first + 1);
        assert(col_ops(base_vec@, ref_seq@, first as int, first as int) =~= Seq::<u8>::empty());
        assert(c1 =~= seq![op0]);
        assert(c1.drop_last() =~= Seq::<u8>::empty());
        assert(rle(Seq::<u8>::empty()) =~= Seq::<CigarOp>::empty());
        assert(rle(c1) =~= seq![CigarOp { op: op0, len: 1 }]);
        assert(ops@.push(CigarOp { op: prev_op, len: prev_len }) =~= seq![CigarOp { op: op0, len: 1 }]);
    }
    let mut i: usize = first + 1;
    while i <= last
        invariant
            first < i <= last + 1,
            last < u32::MAX,
            last < base_vec.len(),
            last < ref_seq.len(),
            1 <= prev_len <= i - first,
            prev_op == OP_M || prev_op == OP_I || prev_op == OP_D || prev_op == OP_N,
            forall|x: int| first < x < i ==> !(#[trigger] column_op(base_vec@[x], ref_seq@[x]) is None),
            forall|k: int| 0 <= k < ops.len() ==> (#[trigger] ops@[k]).len >= 1
                && (ops@[k].op == OP_M || ops@[k].op == OP_I || ops@[k].op == OP_D || ops@[k].op == OP_N),
            forall|k: int| 0 < k < ops.len() ==> #[trigger] ops@[k].op != ops@[k - 1].op,
            ops.len() > 0 ==> ops@[ops.len() - 1].op != prev_op,
            ops.len() > 0 ==> ops@[0].op == op0,
            ops.len() == 0 ==> prev_op == op0,
            op0 == first_op(base_vec@[first as int], ref_seq@[first as int])->0,
            first_op(base_vec@[first as int], ref_seq@[first as int]) is Some,
            ops@.push(CigarOp { op: prev_op, len: prev_len }) == rle(col_ops(base_vec@, ref_seq@, first as int, i as int)),
        decreases last + 1 - i,
    {
        let b = base_vec[i];
        let rf = ref_seq[i];
        let op = if b != GAP && b != BASE_N && rf != GAP && rf != BASE_N {
            OP_M
        } else if b == GAP && rf != GAP && rf != BASE_N {
            OP_D
        } else if b != GAP && b != BASE_N && rf == GAP {
            OP_I
        } else if b == BASE_N && rf != BASE_N && rf != GAP {
            OP_N
        } else if (b == BASE_N && rf == GAP) || (b == GAP && rf == GAP) {
            0
        } else {
            assert(column_op(base_vec@[i as int], ref_seq@[i as int]) is None);
            return Err(MatrixError::RealignLength);
        };
        let ghost before = ops@.push(CigarOp { op: prev_op, len: prev_len });
        proof {
            let co = col_ops(base_vec@, ref_seq@, first as int, i as int);
            assert(col_ops(base_vec@, ref_seq@, first as int, i + 1) == if op != 0 { co.push(op) } else { co });
            if op != 0 {
                assert(co.push(op).drop_last() =~= co);
            }
        }
        if op != 0 {
            if op == prev_op {
                prev_len = prev_len + 1;
                proof {
                    assert(ops@.push(CigarOp { op: prev_op, len: prev_len }) =~= before.update(before.len() - 1, CigarOp { op: op, len: (before.last().len + 1) as u32 }));
                }
            } else {
                ops.push(CigarOp { op: prev_op, len: prev_len });
                prev_op = op;
                prev_len = 1;
            }
        }
        i = i + 1;
    }
    ops.push(CigarOp { op: prev_op, len: prev_len });
    let mut blank_count: u64 = 0;
    let mut k: usize = 0;
    while k < base_vec.len() && k < ref_seq.len() && base_vec[k] == BLANK
        invariant
            k <= base_vec.len(),
            blank_count <= k,
            blank_count + blank_run(base_vec@, ref_seq@, k as int) == blank_run(base_vec@, ref_seq@, 0),
        decreases base_vec.len() - k,
    {
        let rf = ref_seq[k];
        if rf != BLANK && rf != GAP && rf != BASE_N {
            blank_count = blank_count + 1;
        }
        k = k + 1;
    }
    Ok((ops, blank_count))
}

/// A pileup matrix: one row per read plus the reference row named "ref", and the
/// matrix column of each reference position (a later entry for a position overrides
/// an earlier one).
pub struct PileupMatrix {
    pub positions: Vec<(u32, u32)>,
    pub base_matrix: Vec<MatrixRow>,
    /// Reference position of the last column inserted, -1 before any.
    pub current_pos: i64,
    /// Index of the last column, -1 before any.
    pub max_idx: i32,
}

/// No two rows share a name.
pub open spec fn names_distinct(rows: Seq<MatrixRow>) -> bool {
    forall|j: int, k: int| 0 <= j < k < rows.len() ==> #[trigger] rows[j].name@ != #[trigger] rows[k].name@
}

/// Column of reference position `pos`, the latest entry winning.
pub open spec fn column_of(ps: Seq<(u32, u32)>, pos: u32) -> Option<u32>
    decreases ps.len(),
{
    if ps.len() == 0 {
        None
    } else if ps.last().0 == pos {
        Some(ps.last().1)
    } else {
        column_of(ps.drop_last(), pos)
    }
}

/// Index of the first row named `name`.
pub open spec fn row_named(rows: Seq<MatrixRow>, name: Seq<u8>) -> Option<int>
    decreases rows.len(),
{
    if rows.len() == 0 {
        None
    } else {
        match row_named(rows.drop_last(), name) {
            Some(k) => Some(k),
            None => if rows.last().name@ == name { Some(rows.len() - 1) } else { None },
        }
    }
}

proof fn lemma_row_named(rows: Seq<MatrixRow>, name: Seq<u8>)
    ensures
        row_named(rows, name) matches Some(k) ==> 0 <= k < rows.len() && rows[k].name@ == name
            && forall|j: int| 0 <= j < k ==> (#[trigger] rows[j]).name@ != name,
        row_named(rows, name) is None ==> forall|j: int| 0 <= j < rows.len() ==> (#[trigger] rows[j]).name@ != name,
    decreases rows.len(),
{
    if rows.len() > 0 {
        let prev = rows.drop_last();
        lemma_row_named(prev, name);
        match row_named(prev, name) {
            Some(k) => {
                assert(rows[k] == prev[k]);
                assert forall|j: int| 0 <= j < k implies (#[trigger] rows[j]).name@ != name by {
                    assert(rows[j] == prev[j]);
                }
            },
            None => {
                assert forall|j: int| 0 <= j < rows.len() - 1 implies (#[trigger] rows[j]).name@ != name by {
                    assert(rows[j] == prev[j]);
                }
            },
        }
    }
}

fn find_row(rows: &Vec<MatrixRow>, name: &Vec<u8>) -> (r: Option<usize>)
    ensures
        r matches Some(k) ==> row_named(rows@, name@) == Some(k as int) && k < rows.len(),
        r is None ==> row_named(rows@, name@) is None,
{
    let mut k: usize = 0;
    proof {
        lemma_row_named(rows@, name@);
    }
    while k < rows.len()
        invariant
            k <= rows.len(),
            forall|j: int| 0 <= j < k ==> (#[trigger] rows@[j]).name@ != name@,
            row_named(rows@, name@) matches Some(x) ==> 0 <= x < rows.len() && rows@[x].name@ == name@
                && forall|j: int| 0 <= j < x ==> (#[trigger] rows@[j]).name@ != name@,
            row_named(rows@, name@) is None ==> forall|j: int| 0 <= j < rows.len() ==> (#[trigger] rows@[j]).name@ != name@,
        decreases rows.len() - k,
    {
        if same_bytes(&rows[k].name, name) {
            return Some(k);
        }
        k = k + 1;
    }
    None
}

fn lookup_column(ps: &Vec<(u32, u32)>, pos: u32) -> (r: Option<u32>)
    ensures
        r == column_of(ps@, pos),
{
    let mut k: usize = ps.len();
    assert(ps@.take(k as int) =~= ps@);
    while k > 0
        invariant
            k <= ps.len(),
            column_of(ps@, pos) == column_of(ps@.take(k as int), pos),
        decreases k,
    {
        let ghost t = ps@.take(k as int);
        assert(t.drop_last() =~= ps@.take(k - 1));
        if ps[k - 1].0 == pos {
            return Some(ps[k - 1].1);
        }
        k = k - 1;
    }
    None
}

impl PileupMatrix {
    /// An empty matrix.
    pub fn new() -> (r: PileupMatrix)
        ensures
            r.positions.len() == 0 && r.base_matrix.len() == 0 && r.current_pos == -1 && r.max_idx == -1,
            names_distinct(r.base_matrix@),
    {
        PileupMatrix { positions: Vec::new(), base_matrix: Vec::new(), current_pos: -1, max_idx: -1 }
    }

    /// Adds the bytes `base_seq` of read `readname` at reference position `pos`. A new
    /// position opens a new column. A read seen for the first time is first padded
    /// with blanks up to the column of `pos`.
    pub fn insert(&mut self, readname: &Vec<u8>, base_seq: &Vec<u8>, pos: u32) -> (r: Result<(), MatrixError>)
        requires
            old(self).max_idx < i32::MAX,
        ensures
            r is Ok ==> {
                let moved = pos as i64 != old(self).current_pos;
                let idx = if moved { old(self).max_idx + 1 } else { old(self).max_idx as int };
                &&& final(self).max_idx == idx
                &&& final(self).current_pos == pos as i64 || !moved && final(self).current_pos == old(self).current_pos
                &&& moved ==> final(self).positions@ == old(self).positions@.push((pos, idx as u32))
                &&& !moved ==> final(self).positions@ == old(self).positions@
                &&& match row_named(old(self).base_matrix@, readname@) {
                    Some(k) => final(self).base_matrix.len() == old(self).base_matrix.len()
                        && final(self).base_matrix@[k].name@ == readname@
                        && final(self).base_matrix@[k].bases@ == old(self).base_matrix@[k].bases@ + base_seq@
                        && forall|j: int| 0 <= j < old(self).base_matrix.len() && j != k ==> #[trigger] final(self).base_matrix@[j] == old(self).base_matrix@[j],
                    None => final(self).base_matrix.len() == old(self).base_matrix.len() + 1
                        && final(self).base_matrix@[old(self).base_matrix.len() as int].name@ == readname@
                        && final(self).base_matrix@[old(self).base_matrix.len() as int].bases@ == Seq::new(
                            lead_blanks(final(self).positions@, pos, idx), |_i: int| BLANK) + base_seq@
                        && forall|j: int| 0 <= j < old(self).base_matrix.len() ==> #[trigger] final(self).base_matrix@[j] == old(self).base_matrix@[j],
                }
            },
            r is Err ==> idx_too_large(old(self).max_idx as int, pos as i64 != old(self).current_pos),
            names_distinct(old(self).base_matrix@) ==> names_distinct(final(self).base_matrix@),
    {
        if pos as i64 != self.current_pos {
            if self.max_idx < -1 {
                return Err(MatrixError::TooLarge);
            }
            self.max_idx = self.max_idx + 1;
            self.positions.push((pos, self.max_idx as u32));
            self.current_pos = pos as i64;
        }
        let ghost mid = *self;
        match find_row(&self.base_matrix, readname) {
            Some(k) => {
                let ghost before = self.base_matrix@;
                let mut j: usize = 0;
                while j < base_seq.len()
                    invariant
                        k < self.base_matrix.len() == before.len(),
                        self.positions == mid.positions,
                        self.max_idx == mid.max_idx,
                        self.current_pos == mid.current_pos,
                        j <= base_seq.len(),
                        self.base_matrix@[k as int].name@ == before[k as int].name@,
                        self.base_matrix@[k as int].bases@ == before[k as int].bases@ + base_seq@.take(j as int),
                        forall|x: int| 0 <= x < before.len() && x != k ==> #[trigger] self.base_matrix@[x] == before[x],
                    decreases base_seq.len() - j,
                {
                    self.base_matrix[k].bases.push(base_seq[j]);
                    j = j + 1;
                    assert(self.base_matrix@[k as int].bases@ =~= before[k as int].bases@ + base_seq@.take(j as int));
                }
                assert(base_seq@.take(base_seq.len() as int) =~= base_seq@);
                proof {
                    lemma_row_named(before, readname@);
                    assert forall|a: int, b: int| 0 <= a < b < self.base_matrix.len() implies
                        #[trigger] self.base_matrix@[a].name@ == before[a].name@ && #[trigger] self.base_matrix@[b].name@ == before[b].name@ by {
                        if a != k {
                            assert(self.base_matrix@[a] == before[a]);
                        }
                        if b != k {
                            assert(self.base_matrix@[b] == before[b]);
                        }
                    }
                }
            },
            None => {
                let lead: u32 = if self.max_idx == 0 {
                    0
                } else {
                    match lookup_column(&self.positions, pos) {
                        Some(c) => c,
                        None => 0,
                    }
                };
                let mut bases: Vec<u8> = Vec::new();
                let mut j: u32 = 0;
                while j < lead
                    invariant
                        j <= lead,
                        bases@ =~= Seq::new(j as nat, |_i: int| BLANK),
                    decreases lead - j,
                {
                    bases.push(BLANK);
                    j = j + 1;
                }
                let ghost pad = bases@;
                let mut j: usize = 0;
                while j < base_seq.len()
                    invariant
                        j <= base_seq.len(),
                        bases@ =~= pad + base_seq@.take(j as int),
                    decreases base_seq.len() - j,
                {
                    bases.push(base_seq[j]);
                    j = j + 1;
                }
                assert(base_seq@.take(base_seq.len() as int) =~= base_seq@);
                let ghost before = self.base_matrix@;
                proof {
                    lemma_row_named(before, readname@);
                }
                self.base_matrix.push(MatrixRow { name: copy_name(readname), bases });
                proof {
                    assert forall|a: int, b: int| 0 <= a < b < self.base_matrix.len() && names_distinct(before) implies
                        #[trigger] self.base_matrix@[a].name@ != #[trigger] self.base_matrix@[b].name@ by {
                        assert(self.base_matrix@[a] == before[a]);
                        if b < before.len() {
                            assert(self.base_matrix@[b] == before[b]);
                        }
                    }
                }
            },
        }
        Ok(())
    }
}

/// Blanks before the first bytes of a read first seen at `pos` when the last column is
/// `idx`: none in the first column, else the column of `pos` (none if unknown).
pub open spec fn lead_blanks(ps: Seq<(u32, u32)>, pos: u32, idx: int) -> nat {
    if idx == 0 {
        0
    } else {
        match column_of(ps, pos) {
            Some(c) => c as nat,
            None => 0,
        }
    }
}

/// The column index cannot move past -1 from below: a matrix whose `max_idx` was
/// set below -1 cannot take a new column.
pub open spec fn idx_too_large(max_idx: int, moved: bool) -> bool {
    moved && max_idx < -1
}

impl PileupMatrix {
    /// Opens the insertion columns after position `pos`: every listed read that shows
    /// fewer than `max_insertion_size` inserted bytes is filled up with gaps, and the
    /// last column moves to the end of the insertion.
    pub fn expand(&mut self, seq_lengths: &Vec<(Vec<u8>, u32)>, pos: u32, max_insertion_size: i32) -> (r: Result<(), MatrixError>)
        requires
            old(self).max_idx >= -1,
        ensures
            final(self).base_matrix.len() == old(self).base_matrix.len(),
            forall|x: int| 0 <= x < old(self).base_matrix.len() ==> (#[trigger] final(self).base_matrix@[x]).name@ == old(self).base_matrix@[x].name@,
            r is Ok ==> {
                &&& final(self).max_idx == old(self).max_idx + max_insertion_size - 1
                &&& final(self).positions@ == old(self).positions@.push((pos, final(self).max_idx as u32))
            },
            r == Err::<(), MatrixError>(MatrixError::UnknownRow) <==> exists|k: int| 0 <= k < seq_lengths.len()
                && row_named(old(self).base_matrix@, (#[trigger] seq_lengths@[k]).0@) is None,
            r is Err ==> r == Err::<(), MatrixError>(MatrixError::UnknownRow) || r == Err::<(), MatrixError>(MatrixError::TooLarge),
            r == Err::<(), MatrixError>(MatrixError::TooLarge) <==> !(0 <= old(self).max_idx + max_insertion_size - 1 <= i32::MAX)
                && (forall|k: int| 0 <= k < seq_lengths.len() ==> row_named(old(self).base_matrix@, (#[trigger] seq_lengths@[k]).0@) is Some),
            names_distinct(old(self).base_matrix@) ==> names_distinct(final(self).base_matrix@),
    {
        let ghost start = self.base_matrix@;
        let mut k: usize = 0;
        while k < seq_lengths.len()
            invariant
                k <= seq_lengths.len(),
                self.base_matrix.len() == start.len(),
                self.max_idx == old(self).max_idx,
                self.positions == old(self).positions,
                old(self).max_idx >= -1,
                forall|x: int| 0 <= x < start.len() ==> (#[trigger] self.base_matrix@[x]).name@ == start[x].name@,
                start == old(self).base_matrix@,
                forall|x: int| 0 <= x < k ==> row_named(start, (#[trigger] seq_lengths@[x]).0@) is Some,
            decreases seq_lengths.len() - k,
        {
            let name = &seq_lengths[k].0;
            let seq_len = seq_lengths[k].1;
            proof {
                lemma_names_kept(start, self.base_matrix@, name@);
            }
            match find_row(&self.base_matrix, name) {
                None => {
                    return Err(MatrixError::UnknownRow);
                },
                Some(t) => {
                    let expand_size: i64 = max_insertion_size as i64 - seq_len as i64;
                    let mut e: i64 = 0;
                    while e < expand_size
                        invariant
                            t < self.base_matrix.len() == start.len(),
                            self.max_idx == old(self).max_idx,
                            self.positions == old(self).positions,
                            forall|x: int| 0 <= x < start.len() ==> (#[trigger] self.base_matrix@[x]).name@ == start[x].name@,
                            0 <= e,
                        decreases expand_size - e,
                    {
                        let ghost before = self.base_matrix@;
                        self.base_matrix[t].bases.push(GAP);
                        proof {
                            assert forall|x: int| 0 <= x < start.len() implies (#[trigger] self.base_matrix@[x]).name@ == start[x].name@ by {
                                if x != t {
                                    assert(self.base_matrix@[x] == before[x]);
                                }
                            }
                        }
                        e = e + 1;
                    }
                },
            }
            k = k + 1;
        }
        let next: i64 = self.max_idx as i64 + max_insertion_size as i64 - 1;
        if next < 0 || next > i32::MAX as i64 {
            return Err(MatrixError::TooLarge);
        }
        self.max_idx = next as i32;
        self.positions.push((pos, next as u32));
        Ok(())
    }

    /// Fills every row up with blanks to the last column.
    pub fn padding(&mut self)
        ensures
            final(self).base_matrix.len() == old(self).base_matrix.len(),
            final(self).positions == old(self).positions,
            final(self).max_idx == old(self).max_idx,
            final(self).current_pos == old(self).current_pos,
            forall|x: int| 0 <= x < old(self).base_matrix.len() ==> (#[trigger] final(self).base_matrix@[x]).name@ == old(self).base_matrix@[x].name@
                && final(self).base_matrix@[x].bases@ == old(self).base_matrix@[x].bases@ + Seq::new(
                    (if old(self).base_matrix@[x].bases.len() < old(self).max_idx + 1 {
                        old(self).max_idx + 1 - old(self).base_matrix@[x].bases.len()
                    } else {
                        0
                    }) as nat, |_i: int| BLANK),
            names_distinct(old(self).base_matrix@) ==> names_distinct(final(self).base_matrix@),
    {
        let width: i64 = self.max_idx as i64 + 1;
        let mut x: usize = 0;
        while x < self.base_matrix.len()
            invariant
                x <= self.base_matrix.len() == old(self).base_matrix.len(),
                width == old(self).max_idx + 1,
                self.positions == old(self).positions,
                self.max_idx == old(self).max_idx,
                self.current_pos == old(self).current_pos,
                forall|y: int| x <= y < old(self).base_matrix.len() ==> #[trigger] self.base_matrix@[y] == old(self).base_matrix@[y],
                forall|y: int| 0 <= y < x ==> (#[trigger] self.base_matrix@[y]).name@ == old(self).base_matrix@[y].name@
                    && self.base_matrix@[y].bases@ == old(self).base_matrix@[y].bases@ + Seq::new(
                        (if old(self).base_matrix@[y].bases.len() < width {
                            width - old(self).base_matrix@[y].bases.len()
                        } else {
                            0
                        }) as nat, |_i: int| BLANK),
            decreases old(self).base_matrix.len() - x,
        {
            let ghost row0 = self.base_matrix@[x as int];
            let cur = self.base_matrix[x].bases.len();
            if width > 0 && cur < width as usize {
                let need = width as usize - cur;
                let mut e: usize = 0;
                while e < need
                    invariant
                        x < self.base_matrix.len() == old(self).base_matrix.len(),
                        e <= need,
                        need == width - cur,
                        cur == row0.bases.len(),
                        width == old(self).max_idx + 1,
                        self.positions == old(self).positions,
                        self.max_idx == old(self).max_idx,
                        self.current_pos == old(self).current_pos,
                        row0 == old(self).base_matrix@[x as int],
                        self.base_matrix@[x as int].name@ == row0.name@,
                        self.base_matrix@[x as int].bases@ =~= row0.bases@ + Seq::new(e as nat, |_i: int| BLANK),
                        forall|y: int| x < y < old(self).base_matrix.len() ==> #[trigger] self.base_matrix@[y] == old(self).base_matrix@[y],
                        forall|y: int| 0 <= y < x ==> (#[trigger] self.base_matrix@[y]).name@ == old(self).base_matrix@[y].name@
                            && self.base_matrix@[y].bases@ == old(self).base_matrix@[y].bases@ + Seq::new(
                                (if old(self).base_matrix@[y].bases.len() < width {
                                    width - old(self).base_matrix@[y].bases.len()
                                } else {
                                    0
                                }) as nat, |_i: int| BLANK),
                    decreases need - e,
                {
                    let ghost before = self.base_matrix@;
                    self.base_matrix[x].bases.push(BLANK);
                    proof {
                        assert forall|y: int| 0 <= y < x implies #[trigger] self.base_matrix@[y] == before[y] by {}
                        assert forall|y: int| x < y < old(self).base_matrix.len() implies #[trigger] self.base_matrix@[y] == before[y] by {}
                    }
                    e = e + 1;
                }
            } else {
                assert(self.base_matrix@[x as int].bases@ =~= row0.bases@ + Seq::new(0, |_i: int| BLANK));
            }
            x = x + 1;
        }
    }

    /// Empties the matrix.
    pub fn clear(&mut self)
        ensures
            final(self).positions.len() == 0 && final(self).base_matrix.len() == 0,
            final(self).current_pos == -1 && final(self).max_idx == -1,
            names_distinct(final(self).base_matrix@),
    {
        self.positions.clear();
        self.base_matrix.clear();
        self.current_pos = -1;
        self.max_idx = -1;
    }
}

proof fn lemma_names_kept(a: Seq<MatrixRow>, b: Seq<MatrixRow>, name: Seq<u8>)
    requires
        a.len() == b.len(),
        forall|x: int| 0 <= x < a.len() ==> (#[trigger] b[x]).name@ == a[x].name@,
    ensures
        row_named(a, name) == row_named(b, name),
    decreases a.len(),
{
    if a.len() > 0 {
        let pa = a.drop_last();
        let pb = b.drop_last();
        assert forall|x: int| 0 <= x < pa.len() implies (#[trigger] pb[x]).name@ == pa[x].name@ by {
            assert(pb[x] == b[x]);
            assert(pa[x] == a[x]);
        }
        lemma_names_kept(pa, pb, name);
        assert(b.last().name@ == a.last().name@);
    }
}

impl PileupMatrix {
    /// Writes the realigned bytes of every read row back into the matrix, at the kept
    /// columns, matching rows by name (see `write_back`).
    pub fn update_base_matrix_from_realign(&mut self, realign_base_matrix: &Vec<MatrixRow>, column_indexes: &Vec<usize>) -> (r: Result<(), MatrixError>)
        ensures
            final(self).base_matrix.len() == old(self).base_matrix.len(),
            forall|x: int| 0 <= x < old(self).base_matrix.len() ==> (#[trigger] final(self).base_matrix@[x]).name@ == old(self).base_matrix@[x].name@
                && final(self).base_matrix@[x].bases.len() == old(self).base_matrix@[x].bases.len(),
            r is Ok ==> rows_view(final(self).base_matrix@) == written_back(
                rows_view(old(self).base_matrix@), realign_base_matrix@, column_indexes@, realign_base_matrix.len() as int),
            r is Err <==> exists|q: int| write_back_fails_at(old(self).base_matrix@, realign_base_matrix@, column_indexes@, q),
            r is Err ==> r == Err::<(), MatrixError>(MatrixError::RealignLength),
            final(self).positions == old(self).positions,
            final(self).max_idx == old(self).max_idx,
            final(self).current_pos == old(self).current_pos,
            names_distinct(old(self).base_matrix@) ==> names_distinct(final(self).base_matrix@),
    {
        write_back(&mut self.base_matrix, realign_base_matrix, column_indexes)
    }
}

} // verus!
