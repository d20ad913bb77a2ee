//! Splice-aware alignment of a read against a column profile: a dynamic program over
//! three live states (match, deletion, intron skip) with full, semi-global and banded
//! variants. Insertions relative to the profile are not modelled.
use vstd::prelude::*;
use crate::column::{ColumnBaseCount, SCORE_SCALE, GAP, BASE_N, BLANK};

verus! {

/// Score of a disabled state (minus infinity).
pub const NEG_INF: i64 = -4_000_000_000_000_000_000;
/// Upper bound on `query.len() + profile.len()` that keeps every score in range.
pub const MAX_ALIGN_LEN: usize = 1_000_000_000;
/// Largest change of any score over one profile column.
pub const STEP_BOUND: i64 = 200_000_000;

pub const MATCH_SCORE: i64 = 2000;
pub const MISMATCH_SCORE: i64 = -1000;
pub const GAP_OPEN: i64 = 2000;
pub const GAP_EXTEND: i64 = 1000;
pub const INTRON_PENALTY: i64 = 32000;
pub const INTRON_OPEN: i64 = 9000;
pub const SEMI_INTRON_PENALTY: i64 = 14000;
pub const SEMI_INTRON_OPEN: i64 = 2000;
/// Columns of at most this depth are scored against their reference base only.
pub const LOW_DEPTH: u32 = 5;

/// Which state a cell's best score came from.
#[derive(Clone, Copy, Debug, PartialEq, Eq, Structural)]
pub enum Trace {
    M,
    Ix,
    Ix2,
}

/// Failure of an alignment call.
#[derive(Clone, Copy, Debug, PartialEq, Eq, Structural)]
pub enum AlignError {
    /// The band cannot hold the end cell: lengths differ by more than the width.
    BandTooNarrow,
}

/// The inputs that fix one dynamic program.
pub struct DpInput {
    pub query: Seq<u8>,
    pub profile: Seq<ColumnBaseCount>,
    pub semi: bool,
    pub band: Option<nat>,
}

/// Scores and predecessors of one cell.
pub struct DpCell {
    pub m: int,
    pub ix: int,
    pub ix2: int,
    pub m_from: Trace,
    pub ix_from: Trace,
    pub ix2_from: Trace,
}

pub open spec fn minus(a: int, c: int) -> int {
    if a == NEG_INF as int { NEG_INF as int } else { a - c }
}

pub open spec fn plus(a: int, c: int) -> int {
    if a == NEG_INF as int { NEG_INF as int } else { a + c }
}

pub open spec fn max2(a: int, b: int) -> int {
    if a >= b { a } else { b }
}

pub open spec fn intron_penalty(semi: bool) -> int {
    if semi { SEMI_INTRON_PENALTY as int } else { INTRON_PENALTY as int }
}

pub open spec fn intron_open(semi: bool) -> int {
    if semi { SEMI_INTRON_OPEN as int } else { INTRON_OPEN as int }
}

/// Gaps through a column whose majority is a gap or an N cost nothing.
pub open spec fn gap_free(col: ColumnBaseCount) -> bool {
    col.major_base_spec() == GAP || col.major_base_spec() == BASE_N
}

/// Score of aligning query byte `qb` to column `col`.
pub open spec fn subst(col: ColumnBaseCount, qb: u8) -> int {
    if col.depth_spec() <= LOW_DEPTH as int {
        if qb == col.ref_base { MATCH_SCORE as int } else { MISMATCH_SCORE as int }
    } else {
        2 * SCORE_SCALE - 3 * col.score_spec(qb)
    }
}

pub open spec fn disabled() -> DpCell {
    DpCell {
        m: NEG_INF as int,
        ix: NEG_INF as int,
        ix2: NEG_INF as int,
        m_from: Trace::M,
        ix_from: Trace::M,
        ix2_from: Trace::M,
    }
}

/// The first cell: a full alignment starts in the match state, a semi-global one may
/// start in any state at no cost.
pub open spec fn start_cell(semi: bool) -> DpCell {
    DpCell {
        m: 0,
        ix: if semi { 0 } else { NEG_INF as int },
        ix2: if semi { 0 } else { NEG_INF as int },
        m_from: Trace::M,
        ix_from: Trace::M,
        ix2_from: Trace::M,
    }
}

/// The recurrences of one cell from the cell above (`up`, one more profile column)
/// and the diagonal one (`diag`, one more column and one more query byte).
pub open spec fn step(up: DpCell, diag: DpCell, col: ColumnBaseCount, qb: u8, semi: bool) -> DpCell {
    let hg = (GAP_OPEN + GAP_EXTEND) as int;
    let p = intron_open(semi);
    let ix_a = if gap_free(col) { up.m } else { minus(up.m, hg) };
    let ix_b = if gap_free(col) { up.ix } else { minus(up.ix, GAP_EXTEND as int) };
    let ix = max2(ix_a, ix_b);
    let x2_a = minus(up.m, p + intron_penalty(semi));
    let ix2 = max2(x2_a, up.ix2);
    let d = plus(diag.m, subst(col, qb));
    let c3 = minus(ix2, p);
    let m = max2(d, max2(ix, c3));
    DpCell {
        m,
        ix,
        ix2,
        m_from: if m == d { Trace::M } else if m == ix { Trace::Ix } else { Trace::Ix2 },
        ix_from: if ix == ix_a { Trace::M } else { Trace::Ix },
        ix2_from: if ix2 == x2_a { Trace::M } else { Trace::Ix2 },
    }
}

pub open spec fn in_band(band: Option<nat>, i: int, j: int) -> bool {
    match band {
        Some(w) => i - j <= w && j - i <= w,
        None => true,
    }
}

/// Cell `(i, j)`: `i` profile columns and `j` query bytes consumed.
pub open spec fn dp(inp: DpInput, i: nat, j: int) -> DpCell
    decreases i,
{
    if j < 0 || j > inp.query.len() || i > inp.profile.len() || !in_band(inp.band, i as int, j) {
        disabled()
    } else if inp.semi && j == 0 {
        start_cell(true)
    } else if i == 0 {
        if j == 0 { start_cell(inp.semi) } else { disabled() }
    } else {
        step(
            dp(inp, (i - 1) as nat, j),
            dp(inp, (i - 1) as nat, j - 1),
            inp.profile[i - 1],
            if j > 0 { inp.query[j - 1] } else { 0u8 },
            inp.semi,
        )
    }
}

pub open spec fn bounded_score(x: int, b: int) -> bool {
    x == NEG_INF as int || (-b <= x && x <= b)
}

pub open spec fn bounded(c: DpCell, b: int) -> bool {
    bounded_score(c.m, b) && bounded_score(c.ix, b) && bounded_score(c.ix2, b)
}

#[derive(Clone, Copy)]
struct Cell {
    m: i64,
    ix: i64,
    ix2: i64,
    m_from: Trace,
    ix_from: Trace,
    ix2_from: Trace,
}

spec fn view_cell(c: Cell) -> DpCell {
    DpCell {
        m: c.m as int,
        ix: c.ix as int,
        ix2: c.ix2 as int,
        m_from: c.m_from,
        ix_from: c.ix_from,
        ix2_from: c.ix2_from,
    }
}

fn disabled_cell() -> (r: Cell)
    ensures
        view_cell(r) == disabled(),
{
    Cell { m: NEG_INF, ix: NEG_INF, ix2: NEG_INF, m_from: Trace::M, ix_from: Trace::M, ix2_from: Trace::M }
}

fn first_cell(semi: bool) -> (r: Cell)
    ensures
        view_cell(r) == start_cell(semi),
{
    if semi {
        Cell { m: 0, ix: 0, ix2: 0, m_from: Trace::M, ix_from: Trace::M, ix2_from: Trace::M }
    } else {
        Cell { m: 0, ix: NEG_INF, ix2: NEG_INF, m_from: Trace::M, ix_from: Trace::M, ix2_from: Trace::M }
    }
}

/// The score of aligning `qb` to `col`.
pub fn substitution_score(col: &ColumnBaseCount, qb: u8) -> (r: i64)
    ensures
        r as int == subst(*col, qb),
        -100_000_000 <= r <= 100_000_000,
{
    if col.get_depth() <= LOW_DEPTH {
        if qb == col.get_ref_base() { MATCH_SCORE } else { MISMATCH_SCORE }
    } else {
        let s = col.get_score(&qb);
        proof {
            assert(-32_767_500 <= col.score_spec(qb) <= 1000);
        }
        2 * SCORE_SCALE - 3 * s
    }
}

fn sub_or_neg(a: i64, c: i64, Ghost(b): Ghost<int>) -> (r: i64)
    requires
        bounded_score(a as int, b),
        0 <= c <= STEP_BOUND,
        0 <= b <= 3_000_000_000_000_000_000,
    ensures
        r as int == minus(a as int, c as int),
        bounded_score(r as int, b + STEP_BOUND),
{
    if a == NEG_INF { NEG_INF } else { a - c }
}

fn add_or_neg(a: i64, c: i64, Ghost(b): Ghost<int>) -> (r: i64)
    requires
        bounded_score(a as int, b),
        -STEP_BOUND <= c <= STEP_BOUND,
        0 <= b <= 3_000_000_000_000_000_000,
    ensures
        r as int == plus(a as int, c as int),
        bounded_score(r as int, b + STEP_BOUND),
{
    if a == NEG_INF { NEG_INF } else { a + c }
}

fn next_cell(up: &Cell, diag: &Cell, col: &ColumnBaseCount, qb: u8, semi: bool, Ghost(b): Ghost<int>) -> (r: Cell)
    requires
        bounded(view_cell(*up), b),
        bounded(view_cell(*diag), b),
        0 <= b <= 2_000_000_000_000_000_000,
    ensures
        view_cell(r) == step(view_cell(*up), view_cell(*diag), *col, qb, semi),
        bounded(view_cell(r), b + 2 * STEP_BOUND),
{
    let p = if semi { SEMI_INTRON_OPEN } else { INTRON_OPEN };
    let h2 = if semi { SEMI_INTRON_PENALTY } else { INTRON_PENALTY };
    let major = col.get_major_base();
    let free = major == GAP || major == BASE_N;
    let ix_a = if free { up.m } else { sub_or_neg(up.m, GAP_OPEN + GAP_EXTEND, Ghost(b)) };
    let ix_b = if free { up.ix } else { sub_or_neg(up.ix, GAP_EXTEND, Ghost(b)) };
    let ix = if ix_a >= ix_b { ix_a } else { ix_b };
    let x2_a = sub_or_neg(up.m, p + h2, Ghost(b));
    let ix2 = if x2_a >= up.ix2 { x2_a } else { up.ix2 };
    let s = substitution_score(col, qb);
    let d = add_or_neg(diag.m, s, Ghost(b));
    let c3 = sub_or_neg(ix2, p, Ghost(b + STEP_BOUND));
    let inner = if ix >= c3 { ix } else { c3 };
    let m = if d >= inner { d } else { inner };
    let m_from = if m == d { Trace::M } else if m == ix { Trace::Ix } else { Trace::Ix2 };
    let ix_from = if ix == ix_a { Trace::M } else { Trace::Ix };
    let ix2_from = if ix2 == x2_a { Trace::M } else { Trace::Ix2 };
    Cell { m, ix, ix2, m_from, ix_from, ix2_from }
}

pub open spec fn full_input(query: Seq<u8>, profile: Seq<ColumnBaseCount>, semi: bool) -> DpInput {
    DpInput { query, profile, semi, band: None }
}

spec fn row_bound(i: int) -> int {
    (i + 1) * (2 * STEP_BOUND)
}

/// Fills the whole matrix, one row per profile column.
fn fill_matrix(query: &Vec<u8>, profile: &Vec<ColumnBaseCount>, semi: bool) -> (mat: Vec<Vec<Cell>>)
    requires
        query.len() + profile.len() <= MAX_ALIGN_LEN,
    ensures
        mat.len() == profile.len() + 1,
        represents(mat@, full_input(query@, profile@, semi), 0),
{
    let ghost inp = full_input(query@, profile@, semi);
    let q_len = query.len();
    let t_len = profile.len();
    let mut mat: Vec<Vec<Cell>> = Vec::new();
    let mut row0: Vec<Cell> = Vec::new();
    let mut j: usize = 0;
    while j <= q_len
        invariant
            j <= q_len + 1,
            q_len == query.len(),
            q_len <= MAX_ALIGN_LEN,
            inp == full_input(query@, profile@, semi),
            row0.len() == j,
            forall|jj: int| 0 <= jj < j ==> view_cell(#[trigger] row0[jj]) == dp(inp, 0, jj),
            forall|jj: int| 0 <= jj < j ==> bounded(view_cell(#[trigger] row0[jj]), row_bound(0)),
        decreases q_len + 1 - j,
    {
        let c = if j == 0 { first_cell(semi) } else { disabled_cell() };
        row0.push(c);
        j = j + 1;
    }
    mat.push(row0);
    let mut i: usize = 1;
    while i <= t_len
        invariant
            1 <= i <= t_len + 1,
            q_len == query.len(),
            t_len == profile.len(),
            q_len + t_len <= MAX_ALIGN_LEN,
            inp == full_input(query@, profile@, semi),
            mat.len() == i,
            forall|ii: int| 0 <= ii < i ==> #[trigger] mat[ii].len() == q_len + 1,
            forall|ii: int, jj: int|
                0 <= ii < i && 0 <= jj <= q_len ==> view_cell(#[trigger] mat[ii][jj]) == dp(inp, ii as nat, jj),
            forall|ii: int, jj: int|
                0 <= ii < i && 0 <= jj <= q_len ==> bounded(view_cell(#[trigger] mat[ii][jj]), row_bound(ii)),
        decreases t_len + 1 - i,
    {
        let col = &profile[i - 1];
        let mut row: Vec<Cell> = Vec::new();
        let mut j: usize = 0;
        while j <= q_len
            invariant
                1 <= i <= t_len,
                j <= q_len + 1,
                q_len == query.len(),
                t_len == profile.len(),
                q_len + t_len <= MAX_ALIGN_LEN,
                inp == full_input(query@, profile@, semi),
                *col == profile@[i - 1],
                mat.len() == i,
                forall|ii: int| 0 <= ii < i ==> #[trigger] mat[ii].len() == q_len + 1,
                forall|ii: int, jj: int|
                    0 <= ii < i && 0 <= jj <= q_len ==> view_cell(#[trigger] mat[ii][jj]) == dp(inp, ii as nat, jj),
                forall|ii: int, jj: int|
                    0 <= ii < i && 0 <= jj <= q_len ==> bounded(view_cell(#[trigger] mat[ii][jj]), row_bound(ii)),
                row.len() == j,
                forall|jj: int| 0 <= jj < j ==> view_cell(#[trigger] row[jj]) == dp(inp, i as nat, jj),
                forall|jj: int| 0 <= jj < j ==> bounded(view_cell(#[trigger] row[jj]), row_bound(i as int)),
            decreases q_len + 1 - j,
        {
            proof {
                assert(row_bound(i as int) == row_bound(i - 1) + 2 * STEP_BOUND) by (nonlinear_arith)
                    requires row_bound(i as int) == (i + 1) * (2 * STEP_BOUND), row_bound(i - 1) == i * (2 * STEP_BOUND);
                assert(row_bound(i - 1) <= 2_000_000_000_000_000_000) by (nonlinear_arith)
                    requires i <= MAX_ALIGN_LEN, row_bound(i - 1) == i * (2 * STEP_BOUND), STEP_BOUND == 200_000_000;
                assert(0 <= row_bound(i - 1)) by (nonlinear_arith)
                    requires i >= 1, row_bound(i - 1) == i * (2 * STEP_BOUND), STEP_BOUND == 200_000_000;
            }
            let c = if semi && j == 0 {
                first_cell(true)
            } else {
                assert(mat[i - 1].len() == q_len + 1);
                let up = mat[i - 1][j];
                let diag = if j > 0 { mat[i - 1][j - 1] } else { disabled_cell() };
                let qb = if j > 0 { query[j - 1] } else { 0u8 };
                next_cell(&up, &diag, col, qb, semi, Ghost(row_bound(i - 1)))
            };
            row.push(c);
            j = j + 1;
        }
        mat.push(row);
        proof {
            assert forall|ii: int, jj: int| 0 <= ii <= i && 0 <= jj <= q_len implies
                view_cell(#[trigger] mat[ii][jj]) == dp(inp, ii as nat, jj) && bounded(view_cell(mat[ii][jj]), row_bound(ii)) by {
                if ii == i {
                    assert(mat[ii] == row);
                }
            }
        }
        i = i + 1;
    }
    assert forall|ii: int| 0 <= ii < mat@.len() implies #[trigger] mat@[ii]@.len() == inp.query.len() + 1 by {
        assert(mat[ii].len() == q_len + 1);
    }
    assert forall|ii: int, jj: int| 0 <= ii < mat@.len() && 0 <= jj <= inp.query.len() implies
        view_cell(#[trigger] mat@[ii]@[jj]) == dp(inp, ii as nat, jj) by {
        assert(view_cell(mat[ii][jj]) == dp(inp, ii as nat, jj));
    }
    mat
}

/// `n` blank bytes.
pub open spec fn blanks(n: nat) -> Seq<u8> {
    Seq::new(n, |_k: int| BLANK)
}

/// The reference bases of a run of columns.
pub open spec fn ref_row(p: Seq<ColumnBaseCount>) -> Seq<u8> {
    Seq::new(p.len(), |k: int| p[k].ref_base)
}

/// The majority bases of a run of columns.
pub open spec fn major_row(p: Seq<ColumnBaseCount>) -> Seq<u8> {
    Seq::new(p.len(), |k: int| p[k].major_base_spec())
}

pub open spec fn push3(t: (Seq<u8>, Seq<u8>, Seq<u8>), a: u8, b: u8, c: u8) -> (Seq<u8>, Seq<u8>, Seq<u8>) {
    (t.0.push(a), t.1.push(b), t.2.push(c))
}

pub open spec fn concat3(
    t: (Seq<u8>, Seq<u8>, Seq<u8>),
    u: (Seq<u8>, Seq<u8>, Seq<u8>),
) -> (Seq<u8>, Seq<u8>, Seq<u8>) {
    (t.0 + u.0, t.1 + u.1, t.2 + u.2)
}

/// What is left once the trace reaches the first row or column: the unaligned
/// query prefix against blanks, or the unaligned profile prefix against blanks.
pub open spec fn lead(inp: DpInput, i: nat, j: nat) -> (Seq<u8>, Seq<u8>, Seq<u8>) {
    if j > 0 {
        (inp.query.take(j as int), blanks(j), blanks(j))
    } else {
        (blanks(i), ref_row(inp.profile.take(i as int)), major_row(inp.profile.take(i as int)))
    }
}

/// Profile columns after row `i`, left unaligned at the end of a semi-global alignment.
pub open spec fn trail(inp: DpInput, i: nat) -> (Seq<u8>, Seq<u8>, Seq<u8>) {
    let rest = inp.profile.skip(i as int);
    (blanks(rest.len()), ref_row(rest), major_row(rest))
}

spec fn rank(st: Trace) -> int {
    if st == Trace::M { 1 } else { 0 }
}

/// The aligned query, reference bases and majority bases of the best path that
/// ends in cell `(i, j)` in state `st`, read left to right.
pub open spec fn trace(inp: DpInput, i: nat, j: nat, st: Trace) -> (Seq<u8>, Seq<u8>, Seq<u8>)
    decreases i + j, (if st == Trace::M { 1int } else { 0int }),
{
    if i == 0 || j == 0 || i > inp.profile.len() || j > inp.query.len() {
        lead(inp, i, j)
    } else {
        let c = dp(inp, i, j as int);
        let col = inp.profile[i - 1];
        match st {
            Trace::M => match c.m_from {
                Trace::M => push3(
                    trace(inp, (i - 1) as nat, (j - 1) as nat, Trace::M),
                    inp.query[j - 1],
                    col.ref_base,
                    col.major_base_spec(),
                ),
                Trace::Ix => trace(inp, i, j, Trace::Ix),
                Trace::Ix2 => trace(inp, i, j, Trace::Ix2),
            },
            Trace::Ix => push3(trace(inp, (i - 1) as nat, j, c.ix_from), GAP, col.ref_base, col.major_base_spec()),
            Trace::Ix2 => push3(trace(inp, (i - 1) as nat, j, c.ix2_from), BASE_N, col.ref_base, col.major_base_spec()),
        }
    }
}

/// The three rows of a traced path have one length.
pub proof fn lemma_trace_lengths(inp: DpInput, i: nat, j: nat, st: Trace)
    requires
        i <= inp.profile.len(),
        j <= inp.query.len(),
    ensures
        trace(inp, i, j, st).0.len() == trace(inp, i, j, st).1.len(),
        trace(inp, i, j, st).1.len() == trace(inp, i, j, st).2.len(),
    decreases i + j, (if st == Trace::M { 1int } else { 0int }),
{
    if i == 0 || j == 0 {
    } else {
        let c = dp(inp, i, j as int);
        match st {
            Trace::M => match c.m_from {
                Trace::M => lemma_trace_lengths(inp, (i - 1) as nat, (j - 1) as nat, Trace::M),
                Trace::Ix => lemma_trace_lengths(inp, i, j, Trace::Ix),
                Trace::Ix2 => lemma_trace_lengths(inp, i, j, Trace::Ix2),
            },
            Trace::Ix => lemma_trace_lengths(inp, (i - 1) as nat, j, c.ix_from),
            Trace::Ix2 => lemma_trace_lengths(inp, (i - 1) as nat, j, c.ix2_from),
        }
    }
}

/// `s` read backwards.
pub open spec fn rev(s: Seq<u8>) -> Seq<u8> {
    Seq::new(s.len(), |k: int| s[s.len() - 1 - k])
}

fn reverse_bytes(v: &Vec<u8>) -> (r: Vec<u8>)
    ensures
        r@ == rev(v@),
{
    let mut r: Vec<u8> = Vec::new();
    let mut k: usize = v.len();
    while k > 0
        invariant
            k <= v.len(),
            r@ =~= rev(v@).take(v.len() - k),
        decreases k,
    {
        k = k - 1;
        r.push(v[k]);
    }
    assert(rev(v@).take(v.len() as int) =~= rev(v@));
    r
}

/// The matrix holds every cell of the program: row `i` holds cell `(i, j)` at `j`,
/// or, when banded with width `w`, at `j - i + w + 1`.
spec fn represents(mat: Seq<Vec<Cell>>, inp: DpInput, w: nat) -> bool {
    &&& mat.len() == inp.profile.len() + 1
    &&& match inp.band {
        None => (forall|i: int| 0 <= i < mat.len() ==> #[trigger] mat[i]@.len() == inp.query.len() + 1)
            && forall|i: int, j: int|
            0 <= i < mat.len() && 0 <= j <= inp.query.len() ==> view_cell(#[trigger] mat[i]@[j]) == dp(inp, i as nat, j),
        Some(bw) => bw == w && (forall|i: int| 0 <= i < mat.len() ==> #[trigger] mat[i]@.len() == 2 * w + 3)
            && forall|i: int, k: int|
            0 <= i < mat.len() && 0 <= k < 2 * w + 3 ==> view_cell(#[trigger] mat[i]@[k]) == dp(inp, i as nat, k + i - w - 1),
    }
}

fn cell_at(mat: &Vec<Vec<Cell>>, i: usize, j: usize, banded: bool, w: usize, Ghost(inp): Ghost<DpInput>) -> (r: Cell)
    requires
        represents(mat@, inp, w as nat),
        banded == inp.band.is_some(),
        i <= inp.profile.len(),
        j <= inp.query.len(),
        inp.query.len() + inp.profile.len() <= MAX_ALIGN_LEN,
        w <= MAX_ALIGN_LEN,
    ensures
        view_cell(r) == dp(inp, i as nat, j as int),
{
    if banded {
        if j + w + 1 >= i && j + w + 1 - i < 2 * w + 3 {
            let k = j + w + 1 - i;
            assert(mat@[i as int]@.len() == 2 * w + 3);
            mat[i][k]
        } else {
            disabled_cell()
        }
    } else {
        assert(mat@[i as int]@.len() == inp.query.len() + 1);
        mat[i][j]
    }
}

/// Walks the predecessors back from cell `(start_i, query.len())` in the match state,
/// after the profile columns below `start_i` have been set aside as trailing blanks.
fn traceback(
    query: &Vec<u8>,
    profile: &Vec<ColumnBaseCount>,
    mat: &Vec<Vec<Cell>>,
    start_i: usize,
    banded: bool,
    w: usize,
    Ghost(inp): Ghost<DpInput>,
) -> (r: (Vec<u8>, Vec<u8>, Vec<u8>))
    requires
        represents(mat@, inp, w as nat),
        banded == inp.band.is_some(),
        inp.query == query@,
        inp.profile == profile@,
        start_i <= profile.len(),
        query.len() + profile.len() <= MAX_ALIGN_LEN,
        w <= MAX_ALIGN_LEN,
    ensures
        (r.0@, r.1@, r.2@) == concat3(trace(inp, start_i as nat, query.len() as nat, Trace::M), trail(inp, start_i as nat)),
{
    let ghost target = concat3(trace(inp, start_i as nat, query.len() as nat, Trace::M), trail(inp, start_i as nat));
    let mut oq: Vec<u8> = Vec::new();
    let mut orf: Vec<u8> = Vec::new();
    let mut omj: Vec<u8> = Vec::new();
    let t_len = profile.len();
    let mut i: usize = t_len;
    while i > start_i
        invariant
            start_i <= i <= t_len,
            t_len == profile.len(),
            inp.profile == profile@,
            rev(oq@) =~= trail(inp, i as nat).0,
            rev(orf@) =~= trail(inp, i as nat).1,
            rev(omj@) =~= trail(inp, i as nat).2,
        decreases i,
    {
        let col = &profile[i - 1];
        let ghost prev = (oq@, orf@, omj@);
        oq.push(BLANK);
        orf.push(col.get_ref_base());
        omj.push(col.get_major_base());
        i = i - 1;
        proof {
            let rest = profile@.skip(i + 1);
            assert(profile@.skip(i as int) =~= seq![*col] + rest);
            assert(rev(oq@) =~= seq![BLANK] + rev(prev.0));
            assert(rev(orf@) =~= seq![col.ref_base] + rev(prev.1));
            assert(rev(omj@) =~= seq![col.major_base_spec()] + rev(prev.2));
            assert(trail(inp, i as nat).0 =~= seq![BLANK] + trail(inp, (i + 1) as nat).0);
            assert(trail(inp, i as nat).1 =~= seq![col.ref_base] + trail(inp, (i + 1) as nat).1);
            assert(trail(inp, i as nat).2 =~= seq![col.major_base_spec()] + trail(inp, (i + 1) as nat).2);
        }
    }
    let mut j: usize = query.len();
    let mut st = Trace::M;
    while i > 0 && j > 0
        invariant
            i <= t_len,
            j <= query.len(),
            t_len == profile.len(),
            represents(mat@, inp, w as nat),
            banded == inp.band.is_some(),
            inp.query == query@,
            inp.profile == profile@,
            query.len() + profile.len() <= MAX_ALIGN_LEN,
            w <= MAX_ALIGN_LEN,
            concat3(trace(inp, i as nat, j as nat, st), (rev(oq@), rev(orf@), rev(omj@))) == target,
        decreases i + j, rank(st),
    {
        let c = cell_at(mat, i, j, banded, w, Ghost(inp));
        let col = &profile[i - 1];
        let ghost prev = (oq@, orf@, omj@);
        match st {
            Trace::M => match c.m_from {
                Trace::M => {
                    oq.push(query[j - 1]);
                    orf.push(col.get_ref_base());
                    omj.push(col.get_major_base());
                    i = i - 1;
                    j = j - 1;
                },
                Trace::Ix => {
                    st = Trace::Ix;
                },
                Trace::Ix2 => {
                    st = Trace::Ix2;
                },
            },
            Trace::Ix => {
                oq.push(GAP);
                orf.push(col.get_ref_base());
                omj.push(col.get_major_base());
                i = i - 1;
                st = c.ix_from;
            },
            Trace::Ix2 => {
                oq.push(BASE_N);
                orf.push(col.get_ref_base());
                omj.push(col.get_major_base());
                i = i - 1;
                st = c.ix2_from;
            },
        }
        proof {
            let t = trace(inp, i as nat, j as nat, st);
            if oq@.len() > prev.0.len() {
                assert(rev(oq@) =~= seq![oq@.last()] + rev(prev.0));
                assert(rev(orf@) =~= seq![orf@.last()] + rev(prev.1));
                assert(rev(omj@) =~= seq![omj@.last()] + rev(prev.2));
                assert(t.0.push(oq@.last()) + rev(prev.0) =~= t.0 + rev(oq@));
                assert(t.1.push(orf@.last()) + rev(prev.1) =~= t.1 + rev(orf@));
                assert(t.2.push(omj@.last()) + rev(prev.2) =~= t.2 + rev(omj@));
            }
        }
    }
    while i > 0
        invariant
            i <= t_len,
            i == 0 || j == 0,
            t_len == profile.len(),
            inp.profile == profile@,
            concat3(lead(inp, i as nat, j as nat), (rev(oq@), rev(orf@), rev(omj@))) == target,
        decreases i,
    {
        let col = &profile[i - 1];
        let ghost prev = (oq@, orf@, omj@);
        let ghost before = lead(inp, i as nat, 0);
        oq.push(BLANK);
        orf.push(col.get_ref_base());
        omj.push(col.get_major_base());
        i = i - 1;
        proof {
            let t = lead(inp, i as nat, 0);
            assert(before.0 =~= t.0.push(BLANK));
            assert(before.1 =~= t.1.push(col.ref_base));
            assert(before.2 =~= t.2.push(col.major_base_spec()));
            assert(rev(oq@) =~= seq![BLANK] + rev(prev.0));
            assert(rev(orf@) =~= seq![col.ref_base] + rev(prev.1));
            assert(rev(omj@) =~= seq![col.major_base_spec()] + rev(prev.2));
            assert(t.0.push(BLANK) + rev(prev.0) =~= t.0 + rev(oq@));
            assert(t.1.push(col.ref_base) + rev(prev.1) =~= t.1 + rev(orf@));
            assert(t.2.push(col.major_base_spec()) + rev(prev.2) =~= t.2 + rev(omj@));
        }
    }
    while j > 0
        invariant
            i == 0,
            j <= query.len(),
            inp.query == query@,
            concat3(lead(inp, 0, j as nat), (rev(oq@), rev(orf@), rev(omj@))) == target,
        decreases j,
    {
        let ghost prev = (oq@, orf@, omj@);
        let ghost before = lead(inp, 0, j as nat);
        let b = query[j - 1];
        oq.push(b);
        orf.push(BLANK);
        omj.push(BLANK);
        j = j - 1;
        proof {
            let t = lead(inp, 0, j as nat);
            assert(before.0 =~= t.0.push(b));
            assert(before.1 =~= t.1.push(BLANK));
            assert(before.2 =~= t.2.push(BLANK));
            assert(rev(oq@) =~= seq![b] + rev(prev.0));
            assert(rev(orf@) =~= seq![BLANK] + rev(prev.1));
            assert(rev(omj@) =~= seq![BLANK] + rev(prev.2));
            assert(t.0.push(b) + rev(prev.0) =~= t.0 + rev(oq@));
            assert(t.1.push(BLANK) + rev(prev.1) =~= t.1 + rev(orf@));
            assert(t.2.push(BLANK) + rev(prev.2) =~= t.2 + rev(omj@));
        }
    }
    proof {
        let t = lead(inp, 0, 0);
        assert(t.0 + rev(oq@) =~= rev(oq@));
        assert(t.1 + rev(orf@) =~= rev(orf@));
        assert(t.2 + rev(omj@) =~= rev(omj@));
    }
    (reverse_bytes(&oq), reverse_bytes(&orf), reverse_bytes(&omj))
}

/// Global alignment of `query` against every column of `profile`. Returns the score
/// of the match state in the last cell (minus infinity when the query is longer than
/// the profile), and the aligned query, reference bases and majority bases.
pub fn nw_splice_aware(query: &Vec<u8>, profile: &Vec<ColumnBaseCount>) -> (r: (i64, Vec<u8>, Vec<u8>, Vec<u8>))
    requires
        query.len() + profile.len() <= MAX_ALIGN_LEN,
    ensures
        r.0 as int == dp(full_input(query@, profile@, false), profile.len() as nat, query.len() as int).m,
        (r.1@, r.2@, r.3@) == trace(full_input(query@, profile@, false), profile.len() as nat, query.len() as nat, Trace::M),
        r.1.len() == r.2.len() && r.2.len() == r.3.len(),
{
    let ghost inp = full_input(query@, profile@, false);
    let mat = fill_matrix(query, profile, false);
    let t_len = profile.len();
    let q_len = query.len();
    assert(mat@[t_len as int]@.len() == q_len + 1);
    let score = mat[t_len][q_len].m;
    let (aq, ar, am) = traceback(query, profile, &mat, t_len, false, 0, Ghost(inp));
    proof {
        lemma_trace_lengths(inp, t_len as nat, q_len as nat, Trace::M);
        let tr = trace(inp, t_len as nat, q_len as nat, Trace::M);
        assert(profile@.skip(t_len as int) =~= Seq::<ColumnBaseCount>::empty());
        assert(tr.0 + trail(inp, t_len as nat).0 =~= tr.0);
        assert(tr.1 + trail(inp, t_len as nat).1 =~= tr.1);
        assert(tr.2 + trail(inp, t_len as nat).2 =~= tr.2);
    }
    (score, aq, ar, am)
}

/// The largest value and the first index that holds it.
fn find_max_value_and_index(vector: &Vec<i64>) -> (r: (i64, usize))
    requires
        vector.len() > 0,
    ensures
        r.1 < vector.len(),
        vector[r.1 as int] == r.0,
        forall|k: int| 0 <= k < vector.len() ==> vector[k] <= r.0,
        forall|k: int| 0 <= k < r.1 ==> vector[k] < r.0,
{
    let mut max_value = vector[0];
    let mut max_index: usize = 0;
    let mut k: usize = 1;
    while k < vector.len()
        invariant
            1 <= k <= vector.len(),
            max_index < k,
            vector[max_index as int] == max_value,
            forall|x: int| 0 <= x < k ==> vector[x] <= max_value,
            forall|x: int| 0 <= x < max_index ==> vector[x] < max_value,
        decreases vector.len() - k,
    {
        if vector[k] > max_value {
            max_value = vector[k];
            max_index = k;
        }
        k = k + 1;
    }
    (max_value, max_index)
}

/// Semi-global alignment: the query must be consumed whole, the profile may be entered
/// and left at any column for free. The end row is the first row whose match-state
/// score in the last query column is highest; the columns after it are left blank.
pub fn semi_nw_splice_aware(query: &Vec<u8>, profile: &Vec<ColumnBaseCount>) -> (r: (i64, Vec<u8>, Vec<u8>, Vec<u8>))
    requires
        query.len() + profile.len() <= MAX_ALIGN_LEN,
    ensures
        exists|e: nat| {
            &&& e <= profile.len()
            &&& r.0 as int == dp(full_input(query@, profile@, true), e, query.len() as int).m
            &&& forall|k: nat| k <= profile.len() ==> dp(full_input(query@, profile@, true), k, query.len() as int).m <= r.0
            &&& forall|k: nat| k < e ==> dp(full_input(query@, profile@, true), k, query.len() as int).m < r.0
            &&& (r.1@, r.2@, r.3@) == concat3(
                trace(full_input(query@, profile@, true), e, query.len() as nat, Trace::M),
                trail(full_input(query@, profile@, true), e),
            )
        },
        r.1.len() == r.2.len() && r.2.len() == r.3.len(),
{
    let ghost inp = full_input(query@, profile@, true);
    let mat = fill_matrix(query, profile, true);
    let t_len = profile.len();
    let q_len = query.len();
    let mut scores: Vec<i64> = Vec::new();
    let mut ii: usize = 0;
    while ii <= t_len
        invariant
            ii <= t_len + 1,
            t_len == profile.len(),
            q_len == query.len(),
            q_len + t_len <= MAX_ALIGN_LEN,
            represents(mat@, inp, 0),
            inp == full_input(query@, profile@, true),
            scores.len() == ii,
            forall|k: int| 0 <= k < ii ==> #[trigger] scores[k] as int == dp(inp, k as nat, q_len as int).m,
        decreases t_len + 1 - ii,
    {
        assert(mat@[ii as int]@.len() == q_len + 1);
        scores.push(mat[ii][q_len].m);
        ii = ii + 1;
    }
    let (max_score, max_index) = find_max_value_and_index(&scores);
    let (aq, ar, am) = traceback(query, profile, &mat, max_index, false, 0, Ghost(inp));
    proof {
        let e = max_index as nat;
        lemma_trace_lengths(inp, e, q_len as nat, Trace::M);
        assert forall|k: nat| k <= profile.len() implies dp(inp, k, q_len as int).m <= max_score by {
            assert(scores[k as int] as int == dp(inp, k, q_len as int).m);
        }
        assert forall|k: nat| k < e implies dp(inp, k, q_len as int).m < max_score by {
            assert(scores[k as int] as int == dp(inp, k, q_len as int).m);
        }
        assert(scores[max_index as int] as int == dp(inp, e, q_len as int).m);
    }
    (max_score, aq, ar, am)
}

pub open spec fn banded_input(query: Seq<u8>, profile: Seq<ColumnBaseCount>, w: nat) -> DpInput {
    DpInput { query, profile, semi: false, band: Some(w) }
}

/// Fills the diagonal band of width `w`: row `i` keeps cell `(i, j)` at `j - i + w + 1`.
fn fill_banded(query: &Vec<u8>, profile: &Vec<ColumnBaseCount>, w: usize) -> (mat: Vec<Vec<Cell>>)
    requires
        query.len() + profile.len() <= MAX_ALIGN_LEN,
        w <= MAX_ALIGN_LEN,
    ensures
        represents(mat@, banded_input(query@, profile@, w as nat), w as nat),
{
    let ghost inp = banded_input(query@, profile@, w as nat);
    let q_len = query.len();
    let t_len = profile.len();
    let width = 2 * w + 3;
    let mut mat: Vec<Vec<Cell>> = Vec::new();
    let mut i: usize = 0;
    while i <= t_len
        invariant
            i <= t_len + 1,
            q_len == query.len(),
            t_len == profile.len(),
            q_len + t_len <= MAX_ALIGN_LEN,
            w <= MAX_ALIGN_LEN,
            width == 2 * w + 3,
            inp == banded_input(query@, profile@, w as nat),
            mat.len() == i,
            forall|ii: int| 0 <= ii < i ==> #[trigger] mat@[ii]@.len() == width,
            forall|ii: int, kk: int|
                0 <= ii < i && 0 <= kk < width ==> view_cell(#[trigger] mat@[ii]@[kk]) == dp(inp, ii as nat, kk + ii - w - 1),
            forall|ii: int, kk: int|
                0 <= ii < i && 0 <= kk < width ==> bounded(view_cell(#[trigger] mat@[ii]@[kk]), row_bound(ii)),
        decreases t_len + 1 - i,
    {
        let mut row: Vec<Cell> = Vec::new();
        let mut k: usize = 0;
        while k < width
            invariant
                i <= t_len,
                k <= width,
                q_len == query.len(),
                t_len == profile.len(),
                q_len + t_len <= MAX_ALIGN_LEN,
                w <= MAX_ALIGN_LEN,
                width == 2 * w + 3,
                inp == banded_input(query@, profile@, w as nat),
                mat.len() == i,
                forall|ii: int| 0 <= ii < i ==> #[trigger] mat@[ii]@.len() == width,
                forall|ii: int, kk: int|
                    0 <= ii < i && 0 <= kk < width ==> view_cell(#[trigger] mat@[ii]@[kk]) == dp(inp, ii as nat, kk + ii - w - 1),
                forall|ii: int, kk: int|
                    0 <= ii < i && 0 <= kk < width ==> bounded(view_cell(#[trigger] mat@[ii]@[kk]), row_bound(ii)),
                row.len() == k,
                forall|kk: int| 0 <= kk < k ==> view_cell(#[trigger] row@[kk]) == dp(inp, i as nat, kk + i - w - 1),
                forall|kk: int| 0 <= kk < k ==> bounded(view_cell(#[trigger] row@[kk]), row_bound(i as int)),
            decreases width - k,
        {
            let ghost j_int: int = k + i - w - 1;
            let c = if k == 0 || k + 1 == width || k + i < w + 1 || k + i - w - 1 > q_len {
                disabled_cell()
            } else {
                let j = k + i - w - 1;
                if i == 0 {
                    if j == 0 { first_cell(false) } else { disabled_cell() }
                } else {
                    proof {
                        assert(row_bound(i as int) == row_bound(i - 1) + 2 * STEP_BOUND) by (nonlinear_arith)
                            requires row_bound(i as int) == (i + 1) * (2 * STEP_BOUND), row_bound(i - 1) == i * (2 * STEP_BOUND);
                        assert(row_bound(i - 1) <= 2_000_000_000_000_000_000) by (nonlinear_arith)
                            requires i <= MAX_ALIGN_LEN, row_bound(i - 1) == i * (2 * STEP_BOUND), STEP_BOUND == 200_000_000;
                        assert(0 <= row_bound(i - 1)) by (nonlinear_arith)
                            requires i >= 1, row_bound(i - 1) == i * (2 * STEP_BOUND), STEP_BOUND == 200_000_000;
                        assert(mat@[i - 1]@.len() == width);
                    }
                    let up = mat[i - 1][k + 1];
                    let diag = mat[i - 1][k];
                    let qb = if j > 0 { query[j - 1] } else { 0u8 };
                    next_cell(&up, &diag, &profile[i - 1], qb, false, Ghost(row_bound(i - 1)))
                }
            };
            proof {
                if i > 0 {
                    assert(row_bound(i - 1) <= row_bound(i as int)) by (nonlinear_arith)
                        requires row_bound(i as int) == (i + 1) * (2 * STEP_BOUND), row_bound(i - 1) == i * (2 * STEP_BOUND), STEP_BOUND == 200_000_000;
                }
                assert(0 <= row_bound(i as int)) by (nonlinear_arith)
                    requires row_bound(i as int) == (i + 1) * (2 * STEP_BOUND), i >= 0, STEP_BOUND == 200_000_000;
            }
            row.push(c);
            k = k + 1;
        }
        mat.push(row);
        proof {
            assert forall|ii: int, kk: int| 0 <= ii <= i && 0 <= kk < width implies
                view_cell(#[trigger] mat@[ii]@[kk]) == dp(inp, ii as nat, kk + ii - w - 1)
                && bounded(view_cell(mat@[ii]@[kk]), row_bound(ii)) by {
                if ii == i {
                    assert(mat@[ii] == row);
                }
            }
        }
        i = i + 1;
    }
    mat
}

/// Row `i`'s last banded column that lies inside the query, and the query position it
/// stands for.
fn get_k_j_from_i(i: usize, width: usize, q_len: usize) -> (r: (usize, usize))
    requires
        i <= width + q_len + 1,
        width <= MAX_ALIGN_LEN,
        q_len <= MAX_ALIGN_LEN,
    ensures
        r.0 as int == if width + q_len + 1 - i > 2 * width + 1 { 2 * width + 1 } else { width + q_len + 1 - i },
        r.1 as int == r.0 + i - width - 1,
{
    let k = if width + q_len + 1 - i > 2 * width + 1 { 2 * width + 1 } else { width + q_len + 1 - i };
    let j = k + i - width - 1;
    (k, j)
}

/// Global alignment restricted to the cells within `width` of the main diagonal.
/// Fails when the end cell lies outside the band.
pub fn banded_nw_splice_aware(query: &Vec<u8>, profile: &Vec<ColumnBaseCount>, width: usize) -> (r: Result<
    (i64, Vec<u8>, Vec<u8>, Vec<u8>),
    AlignError,
>)
    requires
        query.len() + profile.len() <= MAX_ALIGN_LEN,
        width <= MAX_ALIGN_LEN,
    ensures
        r is Err <==> (profile.len() > query.len() + width || query.len() > profile.len() + width),
        r is Err ==> r == Err::<(i64, Vec<u8>, Vec<u8>, Vec<u8>), AlignError>(AlignError::BandTooNarrow),
        r matches Ok(a) ==> {
            &&& a.0 as int == dp(banded_input(query@, profile@, width as nat), profile.len() as nat, query.len() as int).m
            &&& (a.1@, a.2@, a.3@) == trace(banded_input(query@, profile@, width as nat), profile.len() as nat, query.len() as nat, Trace::M)
            &&& a.1.len() == a.2.len() && a.2.len() == a.3.len()
        },
{
    let t_len = profile.len();
    let q_len = query.len();
    if t_len > q_len + width || q_len > t_len + width {
        return Err(AlignError::BandTooNarrow);
    }
    let ghost inp = banded_input(query@, profile@, width as nat);
    let mat = fill_banded(query, profile, width);
    let (k, j) = get_k_j_from_i(t_len, width, q_len);
    assert(mat@[t_len as int]@.len() == 2 * width + 3);
    let score = mat[t_len][k].m;
    let (aq, ar, am) = traceback(query, profile, &mat, t_len, true, width, Ghost(inp));
    proof {
        lemma_trace_lengths(inp, t_len as nat, q_len as nat, Trace::M);
        let tr = trace(inp, t_len as nat, q_len as nat, Trace::M);
        assert(profile@.skip(t_len as int) =~= Seq::<ColumnBaseCount>::empty());
        assert(tr.0 + trail(inp, t_len as nat).0 =~= tr.0);
        assert(tr.1 + trail(inp, t_len as nat).1 =~= tr.1);
        assert(tr.2 + trail(inp, t_len as nat).2 =~= tr.2);
    }
    Ok((score, aq, ar, am))
}

proof fn lemma_wide_band_cells(query: Seq<u8>, profile: Seq<ColumnBaseCount>, w: nat, i: nat, j: int)
    requires
        w >= query.len() + profile.len(),
    ensures
        dp(banded_input(query, profile, w), i, j) == dp(full_input(query, profile, false), i, j),
    decreases i,
{
    if i > 0 {
        lemma_wide_band_cells(query, profile, w, (i - 1) as nat, j);
        lemma_wide_band_cells(query, profile, w, (i - 1) as nat, j - 1);
    }
}

proof fn lemma_wide_band_trace(query: Seq<u8>, profile: Seq<ColumnBaseCount>, w: nat, i: nat, j: nat, st: Trace)
    requires
        w >= query.len() + profile.len(),
    ensures
        trace(banded_input(query, profile, w), i, j, st) == trace(full_input(query, profile, false), i, j, st),
    decreases i + j, (if st == Trace::M { 1int } else { 0int }),
{
    let b = banded_input(query, profile, w);
    let f = full_input(query, profile, false);
    if i == 0 || j == 0 || i > profile.len() || j > query.len() {
    } else {
        lemma_wide_band_cells(query, profile, w, i, j as int);
        let c = dp(f, i, j as int);
        match st {
            Trace::M => match c.m_from {
                Trace::M => lemma_wide_band_trace(query, profile, w, (i - 1) as nat, (j - 1) as nat, Trace::M),
                Trace::Ix => lemma_wide_band_trace(query, profile, w, i, j, Trace::Ix),
                Trace::Ix2 => lemma_wide_band_trace(query, profile, w, i, j, Trace::Ix2),
            },
            Trace::Ix => lemma_wide_band_trace(query, profile, w, (i - 1) as nat, j, c.ix_from),
            Trace::Ix2 => lemma_wide_band_trace(query, profile, w, (i - 1) as nat, j, c.ix2_from),
        }
    }
}

/// A band at least as wide as both inputs together leaves the result unchanged: the
/// banded aligner returns the score and the alignment of the global one.
pub proof fn lemma_wide_band_is_global(query: Seq<u8>, profile: Seq<ColumnBaseCount>, w: nat)
    requires
        w >= query.len() + profile.len(),
    ensures
        dp(banded_input(query, profile, w), profile.len(), query.len() as int).m
            == dp(full_input(query, profile, false), profile.len(), query.len() as int).m,
        trace(banded_input(query, profile, w), profile.len(), query.len(), Trace::M)
            == trace(full_input(query, profile, false), profile.len(), query.len(), Trace::M),
{
    lemma_wide_band_cells(query, profile, w, profile.len(), query.len() as int);
    lemma_wide_band_trace(query, profile, w, profile.len(), query.len(), Trace::M);
}

pub open spec fn state_value(c: DpCell, st: Trace) -> int {
    match st {
        Trace::M => c.m,
        Trace::Ix => c.ix,
        Trace::Ix2 => c.ix2,
    }
}

/// The score of the traced path into cell `(i, j)` in state `st`, re-added move by move:
/// a substitution score for each aligned query byte, gap open and extension for each
/// deleted column (nothing through a gap or N column), intron open and skip for each
/// intron column, and the intron close when the path leaves the intron. Where the trace
/// stops at the first row or column, the score of that border cell is taken.
pub open spec fn path_score(inp: DpInput, i: nat, j: nat, st: Trace) -> int
    decreases i + j, (if st == Trace::M { 1int } else { 0int }),
{
    if i == 0 || j == 0 || i > inp.profile.len() || j > inp.query.len() {
        state_value(dp(inp, i, j as int), st)
    } else {
        let c = dp(inp, i, j as int);
        let col = inp.profile[i - 1];
        let p = intron_open(inp.semi);
        match st {
            Trace::M => match c.m_from {
                Trace::M => path_score(inp, (i - 1) as nat, (j - 1) as nat, Trace::M) + subst(col, inp.query[j - 1]),
                Trace::Ix => path_score(inp, i, j, Trace::Ix),
                Trace::Ix2 => path_score(inp, i, j, Trace::Ix2) - p,
            },
            Trace::Ix => match c.ix_from {
                Trace::M => path_score(inp, (i - 1) as nat, j, Trace::M) - (if gap_free(col) {
                    0
                } else {
                    (GAP_OPEN + GAP_EXTEND) as int
                }),
                _ => path_score(inp, (i - 1) as nat, j, Trace::Ix) - (if gap_free(col) {
                    0
                } else {
                    GAP_EXTEND as int
                }),
            },
            Trace::Ix2 => match c.ix2_from {
                Trace::M => path_score(inp, (i - 1) as nat, j, Trace::M) - (p + intron_penalty(inp.semi)),
                _ => path_score(inp, (i - 1) as nat, j, Trace::Ix2),
            },
        }
    }
}

/// Re-adding the moves of the traced path gives back the score of every reachable
/// cell and state; so the score an aligner returns is the score of the alignment it
/// emits.
pub proof fn lemma_path_score_is_score(inp: DpInput, i: nat, j: nat, st: Trace)
    requires
        state_value(dp(inp, i, j as int), st) != NEG_INF as int,
    ensures
        path_score(inp, i, j, st) == state_value(dp(inp, i, j as int), st),
    decreases i + j, (if st == Trace::M { 1int } else { 0int }),
{
    if i == 0 || j == 0 || i > inp.profile.len() || j > inp.query.len() {
    } else {
        let c = dp(inp, i, j as int);
        match st {
            Trace::M => match c.m_from {
                Trace::M => lemma_path_score_is_score(inp, (i - 1) as nat, (j - 1) as nat, Trace::M),
                Trace::Ix => lemma_path_score_is_score(inp, i, j, Trace::Ix),
                Trace::Ix2 => lemma_path_score_is_score(inp, i, j, Trace::Ix2),
            },
            Trace::Ix => match c.ix_from {
                Trace::M => lemma_path_score_is_score(inp, (i - 1) as nat, j, Trace::M),
                _ => lemma_path_score_is_score(inp, (i - 1) as nat, j, Trace::Ix),
            },
            Trace::Ix2 => match c.ix2_from {
                Trace::M => lemma_path_score_is_score(inp, (i - 1) as nat, j, Trace::M),
                _ => lemma_path_score_is_score(inp, (i - 1) as nat, j, Trace::Ix2),
            },
        }
    }
}

proof fn lemma_subst_bound(col: ColumnBaseCount, qb: u8)
    ensures
        -100_000_000 <= subst(col, qb) <= 100_000_000,
{
    let s = col.depth_spec();
    let c = col.count_of(qb);
    assert(0 <= c <= 65535);
    if s > 0 {
        assert(-65_535_000 <= ((s - c) * SCORE_SCALE) / s <= SCORE_SCALE) by (nonlinear_arith)
            requires s > 0, 0 <= c <= 65535, SCORE_SCALE == 1000;
    }
    assert(-65_535_000 <= col.score2_spec(qb) <= 1000);
    assert(-32_767_500 <= col.score_spec(qb) <= 1000);
}

proof fn lemma_step_bound(up: DpCell, diag: DpCell, col: ColumnBaseCount, qb: u8, semi: bool, b: int)
    requires
        bounded(up, b),
        bounded(diag, b),
        0 <= b <= 2_000_000_000_000_000_000,
    ensures
        bounded(step(up, diag, col, qb, semi), b + 2 * STEP_BOUND),
{
    lemma_subst_bound(col, qb);
}

/// Every score of a full or semi-global program stays within its row's bound.
proof fn lemma_dp_bounded(inp: DpInput, i: nat, j: int)
    requires
        inp.band is None,
        i <= MAX_ALIGN_LEN,
    ensures
        bounded(dp(inp, i, j), row_bound(i as int)),
    decreases i,
{
    assert(0 <= row_bound(i as int) <= 2_000_000_000_000_000_000 + 2 * STEP_BOUND) by (nonlinear_arith)
        requires i <= MAX_ALIGN_LEN, row_bound(i as int) == (i + 1) * (2 * STEP_BOUND), STEP_BOUND == 200_000_000;
    if i > 0 && !(j < 0 || j > inp.query.len() || i > inp.profile.len()) && !(inp.semi && j == 0) {
        lemma_dp_bounded(inp, (i - 1) as nat, j);
        lemma_dp_bounded(inp, (i - 1) as nat, j - 1);
        assert(row_bound(i as int) == row_bound(i - 1) + 2 * STEP_BOUND) by (nonlinear_arith)
            requires row_bound(i as int) == (i + 1) * (2 * STEP_BOUND), row_bound(i - 1) == i * (2 * STEP_BOUND);
        assert(0 <= row_bound(i - 1) <= 2_000_000_000_000_000_000) by (nonlinear_arith)
            requires i <= MAX_ALIGN_LEN, i >= 1, row_bound(i - 1) == i * (2 * STEP_BOUND), STEP_BOUND == 200_000_000;
        lemma_step_bound(dp(inp, (i - 1) as nat, j), dp(inp, (i - 1) as nat, j - 1), inp.profile[i - 1],
            if j > 0 { inp.query[j - 1] } else { 0u8 }, inp.semi, row_bound(i - 1));
    }
}

/// In a full program, every cell with no more query bytes than profile columns can
/// be reached.
proof fn lemma_dp_reachable(inp: DpInput, i: nat, j: int)
    requires
        inp.band is None,
        !inp.semi,
        0 <= j <= i,
        i <= inp.profile.len(),
        j <= inp.query.len(),
        inp.profile.len() <= MAX_ALIGN_LEN,
    ensures
        dp(inp, i, j).m != NEG_INF as int,
        dp(inp, i, j).m > NEG_INF as int,
    decreases i,
{
    lemma_dp_bounded(inp, i, j);
    if i > 0 {
        if j > 0 {
            lemma_dp_reachable(inp, (i - 1) as nat, j - 1);
            lemma_dp_bounded(inp, (i - 1) as nat, j - 1);
            lemma_subst_bound(inp.profile[i - 1], inp.query[j - 1]);
        } else {
            lemma_dp_reachable(inp, (i - 1) as nat, 0);
            lemma_dp_bounded(inp, (i - 1) as nat, 0);
        }
        assert(row_bound(i - 1) <= 2_000_000_000_000_000_000) by (nonlinear_arith)
            requires i <= MAX_ALIGN_LEN, row_bound(i - 1) == i * (2 * STEP_BOUND), STEP_BOUND == 200_000_000;
        assert(row_bound(i as int) <= 2_000_000_000_000_000_000 + 2 * STEP_BOUND) by (nonlinear_arith)
            requires i <= MAX_ALIGN_LEN, row_bound(i as int) == (i + 1) * (2 * STEP_BOUND), STEP_BOUND == 200_000_000;
    }
}

/// A trace that ends in a reachable state runs over exactly the profile columns
/// consumed.
proof fn lemma_trace_len(inp: DpInput, i: nat, j: nat, st: Trace)
    requires
        !inp.semi,
        inp.band is None,
        i <= inp.profile.len(),
        j <= inp.query.len(),
        state_value(dp(inp, i, j as int), st) != NEG_INF as int,
    ensures
        trace(inp, i, j, st).0.len() == i,
    decreases i + j, (if st == Trace::M { 1int } else { 0int }),
{
    if i == 0 || j == 0 {
    } else {
        let c = dp(inp, i, j as int);
        match st {
            Trace::M => match c.m_from {
                Trace::M => lemma_trace_len(inp, (i - 1) as nat, (j - 1) as nat, Trace::M),
                Trace::Ix => lemma_trace_len(inp, i, j, Trace::Ix),
                Trace::Ix2 => lemma_trace_len(inp, i, j, Trace::Ix2),
            },
            Trace::Ix => lemma_trace_len(inp, (i - 1) as nat, j, c.ix_from),
            Trace::Ix2 => lemma_trace_len(inp, (i - 1) as nat, j, c.ix2_from),
        }
    }
}

/// A query no longer than the profile is aligned over exactly the profile's columns.
pub proof fn lemma_global_fills_profile(query: Seq<u8>, profile: Seq<ColumnBaseCount>)
    requires
        query.len() <= profile.len(),
        profile.len() <= MAX_ALIGN_LEN,
    ensures
        trace(full_input(query, profile, false), profile.len(), query.len(), Trace::M).0.len() == profile.len(),
{
    let inp = full_input(query, profile, false);
    lemma_dp_reachable(inp, profile.len(), query.len() as int);
    lemma_trace_len(inp, profile.len(), query.len(), Trace::M);
}

} // verus!
