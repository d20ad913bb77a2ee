//! Per-column allele counts of a pileup, the unit an alignment profile is made of.
use vstd::prelude::*;

verus! {

/// Byte codes of the pileup alphabet.
pub const BASE_A: u8 = 65;
pub const BASE_C: u8 = 67;
pub const BASE_G: u8 = 71;
pub const BASE_T: u8 = 84;
pub const BASE_N: u8 = 78;
pub const BASE_A_LOWER: u8 = 97;
pub const BASE_C_LOWER: u8 = 99;
pub const BASE_G_LOWER: u8 = 103;
pub const BASE_T_LOWER: u8 = 116;
pub const BASE_N_LOWER: u8 = 110;
pub const GAP: u8 = 45;
pub const BLANK: u8 = 32;

/// Fixed-point unit of every alignment score: one point is `SCORE_SCALE` units.
pub const SCORE_SCALE: i64 = 1000;

/// Number of bytes in `s` equal to `upper` or `lower`.
pub open spec fn occurrences(s: Seq<u8>, upper: u8, lower: u8) -> nat
    decreases s.len(),
{
    if s.len() == 0 {
        0
    } else {
        occurrences(s.drop_last(), upper, lower) + if s.last() == upper || s.last() == lower {
            1nat
        } else {
            0nat
        }
    }
}

pub proof fn lemma_occurrences_bound(s: Seq<u8>, upper: u8, lower: u8)
    ensures
        occurrences(s, upper, lower) <= s.len(),
    decreases s.len(),
{
    if s.len() > 0 {
        lemma_occurrences_bound(s.drop_last(), upper, lower);
    }
}

pub open spec fn max6(a: int, b: int, c: int, d: int, e: int, f: int) -> int {
    let m1 = if a >= b { a } else { b };
    let m2 = if m1 >= c { m1 } else { c };
    let m3 = if m2 >= d { m2 } else { d };
    let m4 = if m3 >= e { m3 } else { e };
    if m4 >= f { m4 } else { f }
}

/// Counts of A, C, G, T, N, gap and blank observed in one column, with its reference base.
#[derive(Clone, Copy, Debug)]
pub struct ColumnBaseCount {
    pub n_a: u16,
    pub n_c: u16,
    pub n_g: u16,
    pub n_t: u16,
    pub n_n: u16,
    pub n_dash: u16,
    pub n_blank: u16,
    pub max_count: u16,
    pub ref_base: u8,
}

impl ColumnBaseCount {
    /// `max_count` is the largest of the counts of A, C, G, T, N and gap (blank excluded).
    pub open spec fn wf(&self) -> bool {
        self.max_count as int == max6(
            self.n_a as int,
            self.n_c as int,
            self.n_g as int,
            self.n_t as int,
            self.n_n as int,
            self.n_dash as int,
        )
    }

    /// Support of real bases and gaps: the counts of A, C, G, T and gap.
    pub open spec fn depth_spec(&self) -> int {
        self.n_a + self.n_c + self.n_g + self.n_t + self.n_dash
    }

    /// The count that a query byte is scored against; bytes outside the alphabet count zero.
    pub open spec fn count_of(&self, x: u8) -> int {
        if x == 65 || x == 97 {
            self.n_a as int
        } else if x == 67 || x == 99 {
            self.n_c as int
        } else if x == 71 || x == 103 {
            self.n_g as int
        } else if x == 84 || x == 116 {
            self.n_t as int
        } else if x == 78 || x == 110 {
            self.n_n as int
        } else if x == 45 {
            self.n_dash as int
        } else {
            0
        }
    }

    /// Majority byte, ties broken in the order A, C, G, T, N, gap, blank.
    pub open spec fn major_base_spec(&self) -> u8 {
        if self.n_a == self.max_count {
            65u8
        } else if self.n_c == self.max_count {
            67u8
        } else if self.n_g == self.max_count {
            71u8
        } else if self.n_t == self.max_count {
            84u8
        } else if self.n_n == self.max_count {
            78u8
        } else if self.n_dash == self.max_count {
            45u8
        } else {
            32u8
        }
    }

    /// 0 when `x` is a majority byte of the column, else 1.
    pub open spec fn score1_spec(&self, x: u8) -> int {
        if self.count_of(x) == self.max_count as int {
            0
        } else {
            1
        }
    }

    /// Miscall rate of `x` in the column, in units of `1 / SCORE_SCALE`, rounded down.
    pub open spec fn score2_spec(&self, x: u8) -> int {
        let s = self.depth_spec();
        if s == 0 {
            0
        } else {
            ((s - self.count_of(x)) * SCORE_SCALE) / s
        }
    }

    /// Mean of the two miscall measures, in units of `1 / SCORE_SCALE`, rounded down.
    pub open spec fn score_spec(&self, x: u8) -> int {
        (self.score1_spec(x) * SCORE_SCALE + self.score2_spec(x)) / 2
    }

    /// The counts of the bytes of `col`.
    pub open spec fn counts_column(&self, col: Seq<u8>, ref_base: u8) -> bool {
        &&& self.n_a as nat == occurrences(col, 65, 97)
        &&& self.n_c as nat == occurrences(col, 67, 99)
        &&& self.n_g as nat == occurrences(col, 71, 103)
        &&& self.n_t as nat == occurrences(col, 84, 116)
        &&& self.n_dash as nat == occurrences(col, 45, 45)
        &&& self.n_blank as nat == occurrences(col, 32, 32)
        &&& self.n_n as nat == occurrences(col, 78, 110)
        &&& self.ref_base == ref_base
        &&& self.wf()
    }

    /// A column with no counts at all.
    pub fn new() -> (r: ColumnBaseCount)
        ensures
            r.n_a == 0 && r.n_c == 0 && r.n_g == 0 && r.n_t == 0,
            r.n_n == 0 && r.n_dash == 0 && r.n_blank == 0,
            r.max_count == 0 && r.ref_base == 0,
            r.wf(),
    {
        ColumnBaseCount {
            n_a: 0,
            n_c: 0,
            n_g: 0,
            n_t: 0,
            n_n: 0,
            n_dash: 0,
            n_blank: 0,
            max_count: 0,
            ref_base: 0,
        }
    }

    /// Counts the bytes of one pileup column (either case); other bytes are ignored.
    pub fn new_from_column(matrix_column: &Vec<u8>, ref_base: u8) -> (r: ColumnBaseCount)
        requires
            matrix_column.len() <= u16::MAX,
        ensures
            r.n_a as nat == occurrences(matrix_column@, 65, 97),
            r.n_c as nat == occurrences(matrix_column@, 67, 99),
            r.n_g as nat == occurrences(matrix_column@, 71, 103),
            r.n_t as nat == occurrences(matrix_column@, 84, 116),
            r.n_dash as nat == occurrences(matrix_column@, 45, 45),
            r.n_blank as nat == occurrences(matrix_column@, 32, 32),
            r.n_n as nat == occurrences(matrix_column@, 78, 110),
            r.ref_base == ref_base,
            r.wf(),
    {
        let mut cbc = ColumnBaseCount::new();
        cbc.ref_base = ref_base;
        let mut i: usize = 0;
        while i < matrix_column.len()
            invariant
                i <= matrix_column.len() <= u16::MAX,
                cbc.ref_base == ref_base,
                cbc.n_a as nat == occurrences(matrix_column@.take(i as int), 65, 97),
                cbc.n_c as nat == occurrences(matrix_column@.take(i as int), 67, 99),
                cbc.n_g as nat == occurrences(matrix_column@.take(i as int), 71, 103),
                cbc.n_t as nat == occurrences(matrix_column@.take(i as int), 84, 116),
                cbc.n_dash as nat == occurrences(matrix_column@.take(i as int), 45, 45),
                cbc.n_blank as nat == occurrences(matrix_column@.take(i as int), 32, 32),
                cbc.n_n as nat == occurrences(matrix_column@.take(i as int), 78, 110),
            decreases matrix_column.len() - i,
        {
            let b = matrix_column[i];
            let ghost pre = matrix_column@.take(i as int);
            let ghost next = matrix_column@.take(i + 1);
            proof {
                assert(next.drop_last() =~= pre);
                assert(next.last() == b);
                lemma_occurrences_bound(pre, 65, 97);
                lemma_occurrences_bound(pre, 67, 99);
                lemma_occurrences_bound(pre, 71, 103);
                lemma_occurrences_bound(pre, 84, 116);
                lemma_occurrences_bound(pre, 45, 45);
                lemma_occurrences_bound(pre, 32, 32);
                lemma_occurrences_bound(pre, 78, 110);
            }
            if b == 65 || b == 97 {
                cbc.n_a = cbc.n_a + 1;
            } else if b == 67 || b == 99 {
                cbc.n_c = cbc.n_c + 1;
            } else if b == 71 || b == 103 {
                cbc.n_g = cbc.n_g + 1;
            } else if b == 84 || b == 116 {
                cbc.n_t = cbc.n_t + 1;
            } else if b == 78 || b == 110 {
                cbc.n_n = cbc.n_n + 1;
            } else if b == 45 {
                cbc.n_dash = cbc.n_dash + 1;
            } else if b == 32 {
                cbc.n_blank = cbc.n_blank + 1;
            }
            i = i + 1;
        }
        proof {
            assert(matrix_column@.take(i as int) =~= matrix_column@);
        }
        let mut m = cbc.n_a;
        if cbc.n_c > m {
            m = cbc.n_c;
        }
        if cbc.n_g > m {
            m = cbc.n_g;
        }
        if cbc.n_t > m {
            m = cbc.n_t;
        }
        if cbc.n_n > m {
            m = cbc.n_n;
        }
        if cbc.n_dash > m {
            m = cbc.n_dash;
        }
        cbc.max_count = m;
        cbc
    }

    /// The majority byte of the column.
    pub fn get_major_base(&self) -> (r: u8)
        ensures
            r == self.major_base_spec(),
    {
        if self.n_a == self.max_count {
            BASE_A
        } else if self.n_c == self.max_count {
            BASE_C
        } else if self.n_g == self.max_count {
            BASE_G
        } else if self.n_t == self.max_count {
            BASE_T
        } else if self.n_n == self.max_count {
            BASE_N
        } else if self.n_dash == self.max_count {
            GAP
        } else {
            BLANK
        }
    }

    pub fn get_ref_base(&self) -> (r: u8)
        ensures
            r == self.ref_base,
    {
        self.ref_base
    }

    /// Number of reads that show a base or a gap in this column.
    pub fn get_depth(&self) -> (r: u32)
        ensures
            r as int == self.depth_spec(),
    {
        self.n_a as u32 + self.n_c as u32 + self.n_g as u32 + self.n_t as u32 + self.n_dash as u32
    }

    fn count_for(&self, x: u8) -> (r: u16)
        ensures
            r as int == self.count_of(x),
    {
        if x == BASE_A || x == BASE_A_LOWER {
            self.n_a
        } else if x == BASE_C || x == BASE_C_LOWER {
            self.n_c
        } else if x == BASE_G || x == BASE_G_LOWER {
            self.n_g
        } else if x == BASE_T || x == BASE_T_LOWER {
            self.n_t
        } else if x == BASE_N || x == BASE_N_LOWER {
            self.n_n
        } else if x == GAP {
            self.n_dash
        } else {
            0
        }
    }

    /// 0 when `x` is a majority byte of the column, else 1.
    pub fn get_score1(&self, x: &u8) -> (r: i32)
        ensures
            r as int == self.score1_spec(*x),
    {
        if self.count_for(*x) == self.max_count {
            0
        } else {
            1
        }
    }

    /// Fraction of the column's depth that does not show `x`, in units of `1 / SCORE_SCALE`.
    pub fn get_score2(&self, x: &u8) -> (r: i64)
        ensures
            r as int == self.score2_spec(*x),
            self.count_of(*x) <= self.depth_spec() ==> 0 <= r <= SCORE_SCALE,
            -(u16::MAX as int) * SCORE_SCALE <= r <= SCORE_SCALE,
    {
        let s: i64 = self.get_depth() as i64;
        if s == 0 {
            0
        } else {
            let c: i64 = self.count_for(*x) as i64;
            let num: i64 = (s - c) * SCORE_SCALE;
            if num >= 0 {
                proof {
                    assert(0 <= num / s <= SCORE_SCALE) by (nonlinear_arith)
                        requires num == (s - c) * SCORE_SCALE, s > 0, num >= 0, c >= 0, SCORE_SCALE == 1000;
                }
                num / s
            } else {
                let pos: i64 = -num;
                let q: i64 = (pos + s - 1) / s;
                proof {
                    assert(-q == num / s && -q >= num) by (nonlinear_arith)
                        requires pos == -num, pos > 0, s > 0, q as int == (pos as int + s as int - 1) / (s as int);
                    assert(num >= -(u16::MAX as int) * SCORE_SCALE) by (nonlinear_arith)
                        requires num == (s - c) * SCORE_SCALE, s > 0, 0 <= c <= u16::MAX, SCORE_SCALE == 1000;
                }
                -q
            }
        }
    }

    /// Mean of `get_score1` (scaled) and `get_score2`, in units of `1 / SCORE_SCALE`.
    pub fn get_score(&self, x: &u8) -> (r: i64)
        ensures
            r as int == self.score_spec(*x),
            -32_767_500 <= r <= SCORE_SCALE,
    {
        let s1: i64 = self.get_score1(x) as i64;
        let s2: i64 = self.get_score2(x);
        let t: i64 = s1 * SCORE_SCALE + s2;
        if t >= 0 {
            t / 2
        } else {
            let q: i64 = (-t + 1) / 2;
            proof {
                assert(-q == t / 2 && -q >= t / 2) by (nonlinear_arith)
                    requires t < 0, q as int == (-t as int + 1) / 2;
                assert(t / 2 >= -32_767_500) by (nonlinear_arith)
                    requires t >= -65_535_000;
            }
            -q
        }
    }
}

} // verus!
