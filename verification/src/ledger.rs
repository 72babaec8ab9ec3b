use vstd::prelude::*;

use crate::arith::clamp_u64;

verus! {

/// How a T piece was turned into place before it locked.
#[derive(Clone, Copy, PartialEq, Eq, Structural, Debug)]
pub enum Spin {
    Plain,
    Mini,
    Full,
}

/// Points for clearing `n` rows at once with the given spin, before the level,
/// back-to-back and combo adjustments.
pub open spec fn base_points(spin: Spin, n: int) -> int {
    if spin == Spin::Full && n == 1 {
        800
    } else if spin == Spin::Full && n == 2 {
        1200
    } else if spin == Spin::Full && n == 3 {
        1600
    } else if spin == Spin::Mini && n == 1 {
        200
    } else if spin == Spin::Mini && n == 2 {
        400
    } else if n == 1 {
        100
    } else if n == 2 {
        300
    } else if n == 3 {
        500
    } else if n == 4 {
        800
    } else {
        0
    }
}

/// A clear is "difficult" (counts toward back-to-back) when it is four rows
/// or any spin.
pub open spec fn difficult(spin: Spin, n: int) -> bool {
    n == 4 || spin != Spin::Plain
}

/// Points per level for a clear of `n > 0` rows: the base points, half again
/// for a difficult clear that follows a difficult clear, and fifty per step of
/// the running combo `combo`.
pub open spec fn clear_points(spin: Spin, n: int, b2b: bool, combo: int) -> int {
    let base = base_points(spin, n);
    let bonus = if difficult(spin, n) && b2b { base + base / 2 } else { base };
    if combo > 0 { bonus + 50 * combo } else { bonus }
}

/// The announcement for a lock with the given spin that cleared `n` rows.
pub open spec fn title(spin: Spin, n: int) -> Seq<char> {
    if n == 0 {
        match spin {
            Spin::Full => "T-SPIN"@,
            Spin::Mini => "T-SPIN MINI"@,
            Spin::Plain => ""@,
        }
    } else if spin == Spin::Full && n == 1 {
        "T-SPIN SINGLE"@
    } else if spin == Spin::Full && n == 2 {
        "T-SPIN DOUBLE"@
    } else if spin == Spin::Full && n == 3 {
        "T-SPIN TRIPLE"@
    } else if spin == Spin::Mini {
        "T-SPIN MINI"@
    } else if n == 4 {
        "TETRIS"@
    } else {
        ""@
    }
}

/// The level reached after `lines` cleared rows: one more every ten rows.
pub open spec fn level(lines: u64) -> int {
    1 + lines / 10
}

/// The score and its counters.
pub struct Ledger {
    pub score: u64,
    pub lines: u64,
    pub combo: i32,
    pub b2b: bool,
}

/// `pay` can run on `l` for a lock with spin `spin` that cleared `n` rows
/// without overflowing.
pub open spec fn payable(l: Ledger, spin: Spin, n: u32) -> bool {
    &&& n == 0 && spin == Spin::Full ==> 400 * level(l.lines) <= u64::MAX
    &&& n == 0 && spin == Spin::Mini ==> 100 * level(l.lines) <= u64::MAX
    &&& n > 0 ==> l.combo < i32::MAX
}

/// `after` is ledger `before` once a lock with the given spin that cleared `n`
/// rows has been scored.
pub open spec fn paid(before: Ledger, after: Ledger, spin: Spin, n: u32) -> bool {
    &&& n == 0 ==> {
        &&& after.combo == -1
        &&& after.lines == before.lines
        &&& after.b2b == before.b2b
        &&& after.score == match spin {
            Spin::Full => clamp_u64(before.score + 400 * level(before.lines)),
            Spin::Mini => clamp_u64(before.score + 100 * level(before.lines)),
            Spin::Plain => before.score,
        }
    }
    &&& n > 0 ==> {
        &&& after.combo == before.combo + 1
        &&& after.lines == clamp_u64(before.lines + n)
        &&& after.b2b == difficult(spin, n as int)
        &&& after.score == clamp_u64(before.score + clamp_u64(
            clear_points(spin, n as int, before.b2b, before.combo + 1) * level(before.lines)))
    }
}

/// Scoring a lock never lowers the score or the row count, and a lock that
/// clears rows always scores at least its base points.
pub proof fn lemma_pay_never_lowers(before: Ledger, after: Ledger, spin: Spin, n: u32)
    requires
        paid(before, after, spin, n),
    ensures
        after.score >= before.score,
        after.lines >= before.lines,
        n > 0 && before.score + base_points(spin, n as int) <= u64::MAX ==> after.score >= before.score + base_points(spin, n as int),
{
    if n > 0 {
        let pts = clear_points(spin, n as int, before.b2b, before.combo + 1);
        assert(pts >= base_points(spin, n as int));
        assert(level(before.lines) >= 1);
        assert(pts * level(before.lines) >= pts) by (nonlinear_arith)
            requires pts >= 0, level(before.lines) >= 1;
    }
}

/// Clearing more rows at once never pays less: from the same ledger and with
/// the same spin, a lock that clears more rows (up to three rows with any
/// spin, up to four without a full spin) scores strictly more, unless the
/// score is already saturated.
pub proof fn lemma_more_rows_pay_more(before: Ledger, a: Ledger, b: Ledger, spin: Spin, m: u32, n: u32)
    requires
        paid(before, a, spin, m),
        paid(before, b, spin, n),
        1 <= m < n,
        n <= 3 || (n == 4 && spin != Spin::Full),
    ensures
        a.score <= b.score,
        a.score < b.score || a.score == u64::MAX,
{
    let lv = level(before.lines);
    let pm = clear_points(spin, m as int, before.b2b, before.combo + 1);
    let pn = clear_points(spin, n as int, before.b2b, before.combo + 1);
    assert(base_points(spin, m as int) < base_points(spin, n as int));
    assert(pm < pn);
    assert(pm * lv < pn * lv) by (nonlinear_arith)
        requires pm < pn, lv >= 1;
    assert(0 <= pm * lv) by (nonlinear_arith)
        requires pm >= 0, lv >= 1;
}

impl Ledger {
    /// A fresh ledger: no score, no rows, no combo, no back-to-back.
    pub fn new() -> (res: Self)
        ensures
            res.score == 0,
            res.lines == 0,
            res.combo == -1,
            !res.b2b,
    {
        Self { score: 0, lines: 0, combo: -1, b2b: false }
    }

    /// The current level.
    pub fn lv(&self) -> (res: u64)
        ensures
            res == level(self.lines),
    {
        1 + self.lines / 10
    }

    /// Scores a lock with the given spin that cleared `n` rows, and returns its
    /// announcement. A lock that clears nothing ends the combo and scores only a
    /// spin; a clear extends the combo, counts the rows, scores at the level
    /// before the rows were added, and sets back-to-back to whether it was
    /// difficult. Sums saturate at `u64::MAX`.
    pub fn pay(&mut self, spin: Spin, n: u32) -> (res: &'static str)
        requires
            payable(*old(self), spin, n),
        ensures
            res@ == title(spin, n as int),
            paid(*old(self), *final(self), spin, n),
    {
        if n == 0 {
            self.combo = -1;
            return match spin {
                Spin::Full => {
                    self.score = self.score.saturating_add(400 * self.lv());
                    "T-SPIN"
                },
                Spin::Mini => {
                    self.score = self.score.saturating_add(100 * self.lv());
                    "T-SPIN MINI"
                },
                Spin::Plain => "",
            };
        }
        self.combo += 1;
        let lv = self.lv();
        self.lines = self.lines.saturating_add(n as u64);
        let hard = n == 4 || !matches!(spin, Spin::Plain);
        let mut pts: u64 = match (spin, n) {
            (Spin::Full, 1) => 800,
            (Spin::Full, 2) => 1200,
            (Spin::Full, 3) => 1600,
            (Spin::Mini, 1) => 200,
            (Spin::Mini, 2) => 400,
            (_, 1) => 100,
            (_, 2) => 300,
            (_, 3) => 500,
            (_, 4) => 800,
            _ => 0,
        };
        if hard && self.b2b {
            pts += pts / 2;
        }
        if self.combo > 0 {
            pts += 50 * self.combo as u64;
        }
        self.score = self.score.saturating_add(pts.saturating_mul(lv));
        self.b2b = hard;
        match (spin, n) {
            (Spin::Full, 1) => "T-SPIN SINGLE",
            (Spin::Full, 2) => "T-SPIN DOUBLE",
            (Spin::Full, 3) => "T-SPIN TRIPLE",
            (Spin::Mini, _) => "T-SPIN MINI",
            (_, 4) => "TETRIS",
            _ => "",
        }
    }
}

} // verus!
