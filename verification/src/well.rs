use vstd::prelude::*;
use vstd::std_specs::iter::IteratorSpec;
use std::collections::HashMap;

use crate::piece::{columns_fit, placed, Fall, COLS, FLOOR, KEEP};

verus! {

broadcast use vstd::std_specs::hash::group_hash_axioms;

/// Bit `x` of the row mask `m` is set.
pub open spec fn has(m: u16, x: int) -> bool {
    0 <= x < 16 && m & (1u16 << (x as u16)) != 0
}

/// The cell at column `x`, row `y` is solid in a well whose rows are `rows`:
/// it lies outside the walls, on the floor, or in an occupied cell of a row.
pub open spec fn filled(rows: Map<i64, u16>, x: int, y: i64) -> bool {
    ||| !(0 <= x < COLS)
    ||| FLOOR == Some(y)
    ||| (rows.contains_key(y) && has(rows[y], x))
}

/// Piece `p` overlaps nothing solid in `rows`.
pub open spec fn room_for(rows: Map<i64, u16>, p: Fall) -> bool {
    forall|i: int| 0 <= i < 4 ==> !filled(rows, #[trigger] placed(p)[i].0 as int, placed(p)[i].1)
}

/// Every column of the playfield is occupied in row mask `m`.
pub open spec fn full(m: u16) -> bool {
    m & 0x03FFu16 == 0x03FFu16
}

/// The rows of `rows` that are completely filled.
pub open spec fn full_rows(rows: Map<i64, u16>) -> Set<i64> {
    rows.dom().filter(|y: i64| full(rows[y]))
}

/// How far row `ry` falls when the full rows of `rows` are cleared: the number
/// of full rows below it.
pub open spec fn drop_of(rows: Map<i64, u16>, ry: i64) -> int {
    full_rows(rows).filter(|c: i64| c > ry).len() as int
}

/// Row `ry` is present in `rows` and survives a clear.
pub open spec fn kept(rows: Map<i64, u16>, ry: i64) -> bool {
    rows.contains_key(ry) && !full(rows[ry])
}

/// `after` is `rows` with its full rows removed and every other row moved down
/// by the number of full rows below it, the rows keeping their order.
pub open spec fn cleared(rows: Map<i64, u16>, after: Map<i64, u16>) -> bool {
    &&& forall|ry: i64| #[trigger] kept(rows, ry) ==> {
        &&& after.contains_key((ry + drop_of(rows, ry)) as i64)
        &&& after[(ry + drop_of(rows, ry)) as i64] == rows[ry]
        &&& ry + drop_of(rows, ry) <= i64::MAX
    }
    &&& forall|y: i64| #[trigger] after.contains_key(y) ==> exists|ry: i64| #[trigger] kept(rows, ry) && y == ry + drop_of(rows, ry)
}

/// One of the first `n` cells of piece `p` lies at column `x`, row `y`.
pub open spec fn covers_first(p: Fall, n: int, x: int, y: i64) -> bool {
    exists|i: int| 0 <= i < n && #[trigger] placed(p)[i].0 == x && placed(p)[i].1 == y
}

/// One of the first `n` cells of piece `p` lies in row `y`.
pub open spec fn in_rows_first(p: Fall, n: int, y: i64) -> bool {
    exists|i: int| 0 <= i < n && #[trigger] placed(p)[i].1 == y
}

/// `after` is `rows` with the first `n` cells of `p` added: a row exists in
/// `after` when it existed before or holds one of those cells, and a column of
/// it is occupied when it was before or one of those cells lies there.
pub open spec fn stamped_first(rows: Map<i64, u16>, after: Map<i64, u16>, p: Fall, n: int) -> bool {
    &&& forall|y: i64| #[trigger] after.contains_key(y) <==> rows.contains_key(y) || in_rows_first(p, n, y)
    &&& forall|y: i64, x: int| #[trigger] after.contains_key(y) && 0 <= x < 16 ==> (#[trigger] has(after[y], x) <==> (
        (rows.contains_key(y) && has(rows[y], x)) || covers_first(p, n, x, y)))
}

/// The columns of all cells of `p` are valid bit positions of a row mask.
pub open spec fn columns_in_mask(p: Fall) -> bool {
    forall|i: int| 0 <= i < 4 ==> 0 <= #[trigger] placed(p)[i].0 < 16
}

/// Row `ry` of `rows` has a cell below cell `i` of piece `p`, in its column.
pub open spec fn under(rows: Map<i64, u16>, p: Fall, i: int, ry: i64) -> bool {
    &&& rows.contains_key(ry)
    &&& ry > placed(p)[i].1
    &&& has(rows[ry], placed(p)[i].0 as int)
}

/// The floor lies below cell `i` of piece `p`.
pub open spec fn floor_under(p: Fall, i: int) -> bool {
    FLOOR matches Some(f) && f > placed(p)[i].1
}

/// Cells `0..=i` of piece `p` all lie between the walls.
pub open spec fn inside_through(p: Fall, i: int) -> bool {
    forall|j: int| 0 <= j <= i ==> 0 <= #[trigger] placed(p)[j].0 < COLS
}

/// Piece `p` lies between the walls.
pub open spec fn inside(p: Fall) -> bool {
    inside_through(p, 3)
}

/// The distance from cell `i` of `p` down to what stops it is `d`: a row
/// cell or the floor, `d` free rows below the cell.
pub open spec fn stops_at(rows: Map<i64, u16>, p: Fall, i: int, d: int) -> bool {
    ||| (exists|ry: i64| #[trigger] under(rows, p, i, ry) && d == ry - placed(p)[i].1 - 1)
    ||| (floor_under(p, i) && d == FLOOR->0 - placed(p)[i].1 - 1)
}

/// Every obstacle under each of the first `n` cells of `p` is at least `d`
/// free rows away from it.
pub open spec fn clear_for(rows: Map<i64, u16>, p: Fall, n: int, d: int) -> bool {
    &&& forall|i: int, ry: i64| 0 <= i < n && #[trigger] under(rows, p, i, ry) ==> d <= ry - placed(p)[i].1 - 1
    &&& forall|i: int| 0 <= i < n && #[trigger] floor_under(p, i) ==> d <= FLOOR->0 - placed(p)[i].1 - 1
}

/// Nothing lies under the first `n` cells of `p`.
pub open spec fn open_below(rows: Map<i64, u16>, p: Fall, n: int) -> bool {
    &&& forall|i: int, ry: i64| 0 <= i < n ==> !#[trigger] under(rows, p, i, ry)
    &&& forall|i: int| 0 <= i < n ==> !#[trigger] floor_under(p, i)
}

/// The distances that `gap` computes for `p` fit in an `i64`: those of the cells
/// that it reaches before it meets a cell outside the walls.
pub open spec fn gap_in_range(rows: Map<i64, u16>, p: Fall) -> bool {
    &&& forall|i: int, ry: i64| 0 <= i < 4 && inside_through(p, i) && #[trigger] under(rows, p, i, ry) ==> ry - placed(p)[i].1 <= i64::MAX
    &&& forall|i: int| 0 <= i < 4 && inside_through(p, i) && #[trigger] floor_under(p, i) ==> FLOOR->0 - placed(p)[i].1 <= i64::MAX
}

/// `rows` with every row moved up by `dy` rows (row `y` becomes row `y - dy`).
pub open spec fn shifted(rows: Map<i64, u16>, dy: i64) -> Map<i64, u16> {
    Map::new(
        |y: i64| i64::MIN <= y + dy <= i64::MAX && rows.contains_key((y + dy) as i64),
        |y: i64| rows[(y + dy) as i64],
    )
}

/// `rows` without the rows more than `KEEP` rows away from row `y`; a well with
/// a floor keeps them all.
pub open spec fn pruned(rows: Map<i64, u16>, y: i64) -> Map<i64, u16> {
    if FLOOR is Some {
        rows
    } else {
        rows.restrict(rows.dom().filter(|ry: i64| -KEEP <= ry - y <= KEEP))
    }
}

/// Every row of `rows` is a representable distance from row `y`.
pub open spec fn rows_within(rows: Map<i64, u16>, y: i64) -> bool {
    forall|k: i64| #[trigger] rows.contains_key(k) ==> i64::MIN < k - y <= i64::MAX
}

/// The well: the occupied cells of each nonempty row, as a bit mask whose bit
/// `x` stands for column `x`, keyed by the row's index (rows grow downward).
pub struct Well {
    pub rows: HashMap<i64, u16>,
}

impl Well {
    /// An empty well.
    pub fn new() -> (res: Self)
        ensures
            res.rows@ == Map::<i64, u16>::empty(),
    {
        Self { rows: HashMap::new() }
    }

    /// Whether the cell at column `x`, row `y` is solid.
    pub fn solid(&self, x: i32, y: i64) -> (res: bool)
        ensures
            res == filled(self.rows@, x as int, y),
    {
        if !(0 <= x && x < COLS) || FLOOR == Some(y) {
            return true;
        }
        match self.rows.get(&y) {
            Some(m) => *m & (1u16 << (x as u16)) != 0,
            None => false,
        }
    }

    /// Whether piece `p` lies wholly on free cells.
    pub fn fits(&self, p: &Fall) -> (res: bool)
        requires
            columns_fit(*p),
        ensures
            res == room_for(self.rows@, *p),
    {
        let c = p.cells();
        let mut i: usize = 0;
        while i < 4
            invariant
                i <= 4,
                c@ == placed(*p),
                forall|j: int| 0 <= j < i ==> !filled(self.rows@, #[trigger] placed(*p)[j].0 as int, placed(*p)[j].1),
            decreases 4 - i,
        {
            if self.solid(c[i].0, c[i].1) {
                return false;
            }
            i += 1;
        }
        true
    }

    /// Adds the cells of piece `p` to the well.
    pub fn stamp(&mut self, p: &Fall)
        requires
            columns_fit(*p),
            columns_in_mask(*p),
        ensures
            stamped_first(old(self).rows@, final(self).rows@, *p, 4),
    {
        let c = p.cells();
        let ghost rows = self.rows@;
        let mut i: usize = 0;
        while i < 4
            invariant
                i <= 4,
                c@ == placed(*p),
                columns_in_mask(*p),
                stamped_first(rows, self.rows@, *p, i as int),
            decreases 4 - i,
        {
            let (x, y) = c[i];
            assert(0 <= placed(*p)[i as int].0 < 16);
            let prev: u16 = match self.rows.get(&y) {
                Some(m) => *m,
                None => 0,
            };
            let ghost before = self.rows@;
            self.rows.insert(y, prev | (1u16 << (x as u16)));
            proof {
                let ni = i as int + 1;
                assert forall|yy: i64| #[trigger] self.rows@.contains_key(yy) <==> rows.contains_key(yy) || in_rows_first(*p, ni, yy) by {
                    if in_rows_first(*p, ni, yy) && !in_rows_first(*p, i as int, yy) {
                        let j = choose|j: int| 0 <= j < ni && #[trigger] placed(*p)[j].1 == yy;
                        assert(j == i);
                    }
                    if yy == y {
                        assert(placed(*p)[i as int].1 == yy);
                    }
                }
                assert forall|yy: i64, xx: int| #[trigger] self.rows@.contains_key(yy) && 0 <= xx < 16 implies (#[trigger] has(self.rows@[yy], xx) <==> (
                    (rows.contains_key(yy) && has(rows[yy], xx)) || covers_first(*p, ni, xx, yy))) by {
                    lemma_set_bit(prev, x as u16, xx as u16);
                    if covers_first(*p, ni, xx, yy) && !covers_first(*p, i as int, xx, yy) {
                        let j = choose|j: int| 0 <= j < ni && #[trigger] placed(*p)[j].0 == xx && placed(*p)[j].1 == yy;
                        assert(j == i);
                    }
                    if yy == y && xx == x {
                        assert(placed(*p)[i as int].0 == xx && placed(*p)[i as int].1 == yy);
                    }
                    if yy != y {
                        assert(before.contains_key(yy));
                        assert(has(before[yy], xx) == has(self.rows@[yy], xx));
                    } else if before.contains_key(yy) {
                        assert(has(before[yy], xx) <==> ((rows.contains_key(yy) && has(rows[yy], xx)) || covers_first(*p, i as int, xx, yy)));
                    } else {
                        if covers_first(*p, i as int, xx, yy) {
                            let j = choose|j: int| 0 <= j < i && #[trigger] placed(*p)[j].0 == xx && placed(*p)[j].1 == yy;
                            assert(in_rows_first(*p, i as int, yy));
                        }
                    }
                }
            }
            i += 1;
        }
    }

    /// How many rows piece `p` can fall before it would meet a row cell or the
    /// floor: the least such distance over its cells, `None` when nothing lies
    /// below any of them, and `Some(0)` when a cell lies outside the walls.
    pub fn gap(&self, p: &Fall) -> (res: Option<i64>)
        requires
            columns_fit(*p),
            gap_in_range(self.rows@, *p),
        ensures
            !inside(*p) ==> res == Some(0i64),
            inside(*p) ==> match res {
                None => open_below(self.rows@, *p, 4),
                Some(d) => clear_for(self.rows@, *p, 4, d as int) && exists|i: int| 0 <= i < 4 && stops_at(self.rows@, *p, i, d as int),
            },
    {
        let c = p.cells();
        let ys = keys_of(&self.rows);
        let ghost rows = self.rows@;
        let mut best: Option<i64> = None;
        let mut i: usize = 0;
        while i < 4
            invariant
                i <= 4,
                c@ == placed(*p),
                rows == self.rows@,
                gap_in_range(rows, *p),
                forall|k: i64| ys@.contains(k) <==> rows.contains_key(k),
                inside_through(*p, i as int - 1),
                match best {
                    None => open_below(rows, *p, i as int),
                    Some(d) => clear_for(rows, *p, i as int, d as int) && exists|ii: int| 0 <= ii < i && stops_at(rows, *p, ii, d as int),
                },
            decreases 4 - i,
        {
            let (x, y) = c[i];
            if !(0 <= x && x < COLS) {
                return Some(0);
            }
            assert(inside_through(*p, i as int));
            if let Some(f) = FLOOR {
                if f > y {
                    let d = f - y - 1;
                    best = match best {
                        None => Some(d),
                        Some(b) => if d < b { Some(d) } else { Some(b) },
                    };
                }
            }
            let bit = 1u16 << (x as u16);
            let mut j: usize = 0;
            while j < ys.len()
                invariant
                    i < 4,
                    c@ == placed(*p),
                    x == placed(*p)[i as int].0,
                    y == placed(*p)[i as int].1,
                    0 <= x < COLS,
                    bit == 1u16 << (x as u16),
                    rows == self.rows@,
                    gap_in_range(rows, *p),
                    inside_through(*p, i as int),
                    forall|k: i64| ys@.contains(k) <==> rows.contains_key(k),
                    j <= ys.len(),
                    best is None ==> open_below(rows, *p, i as int),
                    best is None ==> !floor_under(*p, i as int),
                    best is None ==> forall|jj: int| 0 <= jj < j ==> !under(rows, *p, i as int, #[trigger] ys@[jj]),
                    best matches Some(d) ==> clear_for(rows, *p, i as int, d as int),
                    best matches Some(d) ==> (floor_under(*p, i as int) ==> d <= FLOOR->0 - y - 1),
                    best matches Some(d) ==> (forall|jj: int| 0 <= jj < j && under(rows, *p, i as int, #[trigger] ys@[jj]) ==> d <= ys@[jj] - y - 1),
                    best matches Some(d) ==> exists|ii: int| 0 <= ii <= i && stops_at(rows, *p, ii, d as int),
                decreases ys.len() - j,
            {
                let ry = ys[j];
                proof {
                    assert(ys@.contains(ry));
                }
                let mask = *self.rows.get(&ry).unwrap();
                if ry > y && mask & bit != 0 {
                    assert(under(rows, *p, i as int, ry));
                    let d = ry - y - 1;
                    assert(stops_at(rows, *p, i as int, d as int));
                    let ghost prev = best;
                    best = match best {
                        None => Some(d),
                        Some(b) => if d < b { Some(d) } else { Some(b) },
                    };
                    proof {
                        if best->0 == d {
                            assert(stops_at(rows, *p, i as int, best->0 as int));
                        } else {
                            let ii = choose|ii: int| 0 <= ii <= i && stops_at(rows, *p, ii, prev->0 as int);
                            assert(stops_at(rows, *p, ii, best->0 as int));
                        }
                    }
                } else {
                    assert(!under(rows, *p, i as int, ys@[j as int]));
                }
                j += 1;
            }
            proof {
                assert forall|ry: i64| #[trigger] under(rows, *p, i as int, ry) implies ys@.contains(ry) by {}
                match best {
                    None => {
                        assert forall|ii: int, ry: i64| 0 <= ii < i + 1 implies !#[trigger] under(rows, *p, ii, ry) by {
                            if ii == i && under(rows, *p, ii, ry) {
                                let jj = choose|jj: int| 0 <= jj < ys@.len() && ys@[jj] == ry;
                            }
                        }
                    },
                    Some(d) => {
                        assert forall|ii: int, ry: i64| 0 <= ii < i + 1 && #[trigger] under(rows, *p, ii, ry) implies d <= ry - placed(*p)[ii].1 - 1 by {
                            if ii == i {
                                let jj = choose|jj: int| 0 <= jj < ys@.len() && ys@[jj] == ry;
                            }
                        }
                    },
                }
            }
            i += 1;
        }
        best
    }

    /// Whether the distances that `gap` computes for `p` fit in an `i64` (see
    /// `gap_in_range`).
    pub fn gap_ok(&self, p: &Fall) -> (res: bool)
        requires
            columns_fit(*p),
        ensures
            res == gap_in_range(self.rows@, *p),
    {
        let c = p.cells();
        let ys = keys_of(&self.rows);
        let ghost rows = self.rows@;
        let mut i: usize = 0;
        while i < 4
            invariant
                i <= 4,
                c@ == placed(*p),
                rows == self.rows@,
                forall|k: i64| ys@.contains(k) <==> rows.contains_key(k),
                inside_through(*p, i as int - 1),
                forall|ii: int, ry: i64| 0 <= ii < i && #[trigger] under(rows, *p, ii, ry) ==> ry - placed(*p)[ii].1 <= i64::MAX,
                forall|ii: int| 0 <= ii < i && #[trigger] floor_under(*p, ii) ==> FLOOR->0 - placed(*p)[ii].1 <= i64::MAX,
            decreases 4 - i,
        {
            let (x, y) = c[i];
            if !(0 <= x && x < COLS) {
                proof {
                    assert forall|ii: int| i <= ii < 4 implies !#[trigger] inside_through(*p, ii) by {
                        assert(!(0 <= placed(*p)[i as int].0 < COLS));
                    }
                }
                return true;
            }
            assert(inside_through(*p, i as int));
            if let Some(f) = FLOOR {
                if f > y && y < 0 && f > i64::MAX + y {
                    assert(floor_under(*p, i as int));
                    return false;
                }
            }
            let bit = 1u16 << (x as u16);
            let mut j: usize = 0;
            while j < ys.len()
                invariant
                    i < 4,
                    c@ == placed(*p),
                    x == placed(*p)[i as int].0,
                    y == placed(*p)[i as int].1,
                    0 <= x < COLS,
                    bit == 1u16 << (x as u16),
                    rows == self.rows@,
                    forall|k: i64| ys@.contains(k) <==> rows.contains_key(k),
                    j <= ys.len(),
                    inside_through(*p, i as int),
                    forall|jj: int| 0 <= jj < j && under(rows, *p, i as int, #[trigger] ys@[jj]) ==> ys@[jj] - y <= i64::MAX,
                decreases ys.len() - j,
            {
                let ry = ys[j];
                proof {
                    assert(ys@.contains(ry));
                }
                let mask = *self.rows.get(&ry).unwrap();
                if ry > y && mask & bit != 0 && y < 0 && ry > i64::MAX + y {
                    assert(under(rows, *p, i as int, ry) && ry - placed(*p)[i as int].1 > i64::MAX);
                    return false;
                }
                j += 1;
            }
            proof {
                assert forall|ry: i64| #[trigger] under(rows, *p, i as int, ry) implies ry - y <= i64::MAX by {
                    assert(ys@.contains(ry));
                    let jj = choose|jj: int| 0 <= jj < ys@.len() && ys@[jj] == ry;
                }
            }
            i += 1;
        }
        true
    }

    /// Removes every full row, moves each remaining row down by the number of
    /// full rows below it, and returns how many rows were removed. The slice
    /// of candidate rows is not consulted: every row of the well is examined.
    pub fn clear(&mut self, _ys: &[i64]) -> (res: u32)
        ensures
            cleared(old(self).rows@, final(self).rows@),
            res == full_rows(old(self).rows@).len() as u32,
    {
        let ghost rows = self.rows@;
        let ys = keys_of(&self.rows);
        let ghost full_p = |y: i64| full(rows[y]);
        let mut hit: Vec<i64> = Vec::new();
        let mut i: usize = 0;
        proof {
            assert(ys@.take(0) =~= Seq::<i64>::empty());
            assert(ys@.take(0).to_set().filter(full_p) =~= Set::<i64>::empty());
            assert(hit@.to_set() =~= Set::<i64>::empty());
        }
        while i < ys.len()
            invariant
                rows == self.rows@,
                full_p == (|y: i64| full(rows[y])),
                i <= ys.len(),
                ys@.no_duplicates(),
                forall|k: i64| ys@.contains(k) <==> rows.contains_key(k),
                hit@.no_duplicates(),
                hit@.to_set() == ys@.take(i as int).to_set().filter(full_p),
                hit@.len() == ys@.take(i as int).to_set().filter(full_p).len(),
            decreases ys.len() - i,
        {
            let y = ys[i];
            proof {
                assert(ys@.contains(y));
                lemma_prefix_step(ys@, i as int, full_p);
            }
            let m = *self.rows.get(&y).unwrap();
            proof {
                assert(full_p(y) == (m & 0x03FF == 0x03FF));
            }
            if m & 0x03FF == 0x03FF {
                proof {
                    if hit@.contains(y) {
                        assert(hit@.to_set().contains(y));
                    }
                    hit@.lemma_push_to_set_commute(y);
                }
                hit.push(y);
            }
            i += 1;
        }
        proof {
            assert(ys@.take(ys.len() as int) =~= ys@);
            assert(ys@.to_set() =~= rows.dom());
            assert(hit@.to_set() =~= full_rows(rows));
        }
        let mut fresh: HashMap<i64, u16> = HashMap::new();
        let mut j: usize = 0;
        while j < ys.len()
            invariant
                rows == self.rows@,
                rows.dom().finite(),
                j <= ys.len(),
                ys@.no_duplicates(),
                forall|k: i64| ys@.contains(k) <==> rows.contains_key(k),
                hit@.no_duplicates(),
                hit@.to_set() == full_rows(rows),
                forall|ry: i64| #[trigger] kept(rows, ry) && ys@.take(j as int).contains(ry) ==> {
                    &&& fresh@.contains_key((ry + drop_of(rows, ry)) as i64)
                    &&& fresh@[(ry + drop_of(rows, ry)) as i64] == rows[ry]
                },
                forall|y: i64| #[trigger] fresh@.contains_key(y) ==> exists|ry: i64| #[trigger] kept(rows, ry) && ys@.take(j as int).contains(ry) && y == ry + drop_of(rows, ry),
            decreases ys.len() - j,
        {
            let ry = ys[j];
            let ghost nj: int = j as int + 1;
            proof {
                assert(ys@.contains(ry));
            }
            let m = *self.rows.get(&ry).unwrap();
            if m & 0x03FF != 0x03FF {
                let ghost above = |c: i64| c > ry;
                let mut n: usize = 0;
                let mut k: usize = 0;
                proof {
                    assert(hit@.take(0) =~= Seq::<i64>::empty());
                    assert(hit@.take(0).to_set().filter(above) =~= Set::<i64>::empty());
                }
                while k < hit.len()
                    invariant
                        k <= hit.len(),
                        n <= k,
                        above == (|c: i64| c > ry),
                        hit@.no_duplicates(),
                        n == hit@.take(k as int).to_set().filter(above).len(),
                    decreases hit.len() - k,
                {
                    proof {
                        lemma_prefix_step(hit@, k as int, above);
                        assert(above(hit@[k as int]) == (hit@[k as int] > ry));
                    }
                    if hit[k] > ry {
                        n += 1;
                    }
                    k += 1;
                }
                proof {
                    assert(hit@.take(hit.len() as int) =~= hit@);
                    assert(hit@.to_set().filter(above) =~= full_rows(rows).filter(|c: i64| c > ry));
                    lemma_drop_room(rows, ry);
                    assert(n == drop_of(rows, ry));
                }
                let dest = (ry as i128 + n as i128) as i64;
                proof {
                    assert(kept(rows, ry));
                    assert(dest == ry + drop_of(rows, ry));
                    if fresh@.contains_key(dest) {
                        let other = choose|r2: i64| #[trigger] kept(rows, r2) && ys@.take(j as int).contains(r2) && dest == r2 + drop_of(rows, r2);
                        let jj = choose|jj: int| 0 <= jj < j && ys@.take(j as int)[jj] == other;
                        assert(other != ry);
                        if other < ry {
                            lemma_drop_order(rows, other, ry);
                        } else {
                            lemma_drop_order(rows, ry, other);
                        }
                    }
                }
                let prev: u16 = match fresh.get(&dest) {
                    Some(v) => *v,
                    None => 0,
                };
                assert(0u16 | m == m) by (bit_vector);
                fresh.insert(dest, prev | m);
                proof {
                    assert forall|r2: i64| #[trigger] kept(rows, r2) && ys@.take(nj).contains(r2) implies {
                        &&& fresh@.contains_key((r2 + drop_of(rows, r2)) as i64)
                        &&& fresh@[(r2 + drop_of(rows, r2)) as i64] == rows[r2]
                    } by {
                        if r2 != ry {
                            let jj = choose|jj: int| 0 <= jj < nj && ys@.take(nj)[jj] == r2;
                            assert(ys@.take(j as int)[jj] == r2);
                            if r2 < ry {
                                lemma_drop_order(rows, r2, ry);
                            } else {
                                lemma_drop_order(rows, ry, r2);
                            }
                        }
                    }
                    assert forall|y: i64| #[trigger] fresh@.contains_key(y) implies exists|r2: i64| #[trigger] kept(rows, r2) && ys@.take(nj).contains(r2) && y == r2 + drop_of(rows, r2) by {
                        if y == dest {
                            assert(ys@.take(nj)[j as int] == ry);
                            assert(ys@.take(nj).contains(ry));
                        } else {
                            let r2 = choose|r2: i64| #[trigger] kept(rows, r2) && ys@.take(j as int).contains(r2) && y == r2 + drop_of(rows, r2);
                            let jj = choose|jj: int| 0 <= jj < j && ys@.take(j as int)[jj] == r2;
                            assert(ys@.take(nj)[jj] == r2);
                        }
                    }
                }
            } else {
                proof {
                    assert forall|r2: i64| #[trigger] kept(rows, r2) && ys@.take(nj).contains(r2) implies ys@.take(j as int).contains(r2) by {
                        let jj = choose|jj: int| 0 <= jj < nj && ys@.take(nj)[jj] == r2;
                        assert(jj != j);
                        assert(ys@.take(j as int)[jj] == r2);
                    }
                    assert forall|y: i64| #[trigger] fresh@.contains_key(y) implies exists|r2: i64| #[trigger] kept(rows, r2) && ys@.take(nj).contains(r2) && y == r2 + drop_of(rows, r2) by {
                        let r2 = choose|r2: i64| #[trigger] kept(rows, r2) && ys@.take(j as int).contains(r2) && y == r2 + drop_of(rows, r2);
                        let jj = choose|jj: int| 0 <= jj < j && ys@.take(j as int)[jj] == r2;
                        assert(ys@.take(nj)[jj] == r2);
                    }
                }
            }
            j += 1;
        }
        proof {
            assert(ys@.take(ys.len() as int) =~= ys@);
            assert forall|ry: i64| #[trigger] kept(rows, ry) implies ry + drop_of(rows, ry) <= i64::MAX by {
                lemma_drop_room(rows, ry);
            }
        }
        self.rows = fresh;
        hit.len() as u32
    }

    /// Moves every row up by `dy` rows (row `y` becomes row `y - dy`).
    pub fn shift(&mut self, dy: i64)
        requires
            forall|y: i64| #[trigger] old(self).rows@.contains_key(y) ==> i64::MIN <= y - dy <= i64::MAX,
        ensures
            final(self).rows@ == shifted(old(self).rows@, dy),
    {
        let ghost rows = self.rows@;
        let ys = keys_of(&self.rows);
        let mut moved: HashMap<i64, u16> = HashMap::new();
        let mut i: usize = 0;
        while i < ys.len()
            invariant
                rows == self.rows@,
                i <= ys.len(),
                ys@.no_duplicates(),
                forall|k: i64| ys@.contains(k) <==> rows.contains_key(k),
                forall|y: i64| #[trigger] rows.contains_key(y) ==> i64::MIN <= y - dy <= i64::MAX,
                forall|y: i64| #[trigger] moved@.contains_key(y) <==> (i64::MIN <= y + dy <= i64::MAX
                    && ys@.take(i as int).contains((y + dy) as i64)),
                forall|y: i64| #[trigger] moved@.contains_key(y) ==> moved@[y] == rows[(y + dy) as i64],
            decreases ys.len() - i,
        {
            let y = ys[i];
            proof {
                assert(ys@.contains(y));
            }
            let m = *self.rows.get(&y).unwrap();
            moved.insert(y - dy, m);
            proof {
                let ni = i as int + 1;
                assert forall|yy: i64| #[trigger] moved@.contains_key(yy) <==> (i64::MIN <= yy + dy <= i64::MAX
                    && ys@.take(ni).contains((yy + dy) as i64)) by {
                    if i64::MIN <= yy + dy <= i64::MAX && ys@.take(ni).contains((yy + dy) as i64) {
                        let jj = choose|jj: int| 0 <= jj < ni && ys@.take(ni)[jj] == (yy + dy) as i64;
                        if jj < i {
                            assert(ys@.take(i as int)[jj] == (yy + dy) as i64);
                        }
                    }
                    if yy == y - dy {
                        assert(ys@.take(ni)[i as int] == y);
                    } else if moved@.contains_key(yy) {
                        let jj = choose|jj: int| 0 <= jj < i && ys@.take(i as int)[jj] == (yy + dy) as i64;
                        assert(ys@.take(ni)[jj] == (yy + dy) as i64);
                    }
                }
            }
            i += 1;
        }
        proof {
            assert(ys@.take(ys.len() as int) =~= ys@);
            assert(moved@ =~= shifted(rows, dy));
        }
        self.rows = moved;
    }

    /// Forgets every row more than `KEEP` rows away from row `y`. A well with
    /// a floor keeps all its rows.
    pub fn prune(&mut self, y: i64)
        requires
            rows_within(old(self).rows@, y),
        ensures
            final(self).rows@ == pruned(old(self).rows@, y),
    {
        if FLOOR.is_some() {
            return;
        }
        let ghost rows = self.rows@;
        let ghost near = rows.dom().filter(|ry: i64| -KEEP <= ry - y <= KEEP);
        let ys = keys_of(&self.rows);
        let mut i: usize = 0;
        while i < ys.len()
            invariant
                i <= ys.len(),
                ys@.no_duplicates(),
                forall|k: i64| ys@.contains(k) <==> rows.contains_key(k),
                forall|ry: i64| #[trigger] rows.contains_key(ry) ==> i64::MIN < ry - y <= i64::MAX,
                near == rows.dom().filter(|ry: i64| -KEEP <= ry - y <= KEEP),
                forall|ry: i64| #[trigger] self.rows@.contains_key(ry) <==> (rows.contains_key(ry)
                    && (near.contains(ry) || !ys@.take(i as int).contains(ry))),
                forall|ry: i64| #[trigger] self.rows@.contains_key(ry) ==> self.rows@[ry] == rows[ry],
            decreases ys.len() - i,
        {
            let ry = ys[i];
            proof {
                assert(ys@.contains(ry));
            }
            if (ry - y).abs() > KEEP {
                self.rows.remove(&ry);
            }
            proof {
                let ni = i as int + 1;
                assert forall|r: i64| #[trigger] self.rows@.contains_key(r) <==> (rows.contains_key(r)
                    && (near.contains(r) || !ys@.take(ni).contains(r))) by {
                    if ys@.take(ni).contains(r) && r != ry {
                        let jj = choose|jj: int| 0 <= jj < ni && ys@.take(ni)[jj] == r;
                        assert(ys@.take(i as int)[jj] == r);
                    }
                    if r != ry && ys@.take(i as int).contains(r) {
                        let jj = choose|jj: int| 0 <= jj < i && ys@.take(i as int)[jj] == r;
                        assert(ys@.take(ni)[jj] == r);
                    }
                    if r == ry {
                        assert(ys@.take(ni)[i as int] == r);
                    }
                }
            }
            i += 1;
        }
        proof {
            assert(ys@.take(ys.len() as int) =~= ys@);
            assert(self.rows@ =~= rows.restrict(near));
        }
    }

    /// Whether every row is a representable distance from row `y`.
    pub fn within(&self, y: i64) -> (res: bool)
        ensures
            res == rows_within(self.rows@, y),
    {
        let ys = keys_of(&self.rows);
        let mut i: usize = 0;
        while i < ys.len()
            invariant
                i <= ys.len(),
                forall|k: i64| ys@.contains(k) <==> self.rows@.contains_key(k),
                forall|j: int| 0 <= j < i ==> i64::MIN < #[trigger] ys@[j] - y <= i64::MAX,
            decreases ys.len() - i,
        {
            let k = ys[i];
            if y > 0 && k < i64::MIN + y {
                proof {
                    assert(ys@.contains(k));
                }
                return false;
            }
            if y < 0 && k > i64::MAX + y {
                proof {
                    assert(ys@.contains(k));
                }
                return false;
            }
            if y >= 0 && k == i64::MIN + y {
                proof {
                    assert(ys@.contains(k));
                }
                return false;
            }
            i += 1;
        }
        proof {
            assert forall|k: i64| #[trigger] self.rows@.contains_key(k) implies i64::MIN < k - y <= i64::MAX by {
                assert(ys@.contains(k));
                let j = choose|j: int| 0 <= j < ys@.len() && ys@[j] == k;
            }
        }
        true
    }

    /// The topmost (least) row index that holds a cell, if any.
    pub fn top(&self) -> (res: Option<i64>)
        ensures
            match res {
                None => self.rows@.dom().is_empty(),
                Some(t) => self.rows@.contains_key(t) && forall|k: i64| #[trigger] self.rows@.contains_key(k) ==> t <= k,
            },
    {
        let ys = keys_of(&self.rows);
        let mut best: Option<i64> = None;
        let mut i: usize = 0;
        while i < ys.len()
            invariant
                i <= ys.len(),
                forall|k: i64| ys@.contains(k) <==> self.rows@.contains_key(k),
                best is None <==> i == 0,
                best matches Some(t) ==> self.rows@.contains_key(t) && forall|j: int| 0 <= j < i ==> t <= #[trigger] ys@[j],
            decreases ys.len() - i,
        {
            proof {
                assert(ys@.contains(ys@[i as int]));
            }
            best = match best {
                None => Some(ys[i]),
                Some(t) => if ys[i] < t { Some(ys[i]) } else { Some(t) },
            };
            i += 1;
        }
        proof {
            if best is None {
                if self.rows@.dom().len() > 0 {
                    let k = self.rows@.dom().choose();
                    assert(ys@.contains(k));
                }
                assert(self.rows@.dom() =~= Set::empty());
            } else {
                let t = best->0;
                assert forall|k: i64| #[trigger] self.rows@.contains_key(k) implies t <= k by {
                    assert(ys@.contains(k));
                    let j = choose|j: int| 0 <= j < ys@.len() && ys@[j] == k;
                    assert(t <= ys@[j]);
                }
            }
        }
        best
    }
}

/// Setting bit `b` of a mask sets that bit and leaves the others as they were.
proof fn lemma_set_bit(m: u16, b: u16, x: u16)
    requires
        b < 16,
        x < 16,
    ensures
        ((m | (1u16 << b)) & (1u16 << x) != 0) <==> (m & (1u16 << x) != 0 || b == x),
        0u16 & (1u16 << x) == 0,
{
    assert(((m | (1u16 << b)) & (1u16 << x) != 0) <==> (m & (1u16 << x) != 0 || b == x)) by (bit_vector)
        requires b < 16, x < 16;
    assert(0u16 & (1u16 << x) == 0) by (bit_vector);
}

/// The landing distance is the least of the stopping distances: a distance
/// that every obstacle allows is no larger than any distance at which some
/// cell is stopped.
pub proof fn lemma_landing_unique(rows: Map<i64, u16>, p: Fall, d: int, e: int)
    requires
        clear_for(rows, p, 4, d),
        exists|i: int| 0 <= i < 4 && #[trigger] stops_at(rows, p, i, e),
    ensures
        d <= e,
{
    let i = choose|i: int| 0 <= i < 4 && #[trigger] stops_at(rows, p, i, e);
    if exists|ry: i64| #[trigger] under(rows, p, i, ry) && e == ry - placed(p)[i].1 - 1 {
        let ry = choose|ry: i64| #[trigger] under(rows, p, i, ry) && e == ry - placed(p)[i].1 - 1;
    }
}

/// Clearing keeps the surviving rows in their order and never lands two of
/// them on the same row.
pub proof fn lemma_clear_keeps_order(rows: Map<i64, u16>, after: Map<i64, u16>, r1: i64, r2: i64)
    requires
        rows.dom().finite(),
        cleared(rows, after),
        kept(rows, r1),
        kept(rows, r2),
        r1 < r2,
    ensures
        r1 + drop_of(rows, r1) < r2 + drop_of(rows, r2),
        after[(r1 + drop_of(rows, r1)) as i64] == rows[r1],
        after[(r2 + drop_of(rows, r2)) as i64] == rows[r2],
{
    lemma_drop_order(rows, r1, r2);
}

/// After a clear no row is full, and exactly the rows that were not full
/// remain: the well loses as many rows as were cleared.
pub proof fn lemma_clear_count(rows: Map<i64, u16>, after: Map<i64, u16>)
    requires
        rows.dom().finite(),
        cleared(rows, after),
    ensures
        full_rows(after).len() == 0,
        after.dom().finite(),
        after.dom().len() + full_rows(rows).len() == rows.dom().len(),
{
    let keep = rows.dom().filter(|y: i64| !full(rows[y]));
    let f = full_rows(rows);
    rows.dom().lemma_len_filter(|y: i64| !full(rows[y]));
    rows.dom().lemma_len_filter(|y: i64| full(rows[y]));
    assert(rows.dom() =~= keep + f);
    vstd::set_lib::lemma_set_disjoint_lens(keep, f);
    let land = |ry: i64| (ry + drop_of(rows, ry)) as i64;
    assert forall|y: i64| #[trigger] after.dom().contains(y) <==> keep.map(land).contains(y) by {
        if after.dom().contains(y) {
            let ry = choose|ry: i64| #[trigger] kept(rows, ry) && y == ry + drop_of(rows, ry);
            assert(keep.contains(ry));
            assert(land(ry) == y);
        }
        if keep.map(land).contains(y) {
            let ry = choose|ry: i64| keep.contains(ry) && land(ry) == y;
            assert(kept(rows, ry));
        }
    }
    assert(after.dom() =~= keep.map(land));
    assert forall|a: i64, b: i64| keep.contains(a) && keep.contains(b) && #[trigger] land(a) == #[trigger] land(b) implies a == b by {
        assert(kept(rows, a) && kept(rows, b));
        lemma_drop_room(rows, a);
        lemma_drop_room(rows, b);
        if a < b {
            lemma_drop_order(rows, a, b);
        } else if b < a {
            lemma_drop_order(rows, b, a);
        }
    }
    keep.lemma_map_finite(land);
    vstd::set_lib::lemma_map_size(keep, keep.map(land), land);
    assert forall|y: i64| !#[trigger] full_rows(after).contains(y) by {
        if full_rows(after).contains(y) {
            let ry = choose|ry: i64| #[trigger] kept(rows, ry) && y == ry + drop_of(rows, ry);
            lemma_drop_room(rows, ry);
        }
    }
    assert(full_rows(after) =~= Set::empty());
}

/// A piece that fits and can fall `d` rows onto an obstacle fits `d` rows
/// lower, and would overlap something one row lower still.
pub proof fn lemma_gap_lands(rows: Map<i64, u16>, p: Fall, d: int)
    requires
        room_for(rows, p),
        0 <= d,
        clear_for(rows, p, 4, d),
        exists|i: int| 0 <= i < 4 && #[trigger] stops_at(rows, p, i, d),
        p.y + d + 4 <= i64::MAX,
    ensures
        room_for(rows, Fall { y: (p.y + d) as i64, ..p }),
        !room_for(rows, Fall { y: (p.y + d + 1) as i64, ..p }),
{
    let q = Fall { y: (p.y + d) as i64, ..p };
    let q1 = Fall { y: (p.y + d + 1) as i64, ..p };
    crate::piece::lemma_shape_span(p.k, (p.r % 4) as int);
    assert forall|i: int| 0 <= i < 4 implies placed(q)[i].0 == placed(p)[i].0 && placed(q)[i].1 == placed(p)[i].1 + d
        && #[trigger] placed(q1)[i].0 == placed(p)[i].0 && placed(q1)[i].1 == placed(p)[i].1 + d + 1 by {}
    assert forall|i: int| 0 <= i < 4 implies !filled(rows, #[trigger] placed(q)[i].0 as int, placed(q)[i].1) by {
        assert(!filled(rows, placed(p)[i].0 as int, placed(p)[i].1));
        if d > 0 && filled(rows, placed(q)[i].0 as int, placed(q)[i].1) {
            assert(under(rows, p, i, placed(q)[i].1));
        }
    }
    let i = choose|i: int| 0 <= i < 4 && #[trigger] stops_at(rows, p, i, d);
    if exists|ry: i64| #[trigger] under(rows, p, i, ry) && d == ry - placed(p)[i].1 - 1 {
        let ry = choose|ry: i64| #[trigger] under(rows, p, i, ry) && d == ry - placed(p)[i].1 - 1;
        assert(filled(rows, placed(q1)[i].0 as int, placed(q1)[i].1));
    }
}

/// Shifting the rows moves every occupied cell with them.
pub proof fn lemma_shift_moves_cells(rows: Map<i64, u16>, dy: i64, x: int, y: i64)
    requires
        FLOOR is None,
        i64::MIN <= y - dy <= i64::MAX,
    ensures
        filled(shifted(rows, dy), x, (y - dy) as i64) == filled(rows, x, y),
{
}

/// Shifting keeps the number of rows, and shifting back by the same amount
/// gives back the rows as they were.
pub proof fn lemma_shift_back(rows: Map<i64, u16>, dy: i64)
    requires
        rows.dom().finite(),
        dy != i64::MIN,
        forall|k: i64| #[trigger] rows.contains_key(k) ==> i64::MIN <= k - dy <= i64::MAX,
    ensures
        shifted(rows, dy).dom().len() == rows.dom().len(),
        shifted(shifted(rows, dy), (-dy) as i64) == rows,
{
    let f = |k: i64| (k - dy) as i64;
    let moved = shifted(rows, dy);
    assert forall|y: i64| #[trigger] moved.contains_key(y) implies rows.dom().map(f).contains(y) by {
        assert(f((y + dy) as i64) == y);
    }
    assert forall|y: i64| #[trigger] rows.dom().map(f).contains(y) implies moved.contains_key(y) by {
        let k = choose|k: i64| rows.dom().contains(k) && f(k) == y;
        assert(k == y + dy);
    }
    assert(rows.dom().map(f) =~= moved.dom());
    assert(vstd::relations::injective_on(f, rows.dom()));
    vstd::set_lib::lemma_map_size(rows.dom(), moved.dom(), f);
    assert(shifted(moved, (-dy) as i64) =~= rows);
}

/// Once stamped, every cell of the piece is solid, so the piece no longer fits
/// where it was stamped.
pub proof fn lemma_stamp_fills(rows: Map<i64, u16>, after: Map<i64, u16>, p: Fall)
    requires
        stamped_first(rows, after, p, 4),
        columns_in_mask(p),
    ensures
        forall|i: int| 0 <= i < 4 ==> filled(after, #[trigger] placed(p)[i].0 as int, placed(p)[i].1),
        !room_for(after, p),
{
    assert forall|i: int| 0 <= i < 4 implies filled(after, #[trigger] placed(p)[i].0 as int, placed(p)[i].1) by {
        assert(in_rows_first(p, 4, placed(p)[i].1));
        assert(after.contains_key(placed(p)[i].1));
        assert(covers_first(p, 4, placed(p)[i].0 as int, placed(p)[i].1));
        assert(has(after[placed(p)[i].1], placed(p)[i].0 as int));
    }
    assert(filled(after, placed(p)[0].0 as int, placed(p)[0].1));
}

/// In an empty well without a floor nothing ever stops a piece: a piece fits
/// exactly when it is between the walls, and nothing lies below it.
pub proof fn lemma_void(p: Fall)
    requires
        FLOOR is None,
    ensures
        room_for(Map::<i64, u16>::empty(), p) <==> inside(p),
        open_below(Map::<i64, u16>::empty(), p, 4),
{
}

/// Whether a piece lies between the walls does not depend on its row.
pub proof fn lemma_inside_any_row(p: Fall, y: i64)
    ensures
        inside(p) == inside(Fall { y, ..p }),
{
    let q = Fall { y, ..p };
    assert forall|i: int| 0 <= i < 4 implies #[trigger] placed(p)[i].0 == placed(q)[i].0 by {}
    if inside(p) {
        assert forall|j: int| 0 <= j <= 3 implies 0 <= #[trigger] placed(q)[j].0 < COLS by {
            assert(placed(p)[j].0 == placed(q)[j].0);
        }
    }
    if inside(q) {
        assert forall|j: int| 0 <= j <= 3 implies 0 <= #[trigger] placed(p)[j].0 < COLS by {
            assert(placed(p)[j].0 == placed(q)[j].0);
        }
    }
}

/// Stamping a piece into a well has exactly one outcome.
pub proof fn lemma_stamp_unique(rows: Map<i64, u16>, a: Map<i64, u16>, b: Map<i64, u16>, p: Fall)
    requires
        stamped_first(rows, a, p, 4),
        stamped_first(rows, b, p, 4),
    ensures
        a == b,
{
    assert forall|y: i64| #[trigger] a.contains_key(y) implies a[y] == b[y] by {
        assert(b.contains_key(y));
        lemma_mask_by_bits(a[y], b[y]);
    }
    assert(a =~= b);
}

/// Two masks that agree on every bit are equal.
proof fn lemma_mask_by_bits(m: u16, n: u16)
    requires
        forall|x: int| 0 <= x < 16 ==> #[trigger] has(m, x) == has(n, x),
    ensures
        m == n,
{
    assert(has(m, 0) == has(n, 0));
    assert(has(m, 1) == has(n, 1));
    assert(has(m, 2) == has(n, 2));
    assert(has(m, 3) == has(n, 3));
    assert(has(m, 4) == has(n, 4));
    assert(has(m, 5) == has(n, 5));
    assert(has(m, 6) == has(n, 6));
    assert(has(m, 7) == has(n, 7));
    assert(has(m, 8) == has(n, 8));
    assert(has(m, 9) == has(n, 9));
    assert(has(m, 10) == has(n, 10));
    assert(has(m, 11) == has(n, 11));
    assert(has(m, 12) == has(n, 12));
    assert(has(m, 13) == has(n, 13));
    assert(has(m, 14) == has(n, 14));
    assert(has(m, 15) == has(n, 15));
    assert(m == n) by (bit_vector)
        requires
            (m & (1u16 << 0u16) != 0) == (n & (1u16 << 0u16) != 0),
            (m & (1u16 << 1u16) != 0) == (n & (1u16 << 1u16) != 0),
            (m & (1u16 << 2u16) != 0) == (n & (1u16 << 2u16) != 0),
            (m & (1u16 << 3u16) != 0) == (n & (1u16 << 3u16) != 0),
            (m & (1u16 << 4u16) != 0) == (n & (1u16 << 4u16) != 0),
            (m & (1u16 << 5u16) != 0) == (n & (1u16 << 5u16) != 0),
            (m & (1u16 << 6u16) != 0) == (n & (1u16 << 6u16) != 0),
            (m & (1u16 << 7u16) != 0) == (n & (1u16 << 7u16) != 0),
            (m & (1u16 << 8u16) != 0) == (n & (1u16 << 8u16) != 0),
            (m & (1u16 << 9u16) != 0) == (n & (1u16 << 9u16) != 0),
            (m & (1u16 << 10u16) != 0) == (n & (1u16 << 10u16) != 0),
            (m & (1u16 << 11u16) != 0) == (n & (1u16 << 11u16) != 0),
            (m & (1u16 << 12u16) != 0) == (n & (1u16 << 12u16) != 0),
            (m & (1u16 << 13u16) != 0) == (n & (1u16 << 13u16) != 0),
            (m & (1u16 << 14u16) != 0) == (n & (1u16 << 14u16) != 0),
            (m & (1u16 << 15u16) != 0) == (n & (1u16 << 15u16) != 0);
}

/// Clearing is determined by the rows cleared: two wells that both come from
/// `rows` by a clear are the same.
pub proof fn lemma_clear_unique(rows: Map<i64, u16>, a: Map<i64, u16>, b: Map<i64, u16>)
    requires
        cleared(rows, a),
        cleared(rows, b),
    ensures
        a == b,
{
    assert forall|y: i64| #[trigger] a.contains_key(y) implies b.contains_key(y) && a[y] == b[y] by {
        let ry = choose|ry: i64| #[trigger] kept(rows, ry) && y == ry + drop_of(rows, ry);
    }
    assert forall|y: i64| #[trigger] b.contains_key(y) implies a.contains_key(y) by {
        let ry = choose|ry: i64| #[trigger] kept(rows, ry) && y == ry + drop_of(rows, ry);
    }
    assert(a =~= b);
}

/// Clearing keeps the rows inside any band that held them before: a surviving
/// row only falls, and never below the lowest row.
pub proof fn lemma_clear_span(rows: Map<i64, u16>, after: Map<i64, u16>, lo: int, hi: int)
    requires
        rows.dom().finite(),
        cleared(rows, after),
        forall|k: i64| #[trigger] rows.contains_key(k) ==> lo <= k <= hi,
    ensures
        forall|k: i64| #[trigger] after.contains_key(k) ==> lo <= k <= hi,
{
    assert forall|k: i64| #[trigger] after.contains_key(k) implies lo <= k <= hi by {
        let ry = choose|ry: i64| #[trigger] kept(rows, ry) && k == ry + drop_of(rows, ry);
        let f = full_rows(rows);
        rows.dom().lemma_len_filter(|y: i64| full(rows[y]));
        f.lemma_len_filter(|c: i64| c > ry);
        lemma_between_len(f.filter(|c: i64| c > ry), ry as int, hi + 1);
    }
}

/// A finite set of row indices that all lie strictly between `a` and `b` has
/// at most `b - a - 1` elements.
proof fn lemma_between_len(s: Set<i64>, a: int, b: int)
    requires
        s.finite(),
        a < b,
        forall|y: i64| #[trigger] s.contains(y) ==> a < y < b,
    ensures
        s.len() <= b - a - 1,
    decreases b - a,
{
    if b - a <= 1 {
        assert(s =~= Set::empty());
    } else {
        let low = s.filter(|y: i64| y < b - 1);
        let high = s.filter(|y: i64| y >= b - 1);
        s.lemma_len_filter(|y: i64| y < b - 1);
        s.lemma_len_filter(|y: i64| y >= b - 1);
        lemma_between_len(low, a, b - 1);
        assert(s =~= low + high);
        vstd::set_lib::lemma_set_disjoint_lens(low, high);
        if high.len() > 0 {
            let y = high.choose();
            assert(high =~= set![y]);
        }
    }
}

/// Removing the full rows of `rows` leaves room for every row that stays: a row
/// never falls past the largest row index.
proof fn lemma_drop_room(rows: Map<i64, u16>, ry: i64)
    requires
        rows.dom().finite(),
    ensures
        0 <= drop_of(rows, ry),
        ry + drop_of(rows, ry) <= i64::MAX,
{
    let f = full_rows(rows);
    rows.dom().lemma_len_filter(|y: i64| full(rows[y]));
    f.lemma_len_filter(|c: i64| c > ry);
    lemma_between_len(f.filter(|c: i64| c > ry), ry as int, i64::MAX + 1);
}

/// Two rows that survive a clear land on different rows, and in the same order.
proof fn lemma_drop_order(rows: Map<i64, u16>, r1: i64, r2: i64)
    requires
        rows.dom().finite(),
        kept(rows, r1),
        kept(rows, r2),
        r1 < r2,
    ensures
        r1 + drop_of(rows, r1) < r2 + drop_of(rows, r2),
{
    let f = full_rows(rows);
    rows.dom().lemma_len_filter(|y: i64| full(rows[y]));
    let above1 = f.filter(|c: i64| c > r1);
    let above2 = f.filter(|c: i64| c > r2);
    let mid = f.filter(|c: i64| r1 < c < r2);
    f.lemma_len_filter(|c: i64| c > r1);
    f.lemma_len_filter(|c: i64| c > r2);
    f.lemma_len_filter(|c: i64| r1 < c < r2);
    assert(above1 =~= mid + above2);
    vstd::set_lib::lemma_set_disjoint_lens(mid, above2);
    lemma_between_len(mid, r1 as int, r2 as int);
}

/// Stepping a prefix of a duplicate-free sequence by one element adds that
/// element to the filtered prefix set exactly when it passes the filter.
proof fn lemma_prefix_step(s: Seq<i64>, i: int, p: spec_fn(i64) -> bool)
    requires
        s.no_duplicates(),
        0 <= i < s.len(),
    ensures
        s.take(i).to_set().filter(p).finite(),
        !s.take(i).to_set().contains(s[i]),
        s.take(i + 1).to_set().filter(p) == (if p(s[i]) {
            s.take(i).to_set().filter(p).insert(s[i])
        } else {
            s.take(i).to_set().filter(p)
        }),
{
    vstd::seq_lib::seq_to_set_is_finite(s.take(i));
    s.take(i).to_set().lemma_len_filter(p);
    if s.take(i).to_set().contains(s[i]) {
        let j = choose|j: int| 0 <= j < i && s.take(i)[j] == s[i];
        assert(s[j] == s[i]);
    }
    assert(s.take(i + 1) =~= s.take(i).push(s[i]));
    s.take(i).lemma_push_to_set_commute(s[i]);
    assert(s.take(i + 1).to_set().filter(p) =~= (if p(s[i]) {
        s.take(i).to_set().filter(p).insert(s[i])
    } else {
        s.take(i).to_set().filter(p)
    }));
}

/// The row indices of `rows`, each once, in the map's own order.
fn keys_of(rows: &HashMap<i64, u16>) -> (res: Vec<i64>)
    ensures
        res@.no_duplicates(),
        forall|k: i64| res@.contains(k) <==> rows@.contains_key(k),
{
    let mut v: Vec<i64> = Vec::new();
    let ghost order = vstd::std_specs::hash::spec_keys_iter(rows).remaining();
    for y in it: rows.keys()
        invariant
            it.seq() == order,
            v@.len() == it.index(),
            forall|j: int| 0 <= j < it.index() ==> v@[j] == *order[j],
    {
        v.push(*y);
    }
    proof {
        assert(v@ =~= order.unref());
    }
    v
}

} // verus!
