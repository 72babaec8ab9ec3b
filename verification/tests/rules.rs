use tetris::bag::deal;
use tetris::glyphs::{glyph, lettering};
use tetris::scene::extent;
use tetris::{cells, kicks, Fall, Game, Kind, Ledger, Queue, Spin, Well, KEEP, RESETS, SHIFT};

fn p(k: Kind, x: i32, y: i64, r: u8) -> Fall {
    Fall { k, x, y, r }
}

const KINDS: [Kind; 7] = [Kind::I, Kind::O, Kind::T, Kind::S, Kind::Z, Kind::J, Kind::L];

#[test]
fn cells_wrap_rotation() {
    assert_eq!(cells(Kind::T, 1), [(1, 0), (1, 1), (2, 1), (1, 2)]);
    assert_eq!(cells(Kind::T, 5), cells(Kind::T, 1));
    assert_eq!(cells(Kind::I, 2), [(0, 2), (1, 2), (2, 2), (3, 2)]);
    for r in 0..4 {
        assert_eq!(cells(Kind::O, r), [(1, 0), (2, 0), (1, 1), (2, 1)]);
    }
}

#[test]
fn kicks_tables() {
    assert_eq!(kicks(Kind::I, 0, 1), [(0, 0), (-2, 0), (1, 0), (-2, -1), (1, 2)]);
    assert_eq!(kicks(Kind::T, 0, 1), [(0, 0), (-1, 0), (-1, 1), (0, -2), (-1, -2)]);
    assert_eq!(kicks(Kind::T, 0, 2), [(0, 0); 5]);
    for k in KINDS {
        for a in 0..4u8 {
            let b = (a + 1) % 4;
            let there = kicks(k, a, b);
            let back = kicks(k, b, a);
            for i in 0..5 {
                assert_eq!(back[i], (-there[i].0, -there[i].1));
            }
            assert_eq!(there[0], (0, 0));
        }
    }
}

#[test]
fn fall_cells_saturate() {
    let f = p(Kind::I, 2, i64::MAX - 1, 1);
    assert_eq!(f.cells(), [(4, i64::MAX - 1), (4, i64::MAX), (4, i64::MAX), (4, i64::MAX)]);
    let g = f.at(-1, 10, 3);
    assert_eq!((g.x, g.y, g.r), (1, i64::MAX, 3));
    let h = p(Kind::S, 0, i64::MIN, 0).at(0, -1, 0);
    assert_eq!(h.y, i64::MIN);
}

#[test]
fn solid_walls_and_rows() {
    let mut w = Well::new();
    assert!(w.solid(-1, 0));
    assert!(w.solid(10, 0));
    assert!(!w.solid(0, 0));
    w.rows.insert(3, 0b10_0000_0001);
    assert!(w.solid(0, 3));
    assert!(w.solid(9, 3));
    assert!(!w.solid(5, 3));
    assert!(!w.solid(0, 4));
}

#[test]
fn stamp_then_piece_no_longer_fits() {
    let mut w = Well::new();
    let f = p(Kind::T, 4, 7, 2);
    assert!(w.fits(&f));
    w.stamp(&f);
    assert!(!w.fits(&f));
    assert_eq!(w.rows.get(&8).copied(), Some(0b111_0000));
    assert_eq!(w.rows.get(&9).copied(), Some(0b10_0000));
    assert_eq!(w.rows.len(), 2);
}

#[test]
fn gap_outside_walls_is_zero() {
    let w = Well::new();
    assert_eq!(w.gap(&p(Kind::I, -2, 0, 0)), Some(0));
    let mut v = Well::new();
    v.rows.insert(20, 0b1000);
    assert_eq!(v.gap(&p(Kind::O, 2, 0, 0)), Some(18));
    assert_eq!(v.gap(&p(Kind::O, 5, 0, 0)), None);
}

#[test]
fn top_and_prune() {
    let mut w = Well::new();
    assert_eq!(w.top(), None);
    w.rows.insert(40, 1);
    w.rows.insert(-300, 2);
    w.rows.insert(500, 4);
    assert_eq!(w.top(), Some(-300));
    w.prune(0);
    assert_eq!(w.rows.len(), 1);
    assert!(w.rows.contains_key(&40));
    w.rows.insert(KEEP, 8);
    w.rows.insert(-KEEP - 1, 8);
    w.prune(0);
    assert!(w.rows.contains_key(&KEEP));
    assert!(!w.rows.contains_key(&(-KEEP - 1)));
}

#[test]
fn within_reports_distances() {
    let mut w = Well::new();
    w.rows.insert(5, 1);
    assert!(w.within(0));
    w.rows.insert(i64::MIN, 1);
    assert!(!w.within(0));
    assert!(w.within(-1));
}

#[test]
fn ledger_scoring() {
    let mut l = Ledger::new();
    assert_eq!(l.lv(), 1);
    assert_eq!(l.pay(Spin::Plain, 0), "");
    assert_eq!(l.score, 0);
    assert_eq!(l.pay(Spin::Plain, 4), "TETRIS");
    assert_eq!((l.score, l.lines, l.combo, l.b2b), (800, 4, 0, true));
    assert_eq!(l.pay(Spin::Plain, 4), "TETRIS");
    assert_eq!((l.score, l.lines, l.combo, l.b2b), (800 + 1200 + 50, 8, 1, true));
    assert_eq!(l.pay(Spin::Plain, 1), "");
    assert_eq!(l.lv(), 1);
    assert_eq!((l.score, l.lines, l.combo, l.b2b), (2050 + 100 + 100, 9, 2, false));
    assert_eq!(l.pay(Spin::Full, 2), "T-SPIN DOUBLE");
    assert_eq!((l.score, l.lines, l.combo, l.b2b), (2250 + 1200 + 150, 11, 3, true));
    assert_eq!(l.lv(), 2);
    assert_eq!(l.pay(Spin::Full, 0), "T-SPIN");
    assert_eq!((l.score, l.combo), (3600 + 800, -1));
    assert_eq!(l.pay(Spin::Mini, 0), "T-SPIN MINI");
    assert_eq!(l.score, 4400 + 200);
    assert_eq!(l.pay(Spin::Mini, 1), "T-SPIN MINI");
    assert_eq!(l.score, 4600 + (200 + 100) * 2);
    assert_eq!(l.pay(Spin::Full, 1), "T-SPIN SINGLE");
    assert_eq!(l.pay(Spin::Full, 3), "T-SPIN TRIPLE");
    assert_eq!(l.pay(Spin::Plain, 2), "");
}

#[test]
fn ledger_saturates() {
    let mut l = Ledger { score: u64::MAX - 5, lines: u64::MAX - 1, combo: 3, b2b: true };
    l.pay(Spin::Plain, 4);
    assert_eq!(l.score, u64::MAX);
    assert_eq!(l.lines, u64::MAX);
}

#[test]
fn bag_deals_every_kind() {
    let mut q = Queue::new();
    for _ in 0..3 {
        let mut seen = Vec::new();
        for _ in 0..7 {
            let k = q.pull();
            assert!(!seen.contains(&k));
            seen.push(k);
        }
        for k in KINDS {
            assert!(seen.contains(&k));
        }
    }
}

#[test]
fn new_game_state() {
    let g = Game::new();
    assert_eq!((g.now.x, g.now.y, g.now.r), (3, 0, 0));
    assert_ne!(g.now.k, g.next);
    assert!(!g.over);
    assert_eq!(g.left, RESETS);
    assert!(!g.turned);
    assert_eq!(g.kick, 0);
    assert_eq!(g.well.rows.len(), 0);
    assert_eq!(g.ledger.score, 0);
}

#[test]
fn slide_stops_at_wall() {
    let mut g = Game::new();
    g.now = p(Kind::O, 3, 0, 0);
    let mut moves = 0;
    while g.slide(-1, 0) {
        moves += 1;
    }
    assert_eq!(moves, 4);
    assert_eq!(g.now.x, -1);
    assert!(!g.slide(-1, 0));
    assert!(g.slide(0, 1));
    assert_eq!(g.now.y, 1);
}

#[test]
fn rotation_kicks_off_wall() {
    let mut g = Game::new();
    g.now = p(Kind::T, -1, 0, 1);
    assert!(g.rot(1));
    assert!(g.turned);
    assert_eq!(g.now.r, 2);
    assert_eq!(g.kick, 1);
    assert_eq!(g.now.x, 0);
    g.now = p(Kind::O, 3, 0, 0);
    assert!(g.rot(-1));
    assert_eq!(g.kick, 0);
    assert_eq!(g.now.r, 0);
}

#[test]
fn rotation_blocked_everywhere() {
    let mut g = Game::new();
    for y in -10..10 {
        g.well.rows.insert(y, 0b11_1100_0111);
    }
    g.now = p(Kind::I, 2, 0, 1);
    let before = (g.now.x, g.now.y, g.now.r);
    assert!(!g.rot(1));
    assert_eq!((g.now.x, g.now.y, g.now.r), before);
}

#[test]
fn lock_delay_resets_used() {
    let mut g = Game::new();
    g.well.rows.insert(3, 0x03FF);
    g.now = p(Kind::O, 3, 1, 0);
    assert!(g.resting());
    assert!(g.slide(1, 0));
    assert_eq!(g.left, RESETS - 1);
    assert!(g.ground());
    g.now = p(Kind::O, 3, -5, 0);
    assert!(!g.ground());
    assert_eq!(g.left, RESETS);
}

#[test]
fn fall_in_void() {
    let mut g = Game::new();
    assert!(g.fall(false));
    assert_eq!(g.now.y, 1);
    g.now = p(Kind::O, 3, i64::MAX, 0);
    assert!(!g.fall(true));
}

#[test]
fn settle_tetris_message() {
    let mut g = Game::new();
    for y in 5..9 {
        g.well.rows.insert(y, 0x03FF & !(1 << 4));
    }
    g.now = p(Kind::I, 2, 5, 1);
    let heir = g.next;
    let msg = g.settle();
    assert_eq!(msg, "TETRIS");
    assert_eq!(g.ledger.lines, 4);
    assert_eq!(g.ledger.score, 800);
    assert_eq!(g.well.rows.len(), 0);
    assert_eq!(g.now.k, heir);
    assert_eq!((g.now.x, g.now.r), (3, 0));
    assert_eq!(g.now.y, 5 - 4);
    assert_eq!(g.left, RESETS);
}

#[test]
fn settle_spawns_above_stack() {
    let mut g = Game::new();
    g.now = p(Kind::O, 3, 10, 0);
    let msg = g.settle();
    assert_eq!(msg, "");
    assert_eq!(g.well.rows.len(), 2);
    assert_eq!(g.now.y, 10 - 4);
    assert!(!g.over);
}

#[test]
fn tidy_rebases_far_piece() {
    let mut g = Game::new();
    g.now = p(Kind::O, 3, SHIFT + 3, 0);
    g.well.rows.insert(SHIFT + 10, 0b1);
    g.well.rows.insert(3, 0b1);
    g.tidy();
    assert_eq!(g.now.y, 0);
    assert_eq!(g.well.rows.len(), 1);
    assert_eq!(g.well.rows.get(&7).copied(), Some(0b1));
    let mut h = Game::new();
    h.now = p(Kind::O, 3, SHIFT - 1, 0);
    h.tidy();
    assert_eq!(h.now.y, SHIFT - 1);
    let mut u = Game::new();
    u.now = p(Kind::O, 3, -SHIFT - 2, 0);
    u.well.rows.insert(-SHIFT, 0b1);
    u.tidy();
    assert_eq!(u.now.y, 0);
    assert_eq!(u.well.rows.get(&2).copied(), Some(0b1));
}

#[test]
fn turn_counterclockwise_wraps() {
    let mut g = Game::new();
    g.now = p(Kind::T, 3, 0, 0);
    assert!(g.rot(-1));
    assert_eq!(g.now.r, 3);
    assert_eq!(g.kick, 0);
    assert!(g.rot(1));
    assert_eq!(g.now.r, 0);
    assert_eq!((g.now.x, g.now.y), (3, 0));
}

#[test]
fn hard_drop_lands_and_locks() {
    let mut g = Game::new();
    assert_eq!(g.drop(), None);
    g.well.rows.insert(12, 0b11_0000);
    g.now = p(Kind::O, 3, 0, 0);
    let msg = g.drop();
    assert_eq!(msg, Some(""));
    assert_eq!(g.ledger.score, 2 * 10);
    assert_eq!(g.well.rows.get(&10).copied(), Some(0b11_0000));
    assert_eq!(g.well.rows.get(&11).copied(), Some(0b11_0000));
}

#[test]
fn spin_full_and_mini() {
    let mut g = Game::new();
    g.now = p(Kind::T, 3, 5, 2);
    g.turned = true;
    g.kick = 0;
    g.well.rows.insert(5, 0b10_1000);
    g.well.rows.insert(7, 0b1000);
    assert_eq!(g.spin(), Spin::Mini);
    g.kick = 4;
    assert_eq!(g.spin(), Spin::Full);
    g.kick = 0;
    g.well.rows.insert(7, 0b10_1000);
    assert_eq!(g.spin(), Spin::Full);
    g.turned = false;
    assert_eq!(g.spin(), Spin::Plain);
}

#[test]
fn glyph_bitmaps() {
    assert_eq!(glyph('A'), [0b01110, 0b10001, 0b10001, 0b11111, 0b10001, 0b10001, 0b10001]);
    assert_eq!(glyph(' '), [0; 7]);
    assert_eq!(glyph('?'), [0b11111; 7]);
}

#[test]
fn lettering_places_pixels() {
    let px = lettering("-I");
    assert_eq!(px.len(), 5 + 3 + 5 + 3);
    for c in 0..5 {
        assert!(px.contains(&(c, 3)));
    }
    assert!(px.contains(&(6 + 1, 0)));
    assert!(px.contains(&(6 + 2, 3)));
    assert!(!px.contains(&(6 + 0, 3)));
    assert!(!px.contains(&(5, 3)));
    assert!(lettering("").is_empty());
}

#[test]
fn extent_of_start_shapes() {
    assert_eq!(extent(Kind::I), (0, 3, 1, 1));
    assert_eq!(extent(Kind::T), (0, 2, 0, 1));
    assert_eq!(extent(Kind::O), (1, 2, 0, 1));
}

#[test]
fn scene_cells() {
    let mut g = Game::new();
    g.well.rows.insert(19, 0b11);
    g.well.rows.insert(20, 0b1);
    g.well.rows.insert(-1, 0b1);
    let shown = g.well.shown();
    assert_eq!(shown.len(), 2);
    assert!(shown.contains(&(0, 19)) && shown.contains(&(1, 19)));
    g.now = p(Kind::O, 3, -1, 0);
    let piece = g.shown_piece();
    assert_eq!(piece.len(), 2);
    assert!(piece.contains(&(4, 0)) && piece.contains(&(5, 0)));
    g.now = p(Kind::O, -1, 10, 0);
    let ghost = g.ghost();
    assert_eq!(ghost.len(), 4);
    assert!(ghost.contains(&(0, 17)) && ghost.contains(&(1, 18)));
    g.now = p(Kind::O, 5, 10, 0);
    assert!(g.ghost().is_empty());
    g.over = true;
    assert!(g.shown_piece().is_empty());
}

#[test]
fn turning_is_quarter_turn() {
    for k in KINDS {
        let side = if k == Kind::I { 4 } else { 3 };
        for r in 0..4u8 {
            let mut turned: Vec<(i32, i32)> = cells(k, r).iter().map(|&(x, y)| (side - 1 - y, x)).collect();
            let mut next: Vec<(i32, i32)> = cells(k, r + 1).to_vec();
            turned.sort();
            next.sort();
            if k == Kind::O {
                assert_eq!(cells(k, r), cells(k, r + 1));
            } else {
                assert_eq!(turned, next);
            }
        }
    }
}

#[test]
fn lock_guard_follows_what_the_lock_pays() {
    let mut g = Game::new();
    assert!(g.can_lock());
    g.ledger.combo = i32::MAX;
    g.now = p(Kind::O, 3, 0, 0);
    assert!(g.can_lock());
    g.well.rows.insert(1, 0x03FF & !0b11_0000);
    assert!(!g.can_lock());
    g.ledger.combo = 0;
    assert!(g.can_lock());
    g.now = p(Kind::O, 12, 0, 0);
    assert!(g.can_lock());
    assert!(!g.is_steady());
    assert!(g.columns_ok());
    g.now = p(Kind::O, 14, 0, 0);
    assert!(!g.can_lock());
    assert!(!g.columns_ok());
    g.now = p(Kind::O, 3, i64::MIN, 0);
    assert!(!g.can_lock());
}

#[test]
fn lock_guard_reaches_the_low_end() {
    let mut g = Game::new();
    g.now = p(Kind::O, 3, i64::MIN + 10, 0);
    assert!(g.can_lock());
    assert_eq!(g.settle(), "");
    assert_eq!(g.now.y, 0);
    assert_eq!(g.well.rows.get(&4).copied(), Some(0b11_0000));
    assert_eq!(g.well.rows.get(&5).copied(), Some(0b11_0000));
    let mut h = Game::new();
    h.now = p(Kind::O, 3, i64::MIN + 2, 0);
    assert!(!h.can_lock());
}

#[test]
fn drop_guard_measures_the_fall() {
    let mut g = Game::new();
    assert!(g.can_drop());
    g.now = p(Kind::O, 3, -10, 0);
    g.well.rows.insert(i64::MAX - 5, 0b1_0000);
    assert!(!g.can_drop());
    g.well.rows.clear();
    g.now = p(Kind::O, 3, 0, 0);
    g.well.rows.insert(i64::MAX, 0b1_0000);
    assert!(g.can_drop());
    assert_eq!(g.drop(), Some(""));
    assert_eq!(g.ledger.score, 2 * (i64::MAX as u64 - 2));
    assert_eq!(g.now.y, 0);
    assert_eq!(g.well.rows.get(&4).copied(), Some(0b11_0000));
    assert_eq!(g.well.rows.get(&5).copied(), Some(0b11_0000));
    assert_eq!(g.well.rows.get(&6).copied(), Some(0b1_0000));
}

#[test]
fn piece_stays_clear_of_the_stack() {
    let mut g = Game::new();
    g.well.rows.insert(20, 0x03FF & !0b1);
    assert!(g.well.fits(&g.now));
    for _ in 0..30 {
        let mut steps = 0;
        while g.fall(false) {
            assert!(g.well.fits(&g.now));
            steps += 1;
            assert!(steps < 100);
        }
        assert!(g.rot(1) || g.well.fits(&g.now));
        assert!(g.well.fits(&g.now));
        assert!(g.can_lock());
        g.settle();
        assert!(!g.over);
        assert!(g.well.fits(&g.now));
        g.tidy();
        assert!(g.well.fits(&g.now));
    }
}

#[test]
fn deal_swaps_in_order() {
    assert_eq!(
        deal([6, 5, 4, 3, 2, 1]),
        vec![Kind::I, Kind::O, Kind::T, Kind::S, Kind::Z, Kind::J, Kind::L]
    );
    assert_eq!(
        deal([0, 0, 0, 0, 0, 0]),
        vec![Kind::O, Kind::T, Kind::S, Kind::Z, Kind::J, Kind::L, Kind::I]
    );
    assert_eq!(
        deal([5, 5, 4, 3, 2, 1]),
        vec![Kind::I, Kind::O, Kind::T, Kind::S, Kind::Z, Kind::L, Kind::J]
    );
}

#[test]
fn lettering_paints_in_order() {
    assert_eq!(
        lettering("1"),
        vec![(2, 0), (1, 1), (2, 1), (2, 2), (2, 3), (2, 4), (2, 5), (1, 6), (2, 6), (3, 6)]
    );
    let two = lettering("-1");
    assert_eq!(&two[..5], &[(0, 3), (1, 3), (2, 3), (3, 3), (4, 3)]);
    assert_eq!(two[5], (8, 0));
    assert_eq!(two.len(), 15);
}

#[test]
fn shift_back_restores() {
    let mut w = Well::new();
    w.rows.insert(3, 0b101);
    w.rows.insert(-7, 0b11);
    w.rows.insert(40, 0x3FF);
    let before = w.rows.clone();
    w.shift(25);
    assert_eq!(w.rows.len(), 3);
    assert_eq!(w.rows.get(&-22).copied(), Some(0b101));
    w.shift(-25);
    assert_eq!(w.rows, before);
}

#[test]
fn frame_never_lowers_score() {
    let mut g = Game::new();
    g.well.rows.insert(20, 0x03FF & !0b1);
    let mut score = g.ledger.score;
    let mut lines = g.ledger.lines;
    for n in 0..40 {
        g.fall(n % 2 == 0);
        g.slide(if n % 3 == 0 { 1 } else { -1 }, 0);
        g.rot(1);
        if g.ground() && g.can_lock() {
            g.settle();
        }
        g.tidy();
        assert!(g.ledger.score >= score && g.ledger.lines >= lines);
        assert!(g.over || g.well.fits(&g.now));
        score = g.ledger.score;
        lines = g.ledger.lines;
    }
}
