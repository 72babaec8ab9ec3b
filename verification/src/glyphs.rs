use vstd::prelude::*;

verus! {

/// The rows of the five-by-seven bitmap of character `c`, top row first; bit 4
/// of a row is its leftmost pixel. Characters without a bitmap of their own
/// are drawn as a full block.
pub open spec fn font(c: char) -> Seq<u8> {
    if c == '0' {
        seq![0b01110u8, 0b10001, 0b10011, 0b10101, 0b11001, 0b10001, 0b01110]
    } else if c == '1' {
        seq![0b00100u8, 0b01100, 0b00100, 0b00100, 0b00100, 0b00100, 0b01110]
    } else if c == '2' {
        seq![0b01110u8, 0b10001, 0b00001, 0b00010, 0b00100, 0b01000, 0b11111]
    } else if c == '3' {
        seq![0b01110u8, 0b10001, 0b00001, 0b00110, 0b00001, 0b10001, 0b01110]
    } else if c == '4' {
        seq![0b00010u8, 0b00110, 0b01010, 0b10010, 0b11111, 0b00010, 0b00010]
    } else if c == '5' {
        seq![0b11111u8, 0b10000, 0b11110, 0b00001, 0b00001, 0b10001, 0b01110]
    } else if c == '6' {
        seq![0b01110u8, 0b10000, 0b11110, 0b10001, 0b10001, 0b10001, 0b01110]
    } else if c == '7' {
        seq![0b11111u8, 0b00001, 0b00010, 0b00100, 0b01000, 0b01000, 0b01000]
    } else if c == '8' {
        seq![0b01110u8, 0b10001, 0b10001, 0b01110, 0b10001, 0b10001, 0b01110]
    } else if c == '9' {
        seq![0b01110u8, 0b10001, 0b10001, 0b01111, 0b00001, 0b00001, 0b01110]
    } else if c == 'A' {
        seq![0b01110u8, 0b10001, 0b10001, 0b11111, 0b10001, 0b10001, 0b10001]
    } else if c == 'B' {
        seq![0b11110u8, 0b10001, 0b10001, 0b11110, 0b10001, 0b10001, 0b11110]
    } else if c == 'C' {
        seq![0b01110u8, 0b10001, 0b10000, 0b10000, 0b10000, 0b10001, 0b01110]
    } else if c == 'D' {
        seq![0b11110u8, 0b10001, 0b10001, 0b10001, 0b10001, 0b10001, 0b11110]
    } else if c == 'E' {
        seq![0b11111u8, 0b10000, 0b10000, 0b11110, 0b10000, 0b10000, 0b11111]
    } else if c == 'G' {
        seq![0b01110u8, 0b10001, 0b10000, 0b10111, 0b10001, 0b10001, 0b01111]
    } else if c == 'H' {
        seq![0b10001u8, 0b10001, 0b10001, 0b11111, 0b10001, 0b10001, 0b10001]
    } else if c == 'I' {
        seq![0b01110u8, 0b00100, 0b00100, 0b00100, 0b00100, 0b00100, 0b01110]
    } else if c == 'L' {
        seq![0b10000u8, 0b10000, 0b10000, 0b10000, 0b10000, 0b10000, 0b11111]
    } else if c == 'M' {
        seq![0b10001u8, 0b11011, 0b10101, 0b10101, 0b10001, 0b10001, 0b10001]
    } else if c == 'N' {
        seq![0b10001u8, 0b11001, 0b10101, 0b10011, 0b10001, 0b10001, 0b10001]
    } else if c == 'O' {
        seq![0b01110u8, 0b10001, 0b10001, 0b10001, 0b10001, 0b10001, 0b01110]
    } else if c == 'P' {
        seq![0b11110u8, 0b10001, 0b10001, 0b11110, 0b10000, 0b10000, 0b10000]
    } else if c == 'R' {
        seq![0b11110u8, 0b10001, 0b10001, 0b11110, 0b10100, 0b10010, 0b10001]
    } else if c == 'S' {
        seq![0b01111u8, 0b10000, 0b10000, 0b01110, 0b00001, 0b00001, 0b11110]
    } else if c == 'T' {
        seq![0b11111u8, 0b00100, 0b00100, 0b00100, 0b00100, 0b00100, 0b00100]
    } else if c == 'U' {
        seq![0b10001u8, 0b10001, 0b10001, 0b10001, 0b10001, 0b10001, 0b01110]
    } else if c == 'V' {
        seq![0b10001u8, 0b10001, 0b10001, 0b10001, 0b10001, 0b01010, 0b00100]
    } else if c == 'X' {
        seq![0b10001u8, 0b10001, 0b01010, 0b00100, 0b01010, 0b10001, 0b10001]
    } else if c == '-' {
        seq![0b00000u8, 0b00000, 0b00000, 0b11111, 0b00000, 0b00000, 0b00000]
    } else if c == ' ' {
        seq![0b00000u8, 0b00000, 0b00000, 0b00000, 0b00000, 0b00000, 0b00000]
    } else {
        seq![0b11111u8, 0b11111, 0b11111, 0b11111, 0b11111, 0b11111, 0b11111]
    }
}

/// Pixel `k` (counted from the right, 0..5) of glyph row `row` is lit.
pub open spec fn lit_bit(row: u8, k: int) -> bool {
    0 <= k < 8 && row & (1u8 << (k as u8)) != 0
}

/// The bitmap of character `c`.
pub fn glyph(c: char) -> (res: [u8; 7])
    ensures
        res@ == font(c),
{
    match c {
        '0' => [0b01110, 0b10001, 0b10011, 0b10101, 0b11001, 0b10001, 0b01110],
        '1' => [0b00100, 0b01100, 0b00100, 0b00100, 0b00100, 0b00100, 0b01110],
        '2' => [0b01110, 0b10001, 0b00001, 0b00010, 0b00100, 0b01000, 0b11111],
        '3' => [0b01110, 0b10001, 0b00001, 0b00110, 0b00001, 0b10001, 0b01110],
        '4' => [0b00010, 0b00110, 0b01010, 0b10010, 0b11111, 0b00010, 0b00010],
        '5' => [0b11111, 0b10000, 0b11110, 0b00001, 0b00001, 0b10001, 0b01110],
        '6' => [0b01110, 0b10000, 0b11110, 0b10001, 0b10001, 0b10001, 0b01110],
        '7' => [0b11111, 0b00001, 0b00010, 0b00100, 0b01000, 0b01000, 0b01000],
        '8' => [0b01110, 0b10001, 0b10001, 0b01110, 0b10001, 0b10001, 0b01110],
        '9' => [0b01110, 0b10001, 0b10001, 0b01111, 0b00001, 0b00001, 0b01110],
        'A' => [0b01110, 0b10001, 0b10001, 0b11111, 0b10001, 0b10001, 0b10001],
        'B' => [0b11110, 0b10001, 0b10001, 0b11110, 0b10001, 0b10001, 0b11110],
        'C' => [0b01110, 0b10001, 0b10000, 0b10000, 0b10000, 0b10001, 0b01110],
        'D' => [0b11110, 0b10001, 0b10001, 0b10001, 0b10001, 0b10001, 0b11110],
        'E' => [0b11111, 0b10000, 0b10000, 0b11110, 0b10000, 0b10000, 0b11111],
        'G' => [0b01110, 0b10001, 0b10000, 0b10111, 0b10001, 0b10001, 0b01111],
        'H' => [0b10001, 0b10001, 0b10001, 0b11111, 0b10001, 0b10001, 0b10001],
        'I' => [0b01110, 0b00100, 0b00100, 0b00100, 0b00100, 0b00100, 0b01110],
        'L' => [0b10000, 0b10000, 0b10000, 0b10000, 0b10000, 0b10000, 0b11111],
        'M' => [0b10001, 0b11011, 0b10101, 0b10101, 0b10001, 0b10001, 0b10001],
        'N' => [0b10001, 0b11001, 0b10101, 0b10011, 0b10001, 0b10001, 0b10001],
        'O' => [0b01110, 0b10001, 0b10001, 0b10001, 0b10001, 0b10001, 0b01110],
        'P' => [0b11110, 0b10001, 0b10001, 0b11110, 0b10000, 0b10000, 0b10000],
        'R' => [0b11110, 0b10001, 0b10001, 0b11110, 0b10100, 0b10010, 0b10001],
        'S' => [0b01111, 0b10000, 0b10000, 0b01110, 0b00001, 0b00001, 0b11110],
        'T' => [0b11111, 0b00100, 0b00100, 0b00100, 0b00100, 0b00100, 0b00100],
        'U' => [0b10001, 0b10001, 0b10001, 0b10001, 0b10001, 0b10001, 0b01110],
        'V' => [0b10001, 0b10001, 0b10001, 0b10001, 0b10001, 0b01010, 0b00100],
        'X' => [0b10001, 0b10001, 0b01010, 0b00100, 0b01010, 0b10001, 0b10001],
        '-' => [0b00000, 0b00000, 0b00000, 0b11111, 0b00000, 0b00000, 0b00000],
        ' ' => [0; 7],
        _ => [0b11111; 7],
    }
}

/// Pixel (`px`, `py`) of the line of text `s` is lit: character `i` covers
/// columns `6 * i .. 6 * i + 5` (a blank column separates characters) and rows
/// `0..7`.
pub open spec fn text_lit(s: Seq<char>, px: int, py: int) -> bool {
    exists|i: int| 0 <= i < s.len() && 6 * i <= px < 6 * i + 5 && 0 <= py < 7 && #[trigger] glyph_lit(s[i], px - 6 * i, py)
}

/// Pixel (`px`, `py`) of the bitmap of `c` is lit.
pub open spec fn glyph_lit(c: char, px: int, py: int) -> bool {
    0 <= px < 5 && 0 <= py < 7 && lit_bit(font(c)[py], 4 - px)
}

/// The lit pixels among the first `n` columns of row `row` of the bitmap of
/// `c`, left to right, for a glyph whose left edge is at column `ox`.
pub open spec fn row_pixels(c: char, ox: int, row: int, n: nat) -> Seq<(usize, usize)>
    decreases n,
{
    if n == 0 {
        Seq::empty()
    } else {
        let before = row_pixels(c, ox, row, (n - 1) as nat);
        if glyph_lit(c, n - 1, row) {
            before.push(((ox + n - 1) as usize, row as usize))
        } else {
            before
        }
    }
}

/// The lit pixels of the first `n` rows of the bitmap of `c`, row by row from
/// the top and left to right in each row, for a glyph whose left edge is at
/// column `ox`.
pub open spec fn glyph_seq(c: char, ox: int, n: nat) -> Seq<(usize, usize)>
    decreases n,
{
    if n == 0 {
        Seq::empty()
    } else {
        glyph_seq(c, ox, (n - 1) as nat) + row_pixels(c, ox, n - 1, 5)
    }
}

/// The lit pixels of the line of text `s` in the order they are painted:
/// character by character, and in each character row by row, left to right.
pub open spec fn text_pixels(s: Seq<char>) -> Seq<(usize, usize)>
    decreases s.len(),
{
    if s.len() == 0 {
        Seq::empty()
    } else {
        text_pixels(s.drop_last()) + glyph_seq(s.last(), 6 * (s.len() - 1), 7)
    }
}

/// The lit pixels of character `c` drawn with its left edge at column `ox`.
fn glyph_pixels(c: char, ox: usize) -> (res: Vec<(usize, usize)>)
    requires
        ox + 5 <= usize::MAX,
    ensures
        res@ == glyph_seq(c, ox as int, 7),
        res@.no_duplicates(),
        forall|a: usize, b: usize| #[trigger] res@.contains((a, b)) <==> ox <= a && glyph_lit(c, a - ox, b as int),
{
    let g = glyph(c);
    let mut out: Vec<(usize, usize)> = Vec::new();
    let mut row: usize = 0;
    while row < 7
        invariant
            row <= 7,
            ox + 5 <= usize::MAX,
            g@ == font(c),
            out@ == glyph_seq(c, ox as int, row as nat),
            out@.no_duplicates(),
            forall|a: usize, b: usize| #[trigger] out@.contains((a, b)) <==> ox <= a && b < row && glyph_lit(c, a - ox, b as int),
        decreases 7 - row,
    {
        let mut col: usize = 0;
        while col < 5
            invariant
                row < 7,
                col <= 5,
                ox + 5 <= usize::MAX,
                g@ == font(c),
                out@ == glyph_seq(c, ox as int, row as nat) + row_pixels(c, ox as int, row as int, col as nat),
                out@.no_duplicates(),
                forall|a: usize, b: usize| #[trigger] out@.contains((a, b)) <==> ox <= a && (b < row || (b == row && a < ox + col))
                    && glyph_lit(c, a - ox, b as int),
            decreases 5 - col,
        {
            let bits = g[row];
            let at = ox + col;
            let ghost before = out@;
            if bits & (1u8 << (4 - col) as u8) != 0 {
                proof {
                    assert(!out@.contains((at, row)));
                    assert(glyph_lit(c, col as int, row as int));
                }
                out.push((at, row));
                proof {
                    assert(out@ =~= glyph_seq(c, ox as int, row as nat) + row_pixels(c, ox as int, row as int, (col + 1) as nat));
                    assert forall|a: usize, b: usize| #[trigger] out@.contains((a, b)) <==> ox <= a && (b < row || (b == row && a < ox + col + 1))
                        && glyph_lit(c, a - ox, b as int) by {
                        if out@.contains((a, b)) && (a != at || b != row) {
                            let j = choose|j: int| 0 <= j < out@.len() && out@[j] == (a, b);
                            assert(j < before.len());
                            assert(before[j] == (a, b));
                            assert(before.contains((a, b)));
                        }
                        if ox <= a && (b < row || (b == row && a < ox + col)) && glyph_lit(c, a - ox, b as int) {
                            assert(before.contains((a, b)));
                            let j = choose|j: int| 0 <= j < before.len() && before[j] == (a, b);
                            assert(out@[j] == (a, b));
                        }
                        if a == at && b == row {
                            assert(out@[out@.len() - 1] == (a, b));
                        }
                    }
                }
            } else {
                proof {
                    assert(!glyph_lit(c, col as int, row as int));
                }
            }
            col += 1;
        }
        proof {
            assert(glyph_seq(c, ox as int, (row + 1) as nat) == glyph_seq(c, ox as int, row as nat) + row_pixels(c, ox as int, row as int, 5));
        }
        row += 1;
    }
    out
}

/// The lit pixels of the line of text `s`, as (column, row) pairs in units of
/// one pixel, each once.
pub fn lettering(s: &str) -> (res: Vec<(usize, usize)>)
    requires
        6 * s@.len() + 5 <= usize::MAX,
    ensures
        res@ == text_pixels(s@),
        res@.no_duplicates(),
        forall|a: usize, b: usize| #[trigger] res@.contains((a, b)) <==> text_lit(s@, a as int, b as int),
{
    let mut out: Vec<(usize, usize)> = Vec::new();
    let mut i: usize = 0;
    for ch in it: s.chars()
        invariant
            i == it.index(),
            it.seq() == s@,
            6 * s@.len() + 5 <= usize::MAX,
            out@ == text_pixels(s@.take(i as int)),
            out@.no_duplicates(),
            forall|a: usize, b: usize| #[trigger] out@.contains((a, b)) <==> text_lit(s@.take(i as int), a as int, b as int),
    {
        let px = glyph_pixels(ch, 6 * i);
        let ghost before = out@;
        let mut j: usize = 0;
        while j < px.len()
            invariant
                j <= px.len(),
                px@.no_duplicates(),
                before.no_duplicates(),
                forall|a: usize, b: usize| #[trigger] px@.contains((a, b)) <==> 6 * i <= a && glyph_lit(ch, a - 6 * i, b as int),
                forall|a: usize, b: usize| #[trigger] before.contains((a, b)) ==> a < 6 * i,
                out@ == before + px@.take(j as int),
                out@.no_duplicates(),
            decreases px.len() - j,
        {
            proof {
                let q = px@[j as int];
                assert(px@.contains((q.0, q.1)));
                if out@.contains(q) {
                    let t = choose|t: int| 0 <= t < out@.len() && out@[t] == q;
                    if t < before.len() {
                        assert(before[t] == q);
                        assert(before.contains((q.0, q.1)));
                    } else {
                        assert(out@[t] == px@.take(j as int)[t - before.len()]);
                        assert(px@[t - before.len()] == q);
                    }
                }
            }
            proof {
                lemma_push_distinct(out@, px@[j as int]);
                assert(before + px@.take(j + 1) =~= (before + px@.take(j as int)).push(px@[j as int]));
            }
            out.push(px[j]);
            j += 1;
        }
        proof {
            assert(px@.take(px.len() as int) =~= px@);
            assert(s@.take(i + 1) =~= s@.take(i as int).push(ch));
            assert(s@.take(i + 1).drop_last() =~= s@.take(i as int));
            assert(out@ =~= text_pixels(s@.take(i + 1)));
            assert forall|a: usize, b: usize| #[trigger] out@.contains((a, b)) <==> text_lit(s@.take(i + 1), a as int, b as int) by {
                let t = s@.take(i + 1);
                if out@.contains((a, b)) {
                    let k = choose|k: int| 0 <= k < out@.len() && out@[k] == (a, b);
                    if k < before.len() {
                        assert(before.contains((a, b)));
                        let w = choose|w: int| 0 <= w < i && 6 * w <= a < 6 * w + 5 && 0 <= b < 7 && #[trigger] glyph_lit(s@.take(i as int)[w], a - 6 * w, b as int);
                        assert(t[w] == s@.take(i as int)[w]);
                    } else {
                        assert(px@.contains((a, b)));
                        assert(t[i as int] == ch);
                    }
                }
                if text_lit(t, a as int, b as int) {
                    let w = choose|w: int| 0 <= w < t.len() && 6 * w <= a < 6 * w + 5 && 0 <= b < 7 && #[trigger] glyph_lit(t[w], a - 6 * w, b as int);
                    if w < i {
                        assert(t[w] == s@.take(i as int)[w]);
                        assert(text_lit(s@.take(i as int), a as int, b as int));
                        assert(before.contains((a, b)));
                        let k = choose|k: int| 0 <= k < before.len() && before[k] == (a, b);
                        assert(out@[k] == (a, b));
                    } else {
                        assert(px@.contains((a, b)));
                        let k = choose|k: int| 0 <= k < px@.len() && px@[k] == (a, b);
                        assert(out@[before.len() + k] == (a, b));
                    }
                }
            }
        }
        i += 1;
    }
    proof {
        assert(s@.take(s@.len() as int) =~= s@);
    }
    out
}

/// Pushing an element that is not yet present keeps a sequence free of
/// duplicates.
pub(crate) proof fn lemma_push_distinct<T>(s: Seq<T>, x: T)
    requires
        s.no_duplicates(),
        !s.contains(x),
    ensures
        s.push(x).no_duplicates(),
{
    assert forall|p: int, q: int| 0 <= p < q < s.push(x).len() implies s.push(x)[p] != s.push(x)[q] by {
        if q == s.len() {
            assert(s[p] == s.push(x)[p]);
        }
    }
}

} // verus!
