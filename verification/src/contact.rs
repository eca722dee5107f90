//! Contact sheets of a sprite-cache container: each frame on its own
//! canvas cell, the cells laid out in rows with a gap between them, as
//! the shape dumper draws them.
use vstd::prelude::*;
use crate::shp::{Frame, MAX_DIM, MAX_PIXELS};

verus! {

/// A frame's cell: its shape canvas, grown to take in a stored block that
/// does not fit (a negative block offset counts as zero).
pub open spec fn spec_cell_size(fr: Frame) -> (int, int) {
    let cw = fr.header.box_w1 + 1;
    let ch = fr.header.box_h + 1;
    if fr.width == 0 || fr.height == 0 {
        (cw, ch)
    } else {
        let bx: int = if fr.block_x < 0 { 0 } else { fr.block_x as int };
        let by: int = if fr.block_y < 0 { 0 } else { fr.block_y as int };
        let right = if bx + fr.width > cw { bx + fr.width } else { cw };
        let bottom = if by + fr.height > ch { by + fr.height } else { ch };
        (right, bottom)
    }
}

/// Canvas size for one frame, grown to include a block that does not fit.
pub fn cell_size(fr: &Frame) -> (s: (usize, usize))
    requires
        fr.width < 0x8000_0000,
        fr.height < 0x8000_0000,
    ensures
        s.0 == spec_cell_size(*fr).0,
        s.1 == spec_cell_size(*fr).1,
{
    let (cw, ch) = fr.header.canvas_size();
    if fr.is_empty() {
        return (cw, ch);
    }
    let bx: usize = if fr.block_x < 0 { 0 } else { fr.block_x as usize };
    let by: usize = if fr.block_y < 0 { 0 } else { fr.block_y as usize };
    let right = if bx + fr.width > cw { bx + fr.width } else { cw };
    let bottom = if by + fr.height > ch { by + fr.height } else { ch };
    (right, bottom)
}

/// The widest row and the summed row heights of `cells` laid out `cols`
/// to a row, each cell followed by `gap` each way.
pub open spec fn spec_layout(cells: Seq<(usize, usize)>, cols: int, gap: int) -> (int, int)
    decreases cells.len(),
{
    if cells.len() == 0 || cols <= 0 {
        (0, 0)
    } else {
        let k = if cells.len() < cols { cells.len() as int } else { cols };
        let (w, h) = spec_layout(cells.subrange(k, cells.len() as int), cols, gap);
        let rw = row_width(cells.subrange(0, k), gap);
        (if rw > w { rw } else { w }, h + row_height(cells.subrange(0, k)) + gap)
    }
}

/// The cells' widths with a gap after each.
pub open spec fn row_width(row: Seq<(usize, usize)>, gap: int) -> int
    decreases row.len(),
{
    if row.len() == 0 { 0 } else { row_width(row.drop_last(), gap) + row.last().0 + gap }
}

/// The tallest cell of a row.
pub open spec fn row_height(row: Seq<(usize, usize)>) -> int
    decreases row.len(),
{
    if row.len() == 0 {
        0
    } else {
        let h = row_height(row.drop_last());
        if row.last().1 > h { row.last().1 as int } else { h }
    }
}

/// Everything the cells and gaps add up to: a bound on any layout.
pub open spec fn all_of(cells: Seq<(usize, usize)>, gap: int) -> int
    decreases cells.len(),
{
    if cells.len() == 0 { 0 } else { all_of(cells.drop_last(), gap) + cells.last().0 + cells.last().1 + 2 * gap }
}

proof fn lemma_all_of_split(cells: Seq<(usize, usize)>, k: int, gap: int)
    requires
        0 <= k <= cells.len(),
        gap >= 0,
    ensures
        all_of(cells, gap) == all_of(cells.subrange(0, k), gap) + all_of(cells.subrange(k, cells.len() as int), gap),
        all_of(cells.subrange(0, k), gap) >= 0,
        all_of(cells.subrange(k, cells.len() as int), gap) >= 0,
    decreases cells.len() - k,
{
    lemma_all_of_nonneg(cells.subrange(0, k), gap);
    lemma_all_of_nonneg(cells.subrange(k, cells.len() as int), gap);
    if k < cells.len() {
        lemma_all_of_split(cells, k + 1, gap);
        let a = cells.subrange(0, k + 1);
        assert(a.drop_last() =~= cells.subrange(0, k));
        assert(a.last() == cells[k]);
        assert(all_of(a, gap) == all_of(cells.subrange(0, k), gap) + cells[k].0 + cells[k].1 + 2 * gap);
        let b = cells.subrange(k, cells.len() as int);
        let b1 = cells.subrange(k + 1, cells.len() as int);
        lemma_all_of_front(b, gap);
        assert(b.drop_first() =~= b1);
        assert(b[0] == cells[k]);
    } else {
        assert(cells.subrange(0, k) =~= cells);
        assert(cells.subrange(k, cells.len() as int) =~= Seq::<(usize, usize)>::empty());
    }
}

proof fn lemma_all_of_nonneg(cells: Seq<(usize, usize)>, gap: int)
    requires
        gap >= 0,
    ensures
        all_of(cells, gap) >= 0,
    decreases cells.len(),
{
    if cells.len() > 0 {
        lemma_all_of_nonneg(cells.drop_last(), gap);
    }
}

proof fn lemma_all_of_front(cells: Seq<(usize, usize)>, gap: int)
    requires
        cells.len() > 0,
        gap >= 0,
    ensures
        all_of(cells, gap) == cells[0].0 + cells[0].1 + 2 * gap + all_of(cells.drop_first(), gap),
    decreases cells.len(),
{
    let dl = cells.drop_last();
    let df = cells.drop_first();
    if cells.len() > 1 {
        lemma_all_of_front(dl, gap);
        assert(dl.drop_first() =~= df.drop_last());
        assert(dl[0] == cells[0]);
        assert(df.last() == cells.last());
        assert(all_of(df, gap) == all_of(df.drop_last(), gap) + df.last().0 + df.last().1 + 2 * gap);
    } else {
        assert(df =~= Seq::<(usize, usize)>::empty());
        assert(dl =~= Seq::<(usize, usize)>::empty());
        assert(cells.last() == cells[0]);
    }
}

proof fn lemma_row_bounds(row: Seq<(usize, usize)>, gap: int)
    requires
        gap >= 0,
    ensures
        0 <= row_width(row, gap),
        0 <= row_height(row),
        row_width(row, gap) + row_height(row) + gap <= all_of(row, gap) + gap,
        row.len() > 0 ==> row_width(row, gap) >= gap,
    decreases row.len(),
{
    if row.len() > 0 {
        lemma_row_bounds(row.drop_last(), gap);
        lemma_all_of_nonneg(row.drop_last(), gap);
    }
}

proof fn lemma_layout_bound(cells: Seq<(usize, usize)>, cols: int, gap: int)
    requires
        gap >= 0,
        cols > 0,
    ensures
        0 <= spec_layout(cells, cols, gap).0,
        0 <= spec_layout(cells, cols, gap).1,
        spec_layout(cells, cols, gap).0 <= all_of(cells, gap),
        spec_layout(cells, cols, gap).1 <= all_of(cells, gap),
    decreases cells.len(),
{
    if cells.len() > 0 {
        let k = if cells.len() < cols { cells.len() as int } else { cols };
        lemma_layout_bound(cells.subrange(k, cells.len() as int), cols, gap);
        lemma_all_of_split(cells, k, gap);
        lemma_row_bounds(cells.subrange(0, k), gap);
    }
}

fn row_of(cells: &[(usize, usize)], from: usize, to: usize, gap: usize) -> (r: (usize, usize))
    requires
        from <= to <= cells@.len(),
        all_of(cells@.subrange(from as int, to as int), gap as int) + gap <= usize::MAX,
    ensures
        r.0 == row_width(cells@.subrange(from as int, to as int), gap as int),
        r.1 == row_height(cells@.subrange(from as int, to as int)),
{
    let mut w: usize = 0;
    let mut h: usize = 0;
    let mut i: usize = from;
    while i < to
        invariant
            from <= i <= to <= cells@.len(),
            all_of(cells@.subrange(from as int, to as int), gap as int) + gap <= usize::MAX,
            w == row_width(cells@.subrange(from as int, i as int), gap as int),
            h == row_height(cells@.subrange(from as int, i as int)),
        decreases to - i,
    {
        proof {
            let s = cells@.subrange(from as int, i + 1);
            assert(s.drop_last() =~= cells@.subrange(from as int, i as int));
            lemma_all_of_split(cells@.subrange(from as int, to as int), i + 1 - from, gap as int);
            assert(cells@.subrange(from as int, to as int).subrange(0, i + 1 - from) =~= s);
            lemma_row_bounds(s, gap as int);
        }
        w = w + cells[i].0 + gap;
        if cells[i].1 > h {
            h = cells[i].1;
        }
        i = i + 1;
    }
    (w, h)
}

/// A finished part of a layout followed by the layout of the rest.
pub open spec fn combine(done: (int, int), rest: (int, int)) -> (int, int) {
    (if done.0 > rest.0 { done.0 } else { rest.0 }, done.1 + rest.1)
}

proof fn lemma_layout_step(cells: Seq<(usize, usize)>, i: int, end: int, cols: int, gap: int)
    requires
        0 <= i < end <= cells.len(),
        cols > 0,
        gap >= 0,
        end == (if cells.len() - i < cols { cells.len() as int } else { i + cols }),
    ensures
        ({
            let row = cells.subrange(i, end);
            let rest = spec_layout(cells.subrange(end, cells.len() as int), cols, gap);
            &&& spec_layout(cells.subrange(i, cells.len() as int), cols, gap)
                == combine((row_width(row, gap), row_height(row) + gap), rest)
            &&& all_of(cells.subrange(0, end), gap) == all_of(cells.subrange(0, i), gap) + all_of(row, gap)
            &&& all_of(cells.subrange(0, end), gap) <= all_of(cells, gap)
            &&& 0 <= row_width(row, gap) <= all_of(row, gap)
            &&& 0 <= row_height(row) + gap <= all_of(row, gap)
            &&& 0 <= all_of(cells.subrange(0, i), gap)
        }),
{
    let n = cells.len() as int;
    let tail = cells.subrange(i, n);
    let row = cells.subrange(i, end);
    assert(tail.subrange(0, end - i) =~= row);
    assert(tail.subrange(end - i, tail.len() as int) =~= cells.subrange(end, n));
    lemma_row_bounds(row, gap);
    lemma_all_of_split(cells.subrange(0, end), i, gap);
    assert(cells.subrange(0, end).subrange(0, i) =~= cells.subrange(0, i));
    assert(cells.subrange(0, end).subrange(i, end) =~= row);
    lemma_all_of_split(cells, end, gap);
}

/// Width and height of the cells laid out `cols` to a row.
pub fn layout(cells: &[(usize, usize)], cols: usize, gap: usize) -> (r: (usize, usize))
    requires
        cols > 0,
        all_of(cells@, gap as int) + gap <= usize::MAX,
    ensures
        r.0 == spec_layout(cells@, cols as int, gap as int).0,
        r.1 == spec_layout(cells@, cols as int, gap as int).1,
{
    let n = cells.len();
    let mut i: usize = 0;
    let mut acc_w: usize = 0;
    let mut acc_h: usize = 0;
    proof {
        assert(cells@.subrange(0, 0) =~= Seq::<(usize, usize)>::empty());
        assert(cells@.subrange(0, n as int) =~= cells@);
        lemma_layout_bound(cells@, cols as int, gap as int);
    }
    while i < n
        invariant
            i <= n == cells@.len(),
            cols > 0,
            all_of(cells@, gap as int) + gap <= usize::MAX,
            spec_layout(cells@, cols as int, gap as int)
                == combine((acc_w as int, acc_h as int), spec_layout(cells@.subrange(i as int, n as int), cols as int, gap as int)),
            acc_w <= all_of(cells@.subrange(0, i as int), gap as int),
            acc_h <= all_of(cells@.subrange(0, i as int), gap as int),
        decreases n - i,
    {
        let end = if n - i < cols { n } else { i + cols };
        proof {
            lemma_layout_step(cells@, i as int, end as int, cols as int, gap as int);
        }
        let (rw, rh) = row_of(cells, i, end, gap);
        if rw > acc_w {
            acc_w = rw;
        }
        acc_h = acc_h + rh + gap;
        i = end;
    }
    proof {
        assert(cells@.subrange(n as int, n as int) =~= Seq::<(usize, usize)>::empty());
    }
    (acc_w, acc_h)
}

/// Whether a `w` by `h` sheet drawn at `scale` stays within the raster caps.
pub open spec fn spec_fits(w: int, h: int, scale: int) -> bool {
    &&& w * scale <= MAX_DIM
    &&& h * scale <= MAX_DIM
    &&& w * h * scale * scale <= MAX_PIXELS
}

/// Whether a `w` by `h` sheet drawn at `scale` stays within the raster caps.
pub fn fits(w: usize, h: usize, scale: usize) -> (b: bool)
    requires
        1 <= scale <= 8,
    ensures
        b == spec_fits(w as int, h as int, scale as int),
{
    if w > MAX_DIM || h > MAX_DIM {
        assert(w > MAX_DIM ==> w * scale > MAX_DIM) by (nonlinear_arith)
            requires scale >= 1;
        assert(h > MAX_DIM ==> h * scale > MAX_DIM) by (nonlinear_arith)
            requires scale >= 1;
        return false;
    }
    assert(w * scale <= 8 * MAX_DIM && h * scale <= 8 * MAX_DIM) by (nonlinear_arith)
        requires w <= MAX_DIM, h <= MAX_DIM, scale <= 8;
    let ws = w * scale;
    let hs = h * scale;
    if ws > MAX_DIM || hs > MAX_DIM {
        return false;
    }
    assert(ws * hs <= MAX_DIM * MAX_DIM) by (nonlinear_arith)
        requires ws <= MAX_DIM, hs <= MAX_DIM;
    assert(w * h * scale * scale == ws * hs) by (nonlinear_arith)
        requires ws == w * scale, hs == h * scale;
    ws * hs <= MAX_PIXELS
}

/// The column count the sheet settles on: starting from one row holding
/// every cell, halve (rounding up) while the sheet is over the caps.
pub open spec fn spec_columns(cells: Seq<(usize, usize)>, cols: int, gap: int, scale: int) -> int
    decreases cols,
{
    let (w, h) = spec_layout(cells, cols, gap);
    if cols > 1 && !spec_fits(w, h, scale) {
        spec_columns(cells, (cols + 1) / 2, gap, scale)
    } else {
        cols
    }
}

/// Lays the cells out for a sheet: the column count, width and height,
/// or `None` where even one column is over the caps at this scale.
pub fn sheet_columns(cells: &[(usize, usize)], gap: usize, scale: usize) -> (r: Option<(usize, usize, usize)>)
    requires
        cells@.len() > 0,
        1 <= scale <= 8,
        all_of(cells@, gap as int) + gap <= usize::MAX,
    ensures
        ({
            let c = spec_columns(cells@, cells@.len() as int, gap as int, scale as int);
            let (w, h) = spec_layout(cells@, c, gap as int);
            match r {
                Some((rc, rw, rh)) => rc == c && rw == w && rh == h && spec_fits(w, h, scale as int),
                None => !spec_fits(w, h, scale as int),
            }
        }),
{
    let mut cols = cells.len();
    let (mut w, mut h) = layout(cells, cols, gap);
    while cols > 1 && !fits(w, h, scale)
        invariant
            1 <= cols,
            1 <= scale <= 8,
            all_of(cells@, gap as int) + gap <= usize::MAX,
            spec_columns(cells@, cells@.len() as int, gap as int, scale as int)
                == spec_columns(cells@, cols as int, gap as int, scale as int),
            w == spec_layout(cells@, cols as int, gap as int).0,
            h == spec_layout(cells@, cols as int, gap as int).1,
        decreases cols,
    {
        cols = cols - cols / 2;
        let (nw, nh) = layout(cells, cols, gap);
        w = nw;
        h = nh;
    }
    if fits(w, h, scale) {
        Some((cols, w, h))
    } else {
        None
    }
}

} // verus!
