//! Making battlefields up: the cells a structure covers when placed. The
//! seats round the ring are placed by trigonometry, around this library.
use vstd::prelude::*;
use crate::grid::Cell;
use crate::structure::footprint_seq;

verus! {

/// Cells a structure of `foot` size (at least one each way) covers with
/// its hotspot at `at`: row by row from the hotspot leftwards and upwards.
pub fn footprint(at: Cell, foot: (i32, i32)) -> (v: Vec<Cell>)
    requires
        i32::MIN <= at.x - ((if foot.0 >= 1 { foot.0 as int } else { 1 }) - 1),
        i32::MIN <= at.y - ((if foot.1 >= 1 { foot.1 as int } else { 1 }) - 1),
        (if foot.0 >= 1 { foot.0 as int } else { 1 }) * (if foot.1 >= 1 { foot.1 as int } else { 1 }) <= usize::MAX,
    ensures
        v@ == footprint_seq(at, if foot.0 >= 1 { foot.0 as int } else { 1 }, if foot.1 >= 1 { foot.1 as int } else { 1 }),
{
    let fx: i32 = if foot.0 >= 1 { foot.0 } else { 1 };
    let fy: i32 = if foot.1 >= 1 { foot.1 } else { 1 };
    let ghost want = footprint_seq(at, fx as int, fy as int);
    let mut v: Vec<Cell> = Vec::new();
    let mut dy: i32 = 0;
    while dy < fy
        invariant
            1 <= fx && 1 <= fy,
            i32::MIN <= at.x - (fx - 1) && i32::MIN <= at.y - (fy - 1),
            fx * fy <= usize::MAX,
            want == footprint_seq(at, fx as int, fy as int),
            0 <= dy <= fy,
            v@ == want.subrange(0, dy * fx),
        decreases fy - dy,
    {
        let mut dx: i32 = 0;
        while dx < fx
            invariant
                1 <= fx && 1 <= fy,
                i32::MIN <= at.x - (fx - 1) && i32::MIN <= at.y - (fy - 1),
                fx * fy <= usize::MAX,
                want == footprint_seq(at, fx as int, fy as int),
                0 <= dy < fy,
                0 <= dx <= fx,
                v@ == want.subrange(0, dy * fx + dx),
            decreases fx - dx,
        {
            proof {
                assert(dy * fx + dx < fx * fy) by (nonlinear_arith)
                    requires 0 <= dy < fy, 0 <= dx < fx;
                assert((dy * fx + dx) % (fx as int) == dx as int && (dy * fx + dx) / (fx as int) == dy as int)
                    by (nonlinear_arith) requires 0 <= dx < fx, 0 <= dy;
            }
            v.push(Cell::new(at.x - dx, at.y - dy));
            proof {
                assert(want.subrange(0, dy * fx + dx + 1) =~= want.subrange(0, dy * fx + dx).push(want[dy * fx + dx]));
            }
            dx = dx + 1;
        }
        proof {
            assert(dy * fx + fx == (dy + 1) * fx) by (nonlinear_arith);
        }
        dy = dy + 1;
    }
    proof {
        assert(dy * fx == fx * fy) by (nonlinear_arith) requires dy == fy;
        assert(v@ =~= want);
    }
    v
}

/// What converting a scenario could not place, for the log: unknown
/// type codes with how often each came up, and notes.
#[derive(Clone, Debug, PartialEq, Eq)]
pub struct Report {
    pub unknown_codes: Vec<(u8, usize)>,
    pub notes: Vec<String>,
}

/// The `w` x `h` spot at (`x`, `y`) keeps a cell clear of the world's
/// edge and `spacing` clear of every rectangle `(x0, y0, x1, y1)` taken.
pub open spec fn spec_clear(taken: Seq<(i32, i32, i32, i32)>, x: int, y: int, w: int, h: int, world: Cell, spacing: int) -> bool {
    &&& x >= 1 && y >= 1 && x + w < world.x - 1 && y + h < world.y - 1
    &&& forall|k: int| 0 <= k < taken.len() ==> {
        let (x0, y0, x1, y1) = #[trigger] taken[k];
        x + w + spacing <= x0 || x >= x1 + spacing || y + h + spacing <= y0 || y >= y1 + spacing
    }
}

/// Whether a spot for a geyser island or islet is free (see [`spec_clear`]).
pub fn clear_spot(taken: &Vec<(i32, i32, i32, i32)>, x: i32, y: i32, w: i32, h: i32, world: Cell, spacing: i32) -> (ok: bool)
    ensures
        ok == spec_clear(taken@, x as int, y as int, w as int, h as int, world, spacing as int),
{
    let (xi, yi, wi, hi, sp) = (x as i64, y as i64, w as i64, h as i64, spacing as i64);
    if xi < 1 || yi < 1 || xi + wi >= world.x as i64 - 1 || yi + hi >= world.y as i64 - 1 {
        return false;
    }
    let mut k: usize = 0;
    while k < taken.len()
        invariant
            k <= taken@.len(),
            xi == x && yi == y && wi == w && hi == h && sp == spacing,
            forall|m: int| 0 <= m < k ==> {
                let (x0, y0, x1, y1) = #[trigger] taken@[m];
                x + w + spacing <= x0 || x >= x1 + spacing || y + h + spacing <= y0 || y >= y1 + spacing
            },
        decreases taken@.len() - k,
    {
        let (x0, y0, x1, y1) = taken[k];
        let (a0, b0, a1, b1) = (x0 as i64, y0 as i64, x1 as i64, y1 as i64);
        if !(xi + wi + sp <= a0 || xi >= a1 + sp || yi + hi + sp <= b0 || yi >= b1 + sp) {
            proof {
                assert(taken@[k as int] == (x0, y0, x1, y1));
            }
            return false;
        }
        k = k + 1;
    }
    true
}

} // verus!
