//! Island shapes on the grid and the terrain piece each cell needs.
use vstd::prelude::*;
use crate::grid::{Cell, cell_at, offset_fits};
use crate::isle::Piece;

verus! {

/// The order the cells of an island are kept and listed in: by column,
/// then by row.
pub open spec fn cell_lt(a: Cell, b: Cell) -> bool {
    a.x < b.x || (a.x == b.x && a.y < b.y)
}

pub open spec fn sorted_cells(s: Seq<Cell>) -> bool {
    forall|i: int, j: int| 0 <= i < j < s.len() ==> cell_lt(#[trigger] s[i], #[trigger] s[j])
}

pub(crate) fn less(a: Cell, b: Cell) -> (r: bool)
    ensures
        r == cell_lt(a, b),
{
    a.x < b.x || (a.x == b.x && a.y < b.y)
}

/// The set of cells that belong to one island.
#[derive(Clone, Debug, PartialEq, Eq)]
pub struct IslandMap {
    cells: Vec<Cell>,
}

/// The cells of the `width` x `height` rectangle whose top-left cell is `origin`.
pub open spec fn rect_set(origin: Cell, width: int, height: int) -> Set<Cell> {
    Set::new(|c: Cell| origin.x <= c.x < origin.x + width && origin.y <= c.y < origin.y + height)
}

/// The terrain piece a cell of the island `s` takes: outside corners
/// before edges, edges before inside corners; a cell missing opposite
/// neighbours is drawn as the corner facing the top-left.
pub open spec fn spec_piece(s: Set<Cell>, c: Cell) -> Option<Piece> {
    if !s.contains(c) {
        None
    } else {
        let l = s.contains(cell_at(c.x - 1, c.y as int));
        let t = s.contains(cell_at(c.x as int, c.y - 1));
        let r = s.contains(cell_at(c.x + 1, c.y as int));
        let b = s.contains(cell_at(c.x as int, c.y + 1));
        Some(
            if !l && !t {
                Piece::CornerTopLeft
            } else if !t && !r {
                Piece::CornerTopRight
            } else if !r && !b {
                Piece::CornerBottomRight
            } else if !l && !b {
                Piece::CornerBottomLeft
            } else if (l && !t && r && !b) || (!l && t && !r && b) {
                Piece::CornerTopLeft
            } else if !l {
                Piece::EdgeLeft
            } else if !t {
                Piece::EdgeTop
            } else if !r {
                Piece::EdgeRight
            } else if !b {
                Piece::EdgeBottom
            } else if !s.contains(cell_at(c.x - 1, c.y - 1)) {
                Piece::InsideTopLeft
            } else if !s.contains(cell_at(c.x + 1, c.y - 1)) {
                Piece::InsideTopRight
            } else if !s.contains(cell_at(c.x + 1, c.y + 1)) {
                Piece::InsideBottomRight
            } else if !s.contains(cell_at(c.x - 1, c.y + 1)) {
                Piece::InsideBottomLeft
            } else {
                Piece::Filled
            },
        )
    }
}

impl IslandMap {
    pub closed spec fn wf(&self) -> bool {
        sorted_cells(self.cells@)
    }

    /// The island's cells.
    pub closed spec fn view(&self) -> Set<Cell> {
        self.cells@.to_set()
    }

    /// An island has finitely many cells.
    pub proof fn lemma_finite(&self)
        ensures
            self.view().finite(),
    {
        vstd::seq_lib::seq_to_set_is_finite(self.cells@);
    }

    pub fn new() -> (m: IslandMap)
        ensures
            m.wf(),
            m.view() == Set::<Cell>::empty(),
    {
        let m = IslandMap { cells: Vec::new() };
        assert(m.view() =~= Set::<Cell>::empty());
        m
    }

    /// Where `cell` is or would go in the sorted list.
    fn position(&self, cell: Cell) -> (k: usize)
        requires
            self.wf(),
        ensures
            k <= self.cells@.len(),
            forall|i: int| 0 <= i < k ==> cell_lt(#[trigger] self.cells@[i], cell),
            forall|i: int| k <= i < self.cells@.len() ==> !cell_lt(#[trigger] self.cells@[i], cell),
    {
        let mut k: usize = 0;
        while k < self.cells.len() && less(self.cells[k], cell)
            invariant
                self.wf(),
                k <= self.cells@.len(),
                forall|i: int| 0 <= i < k ==> cell_lt(#[trigger] self.cells@[i], cell),
            decreases self.cells@.len() - k,
        {
            k = k + 1;
        }
        proof {
            assert forall|i: int| k <= i < self.cells@.len() implies !cell_lt(#[trigger] self.cells@[i], cell) by {
                if i > k {
                    assert(cell_lt(self.cells@[k as int], self.cells@[i]));
                }
            }
        }
        k
    }

    /// Add a cell; `true` if it was not there before.
    pub fn insert(&mut self, cell: Cell) -> (added: bool)
        requires
            old(self).wf(),
        ensures
            final(self).wf(),
            final(self).view() == old(self).view().insert(cell),
            added == !old(self).view().contains(cell),
    {
        let k = self.position(cell);
        if k < self.cells.len() && self.cells[k] == cell {
            assert(self.view().insert(cell) =~= self.view());
            return false;
        }
        let ghost before = self.cells@;
        proof {
            assert(!before.contains(cell)) by {
                if before.contains(cell) {
                    let i = choose|i: int| 0 <= i < before.len() && before[i] == cell;
                    if i < k {
                        assert(cell_lt(before[i], cell));
                    } else if i > k {
                        assert(cell_lt(before[k as int], before[i]));
                        assert(!cell_lt(before[k as int], cell));
                    }
                }
            }
        }
        self.cells.insert(k, cell);
        proof {
            let after = self.cells@;
            assert(after =~= before.subrange(0, k as int).push(cell) + before.subrange(k as int, before.len() as int));
            assert forall|i: int, j: int| 0 <= i < j < after.len() implies cell_lt(#[trigger] after[i], #[trigger] after[j]) by {
                if i < k && j == k {
                } else if i < k && j > k {
                    assert(after[j] == before[j - 1]);
                } else if i == k && j > k {
                    assert(after[j] == before[j - 1]);
                    assert(!cell_lt(before[j - 1], cell));
                    assert(before[j - 1] != cell);
                } else if i > k {
                    assert(after[i] == before[i - 1] && after[j] == before[j - 1]);
                }
            }
            assert forall|c: Cell| after.contains(c) <==> before.contains(c) || c == cell by {
                if after.contains(c) {
                    let i = choose|i: int| 0 <= i < after.len() && after[i] == c;
                    if i < k {
                        assert(before[i] == c);
                    } else if i > k {
                        assert(before[i - 1] == c);
                    }
                }
                if before.contains(c) {
                    let i = choose|i: int| 0 <= i < before.len() && before[i] == c;
                    if i < k {
                        assert(after[i] == c);
                    } else {
                        assert(after[i + 1] == c);
                    }
                }
                if c == cell {
                    assert(after[k as int] == c);
                }
            }
            assert(self.view() =~= before.to_set().insert(cell));
        }
        true
    }

    /// Take a cell out; `true` if it was there.
    pub fn remove(&mut self, cell: Cell) -> (removed: bool)
        requires
            old(self).wf(),
        ensures
            final(self).wf(),
            final(self).view() == old(self).view().remove(cell),
            removed == old(self).view().contains(cell),
    {
        let k = self.position(cell);
        let ghost before = self.cells@;
        if k < self.cells.len() && self.cells[k] == cell {
            self.cells.remove(k);
            proof {
                let after = self.cells@;
                assert(after =~= before.subrange(0, k as int) + before.subrange(k + 1, before.len() as int));
                assert forall|i: int, j: int| 0 <= i < j < after.len() implies cell_lt(#[trigger] after[i], #[trigger] after[j]) by {
                    if j < k {
                    } else if i < k {
                        assert(after[j] == before[j + 1]);
                    } else {
                        assert(after[i] == before[i + 1] && after[j] == before[j + 1]);
                    }
                }
                assert forall|c: Cell| after.contains(c) <==> before.contains(c) && c != cell by {
                    if after.contains(c) {
                        let i = choose|i: int| 0 <= i < after.len() && after[i] == c;
                        if i < k {
                            assert(before[i] == c);
                            assert(cell_lt(before[i], before[k as int]));
                        } else {
                            assert(before[i + 1] == c);
                            assert(cell_lt(before[k as int], before[i + 1]));
                        }
                    }
                    if before.contains(c) && c != cell {
                        let i = choose|i: int| 0 <= i < before.len() && before[i] == c;
                        if i < k {
                            assert(after[i] == c);
                        } else {
                            assert(i != k);
                            assert(after[i - 1] == c);
                        }
                    }
                }
                assert(self.view() =~= before.to_set().remove(cell));
            }
            true
        } else {
            proof {
                assert(!before.contains(cell)) by {
                    if before.contains(cell) {
                        let i = choose|i: int| 0 <= i < before.len() && before[i] == cell;
                        if i < k {
                            assert(cell_lt(before[i], cell));
                        } else if i > k {
                            assert(cell_lt(before[k as int], before[i]));
                        }
                    }
                }
                assert(self.view().remove(cell) =~= self.view());
            }
            false
        }
    }

    pub fn contains(&self, cell: Cell) -> (r: bool)
        requires
            self.wf(),
        ensures
            r == self.view().contains(cell),
    {
        let k = self.position(cell);
        if k < self.cells.len() && self.cells[k] == cell {
            assert(self.cells@.contains(cell));
            true
        } else {
            proof {
                if self.cells@.contains(cell) {
                    let i = choose|i: int| 0 <= i < self.cells@.len() && self.cells@[i] == cell;
                    if i < k {
                        assert(cell_lt(self.cells@[i], cell));
                    } else if i > k {
                        assert(cell_lt(self.cells@[k as int], self.cells@[i]));
                    }
                }
            }
            false
        }
    }

    /// The cells, by column and then by row.
    pub fn cells(&self) -> (v: Vec<Cell>)
        requires
            self.wf(),
        ensures
            v@.to_set() == self.view(),
            sorted_cells(v@),
    {
        let mut v: Vec<Cell> = Vec::new();
        let mut k: usize = 0;
        while k < self.cells.len()
            invariant
                k <= self.cells@.len(),
                v@ == self.cells@.subrange(0, k as int),
            decreases self.cells@.len() - k,
        {
            v.push(self.cells[k]);
            k = k + 1;
        }
        assert(v@ =~= self.cells@);
        v
    }

    pub fn len(&self) -> (n: usize)
        requires
            self.wf(),
        ensures
            n == self.view().len(),
    {
        proof {
            assert(self.cells@.no_duplicates()) by {
                assert forall|i: int, j: int| 0 <= i < self.cells@.len() && 0 <= j < self.cells@.len() && i != j
                    implies self.cells@[i] != self.cells@[j] by {
                    if i < j {
                        assert(cell_lt(self.cells@[i], self.cells@[j]));
                    } else {
                        assert(cell_lt(self.cells@[j], self.cells@[i]));
                    }
                }
            }
            self.cells@.unique_seq_to_set();
        }
        self.cells.len()
    }

    pub fn is_empty(&self) -> (e: bool)
        requires
            self.wf(),
        ensures
            e == (self.view().len() == 0),
    {
        self.len() == 0
    }

    /// A solid rectangle with its top-left corner at `origin` (empty when
    /// a side is not positive).
    pub fn rect(origin: Cell, width: i32, height: i32) -> (m: IslandMap)
        requires
            origin.x + width <= i32::MAX + 1,
            origin.y + height <= i32::MAX + 1,
        ensures
            m.wf(),
            m.view() == rect_set(origin, width as int, height as int),
    {
        let mut m = IslandMap::new();
        let mut y: i32 = 0;
        while y < height
            invariant
                0 <= y,
                height > 0 ==> y <= height,
                height <= 0 ==> y == 0,
                origin.x + width <= i32::MAX + 1,
                origin.y + height <= i32::MAX + 1,
                m.wf(),
                m.view() == rect_set(origin, width as int, y as int),
            decreases height - y,
        {
            let mut x: i32 = 0;
            while x < width
                invariant
                    0 <= x,
                    width > 0 ==> x <= width,
                    width <= 0 ==> x == 0,
                    0 <= y < height,
                    origin.x + width <= i32::MAX + 1,
                    origin.y + height <= i32::MAX + 1,
                    m.wf(),
                    m.view() == rect_set(origin, width as int, y as int).union(
                        Set::new(|c: Cell| c.y == origin.y + y && origin.x <= c.x < origin.x + x)),
                decreases width - x,
            {
                m.insert(Cell::new(origin.x + x, origin.y + y));
                proof {
                    assert(m.view() =~= rect_set(origin, width as int, y as int).union(
                        Set::new(|c: Cell| c.y == origin.y + y && origin.x <= c.x < origin.x + x + 1)));
                }
                x = x + 1;
            }
            proof {
                if width > 0 {
                    assert(m.view() =~= rect_set(origin, width as int, y + 1));
                } else {
                    assert(m.view() =~= rect_set(origin, width as int, y + 1));
                }
            }
            y = y + 1;
        }
        proof {
            assert(m.view() =~= rect_set(origin, width as int, height as int));
        }
        m
    }

    /// Terrain piece for a cell of this island, or `None` if the cell is
    /// not part of it.
    pub fn piece_at(&self, cell: Cell) -> (p: Option<Piece>)
        requires
            self.wf(),
            i32::MIN < cell.x < i32::MAX,
            i32::MIN < cell.y < i32::MAX,
        ensures
            p == spec_piece(self.view(), cell),
    {
        if !self.contains(cell) {
            return None;
        }
        let l = self.contains(cell.offset(-1, 0));
        let t = self.contains(cell.offset(0, -1));
        let r = self.contains(cell.offset(1, 0));
        let b = self.contains(cell.offset(0, 1));
        let piece = if !l && !t {
            Piece::CornerTopLeft
        } else if !t && !r {
            Piece::CornerTopRight
        } else if !r && !b {
            Piece::CornerBottomRight
        } else if !l && !b {
            Piece::CornerBottomLeft
        } else if (l && !t && r && !b) || (!l && t && !r && b) {
            Piece::CornerTopLeft
        } else if !l {
            Piece::EdgeLeft
        } else if !t {
            Piece::EdgeTop
        } else if !r {
            Piece::EdgeRight
        } else if !b {
            Piece::EdgeBottom
        } else if !self.contains(cell.offset(-1, -1)) {
            Piece::InsideTopLeft
        } else if !self.contains(cell.offset(1, -1)) {
            Piece::InsideTopRight
        } else if !self.contains(cell.offset(1, 1)) {
            Piece::InsideBottomRight
        } else if !self.contains(cell.offset(-1, 1)) {
            Piece::InsideBottomLeft
        } else {
            Piece::Filled
        };
        Some(piece)
    }
}

/// Taking out a cell that was just added leaves the island as it was, and
/// adding one that was taken out restores it.
pub proof fn insert_then_remove(s: Set<Cell>, c: Cell)
    requires
        !s.contains(c),
    ensures
        s.insert(c).remove(c) == s,
        s.insert(c).contains(c),
{
    assert(s.insert(c).remove(c) =~= s);
}

pub proof fn remove_then_insert(s: Set<Cell>, c: Cell)
    requires
        s.contains(c),
    ensures
        s.remove(c).insert(c) == s,
        !s.remove(c).contains(c),
{
    assert(s.remove(c).insert(c) =~= s);
}

/// How a cell of the island is drawn from its neighbours. Outside corners
/// come first: a cell missing its left and top neighbours is the top-left
/// corner, else one missing top and right the top-right corner, else one
/// missing right and bottom the bottom-right corner, else one missing left
/// and bottom the bottom-left corner; a one-cell-wide strip (missing
/// opposite neighbours) is drawn as the top-left corner. A cell missing
/// exactly one orthogonal neighbour is the edge on that side. With all four
/// orthogonal neighbours in the island, the first missing diagonal, in the
/// order up-left, up-right, down-right, down-left, names the inside corner
/// facing it, and a cell missing none is filled.
pub proof fn pieces_face_what_is_missing(s: Set<Cell>, c: Cell)
    requires
        s.contains(c),
    ensures
        ({
            let l = s.contains(cell_at(c.x - 1, c.y as int));
            let t = s.contains(cell_at(c.x as int, c.y - 1));
            let r = s.contains(cell_at(c.x + 1, c.y as int));
            let b = s.contains(cell_at(c.x as int, c.y + 1));
            let tl = s.contains(cell_at(c.x - 1, c.y - 1));
            let tr = s.contains(cell_at(c.x + 1, c.y - 1));
            let br = s.contains(cell_at(c.x + 1, c.y + 1));
            let bl = s.contains(cell_at(c.x - 1, c.y + 1));
            &&& !l && !t ==> spec_piece(s, c) == Some(Piece::CornerTopLeft)
            &&& l && !t && !r ==> spec_piece(s, c) == Some(Piece::CornerTopRight)
            &&& t && !r && !b ==> spec_piece(s, c) == Some(Piece::CornerBottomRight)
            &&& !l && t && r && !b ==> spec_piece(s, c) == Some(Piece::CornerBottomLeft)
            &&& l && !t && r && !b ==> spec_piece(s, c) == Some(Piece::CornerTopLeft)
            &&& !l && t && !r && b ==> spec_piece(s, c) == Some(Piece::CornerTopLeft)
            &&& !l && t && r && b ==> spec_piece(s, c) == Some(Piece::EdgeLeft)
            &&& l && !t && r && b ==> spec_piece(s, c) == Some(Piece::EdgeTop)
            &&& l && t && !r && b ==> spec_piece(s, c) == Some(Piece::EdgeRight)
            &&& l && t && r && !b ==> spec_piece(s, c) == Some(Piece::EdgeBottom)
            &&& l && t && r && b ==> {
                &&& !tl ==> spec_piece(s, c) == Some(Piece::InsideTopLeft)
                &&& tl && !tr ==> spec_piece(s, c) == Some(Piece::InsideTopRight)
                &&& tl && tr && !br ==> spec_piece(s, c) == Some(Piece::InsideBottomRight)
                &&& tl && tr && br && !bl ==> spec_piece(s, c) == Some(Piece::InsideBottomLeft)
                &&& tl && tr && br && bl ==> spec_piece(s, c) == Some(Piece::Filled)
            }
        }),
{
}

} // verus!
