//! A map from grid cells to small values, kept as a list sorted by cell
//! (column, then row), so it lists its keys in the same order every time.
use vstd::prelude::*;
use crate::grid::Cell;
use crate::island::{cell_lt, less};

verus! {

/// Whether some entry of `s` has key `c`.
pub open spec fn has_key<V>(s: Seq<(Cell, V)>, c: Cell) -> bool {
    exists|i: int| 0 <= i < s.len() && (#[trigger] s[i]).0 == c
}

/// The value of the entry of `s` with key `c`.
pub open spec fn value_at<V>(s: Seq<(Cell, V)>, c: Cell) -> V {
    s[choose|i: int| 0 <= i < s.len() && (#[trigger] s[i]).0 == c].1
}

/// Keys strictly increasing.
pub open spec fn sorted_keys<V>(s: Seq<(Cell, V)>) -> bool {
    forall|i: int, j: int| 0 <= i < j < s.len() ==> cell_lt((#[trigger] s[i]).0, (#[trigger] s[j]).0)
}

/// The map a sorted entry list stands for.
pub open spec fn map_of<V>(s: Seq<(Cell, V)>) -> Map<Cell, V> {
    Map::new(|c: Cell| has_key(s, c), |c: Cell| value_at(s, c))
}

/// In a sorted list the entry holding a key is the one the map reads.
pub proof fn lemma_value_at<V>(s: Seq<(Cell, V)>, i: int)
    requires
        sorted_keys(s),
        0 <= i < s.len(),
    ensures
        has_key(s, s[i].0),
        value_at(s, s[i].0) == s[i].1,
        map_of(s).dom().contains(s[i].0),
        map_of(s)[s[i].0] == s[i].1,
{
    assert(s[i].0 == s[i].0);
    let j = choose|j: int| 0 <= j < s.len() && (#[trigger] s[j]).0 == s[i].0;
    if j < i {
        assert(cell_lt(s[j].0, s[i].0));
    } else if j > i {
        assert(cell_lt(s[i].0, s[j].0));
    }
}

/// Cells mapped to values.
#[derive(Clone, Debug, PartialEq, Eq)]
pub struct CellMap<V> {
    entries: Vec<(Cell, V)>,
}

impl<V: Copy> CellMap<V> {
    pub closed spec fn wf(&self) -> bool {
        sorted_keys(self.entries@)
    }

    /// The entries, by cell.
    pub closed spec fn entry_list(&self) -> Seq<(Cell, V)> {
        self.entries@
    }

    pub open spec fn view(&self) -> Map<Cell, V> {
        map_of(self.entry_list())
    }

    /// The entry list of a well-formed map is sorted by cell.
    pub proof fn lemma_sorted(&self)
        requires
            self.wf(),
        ensures
            sorted_keys(self.entry_list()),
    {
    }

    /// A map has finitely many keys.
    pub proof fn lemma_dom_finite(&self)
        ensures
            self@.dom().finite(),
    {
        let ks = self.entries@.map_values(|e: (Cell, V)| e.0);
        assert forall|c: Cell| self@.dom().contains(c) <==> ks.to_set().contains(c) by {
            if self@.dom().contains(c) {
                let i = choose|i: int| 0 <= i < self.entries@.len() && (#[trigger] self.entries@[i]).0 == c;
                assert(ks[i] == c);
            }
            if ks.to_set().contains(c) {
                let i = choose|i: int| 0 <= i < ks.len() && ks[i] == c;
                assert(self.entries@[i].0 == c);
            }
        }
        assert(self@.dom() =~= ks.to_set());
        vstd::seq_lib::seq_to_set_is_finite(ks);
    }

    pub fn new() -> (m: CellMap<V>)
        ensures
            m.wf(),
            m.entry_list().len() == 0,
            m@ == Map::<Cell, V>::empty(),
    {
        let m = CellMap { entries: Vec::new() };
        assert(m@ =~= Map::<Cell, V>::empty());
        m
    }

    pub fn len(&self) -> (n: usize)
        ensures
            n == self.entry_list().len(),
    {
        self.entries.len()
    }

    /// The entry at `i` of the list.
    pub fn entry(&self, i: usize) -> (e: (Cell, V))
        requires
            i < self.entry_list().len(),
        ensures
            e == self.entry_list()[i as int],
    {
        self.entries[i]
    }

    /// Where `cell` is or would go in the list.
    fn position(&self, cell: Cell) -> (k: usize)
        requires
            self.wf(),
        ensures
            k <= self.entries@.len(),
            forall|i: int| 0 <= i < k ==> cell_lt((#[trigger] self.entries@[i]).0, cell),
            forall|i: int| k <= i < self.entries@.len() ==> !cell_lt((#[trigger] self.entries@[i]).0, cell),
            k < self.entries@.len() && self.entries@[k as int].0 == cell <==> has_key(self.entries@, cell),
    {
        let mut k: usize = 0;
        while k < self.entries.len() && less(self.entries[k].0, cell)
            invariant
                self.wf(),
                k <= self.entries@.len(),
                forall|i: int| 0 <= i < k ==> cell_lt((#[trigger] self.entries@[i]).0, cell),
            decreases self.entries@.len() - k,
        {
            k = k + 1;
        }
        proof {
            let s = self.entries@;
            assert forall|i: int| k <= i < s.len() implies !cell_lt((#[trigger] s[i]).0, cell) by {
                if i > k {
                    assert(cell_lt(s[k as int].0, s[i].0));
                }
            }
            if has_key(s, cell) {
                let i = choose|i: int| 0 <= i < s.len() && (#[trigger] s[i]).0 == cell;
                if i < k {
                    assert(cell_lt(s[i].0, cell));
                } else if i > k {
                    assert(cell_lt(s[k as int].0, s[i].0));
                }
            }
        }
        k
    }

    pub fn get(&self, cell: Cell) -> (r: Option<V>)
        requires
            self.wf(),
        ensures
            r == (if self@.dom().contains(cell) { Some(self@[cell]) } else { None::<V> }),
    {
        let k = self.position(cell);
        if k < self.entries.len() && self.entries[k].0 == cell {
            proof { lemma_value_at(self.entries@, k as int); }
            Some(self.entries[k].1)
        } else {
            None
        }
    }

    pub fn contains_key(&self, cell: Cell) -> (r: bool)
        requires
            self.wf(),
        ensures
            r == self@.dom().contains(cell),
    {
        let k = self.position(cell);
        k < self.entries.len() && self.entries[k].0 == cell
    }

    /// Map `cell` to `value`, replacing what it held.
    pub fn insert(&mut self, cell: Cell, value: V)
        requires
            old(self).wf(),
        ensures
            final(self).wf(),
            final(self)@ == old(self)@.insert(cell, value),
    {
        let k = self.position(cell);
        let ghost before = self.entries@;
        if k < self.entries.len() && self.entries[k].0 == cell {
            self.entries.set(k, (cell, value));
            proof {
                let after = self.entries@;
                assert forall|i: int, j: int| 0 <= i < j < after.len() implies cell_lt((#[trigger] after[i]).0, (#[trigger] after[j]).0) by {
                    assert(cell_lt(before[i].0, before[j].0));
                }
                assert forall|c: Cell| has_key(after, c) <==> has_key(before, c) by {
                    if has_key(after, c) {
                        let i = choose|i: int| 0 <= i < after.len() && (#[trigger] after[i]).0 == c;
                        assert(before[i].0 == c);
                    }
                    if has_key(before, c) {
                        let i = choose|i: int| 0 <= i < before.len() && (#[trigger] before[i]).0 == c;
                        assert(after[i].0 == c);
                    }
                }
                assert forall|c: Cell| #[trigger] has_key(after, c) implies value_at(after, c) == (if c == cell { value } else { value_at(before, c) }) by {
                    let i = choose|i: int| 0 <= i < after.len() && (#[trigger] after[i]).0 == c;
                    lemma_value_at(after, i);
                    if i != k {
                        lemma_value_at(before, i);
                    }
                }
                assert(self@ =~= map_of(before).insert(cell, value));
            }
        } else {
            self.entries.insert(k, (cell, value));
            proof {
                let after = self.entries@;
                assert forall|i: int, j: int| 0 <= i < j < after.len() implies cell_lt((#[trigger] after[i]).0, (#[trigger] after[j]).0) by {
                    if i < k && j == k {
                    } else if i < k && j > k {
                        assert(after[j] == before[j - 1]);
                        assert(cell_lt(before[i].0, before[j - 1].0));
                    } else if i == k && j > k {
                        assert(after[j] == before[j - 1]);
                        assert(!cell_lt(before[j - 1].0, cell));
                        assert(before[j - 1].0 != cell);
                    } else if i > k {
                        assert(after[i] == before[i - 1] && after[j] == before[j - 1]);
                        assert(cell_lt(before[i - 1].0, before[j - 1].0));
                    } else {
                        assert(cell_lt(before[i].0, before[j].0));
                    }
                }
                assert forall|c: Cell| has_key(after, c) <==> has_key(before, c) || c == cell by {
                    if has_key(after, c) {
                        let i = choose|i: int| 0 <= i < after.len() && (#[trigger] after[i]).0 == c;
                        if i < k {
                            assert(before[i].0 == c);
                        } else if i > k {
                            assert(before[i - 1].0 == c);
                        }
                    }
                    if has_key(before, c) {
                        let i = choose|i: int| 0 <= i < before.len() && (#[trigger] before[i]).0 == c;
                        if i < k {
                            assert(after[i].0 == c);
                        } else {
                            assert(after[i + 1].0 == c);
                        }
                    }
                    if c == cell {
                        assert(after[k as int].0 == c);
                    }
                }
                assert forall|c: Cell| #[trigger] has_key(after, c) implies value_at(after, c) == (if c == cell { value } else { value_at(before, c) }) by {
                    let i = choose|i: int| 0 <= i < after.len() && (#[trigger] after[i]).0 == c;
                    lemma_value_at(after, i);
                    if i < k {
                        lemma_value_at(before, i);
                    } else if i > k {
                        lemma_value_at(before, i - 1);
                    }
                }
                assert(self@ =~= map_of(before).insert(cell, value));
            }
        }
    }

    /// Take `cell` out; what it held, if anything.
    pub fn remove(&mut self, cell: Cell) -> (r: Option<V>)
        requires
            old(self).wf(),
        ensures
            final(self).wf(),
            final(self)@ == old(self)@.remove(cell),
            r == (if old(self)@.dom().contains(cell) { Some(old(self)@[cell]) } else { None::<V> }),
            r is Some ==> final(self).entry_list().len() == old(self).entry_list().len() - 1,
            r is None ==> final(self).entry_list() == old(self).entry_list(),
    {
        let k = self.position(cell);
        let ghost before = self.entries@;
        if k < self.entries.len() && self.entries[k].0 == cell {
            let (_, v) = self.entries.remove(k);
            proof {
                lemma_value_at(before, k as int);
                let after = self.entries@;
                assert forall|i: int, j: int| 0 <= i < j < after.len() implies cell_lt((#[trigger] after[i]).0, (#[trigger] after[j]).0) by {
                    if j < k {
                        assert(cell_lt(before[i].0, before[j].0));
                    } else if i < k {
                        assert(after[j] == before[j + 1]);
                        assert(cell_lt(before[i].0, before[j + 1].0));
                    } else {
                        assert(after[i] == before[i + 1] && after[j] == before[j + 1]);
                        assert(cell_lt(before[i + 1].0, before[j + 1].0));
                    }
                }
                assert forall|c: Cell| has_key(after, c) <==> has_key(before, c) && c != cell by {
                    if has_key(after, c) {
                        let i = choose|i: int| 0 <= i < after.len() && (#[trigger] after[i]).0 == c;
                        if i < k {
                            assert(before[i].0 == c);
                            assert(cell_lt(before[i].0, before[k as int].0));
                        } else {
                            assert(before[i + 1].0 == c);
                            assert(cell_lt(before[k as int].0, before[i + 1].0));
                        }
                    }
                    if has_key(before, c) && c != cell {
                        let i = choose|i: int| 0 <= i < before.len() && (#[trigger] before[i]).0 == c;
                        if i < k {
                            assert(after[i].0 == c);
                        } else {
                            assert(i != k);
                            assert(after[i - 1].0 == c);
                        }
                    }
                }
                assert forall|c: Cell| #[trigger] has_key(after, c) implies value_at(after, c) == value_at(before, c) by {
                    let i = choose|i: int| 0 <= i < after.len() && (#[trigger] after[i]).0 == c;
                    lemma_value_at(after, i);
                    if i < k {
                        lemma_value_at(before, i);
                    } else {
                        lemma_value_at(before, i + 1);
                    }
                }
                assert(self@ =~= map_of(before).remove(cell));
            }
            Some(v)
        } else {
            proof {
                assert(map_of(before).remove(cell) =~= map_of(before));
            }
            None
        }
    }

    /// The keys, by cell.
    pub fn keys(&self) -> (v: Vec<Cell>)
        requires
            self.wf(),
        ensures
            v@.len() == self.entry_list().len(),
            forall|i: int| 0 <= i < v@.len() ==> v@[i] == (#[trigger] self.entry_list()[i]).0,
            forall|c: Cell| v@.contains(c) <==> self@.dom().contains(c),
    {
        let mut v: Vec<Cell> = Vec::new();
        let mut k: usize = 0;
        while k < self.entries.len()
            invariant
                k <= self.entries@.len(),
                v@.len() == k,
                forall|i: int| 0 <= i < k ==> v@[i] == (#[trigger] self.entries@[i]).0,
            decreases self.entries@.len() - k,
        {
            v.push(self.entries[k].0);
            k = k + 1;
        }
        proof {
            assert forall|c: Cell| v@.contains(c) <==> has_key(self.entries@, c) by {
                if v@.contains(c) {
                    let i = choose|i: int| 0 <= i < v@.len() && v@[i] == c;
                    assert(self.entries@[i].0 == c);
                }
                if has_key(self.entries@, c) {
                    let i = choose|i: int| 0 <= i < self.entries@.len() && (#[trigger] self.entries@[i]).0 == c;
                    assert(v@[i] == c);
                }
            }
        }
        v
    }
}

} // verus!
