//! The bridge tile set (`bridge.type`).
//!
//! Bridges are one cell wide. A cell's tile is chosen by which of its four
//! neighbours it connects to, giving 15 shapes: the letters `A` to `O` in
//! the type file. A rail runs along every side that is not connected.
use vstd::prelude::*;

verus! {

/// Connection bits of a bridge cell.
pub const NORTH: u8 = 1;
pub const EAST: u8 = 2;
pub const SOUTH: u8 = 4;
pub const WEST: u8 = 8;

#[derive(Clone, Copy, Debug, PartialEq, Eq, Hash, Structural)]
pub enum Condition {
    Normal,
    Cracked,
    Hard,
}

/// The letter for the low four bits `m` of a connection mask.
pub open spec fn bridge_letter(m: int) -> char {
    if m == 15 { 'A' }
    else if m == 7 { 'B' }
    else if m == 14 { 'C' }
    else if m == 13 { 'D' }
    else if m == 11 { 'E' }
    else if m == 6 { 'F' }
    else if m == 12 { 'G' }
    else if m == 9 { 'H' }
    else if m == 3 { 'I' }
    else if m == 5 { 'J' }
    else if m == 10 { 'K' }
    else if m == 4 { 'L' }
    else if m == 8 { 'M' }
    else if m == 1 { 'N' }
    else if m == 2 { 'O' }
    else { 'A' }
}

/// Animation label for a connection mask (any of the 16 values of its low
/// four bits). An unconnected cell falls back to the cross so it still draws.
pub fn label(mask: u8) -> (l: &'static str)
    ensures
        l@ == seq![bridge_letter((mask % 16) as int)],
{
    let m = mask % 16;
    if m == 15 { proof { reveal_strlit("A"); } "A" }
    else if m == 7 { proof { reveal_strlit("B"); } "B" }
    else if m == 14 { proof { reveal_strlit("C"); } "C" }
    else if m == 13 { proof { reveal_strlit("D"); } "D" }
    else if m == 11 { proof { reveal_strlit("E"); } "E" }
    else if m == 6 { proof { reveal_strlit("F"); } "F" }
    else if m == 12 { proof { reveal_strlit("G"); } "G" }
    else if m == 9 { proof { reveal_strlit("H"); } "H" }
    else if m == 3 { proof { reveal_strlit("I"); } "I" }
    else if m == 5 { proof { reveal_strlit("J"); } "J" }
    else if m == 10 { proof { reveal_strlit("K"); } "K" }
    else if m == 4 { proof { reveal_strlit("L"); } "L" }
    else if m == 8 { proof { reveal_strlit("M"); } "M" }
    else if m == 1 { proof { reveal_strlit("N"); } "N" }
    else if m == 2 { proof { reveal_strlit("O"); } "O" }
    else { proof { reveal_strlit("A"); } "A" }
}

/// Distinct connected masks get distinct labels.
pub proof fn labels_distinct(a: u8, b: u8)
    requires
        1 <= a < 16,
        1 <= b < 16,
        a != b,
    ensures
        bridge_letter(a as int) != bridge_letter(b as int),
{
}

} // verus!
