//! The island terrain set (`isle.type`).
//!
//! The frames are grouped by animation label into terrain pieces, and
//! within each label the frames come in four equal blocks, one per theme in
//! the order sun, thunder, wind, rain.
use vstd::prelude::*;
use crate::text::{eq_ignore_case, str_eq_ignore_case};

verus! {

/// The four weather themes, in the order the terrain frames are blocked.
#[derive(Clone, Copy, Debug, PartialEq, Eq, Hash, Structural)]
pub enum Theme {
    Sun,
    Thunder,
    Wind,
    Rain,
}

pub open spec fn theme_index(t: Theme) -> int {
    match t {
        Theme::Sun => 0,
        Theme::Thunder => 1,
        Theme::Wind => 2,
        Theme::Rain => 3,
    }
}

impl Theme {
    pub const ALL: [Theme; 4] = [Theme::Sun, Theme::Thunder, Theme::Wind, Theme::Rain];

    pub fn index(self) -> (i: usize)
        ensures
            i == theme_index(self),
    {
        match self {
            Theme::Sun => 0,
            Theme::Thunder => 1,
            Theme::Wind => 2,
            Theme::Rain => 3,
        }
    }

    /// Parse a `theme = "..."` property value, ignoring ASCII case.
    pub fn parse(s: &str) -> (t: Option<Theme>)
        ensures
            t == (if eq_ignore_case(s@, "sun"@) {
                Some(Theme::Sun)
            } else if eq_ignore_case(s@, "thunder"@) {
                Some(Theme::Thunder)
            } else if eq_ignore_case(s@, "wind"@) {
                Some(Theme::Wind)
            } else if eq_ignore_case(s@, "rain"@) {
                Some(Theme::Rain)
            } else {
                None::<Theme>
            }),
    {
        if str_eq_ignore_case(s, "sun") {
            Some(Theme::Sun)
        } else if str_eq_ignore_case(s, "thunder") {
            Some(Theme::Thunder)
        } else if str_eq_ignore_case(s, "wind") {
            Some(Theme::Wind)
        } else if str_eq_ignore_case(s, "rain") {
            Some(Theme::Rain)
        } else {
            None
        }
    }
}

/// One kind of terrain tile. Edges and corners are named by the side of the
/// island they sit on; an inside corner is a filled cell whose diagonal
/// neighbour in the named direction is missing.
#[derive(Clone, Copy, Debug, PartialEq, Eq, Hash, Structural)]
pub enum Piece {
    Filled,
    EdgeLeft,
    EdgeTop,
    EdgeRight,
    EdgeBottom,
    CornerTopLeft,
    CornerTopRight,
    CornerBottomRight,
    CornerBottomLeft,
    InsideTopLeft,
    InsideTopRight,
    InsideBottomRight,
    InsideBottomLeft,
}

/// The two letters of a piece's animation label.
pub open spec fn piece_label(p: Piece) -> Seq<char> {
    match p {
        Piece::Filled => seq!['A', 'A'],
        Piece::EdgeLeft => seq!['B', 'F'],
        Piece::EdgeTop => seq!['C', 'G'],
        Piece::EdgeRight => seq!['D', 'H'],
        Piece::EdgeBottom => seq!['E', 'I'],
        Piece::CornerTopLeft => seq!['F', 'L'],
        Piece::CornerTopRight => seq!['G', 'M'],
        Piece::CornerBottomRight => seq!['H', 'N'],
        Piece::CornerBottomLeft => seq!['I', 'O'],
        Piece::InsideTopLeft => seq!['A', 'C'],
        Piece::InsideTopRight => seq!['A', 'D'],
        Piece::InsideBottomRight => seq!['A', 'E'],
        Piece::InsideBottomLeft => seq!['A', 'B'],
    }
}

impl Piece {
    pub const ALL: [Piece; 13] = [
        Piece::Filled,
        Piece::EdgeLeft,
        Piece::EdgeTop,
        Piece::EdgeRight,
        Piece::EdgeBottom,
        Piece::CornerTopLeft,
        Piece::CornerTopRight,
        Piece::CornerBottomRight,
        Piece::CornerBottomLeft,
        Piece::InsideTopLeft,
        Piece::InsideTopRight,
        Piece::InsideBottomRight,
        Piece::InsideBottomLeft,
    ];

    /// Animation label in `isle.type`.
    pub fn label(self) -> (l: &'static str)
        ensures
            l@ == piece_label(self),
    {
        match self {
            Piece::Filled => { proof { reveal_strlit("AA"); } "AA" },
            Piece::EdgeLeft => { proof { reveal_strlit("BF"); } "BF" },
            Piece::EdgeTop => { proof { reveal_strlit("CG"); } "CG" },
            Piece::EdgeRight => { proof { reveal_strlit("DH"); } "DH" },
            Piece::EdgeBottom => { proof { reveal_strlit("EI"); } "EI" },
            Piece::CornerTopLeft => { proof { reveal_strlit("FL"); } "FL" },
            Piece::CornerTopRight => { proof { reveal_strlit("GM"); } "GM" },
            Piece::CornerBottomRight => { proof { reveal_strlit("HN"); } "HN" },
            Piece::CornerBottomLeft => { proof { reveal_strlit("IO"); } "IO" },
            Piece::InsideTopLeft => { proof { reveal_strlit("AC"); } "AC" },
            Piece::InsideTopRight => { proof { reveal_strlit("AD"); } "AD" },
            Piece::InsideBottomRight => { proof { reveal_strlit("AE"); } "AE" },
            Piece::InsideBottomLeft => { proof { reveal_strlit("AB"); } "AB" },
        }
    }
}

} // verus!
