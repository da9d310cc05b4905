use vstd::prelude::*;
use vstd::string::*;

verus! {

/// The occupancy of one board square: empty, or a disc of one of the two colours.
#[derive(Clone, Copy, Debug, PartialEq, Eq, Structural)]
pub enum Cell {
    Empty,
    Dark,
    Light,
}

impl Cell {
    /// The colour that plays against `self`; `Empty` has no opponent and maps to itself.
    pub open spec fn spec_opponent(self) -> Cell {
        match self {
            Cell::Empty => Cell::Empty,
            Cell::Dark => Cell::Light,
            Cell::Light => Cell::Dark,
        }
    }

    /// The colour that plays against `self`; `Empty` has no opponent and maps to itself.
    #[verifier::when_used_as_spec(spec_opponent)]
    pub fn opponent(self) -> (r: Cell)
        ensures
            r == self.spec_opponent(),
    {
        match self {
            Cell::Empty => Cell::Empty,
            Cell::Dark => Cell::Light,
            Cell::Light => Cell::Dark,
        }
    }

    /// The character that stands for the cell in text: a space for `Empty`,
    /// `x` for `Dark`, `o` for `Light`.
    pub open spec fn spec_glyph(self) -> char {
        match self {
            Cell::Empty => ' ',
            Cell::Dark => 'x',
            Cell::Light => 'o',
        }
    }

    /// The character that stands for the cell in text: a space for `Empty`,
    /// `x` for `Dark`, `o` for `Light`.
    #[verifier::when_used_as_spec(spec_glyph)]
    pub fn glyph(self) -> (ch: char)
        ensures
            ch == self.spec_glyph(),
    {
        match self {
            Cell::Empty => ' ',
            Cell::Dark => 'x',
            Cell::Light => 'o',
        }
    }

    /// The cell that `ch` stands for, where it stands for one.
    pub open spec fn spec_from_glyph(ch: char) -> Option<Cell> {
        if ch == ' ' {
            Some(Cell::Empty)
        } else if ch == 'x' {
            Some(Cell::Dark)
        } else if ch == 'o' {
            Some(Cell::Light)
        } else {
            None
        }
    }

    /// The cell that `ch` stands for, or `None` where it stands for none.
    #[verifier::when_used_as_spec(spec_from_glyph)]
    pub fn from_glyph(ch: char) -> (r: Option<Cell>)
        ensures
            r == Cell::spec_from_glyph(ch),
    {
        if ch == ' ' {
            Some(Cell::Empty)
        } else if ch == 'x' {
            Some(Cell::Dark)
        } else if ch == 'o' {
            Some(Cell::Light)
        } else {
            None
        }
    }

    /// Reading a cell's glyph gives the cell back, and no glyph is a line break.
    pub proof fn lemma_glyph_round_trip(self)
        ensures
            Cell::spec_from_glyph(self.spec_glyph()) == Some(self),
            self.spec_glyph() != '\n',
    {
    }

    /// A character that stands for a cell is that cell's glyph.
    pub proof fn lemma_from_glyph_sound(ch: char)
        ensures
            Cell::spec_from_glyph(ch) matches Some(c) ==> c.spec_glyph() == ch,
            ch == '\n' ==> Cell::spec_from_glyph(ch) is None,
    {
    }

    /// The cell as text: its glyph alone.
    pub fn to_string(&self) -> (s: String)
        ensures
            s@ == seq![self.spec_glyph()],
    {
        proof {
            reveal_strlit(" ");
            reveal_strlit("x");
            reveal_strlit("o");
        }
        let s = match self {
            Cell::Empty => String::from_str(" "),
            Cell::Dark => String::from_str("x"),
            Cell::Light => String::from_str("o"),
        };
        assert(s@ =~= seq![self.spec_glyph()]);
        s
    }
}

} // verus!
