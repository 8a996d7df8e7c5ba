use rand::rngs::StdRng;
use rand::Rng;
use rand::SeedableRng;
use vstd::prelude::*;

verus! {

/// Number of colours that a freshly rolled tile draws from.
pub const ROLLED_COLORS: usize = 17;

/// Number of marks that a freshly rolled tile draws from.
pub const ROLLED_MARKS: usize = 5;

/// Number of marks on the sprite sheet, which fixes the stride of a colour's row.
pub const MARKS_PER_COLOR: usize = 6;

#[verifier::external_type_specification]
#[verifier::external_body]
pub struct ExStdRng(StdRng);

/// Relies on `rand::SeedableRng::seed_from_u64`, which builds the standard
/// generator from a 64-bit seed; nothing is promised of the generator's state.
#[verifier::external_body]
pub(crate) fn seeded_rng(seed: u64) -> (r: StdRng) {
    StdRng::seed_from_u64(seed)
}

/// Relies on `rand::Rng::gen_range` over `0..bound`: it panics on an empty
/// range (excluded here) and otherwise returns a value inside the range.
#[verifier::external_body]
pub(crate) fn random_below(rng: &mut StdRng, bound: usize) -> (r: usize)
    requires
        bound > 0,
    ensures
        r < bound,
{
    rng.gen_range(0..bound)
}

#[derive(Copy, Clone, PartialEq, Eq, Structural, Debug)]
pub enum TileColor {
    LightYellow,
    LightPink,
    DarkYellow,
    BrightPink,
    DarkGreen,
    Red,
    Green,
    DarkRed,
    LightGreen,
    Brown,
    LightBlue,
    Orange,
    DarkBlue,
    LightGrey,
    DarkPurple,
    Grey,
    BrightPurple,
    DarkGrey,
}

#[derive(Copy, Clone, PartialEq, Eq, Structural, Debug)]
pub enum TileMarking {
    Blank,
    Cross,
    Circle,
    Square,
    Triangle,
    Star,
}

/// Position of a colour in the palette (its row on the sprite sheet).
pub open spec fn color_ordinal(c: TileColor) -> nat {
    match c {
        TileColor::LightYellow => 0,
        TileColor::LightPink => 1,
        TileColor::DarkYellow => 2,
        TileColor::BrightPink => 3,
        TileColor::DarkGreen => 4,
        TileColor::Red => 5,
        TileColor::Green => 6,
        TileColor::DarkRed => 7,
        TileColor::LightGreen => 8,
        TileColor::Brown => 9,
        TileColor::LightBlue => 10,
        TileColor::Orange => 11,
        TileColor::DarkBlue => 12,
        TileColor::LightGrey => 13,
        TileColor::DarkPurple => 14,
        TileColor::Grey => 15,
        TileColor::BrightPurple => 16,
        TileColor::DarkGrey => 17,
    }
}

/// Position of a mark in the palette (its column on the sprite sheet).
pub open spec fn mark_ordinal(m: TileMarking) -> nat {
    match m {
        TileMarking::Blank => 0,
        TileMarking::Cross => 1,
        TileMarking::Circle => 2,
        TileMarking::Square => 3,
        TileMarking::Triangle => 4,
        TileMarking::Star => 5,
    }
}

impl TileColor {
    pub fn ordinal(&self) -> (r: usize)
        ensures
            r == color_ordinal(*self),
    {
        match self {
            TileColor::LightYellow => 0,
            TileColor::LightPink => 1,
            TileColor::DarkYellow => 2,
            TileColor::BrightPink => 3,
            TileColor::DarkGreen => 4,
            TileColor::Red => 5,
            TileColor::Green => 6,
            TileColor::DarkRed => 7,
            TileColor::LightGreen => 8,
            TileColor::Brown => 9,
            TileColor::LightBlue => 10,
            TileColor::Orange => 11,
            TileColor::DarkBlue => 12,
            TileColor::LightGrey => 13,
            TileColor::DarkPurple => 14,
            TileColor::Grey => 15,
            TileColor::BrightPurple => 16,
            TileColor::DarkGrey => 17,
        }
    }

    /// The colour at position `n` of the palette, if there is one.
    pub fn from_ordinal(n: usize) -> (r: Option<TileColor>)
        ensures
            n <= 17 <==> r.is_some(),
            r matches Some(c) ==> color_ordinal(c) == n,
    {
        match n {
            0 => Some(TileColor::LightYellow),
            1 => Some(TileColor::LightPink),
            2 => Some(TileColor::DarkYellow),
            3 => Some(TileColor::BrightPink),
            4 => Some(TileColor::DarkGreen),
            5 => Some(TileColor::Red),
            6 => Some(TileColor::Green),
            7 => Some(TileColor::DarkRed),
            8 => Some(TileColor::LightGreen),
            9 => Some(TileColor::Brown),
            10 => Some(TileColor::LightBlue),
            11 => Some(TileColor::Orange),
            12 => Some(TileColor::DarkBlue),
            13 => Some(TileColor::LightGrey),
            14 => Some(TileColor::DarkPurple),
            15 => Some(TileColor::Grey),
            16 => Some(TileColor::BrightPurple),
            17 => Some(TileColor::DarkGrey),
            _ => None,
        }
    }
}

impl TileMarking {
    pub fn ordinal(&self) -> (r: usize)
        ensures
            r == mark_ordinal(*self),
    {
        match self {
            TileMarking::Blank => 0,
            TileMarking::Cross => 1,
            TileMarking::Circle => 2,
            TileMarking::Square => 3,
            TileMarking::Triangle => 4,
            TileMarking::Star => 5,
        }
    }

    /// The mark at position `n` of the palette, if there is one.
    pub fn from_ordinal(n: usize) -> (r: Option<TileMarking>)
        ensures
            n <= 5 <==> r.is_some(),
            r matches Some(m) ==> mark_ordinal(m) == n,
    {
        match n {
            0 => Some(TileMarking::Blank),
            1 => Some(TileMarking::Cross),
            2 => Some(TileMarking::Circle),
            3 => Some(TileMarking::Square),
            4 => Some(TileMarking::Triangle),
            5 => Some(TileMarking::Star),
            _ => None,
        }
    }
}

/// What a cell shows: a colour, which decides matches, and a cosmetic mark.
#[derive(Copy, Clone, PartialEq, Eq, Structural, Debug)]
pub struct TileDesc {
    pub color: TileColor,
    pub mark: TileMarking,
}

/// `t` holds a descriptor that a random roll can produce.
pub open spec fn is_rolled(t: Option<TileDesc>) -> bool {
    match t {
        Some(d) => color_ordinal(d.color) < ROLLED_COLORS && mark_ordinal(d.mark) < ROLLED_MARKS,
        None => false,
    }
}

/// Index of a descriptor's sprite on the sheet: one row of marks per colour.
pub open spec fn sprite_index(t: TileDesc) -> nat {
    color_ordinal(t.color) * MARKS_PER_COLOR as nat + mark_ordinal(t.mark)
}

impl TileDesc {
    /// A descriptor from palette positions, as a random roll produces them.
    pub fn from_ordinals(color: usize, mark: usize) -> (r: Option<TileDesc>)
        ensures
            (color <= 17 && mark <= 5) <==> r.is_some(),
            r matches Some(t) ==> color_ordinal(t.color) == color && mark_ordinal(t.mark) == mark,
    {
        match (TileColor::from_ordinal(color), TileMarking::from_ordinal(mark)) {
            (Some(c), Some(m)) => Some(TileDesc { color: c, mark: m }),
            _ => None,
        }
    }

    /// A random descriptor: the colour is one of the first seventeen of the
    /// palette and the mark one of the first five.
    pub fn new(rng: &mut StdRng) -> (r: TileDesc)
        ensures
            color_ordinal(r.color) < ROLLED_COLORS,
            mark_ordinal(r.mark) < ROLLED_MARKS,
    {
        let c = random_below(rng, ROLLED_COLORS);
        let m = random_below(rng, ROLLED_MARKS);
        let color = TileColor::from_ordinal(c).unwrap();
        let mark = TileMarking::from_ordinal(m).unwrap();
        TileDesc { color, mark }
    }

    pub fn get_index(&self) -> (r: usize)
        ensures
            r == sprite_index(*self),
    {
        self.color.ordinal() * MARKS_PER_COLOR + self.mark.ordinal()
    }

    /// Two descriptors match when their colours agree; the mark plays no part.
    pub fn matches(&self, other: &TileDesc) -> (r: bool)
        ensures
            r == (self.color == other.color),
    {
        self.color == other.color
    }
}

} // verus!
