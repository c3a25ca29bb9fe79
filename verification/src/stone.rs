//! One cell of the board, packed into a byte.

use vstd::prelude::*;

verus! {

/// Which player's stone.
#[derive(PartialEq, Eq, Debug, Clone, Copy, Structural)]
pub enum Color {
    Black,
    White,
}

impl Color {
    /// The opponent of this player.
    pub open spec fn opponent(self) -> Color {
        match self {
            Color::Black => Color::White,
            Color::White => Color::Black,
        }
    }
}

/// This bit is set if the cell holds a stone.
pub const STONE_PRESENCE: u8 = 0x1;

/// This bit is set if the stone is white and unset if it is black. It means
/// nothing while `STONE_PRESENCE` is unset.
pub const STONE_COLOR: u8 = 0x2;

/// This bit is set if the stone is dead. It means nothing while
/// `STONE_PRESENCE` is unset.
pub const STONE_DEAD: u8 = 0x4;

/// This bit is set if the cell is worth a point.
pub const STONE_SCORE: u8 = 0x8;

/// This bit is set if the point goes to white and unset if it goes to black.
/// It means nothing while `STONE_SCORE` is unset.
pub const STONE_SCORE_COLOR: u8 = 0x10;

/// This bit belongs to the scoring pass, which sets it on the cells it has
/// settled and clears it again before it returns.
pub const STONE_PROCESSED: u8 = 0x20;

/// The bits of the byte that carry no flag.
pub const STONE_SPARE: u8 = 0xC0;

/// What a cell records: six independent flags. `spare` holds the two bits of
/// the byte that no flag uses, in place; no operation changes them.
pub struct StoneView {
    pub present: bool,
    pub white: bool,
    pub dead: bool,
    pub scored: bool,
    pub score_white: bool,
    pub processed: bool,
    pub spare: u8,
}

impl StoneView {
    /// The colour of the stone on the cell, if there is one.
    pub open spec fn color(self) -> Option<Color> {
        if self.present {
            Some(if self.white { Color::White } else { Color::Black })
        } else {
            None
        }
    }

    /// A stone is on the cell and it is marked dead.
    pub open spec fn is_dead(self) -> bool {
        self.present && self.dead
    }

    /// A stone is on the cell and it is not marked dead.
    pub open spec fn is_live(self) -> bool {
        self.present && !self.dead
    }

    /// The player the cell is worth a point for, if any.
    pub open spec fn score(self) -> Option<Color> {
        if self.scored {
            Some(if self.score_white { Color::White } else { Color::Black })
        } else {
            None
        }
    }

    /// The cell after its colour is set: `None` takes the stone away and
    /// leaves the colour flag as it was.
    pub open spec fn with_color(self, color: Option<Color>) -> StoneView {
        match color {
            None => StoneView { present: false, ..self },
            Some(c) => StoneView { present: true, white: c == Color::White, ..self },
        }
    }

    /// The cell after its score is set: `None` makes it worth nothing and
    /// leaves the score-colour flag as it was.
    pub open spec fn with_score(self, color: Option<Color>) -> StoneView {
        match color {
            None => StoneView { scored: false, ..self },
            Some(c) => StoneView { scored: true, score_white: c == Color::White, ..self },
        }
    }
}

/// The flags that a byte encodes.
pub open spec fn unpack(bits: u8) -> StoneView {
    StoneView {
        present: bits & STONE_PRESENCE != 0,
        white: bits & STONE_COLOR != 0,
        dead: bits & STONE_DEAD != 0,
        scored: bits & STONE_SCORE != 0,
        score_white: bits & STONE_SCORE_COLOR != 0,
        processed: bits & STONE_PROCESSED != 0,
        spare: bits & STONE_SPARE,
    }
}

/// The byte of one flag: the mask if the flag is set, zero otherwise.
pub open spec fn flag_bits(on: bool, mask: u8) -> u8 {
    if on {
        mask
    } else {
        0
    }
}

/// The byte that encodes the given flags.
pub open spec fn pack(v: StoneView) -> u8 {
    flag_bits(v.present, STONE_PRESENCE) | flag_bits(v.white, STONE_COLOR) | flag_bits(
        v.dead,
        STONE_DEAD,
    ) | flag_bits(v.scored, STONE_SCORE) | flag_bits(v.score_white, STONE_SCORE_COLOR) | flag_bits(
        v.processed,
        STONE_PROCESSED,
    ) | (v.spare & STONE_SPARE)
}

/// A cell of the board: whether it holds a stone, of which colour, whether
/// that stone is dead, and whom the cell is worth a point for.
#[derive(PartialEq, Eq, Debug, Clone, Copy)]
pub struct Stone(u8);

impl View for Stone {
    type V = StoneView;

    closed spec fn view(&self) -> StoneView {
        unpack(self.0)
    }
}

/// Writing one flag bit of a byte sets that flag and leaves every other bit.
proof fn lemma_write_bit(b: u8, m: u8, on: bool)
    by (bit_vector)
    requires
        m == 0x01 || m == 0x02 || m == 0x04 || m == 0x08 || m == 0x10 || m == 0x20,
    ensures
        ({
            let r = if on { b | m } else { b & !m };
            &&& (r & m != 0) == on
            &&& m != 0x01 ==> (r & 0x01 != 0) == (b & 0x01 != 0)
            &&& m != 0x02 ==> (r & 0x02 != 0) == (b & 0x02 != 0)
            &&& m != 0x04 ==> (r & 0x04 != 0) == (b & 0x04 != 0)
            &&& m != 0x08 ==> (r & 0x08 != 0) == (b & 0x08 != 0)
            &&& m != 0x10 ==> (r & 0x10 != 0) == (b & 0x10 != 0)
            &&& m != 0x20 ==> (r & 0x20 != 0) == (b & 0x20 != 0)
            &&& r & 0xC0 == b & 0xC0
        }),
{
}

impl Stone {
    /// Creates an empty point.
    pub fn new() -> (s: Stone)
        ensures
            s@ == unpack(0),
            !s@.present,
            !s@.white,
            !s@.dead,
            !s@.scored,
            !s@.score_white,
            !s@.processed,
            s@.spare == 0,
    {
        assert(0u8 & 0x01 == 0 && 0u8 & 0x02 == 0 && 0u8 & 0x04 == 0 && 0u8 & 0x08 == 0 && 0u8
            & 0x10 == 0 && 0u8 & 0x20 == 0 && 0u8 & 0xC0 == 0) by (bit_vector);
        Stone(0)
    }

    /// The cell that a byte encodes.
    pub fn from_bits(bits: u8) -> (s: Stone)
        ensures
            s@ == unpack(bits),
    {
        Stone(bits)
    }

    /// The byte that encodes this cell.
    pub fn bits(&self) -> (bits: u8)
        ensures
            unpack(bits) == self@,
            bits == pack(self@),
    {
        proof {
            lemma_pack_unpack(self.0);
        }
        self.0
    }

    pub fn present_bit(&self) -> (bit: bool)
        ensures
            bit == self@.present,
    {
        (self.0 & STONE_PRESENCE) != 0
    }

    pub fn set_present_bit(&mut self, bit: bool)
        ensures
            final(self)@ == (StoneView { present: bit, ..old(self)@ }),
    {
        proof {
            lemma_write_bit(self.0, STONE_PRESENCE, bit);
        }
        if bit {
            self.0 = self.0 | STONE_PRESENCE;
        } else {
            self.0 = self.0 & !STONE_PRESENCE;
        }
    }

    pub fn dead_bit(&self) -> (bit: bool)
        ensures
            bit == self@.dead,
    {
        (self.0 & STONE_DEAD) != 0
    }

    pub fn set_dead_bit(&mut self, bit: bool)
        ensures
            final(self)@ == (StoneView { dead: bit, ..old(self)@ }),
    {
        proof {
            lemma_write_bit(self.0, STONE_DEAD, bit);
        }
        if bit {
            self.0 = self.0 | STONE_DEAD;
        } else {
            self.0 = self.0 & !STONE_DEAD;
        }
    }

    pub fn color_bit(&self) -> (bit: bool)
        ensures
            bit == self@.white,
    {
        (self.0 & STONE_COLOR) != 0
    }

    pub fn set_color_bit(&mut self, bit: bool)
        ensures
            final(self)@ == (StoneView { white: bit, ..old(self)@ }),
    {
        proof {
            lemma_write_bit(self.0, STONE_COLOR, bit);
        }
        if bit {
            self.0 = self.0 | STONE_COLOR;
        } else {
            self.0 = self.0 & !STONE_COLOR;
        }
    }

    pub fn score_bit(&self) -> (bit: bool)
        ensures
            bit == self@.scored,
    {
        (self.0 & STONE_SCORE) != 0
    }

    pub fn set_score_bit(&mut self, bit: bool)
        ensures
            final(self)@ == (StoneView { scored: bit, ..old(self)@ }),
    {
        proof {
            lemma_write_bit(self.0, STONE_SCORE, bit);
        }
        if bit {
            self.0 = self.0 | STONE_SCORE;
        } else {
            self.0 = self.0 & !STONE_SCORE;
        }
    }

    pub fn score_color_bit(&self) -> (bit: bool)
        ensures
            bit == self@.score_white,
    {
        (self.0 & STONE_SCORE_COLOR) != 0
    }

    pub fn set_score_color_bit(&mut self, bit: bool)
        ensures
            final(self)@ == (StoneView { score_white: bit, ..old(self)@ }),
    {
        proof {
            lemma_write_bit(self.0, STONE_SCORE_COLOR, bit);
        }
        if bit {
            self.0 = self.0 | STONE_SCORE_COLOR;
        } else {
            self.0 = self.0 & !STONE_SCORE_COLOR;
        }
    }

    pub fn processed_bit(&self) -> (bit: bool)
        ensures
            bit == self@.processed,
    {
        (self.0 & STONE_PROCESSED) != 0
    }

    pub fn set_processed_bit(&mut self, bit: bool)
        ensures
            final(self)@ == (StoneView { processed: bit, ..old(self)@ }),
    {
        proof {
            lemma_write_bit(self.0, STONE_PROCESSED, bit);
        }
        if bit {
            self.0 = self.0 | STONE_PROCESSED;
        } else {
            self.0 = self.0 & !STONE_PROCESSED;
        }
    }

    /// Determines whether a stone is actually present at this point.
    pub fn is_present(&self) -> (present: bool)
        ensures
            present == self@.present,
    {
        self.present_bit()
    }

    /// Makes a stone present or not present. The colour and the score stay
    /// as they were; without a stone the colour cannot be observed.
    pub fn set_present(&mut self, present: bool)
        ensures
            final(self)@ == (StoneView { present, ..old(self)@ }),
    {
        self.set_present_bit(present);
    }

    /// Determines whether the stone at this point is dead. A point without a
    /// stone is never dead, whatever its dead flag holds.
    pub fn is_dead(&self) -> (dead: bool)
        ensures
            dead == self@.is_dead(),
            dead == (self@.present && self@.dead),
    {
        self.is_present() && self.dead_bit()
    }

    /// Labels a stone as dead or alive. The flag is set whether or not a
    /// stone is present.
    pub fn set_dead(&mut self, dead: bool)
        ensures
            final(self)@ == (StoneView { dead, ..old(self)@ }),
    {
        self.set_dead_bit(dead);
    }

    /// Returns the colour of the stone, or `None` if no stone is present.
    pub fn color(&self) -> (color: Option<Color>)
        ensures
            color == self@.color(),
    {
        if self.is_present() {
            if self.color_bit() {
                Some(Color::White)
            } else {
                Some(Color::Black)
            }
        } else {
            None
        }
    }

    /// Sets the colour of the stone. `Some(color)` puts a stone of that
    /// colour on the point; `None` takes the stone away.
    pub fn set_color(&mut self, color: Option<Color>)
        ensures
            final(self)@ == old(self)@.with_color(color),
            final(self)@.color() == color,
    {
        match color {
            None => self.set_present_bit(false),
            Some(Color::Black) => {
                self.set_present_bit(true);
                self.set_color_bit(false);
            },
            Some(Color::White) => {
                self.set_present_bit(true);
                self.set_color_bit(true);
            },
        }
    }

    /// Tells whom the point is worth a point for, or `None` if it is worth
    /// nothing to either player.
    pub fn score(&self) -> (score: Option<Color>)
        ensures
            score == self@.score(),
    {
        if self.score_bit() {
            if self.score_color_bit() {
                Some(Color::White)
            } else {
                Some(Color::Black)
            }
        } else {
            None
        }
    }

    /// Sets whom the point is worth a point for.
    pub fn set_score(&mut self, color: Option<Color>)
        ensures
            final(self)@ == old(self)@.with_score(color),
            final(self)@.score() == color,
    {
        match color {
            None => self.set_score_bit(false),
            Some(Color::Black) => {
                self.set_score_bit(true);
                self.set_score_color_bit(false);
            },
            Some(Color::White) => {
                self.set_score_bit(true);
                self.set_score_color_bit(true);
            },
        }
    }
}

/// Packing the flags of a byte gives the byte back.
pub proof fn lemma_pack_unpack(bits: u8)
    ensures
        pack(unpack(bits)) == bits,
{
    let b = bits;
    assert(((if b & 0x01 != 0 { 0x01u8 } else { 0u8 }) | (if b & 0x02 != 0 { 0x02u8 } else { 0u8 })
        | (if b & 0x04 != 0 { 0x04u8 } else { 0u8 }) | (if b & 0x08 != 0 { 0x08u8 } else { 0u8 })
        | (if b & 0x10 != 0 { 0x10u8 } else { 0u8 }) | (if b & 0x20 != 0 { 0x20u8 } else { 0u8 })
        | ((b & 0xC0) & 0xC0)) == b) by (bit_vector);
}

/// Every combination of the six flags is the reading of some byte: packing
/// the flags and reading them back gives each flag as it was set, whatever
/// the others hold.
pub proof fn lemma_unpack_pack(v: StoneView)
    requires
        v.spare & STONE_SPARE == v.spare,
    ensures
        unpack(pack(v)) == v,
{
    let p: u8 = if v.present { 0x01 } else { 0 };
    let w: u8 = if v.white { 0x02 } else { 0 };
    let d: u8 = if v.dead { 0x04 } else { 0 };
    let s: u8 = if v.scored { 0x08 } else { 0 };
    let c: u8 = if v.score_white { 0x10 } else { 0 };
    let x: u8 = if v.processed { 0x20 } else { 0 };
    let r: u8 = v.spare;
    let b: u8 = p | w | d | s | c | x | (r & 0xC0);
    assert(b & 0x01 == p && b & 0x02 == w && b & 0x04 == d && b & 0x08 == s && b & 0x10 == c && b
        & 0x20 == x && b & 0xC0 == r) by (bit_vector)
        requires
            p == 0x01 || p == 0,
            w == 0x02 || w == 0,
            d == 0x04 || d == 0,
            s == 0x08 || s == 0,
            c == 0x10 || c == 0,
            x == 0x20 || x == 0,
            r & 0xC0 == r,
            b == p | w | d | s | c | x | (r & 0xC0),
    ;
    assert(b == pack(v));
}

/// Two bytes that read as the same flags are the same byte.
pub proof fn lemma_unpack_injective(a: u8, b: u8)
    requires
        unpack(a) == unpack(b),
    ensures
        a == b,
{
    lemma_pack_unpack(a);
    lemma_pack_unpack(b);
}

/// Two cells with the same flags are the same cell.
pub proof fn lemma_view_injective(a: Stone, b: Stone)
    requires
        a@ == b@,
    ensures
        a == b,
{
    lemma_unpack_injective(a.0, b.0);
}

/// A colour that is set is the colour that is read, and a stone is present
/// exactly when a colour was set. The flags that the colour does not use
/// stay as they were.
pub proof fn lemma_color_round_trip(v: StoneView, color: Option<Color>)
    ensures
        v.with_color(color).color() == color,
        v.with_color(color).present == color.is_some(),
        v.with_color(color).dead == v.dead,
        v.with_color(color).score() == v.score(),
        v.with_color(color).processed == v.processed,
{
}

/// A score that is set is the score that is read. The flags that the score
/// does not use stay as they were.
pub proof fn lemma_score_round_trip(v: StoneView, score: Option<Color>)
    ensures
        v.with_score(score).score() == score,
        v.with_score(score).color() == v.color(),
        v.with_score(score).is_dead() == v.is_dead(),
        v.with_score(score).processed == v.processed,
{
}

} // verus!
