//! The 26-letter alphabet.

use vstd::prelude::*;

verus! {

/// Number of letters in the alphabet.
pub const ALPHABET: usize = 26;

/// One letter of the alphabet, ordered `A < B < ... < Z`.
#[derive(Debug, Clone, Copy, PartialEq, Eq, Structural, PartialOrd, Ord, Hash)]
pub enum Letter {
    A, B, C, D, E, F, G, H, I, J, K, L, M,
    N, O, P, Q, R, S, T, U, V, W, X, Y, Z,
}

impl Letter {
    /// Position of the letter in the alphabet, `A` being 0 and `Z` being 25.
    pub open spec fn ord(self) -> int {
        match self {
            Letter::A => 0, Letter::B => 1, Letter::C => 2, Letter::D => 3,
            Letter::E => 4, Letter::F => 5, Letter::G => 6, Letter::H => 7,
            Letter::I => 8, Letter::J => 9, Letter::K => 10, Letter::L => 11,
            Letter::M => 12, Letter::N => 13, Letter::O => 14, Letter::P => 15,
            Letter::Q => 16, Letter::R => 17, Letter::S => 18, Letter::T => 19,
            Letter::U => 20, Letter::V => 21, Letter::W => 22, Letter::X => 23,
            Letter::Y => 24, Letter::Z => 25,
        }
    }

    /// The letter at a position of the alphabet; positions past `Z` give `Z`.
    pub open spec fn at(i: int) -> Letter {
        if i <= 0 { Letter::A }
        else if i == 1 { Letter::B } else if i == 2 { Letter::C }
        else if i == 3 { Letter::D } else if i == 4 { Letter::E }
        else if i == 5 { Letter::F } else if i == 6 { Letter::G }
        else if i == 7 { Letter::H } else if i == 8 { Letter::I }
        else if i == 9 { Letter::J } else if i == 10 { Letter::K }
        else if i == 11 { Letter::L } else if i == 12 { Letter::M }
        else if i == 13 { Letter::N } else if i == 14 { Letter::O }
        else if i == 15 { Letter::P } else if i == 16 { Letter::Q }
        else if i == 17 { Letter::R } else if i == 18 { Letter::S }
        else if i == 19 { Letter::T } else if i == 20 { Letter::U }
        else if i == 21 { Letter::V } else if i == 22 { Letter::W }
        else if i == 23 { Letter::X } else if i == 24 { Letter::Y }
        else { Letter::Z }
    }

    /// `ord` and `at` are inverse to each other on `0..26`.
    pub proof fn lemma_ord_at()
        ensures
            forall|l: Letter| 0 <= #[trigger] l.ord() < 26 && Letter::at(l.ord()) == l,
            forall|i: int| 0 <= i < 26 ==> (#[trigger] Letter::at(i)).ord() == i,
    {
    }

    /// Position of the letter in the alphabet.
    pub fn ordinal(self) -> (i: u8)
        ensures
            i == self.ord(),
            i < 26,
    {
        match self {
            Letter::A => 0, Letter::B => 1, Letter::C => 2, Letter::D => 3,
            Letter::E => 4, Letter::F => 5, Letter::G => 6, Letter::H => 7,
            Letter::I => 8, Letter::J => 9, Letter::K => 10, Letter::L => 11,
            Letter::M => 12, Letter::N => 13, Letter::O => 14, Letter::P => 15,
            Letter::Q => 16, Letter::R => 17, Letter::S => 18, Letter::T => 19,
            Letter::U => 20, Letter::V => 21, Letter::W => 22, Letter::X => 23,
            Letter::Y => 24, Letter::Z => 25,
        }
    }

    /// The letter at position `i`, if `i` is below 26.
    pub fn from_ordinal(i: u8) -> (r: Option<Letter>)
        ensures
            r == (if i < 26 { Some(Letter::at(i as int)) } else { None }),
    {
        match i {
            0 => Some(Letter::A), 1 => Some(Letter::B), 2 => Some(Letter::C),
            3 => Some(Letter::D), 4 => Some(Letter::E), 5 => Some(Letter::F),
            6 => Some(Letter::G), 7 => Some(Letter::H), 8 => Some(Letter::I),
            9 => Some(Letter::J), 10 => Some(Letter::K), 11 => Some(Letter::L),
            12 => Some(Letter::M), 13 => Some(Letter::N), 14 => Some(Letter::O),
            15 => Some(Letter::P), 16 => Some(Letter::Q), 17 => Some(Letter::R),
            18 => Some(Letter::S), 19 => Some(Letter::T), 20 => Some(Letter::U),
            21 => Some(Letter::V), 22 => Some(Letter::W), 23 => Some(Letter::X),
            24 => Some(Letter::Y), 25 => Some(Letter::Z),
            _ => None,
        }
    }

    /// The upper-case character that stands for the letter.
    pub open spec fn spec_to_char(self) -> char {
        (65 + self.ord()) as u8 as char
    }

    /// The letter that a character stands for: `A..=Z` and `a..=z` are
    /// letters, every other character is not.
    pub open spec fn spec_from_char(c: char) -> Option<Letter> {
        let n = c as u32 as int;
        if 65 <= n <= 90 {
            Some(Letter::at(n - 65))
        } else if 97 <= n <= 122 {
            Some(Letter::at(n - 97))
        } else {
            None
        }
    }

    /// The upper-case character that stands for the letter.
    pub fn to_char(self) -> (c: char)
        ensures
            c == self.spec_to_char(),
            Letter::spec_from_char(c) == Some(self),
    {
        let i: u8 = self.ordinal();
        (65u8 + i) as char
    }

    /// Reads a letter from its character, in either case. A character outside
    /// the alphabet is not a letter and gives `None`.
    pub fn from_char(c: char) -> (r: Option<Letter>)
        ensures
            r == Letter::spec_from_char(c),
    {
        let n: u32 = c as u32;
        if 65 <= n && n <= 90 {
            Letter::from_ordinal((n - 65) as u8)
        } else if 97 <= n && n <= 122 {
            Letter::from_ordinal((n - 97) as u8)
        } else {
            None
        }
    }
}

impl From<Letter> for char {
    /// The upper-case character that stands for the letter.
    fn from(value: Letter) -> (c: char) {
        value.to_char()
    }
}

impl vstd::std_specs::convert::FromSpecImpl<Letter> for char {
    open spec fn obeys_from_spec() -> bool {
        true
    }

    open spec fn from_spec(value: Letter) -> char {
        value.spec_to_char()
    }
}

impl TryFrom<char> for Letter {
    type Error = ();

    /// Reads a letter from its character, in either case; a character
    /// outside the alphabet is an error.
    fn try_from(value: char) -> (r: Result<Letter, ()>) {
        match Letter::from_char(value) {
            Some(l) => Ok(l),
            None => Err(()),
        }
    }
}

impl vstd::std_specs::convert::TryFromSpecImpl<char> for Letter {
    open spec fn obeys_try_from_spec() -> bool {
        true
    }

    open spec fn try_from_spec(value: char) -> Result<Letter, ()> {
        match Letter::spec_from_char(value) {
            Some(l) => Ok(l),
            None => Err(()),
        }
    }
}

} // verus!
