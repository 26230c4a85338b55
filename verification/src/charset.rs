//! The byte classes out of which the tokens of a document are made.

use vstd::prelude::*;

verus! {

/// The byte that ends every line.
pub const NEWLINE: u8 = 0x0a;

/// The classes of bytes that the grammar tells apart.
#[derive(Clone, Copy, Debug, PartialEq, Eq)]
pub enum CharClass {
    /// ASCII letters, ASCII digits and `-`: what a keyword is made of.
    Keyword,
    /// Space and tab: what separates the arguments of a keyword line.
    Space,
    /// Every byte but space, tab and newline, so every character but these
    /// three: what an argument is made of.
    Argument,
    /// ASCII letters, ASCII digits, `+`, `/` and the padding `=`: what a
    /// line of an object's body is made of.
    Base64,
}

/// `A` to `Z` and `a` to `z`.
pub open spec fn is_letter(b: u8) -> bool {
    (0x41 <= b <= 0x5a) || (0x61 <= b <= 0x7a)
}

/// `0` to `9`.
pub open spec fn is_digit(b: u8) -> bool {
    0x30 <= b <= 0x39
}

/// Space and tab.
pub open spec fn is_space(b: u8) -> bool {
    b == 0x20 || b == 0x09
}

impl CharClass {
    /// Whether the byte `b` belongs to this class.
    pub open spec fn contains(self, b: u8) -> bool {
        match self {
            CharClass::Keyword => is_letter(b) || is_digit(b) || b == 0x2d,
            CharClass::Space => is_space(b),
            CharClass::Argument => !is_space(b) && b != NEWLINE,
            CharClass::Base64 => is_letter(b) || is_digit(b) || b == 0x2b || b == 0x2f || b == 0x3d,
        }
    }

    /// Tests whether the byte `b` belongs to this class.
    pub fn has(self, b: u8) -> (r: bool)
        ensures
            r == self.contains(b),
    {
        let letter = (0x41 <= b && b <= 0x5a) || (0x61 <= b && b <= 0x7a);
        let digit = 0x30 <= b && b <= 0x39;
        let space = b == 0x20 || b == 0x09;
        match self {
            CharClass::Keyword => letter || digit || b == 0x2d,
            CharClass::Space => space,
            CharClass::Argument => !space && b != NEWLINE,
            CharClass::Base64 => letter || digit || b == 0x2b || b == 0x2f || b == 0x3d,
        }
    }
}

} // verus!
