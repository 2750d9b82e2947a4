//! Colors: the labels of the curves, 0..NCOLORS, written 'a'..'f'.

use crate::geometry::constants::NCOLORS;
use crate::text::string_push;
use vstd::prelude::*;

verus! {

/// A color (curve label) in the range 0..NCOLORS.
#[derive(Debug, Clone, Copy, PartialEq, Eq, Structural, PartialOrd, Ord, Hash)]
pub struct Color(u8);

/// The character that names the color with the given index: 0 is 'a', 1 is 'b', ...
pub open spec fn color_char(v: u8) -> char {
    ((97 + v) as u8) as char
}

impl Color {
    /// Every color's index is below NCOLORS.
    #[verifier::type_invariant]
    pub closed spec fn inv(self) -> bool {
        self.0 < NCOLORS
    }

    /// The index of the color, 0..NCOLORS.
    pub closed spec fn index(self) -> u8 {
        self.0
    }

    /// What the invariant says: the index is below NCOLORS.
    pub proof fn lemma_inv(self)
        requires
            self.inv(),
        ensures
            self.index() < NCOLORS,
    {
    }

    /// The color with the given index.
    pub closed spec fn from_index(v: u8) -> Color {
        Color(v)
    }

    /// A color is the color of its index; the index of `from_index(v)` is `v`.
    pub proof fn lemma_from_index(self, v: u8)
        ensures
            Color::from_index(v).index() == v,
            Color::from_index(self.index()) == self,
    {
    }

    /// Two colors are equal exactly when their indices are.
    pub proof fn lemma_index_injective(self, other: Color)
        ensures
            (self == other) <==> (self.index() == other.index()),
    {
    }

    /// The character of a color gives back its index.
    pub proof fn lemma_char_index(self)
        requires
            self.index() < NCOLORS,
        ensures
            ((color_char(self.index()) as u32) - 97) as nat == self.index(),
    {
    }

    /// Create the color with the given index.
    pub fn new(value: u8) -> (r: Self)
        requires
            value < NCOLORS,
        ensures
            r.index() == value,
    {
        Self(value)
    }

    /// Create the color with the given index, or None when the index is out of range.
    pub fn try_new(value: u8) -> (r: Option<Self>)
        ensures
            r matches Some(c) ==> c.index() == value,
            r is Some <==> value < NCOLORS,
    {
        if (value as usize) < NCOLORS {
            Some(Self(value))
        } else {
            None
        }
    }

    /// The underlying index.
    pub fn value(self) -> (r: u8)
        ensures
            r == self.index(),
            r < NCOLORS,
    {
        proof {
            use_type_invariant(self);
        }
        self.0
    }

    /// The index as a usize, for array indexing.
    pub fn as_usize(self) -> (r: usize)
        ensures
            r == self.index(),
            r < NCOLORS,
    {
        proof {
            use_type_invariant(self);
        }
        self.0 as usize
    }

    /// The character naming this color ('a' for 0, 'b' for 1, ...).
    pub fn to_char(self) -> (r: char)
        ensures
            r == color_char(self.index()),
    {
        proof {
            use_type_invariant(self);
        }
        (97u8 + self.0) as char
    }

    /// Parse a color from its character: 'a' up to the NCOLORS-th letter.
    pub fn from_char(c: char) -> (r: Option<Self>)
        ensures
            r is Some <==> ('a' <= c && (c as u32) < 97 + NCOLORS),
            r matches Some(col) ==> col.index() == (c as u32) - 97 && color_char(col.index()) == c,
    {
        if c >= 'a' && (c as u32) < 97 + (NCOLORS as u32) {
            let v = ((c as u32) - 97) as u8;
            proof {
                assert(color_char(v) == c);
            }
            Some(Self(v))
        } else {
            None
        }
    }

    /// All colors, in increasing order.
    pub fn all() -> (r: Vec<Color>)
        ensures
            r@.len() == NCOLORS,
            forall|i: int| 0 <= i < NCOLORS ==> (#[trigger] r@[i]).index() == i,
    {
        let mut v: Vec<Color> = Vec::new();
        let mut i: u8 = 0;
        while (i as usize) < NCOLORS
            invariant
                i <= NCOLORS,
                v@.len() == i,
                forall|j: int| 0 <= j < i ==> (#[trigger] v@[j]).index() == j,
            decreases NCOLORS - i,
        {
            v.push(Self(i));
            i = i + 1;
        }
        v
    }

    /// The text form of the color: its character.
    pub fn to_display_string(self) -> (r: String)
        ensures
            r@ == seq![color_char(self.index())],
    {
        let mut s = String::new();
        string_push(&mut s, self.to_char());
        s
    }
}

} // verus!
