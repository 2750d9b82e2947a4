//! Sets of colors, held as bitsets: bit i is set when color i is in the set.

use crate::geometry::bits::{
    bit, count_bits, lemma_bit_clear, lemma_bit_low_mask, lemma_bit_set, lemma_bit_zero_single,
    popcount,
};
use crate::geometry::color::{color_char, Color};
use crate::geometry::constants::NCOLORS;
use crate::text::string_push;
use vstd::prelude::*;

verus! {

/// A set of colors as a bitset (a u64, so that it can be stored on the trail).
#[derive(Debug, Clone, Copy, PartialEq, Eq, Structural, Hash)]
pub struct ColorSet(u64);

impl ColorSet {
    /// The underlying word.
    pub closed spec fn spec_bits(self) -> u64 {
        self.0
    }

    /// The set with the given word.
    pub closed spec fn spec_from_bits(bits: u64) -> ColorSet {
        ColorSet(bits)
    }

    /// The word of a set built from a word is that word.
    pub proof fn lemma_spec_from_bits(bits: u64)
        ensures
            Self::spec_from_bits(bits).spec_bits() == bits,
    {
    }

    /// Whether index `i` (a color index, or any bit position below 64) is in the set.
    pub open spec fn has(self, i: nat) -> bool {
        i < 64 && bit(self.spec_bits(), i as u64)
    }

    /// The empty set.
    pub fn empty() -> (r: Self)
        ensures
            r.spec_bits() == 0,
            forall|i: nat| !r.has(i),
    {
        proof {
            assert forall|i: nat| !ColorSet(0).has(i) by {
                if i < 64 {
                    lemma_bit_zero_single(0, i as u64);
                }
            }
        }
        Self(0)
    }

    /// The set of all NCOLORS colors.
    pub fn full() -> (r: Self)
        ensures
            r.spec_bits() == 63,
            forall|i: nat| r.has(i) <==> i < NCOLORS,
    {
        assert(1u64 << 6u64 == 64) by (bit_vector);
        let r = Self((1u64 << 6u64) - 1);
        proof {
            assert forall|i: nat| r.has(i) <==> i < NCOLORS by {
                if i < 64 {
                    lemma_bit_low_mask(6, i as u64);
                }
            }
        }
        r
    }

    /// The set of the given colors.
    pub fn from_colors(colors: &[Color]) -> (r: Self)
        ensures
            r.spec_bits() == colors_bits(colors@),
            forall|i: nat| r.has(i) <==> exists|j: int| 0 <= j < colors@.len() && (#[trigger] colors@[j]).index() == i,
    {
        let mut set = Self::empty();
        let mut k: usize = 0;
        while k < colors.len()
            invariant
                k <= colors@.len(),
                set.spec_bits() == colors_bits(colors@.subrange(0, k as int)),
                forall|i: nat| set.has(i) <==> exists|j: int| 0 <= j < k && (#[trigger] colors@[j]).index() == i,
            decreases colors@.len() - k,
        {
            proof {
                assert(colors@.subrange(0, k + 1).drop_last() =~= colors@.subrange(0, k as int));
            }
            let c = colors[k];
            let ghost before = set;
            set.insert(c);
            proof {
                assert forall|i: nat| set.has(i) <==> exists|j: int| 0 <= j < k + 1 && (#[trigger] colors@[j]).index() == i by {
                    if set.has(i) && !before.has(i) {
                        assert(colors@[k as int].index() == i);
                    }
                    if exists|j: int| 0 <= j < k + 1 && (#[trigger] colors@[j]).index() == i {
                        let j = choose|j: int| 0 <= j < k + 1 && (#[trigger] colors@[j]).index() == i;
                        if j < k {
                            assert(before.has(i));
                        }
                    }
                }
            }
            k = k + 1;
        }
        proof {
            assert(colors@.subrange(0, colors@.len() as int) =~= colors@);
        }
        set
    }

    /// The set with the given raw word (for example a face id read as a color set).
    pub fn from_bits(bits: u64) -> (r: Self)
        ensures
            r.spec_bits() == bits,
    {
        Self(bits)
    }

    /// Whether the color is in the set.
    pub fn contains(self, color: Color) -> (r: bool)
        ensures
            r == self.has(color.index() as nat),
    {
        let v = color.value();
        let x = self.0;
        assert(((x >> v) & 1u64 != 0) == ((x >> v) & 1u64 == 1u64)) by (bit_vector);
        (self.0 >> v) & 1 != 0
    }

    /// Add a color.
    pub fn insert(&mut self, color: Color)
        ensures
            final(self).spec_bits() == old(self).spec_bits() | (1u64 << color.index()),
            forall|i: nat| final(self).has(i) <==> (old(self).has(i) || i == color.index()),
    {
        let v = color.value();
        let ghost old_bits = self.0;
        self.0 = self.0 | (1u64 << v);
        proof {
            assert forall|i: nat| self.has(i) <==> (ColorSet(old_bits).has(i) || i == v) by {
                if i < 64 {
                    lemma_bit_set(old_bits, v as u64, i as u64);
                }
            }
        }
    }

    /// Remove a color.
    pub fn remove(&mut self, color: Color)
        ensures
            final(self).spec_bits() == old(self).spec_bits() & !(1u64 << color.index()),
            forall|i: nat| final(self).has(i) <==> (old(self).has(i) && i != color.index()),
    {
        let v = color.value();
        let ghost old_bits = self.0;
        self.0 = self.0 & !(1u64 << v);
        proof {
            assert forall|i: nat| self.has(i) <==> (ColorSet(old_bits).has(i) && i != v) by {
                if i < 64 {
                    lemma_bit_clear(old_bits, v as u64, i as u64);
                }
            }
        }
    }

    /// The number of members (population count of the word).
    pub fn len(self) -> (r: usize)
        ensures
            r == popcount(self.spec_bits()),
    {
        count_bits(self.0) as usize
    }

    /// Whether the set has no members.
    pub fn is_empty(self) -> (r: bool)
        ensures
            r == (self.spec_bits() == 0),
    {
        self.0 == 0
    }

    /// The underlying word.
    pub fn bits(self) -> (r: u64)
        ensures
            r == self.spec_bits(),
    {
        self.0
    }

    /// The member indices below `n`, in increasing order.
    pub open spec fn members_below(self, n: nat) -> Seq<nat>
        decreases n,
    {
        if n == 0 {
            seq![]
        } else {
            self.members_below((n - 1) as nat) + if self.has((n - 1) as nat) {
                seq![(n - 1) as nat]
            } else {
                seq![]
            }
        }
    }

    /// The text of the set: its colors' characters, in increasing order, between bars.
    pub open spec fn text(self) -> Seq<char> {
        seq!['|'] + self.members_below(NCOLORS as nat).map_values(|i: nat| color_char(i as u8)) + seq!['|']
    }

    /// The member colors, in increasing order.
    pub fn iter(self) -> (r: Vec<Color>)
        ensures
            r@.len() == self.members_below(NCOLORS as nat).len(),
            forall|j: int| 0 <= j < r@.len() ==> (#[trigger] r@[j]).index() == self.members_below(NCOLORS as nat)[j],
            forall|j: int| 0 <= j < r@.len() ==> self.has((#[trigger] r@[j]).index() as nat) && r@[j].index() < NCOLORS,
            forall|j: int, k: int| 0 <= j < k < r@.len() ==> (#[trigger] r@[j]).index() < (#[trigger] r@[k]).index(),
            forall|i: nat| i < NCOLORS && self.has(i) ==> exists|j: int| 0 <= j < r@.len() && (#[trigger] r@[j]).index() == i,
    {
        let mut out: Vec<Color> = Vec::new();
        let mut idx: u8 = 0;
        while (idx as usize) < NCOLORS
            invariant
                idx <= NCOLORS,
                forall|j: int| 0 <= j < out@.len() ==> self.has((#[trigger] out@[j]).index() as nat) && out@[j].index() < idx,
                forall|j: int, k: int| 0 <= j < k < out@.len() ==> (#[trigger] out@[j]).index() < (#[trigger] out@[k]).index(),
                forall|i: nat| i < idx && self.has(i) ==> exists|j: int| 0 <= j < out@.len() && (#[trigger] out@[j]).index() == i,
                out@.len() == self.members_below(idx as nat).len(),
                forall|j: int| 0 <= j < out@.len() ==> (#[trigger] out@[j]).index() == self.members_below(idx as nat)[j],
            decreases NCOLORS - idx,
        {
            let c = Color::new(idx);
            let ghost before = out@;
            if self.contains(c) {
                out.push(c);
                proof {
                    assert(out@[out@.len() - 1] == c);
                }
            }
            proof {
                let m0 = self.members_below(idx as nat);
                assert(self.members_below((idx + 1) as nat) == m0 + if self.has(idx as nat) {
                    seq![idx as nat]
                } else {
                    seq![]
                });
                assert forall|j: int| 0 <= j < out@.len() implies (#[trigger] out@[j]).index() == self.members_below((idx + 1) as nat)[j] by {
                    if j < before.len() {
                        assert(out@[j] == before[j]);
                    }
                }
                assert forall|i: nat| i < idx + 1 && self.has(i) implies exists|j: int| 0 <= j < out@.len() && (#[trigger] out@[j]).index() == i by {
                    if i < idx {
                        let j = choose|j: int| 0 <= j < before.len() && (#[trigger] before[j]).index() == i;
                        assert(out@[j] == before[j]);
                    } else {
                        assert(out@[out@.len() - 1].index() == i);
                    }
                }
            }
            idx = idx + 1;
        }
        out
    }

    /// The text form of the set: its colors' characters between bars, as in "|abc|".
    pub fn to_display_string(self) -> (r: String)
        ensures
            r@ == self.text(),
    {
        let mut s = String::new();
        string_push(&mut s, '|');
        let colors = self.iter();
        let ghost m = self.members_below(NCOLORS as nat);
        let mut k: usize = 0;
        while k < colors.len()
            invariant
                k <= colors@.len(),
                colors@.len() == m.len(),
                forall|j: int| 0 <= j < colors@.len() ==> (#[trigger] colors@[j]).index() == m[j],
                s@ == seq!['|'] + m.take(k as int).map_values(|i: nat| color_char(i as u8)),
            decreases colors@.len() - k,
        {
            string_push(&mut s, colors[k].to_char());
            proof {
                assert(m.take(k as int + 1).map_values(|i: nat| color_char(i as u8)) =~= m.take(k as int).map_values(
                    |i: nat| color_char(i as u8),
                ).push(color_char(m[k as int] as u8)));
            }
            k = k + 1;
        }
        string_push(&mut s, '|');
        proof {
            assert(m.take(m.len() as int) =~= m);
            assert(s@ =~= self.text());
        }
        s
    }
}

/// The word of the set of the given colors: the union of their bits.
pub open spec fn colors_bits(s: Seq<Color>) -> u64
    decreases s.len(),
{
    if s.len() == 0 {
        0
    } else {
        colors_bits(s.drop_last()) | (1u64 << s.last().index())
    }
}

impl<'a> From<&'a [Color]> for ColorSet {
    fn from(colors: &'a [Color]) -> (r: Self) {
        Self::from_colors(colors)
    }
}

impl<'a> vstd::std_specs::convert::FromSpecImpl<&'a [Color]> for ColorSet {
    open spec fn obeys_from_spec() -> bool {
        true
    }

    open spec fn from_spec(v: &'a [Color]) -> ColorSet {
        ColorSet::spec_from_bits(colors_bits(v@))
    }
}

/// The color index named by a character ('a' is 0).
pub open spec fn char_color_index(c: char) -> nat {
    ((c as u32) - 97) as nat
}

} // verus!
