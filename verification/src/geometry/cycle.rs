//! Facial cycles: the cyclic sequence of colors bounding a face, stored rotated to
//! start at its first smallest color.

use crate::geometry::color::{color_char, Color};
use crate::geometry::color_set::ColorSet;
use crate::geometry::constants::NCOLORS;
use crate::text::string_push;
use vstd::arithmetic::div_mod::{lemma_mod_add_multiples_vanish, lemma_small_mod};
use vstd::prelude::*;

verus! {

/// A cycle id: an index into the table of all cycles.
pub type CycleId = u64;

/// Index of the first smallest color among the first `k` elements of `s`.
pub open spec fn first_min_index(s: Seq<Color>, k: int) -> int
    decreases k,
{
    if k <= 1 {
        0
    } else {
        let m = first_min_index(s, k - 1);
        if s[k - 1].index() < s[m].index() {
            k - 1
        } else {
            m
        }
    }
}

/// The sequence rotated left by `k` places.
pub open spec fn rotate(s: Seq<Color>, k: int) -> Seq<Color> {
    Seq::new(s.len(), |i: int| s[(k + i) % (s.len() as int)])
}

/// The canonical rotation of a sequence: starting at its first smallest color.
pub open spec fn canonical(s: Seq<Color>) -> Seq<Color> {
    rotate(s, first_min_index(s, s.len() as int))
}

/// The first element kept, the rest reversed: the same cycle traversed the other way.
pub open spec fn reverse_tail(s: Seq<Color>) -> Seq<Color> {
    Seq::new(s.len(), |i: int| if i == 0 { s[0] } else { s[s.len() - i] })
}

/// The sequence contains `a` followed (cyclically) by `b`.
pub open spec fn has_sequence(s: Seq<Color>, a: Color, b: Color) -> bool {
    exists|i: int| 0 <= i < s.len() && s[i] == a && #[trigger] s[(i + 1) % (s.len() as int)] == b
}

/// The sequence contains `a`, `b`, `c` consecutively (cyclically).
pub open spec fn has_triple(s: Seq<Color>, a: Color, b: Color, c: Color) -> bool {
    exists|i: int|
        0 <= i < s.len() && s[i] == a && #[trigger] s[(i + 1) % (s.len() as int)] == b && s[(i + 2)
            % (s.len() as int)] == c
}

/// The first minimum index lies in range and is a minimum, strictly smaller than all before it.
pub proof fn lemma_first_min_index(s: Seq<Color>, k: int)
    requires
        1 <= k <= s.len(),
    ensures
        0 <= first_min_index(s, k) < k,
        forall|j: int| 0 <= j < k ==> s[first_min_index(s, k)].index() <= (#[trigger] s[j]).index(),
        forall|j: int| 0 <= j < first_min_index(s, k) ==> s[first_min_index(s, k)].index() < (#[trigger] s[j]).index(),
    decreases k,
{
    if k > 1 {
        lemma_first_min_index(s, k - 1);
    }
}

spec fn inv_parts(length: u8, colors: [Color; 6], colorset: ColorSet) -> bool {
    &&& 3 <= length <= NCOLORS
    &&& forall|j: int| 0 <= j < 6 ==> (#[trigger] colors@[j]).index() < NCOLORS
    &&& forall|j: int| 0 <= j < length ==> colors@[0].index() <= (#[trigger] colors@[j]).index()
    &&& forall|j: int| length <= j < 6 ==> (#[trigger] colors@[j]).index() == 0
    &&& forall|i: nat| colorset.has(i) <==> exists|j: int| 0 <= j < length && (#[trigger] colors@[j]).index() == i
}

/// A facial cycle: 3 to NCOLORS colors in cyclic order, starting with its first smallest.
#[derive(Debug, PartialEq, Eq)]
pub struct Cycle {
    length: u8,
    colors: [Color; 6],
    colorset: ColorSet,
}

impl View for Cycle {
    type V = Seq<Color>;

    closed spec fn view(&self) -> Seq<Color> {
        self.colors@.subrange(0, self.length as int)
    }
}

impl Clone for Cycle {
    fn clone(&self) -> (r: Self)
        ensures
            r == *self,
    {
        proof {
            use_type_invariant(self);
        }
        Cycle { length: self.length, colors: self.colors, colorset: self.colorset }
    }
}

impl Cycle {
    /// The stored form: 3..=NCOLORS colors, every index below NCOLORS, the first one a
    /// minimum, unused slots holding color 0, and the color set holding exactly the colors.
    #[verifier::type_invariant]
    pub closed spec fn inv(self) -> bool {
        inv_parts(self.length, self.colors, self.colorset)
    }

    /// What the invariant says, in terms of the view and the color set.
    pub proof fn lemma_inv(self)
        requires
            self.inv(),
        ensures
            3 <= self@.len() <= NCOLORS,
            forall|j: int| 0 <= j < self@.len() ==> (#[trigger] self@[j]).index() < NCOLORS,
            forall|j: int| 0 <= j < self@.len() ==> self@[0].index() <= (#[trigger] self@[j]).index(),
            forall|i: nat| self.spec_colorset().has(i) <==> exists|j: int| 0 <= j < self@.len() && (#[trigger] self@[j]).index() == i,
    {
        self.lemma_view();
        assert forall|i: nat| self.spec_colorset().has(i) <==> exists|j: int| 0 <= j < self@.len() && (#[trigger] self@[j]).index() == i by {
            if self.spec_colorset().has(i) {
                let j = choose|j: int| 0 <= j < self.length && (#[trigger] self.colors@[j]).index() == i;
                assert(self@[j] == self.colors@[j]);
            }
        }
    }

    proof fn lemma_view(self)
        requires
            self.inv(),
        ensures
            self@.len() == self.length,
            forall|j: int| 0 <= j < self.length ==> #[trigger] self@[j] == self.colors@[j],
    {
    }

    /// The stored color set.
    pub closed spec fn spec_colorset(self) -> ColorSet {
        self.colorset
    }

    /// Create a cycle from 3..=NCOLORS colors, rotated to start at the first smallest color.
    pub fn new(colors: &[Color]) -> (r: Self)
        requires
            3 <= colors@.len() <= NCOLORS,
        ensures
            r@ == canonical(colors@),
            forall|i: nat| r.spec_colorset().has(i) <==> exists|j: int| 0 <= j < colors@.len() && (#[trigger] colors@[j]).index() == i,
    {
        let n = colors.len();
        let mut min_pos: usize = 0;
        let mut k: usize = 1;
        while k < n
            invariant
                1 <= k <= n,
                n == colors@.len(),
                min_pos == first_min_index(colors@, k as int),
                0 <= min_pos < k,
            decreases n - k,
        {
            proof {
                lemma_first_min_index(colors@, k as int);
            }
            if colors[k].value() < colors[min_pos].value() {
                min_pos = k;
            }
            k = k + 1;
        }
        proof {
            lemma_first_min_index(colors@, n as int);
        }
        let ghost canon = canonical(colors@);
        let mut cycle_colors = [Color::new(0), Color::new(0), Color::new(0), Color::new(0), Color::new(0), Color::new(0)];
        let mut i: usize = 0;
        while i < n
            invariant
                i <= n,
                n == colors@.len(),
                3 <= n <= NCOLORS,
                min_pos == first_min_index(colors@, n as int),
                canon == canonical(colors@),
                forall|j: int| 0 <= j < i ==> cycle_colors@[j] == canon[j],
                forall|j: int| 0 <= j < 6 ==> (#[trigger] cycle_colors@[j]).index() < NCOLORS,
                forall|j: int| i <= j < 6 ==> (#[trigger] cycle_colors@[j]).index() == 0,
            decreases n - i,
        {
            let c = colors[(min_pos + i) % n];
            proof {
                use_type_invariant(c);
                c.lemma_inv();
            }
            cycle_colors[i] = c;
            i = i + 1;
        }
        let colorset = ColorSet::from_colors(colors);
        proof {
            lemma_canonical(colors@);
            assert forall|j: int| 0 <= j < n implies #[trigger] cycle_colors@[j] == colors@[(min_pos + j) % (n as int)] by {
                assert(canon[j] == colors@[(min_pos + j) % (n as int)]);
            }
            assert forall|i: nat| colorset.has(i) <==> exists|j: int| 0 <= j < n && (#[trigger] cycle_colors@[j]).index() == i by {
                if colorset.has(i) {
                    let j = choose|j: int| 0 <= j < colors@.len() && (#[trigger] colors@[j]).index() == i;
                    let t = if j >= min_pos { j - min_pos } else { j - min_pos + n };
                    if j >= min_pos {
                        lemma_small_mod(j as nat, n as nat);
                    } else {
                        lemma_mod_add_multiples_vanish(j, n as int);
                        lemma_small_mod(j as nat, n as nat);
                    }
                    assert((min_pos + t) % (n as int) == j);
                    assert(cycle_colors@[t] == colors@[j]);
                }
                if exists|j: int| 0 <= j < n && (#[trigger] cycle_colors@[j]).index() == i {
                    let j = choose|j: int| 0 <= j < n && (#[trigger] cycle_colors@[j]).index() == i;
                    let q = (min_pos + j) % (n as int);
                    assert(0 <= q < n);
                    assert(colors@[q].index() == i);
                }
            }
            assert forall|j: int| 0 <= j < n implies cycle_colors@[0].index() <= (#[trigger] cycle_colors@[j]).index() by {
                assert(cycle_colors@[j] == canon[j]);
                assert(cycle_colors@[0] == canon[0]);
            }
        }
        let len8 = n as u8;
        assert(len8 == n);
        assert(inv_parts(len8, cycle_colors, colorset));
        let r = Self { length: len8, colors: cycle_colors, colorset };
        proof {
            assert(r@ =~= canon);
        }
        r
    }

    /// The number of colors in the cycle.
    pub fn len(&self) -> (r: usize)
        ensures
            r == self@.len(),
            3 <= r <= NCOLORS,
    {
        proof {
            use_type_invariant(self);
            self.lemma_view();
        }
        self.length as usize
    }

    /// Whether the cycle has no colors (never, for a constructed cycle).
    pub fn is_empty(&self) -> (r: bool)
        ensures
            r == (self@.len() == 0),
            !r,
    {
        proof {
            use_type_invariant(self);
            self.lemma_view();
        }
        self.length == 0
    }

    /// The colors in cyclic order.
    pub fn colors(&self) -> (r: &[Color])
        ensures
            r@ == self@,
    {
        proof {
            use_type_invariant(self);
            self.lemma_view();
        }
        let n = self.length as usize;
        let all: &[Color] = self.colors.as_slice();
        &all[0..n]
    }

    /// The set of colors in the cycle.
    pub fn colorset(&self) -> (r: ColorSet)
        ensures
            r == self.spec_colorset(),
            forall|i: nat| r.has(i) <==> exists|j: int| 0 <= j < self@.len() && (#[trigger] self@[j]).index() == i,
    {
        proof {
            use_type_invariant(self);
            self.lemma_inv();
            assert forall|i: nat| self.colorset.has(i) <==> exists|j: int| 0 <= j < self@.len() && (#[trigger] self@[j]).index() == i by {
                assert(self.colorset == self.spec_colorset());
            }
        }
        self.colorset
    }

    /// Whether the cycle contains `color_a` immediately followed by `color_b`.
    pub fn contains_sequence(&self, color_a: Color, color_b: Color) -> (r: bool)
        ensures
            r == has_sequence(self@, color_a, color_b),
    {
        proof {
            use_type_invariant(self);
            self.lemma_view();
        }
        let n = self.length as usize;
        let mut i: usize = 0;
        while i < n
            invariant
                i <= n,
                n == self@.len(),
                3 <= n <= 6,
                forall|j: int| 0 <= j < i ==> !(self@[j] == color_a && #[trigger] self@[(j + 1) % (n as int)] == color_b),
            decreases n - i,
        {
            let next_i = (i + 1) % n;
            if self.colors[i] == color_a && self.colors[next_i] == color_b {
                proof {
                    assert(self@[i as int] == color_a && self@[(i + 1) % (n as int)] == color_b);
                }
                return true;
            }
            i = i + 1;
        }
        false
    }

    /// Whether the cycle contains `a`, `b`, `c` consecutively.
    pub fn contains_triple(&self, a: Color, b: Color, c: Color) -> (r: bool)
        ensures
            r == has_triple(self@, a, b, c),
    {
        proof {
            use_type_invariant(self);
            self.lemma_view();
        }
        let n = self.length as usize;
        let mut i: usize = 0;
        while i < n
            invariant
                i <= n,
                n == self@.len(),
                3 <= n <= 6,
                forall|j: int| 0 <= j < i ==> !(self@[j] == a && #[trigger] self@[(j + 1) % (n as int)] == b && self@[(j + 2) % (n as int)] == c),
            decreases n - i,
        {
            let i1 = (i + 1) % n;
            let i2 = (i + 2) % n;
            if self.colors[i] == a && self.colors[i1] == b && self.colors[i2] == c {
                proof {
                    assert(self@[i as int] == a && self@[(i + 1) % (n as int)] == b && self@[(i + 2) % (n as int)] == c);
                }
                return true;
            }
            i = i + 1;
        }
        false
    }

    /// The position of the first occurrence of the color, if any.
    pub fn index_of(&self, color: Color) -> (r: Option<usize>)
        ensures
            r matches Some(k) ==> k < self@.len() && self@[k as int] == color && forall|j: int| 0 <= j < k ==> self@[j] != color,
            r is None ==> forall|j: int| 0 <= j < self@.len() ==> self@[j] != color,
    {
        proof {
            use_type_invariant(self);
            self.lemma_view();
        }
        let n = self.length as usize;
        let mut i: usize = 0;
        while i < n
            invariant
                i <= n,
                n == self@.len(),
                n <= 6,
                forall|j: int| 0 <= j < i ==> self@[j] != color,
            decreases n - i,
        {
            if self.colors[i] == color {
                return Some(i);
            }
            i = i + 1;
        }
        None
    }

    /// The same cycle traversed in the other direction: first color kept, the rest reversed.
    pub fn reverse(&self) -> (r: Self)
        ensures
            r@ == reverse_tail(self@),
            forall|i: nat| r.spec_colorset().has(i) == self.spec_colorset().has(i),
    {
        proof {
            use_type_invariant(self);
            self.lemma_view();
        }
        let n = self.length as usize;
        let mut reversed: Vec<Color> = Vec::with_capacity(n);
        reversed.push(self.colors[0]);
        let mut i: usize = n - 1;
        while i >= 1
            invariant
                0 <= i < n,
                n == self@.len(),
                3 <= n <= 6,
                reversed@.len() == n - i,
                forall|j: int| 0 <= j < reversed@.len() ==> reversed@[j] == reverse_tail(self@)[j],
            decreases i,
        {
            reversed.push(self.colors[i]);
            i = i - 1;
        }
        let r = Self::new(reversed.as_slice());
        proof {
            let rt = reverse_tail(self@);
            assert(reversed@ =~= rt);
            lemma_first_min_index(rt, n as int);
            let m = first_min_index(rt, n as int);
            if m > 0 {
                assert(rt[m].index() < rt[0].index());
                assert(self@[n - m].index() < self@[0].index());
            }
            assert(m == 0);
            assert forall|j: int| 0 <= j < n implies #[trigger] canonical(rt)[j] == rt[j] by {
                lemma_small_mod(j as nat, n as nat);
            }
            assert(canonical(rt) =~= rt);
            assert forall|i: nat| r.spec_colorset().has(i) == self.spec_colorset().has(i) by {
                if r.spec_colorset().has(i) {
                    let j = choose|j: int| 0 <= j < n && (#[trigger] reversed@[j]).index() == i;
                    if j > 0 {
                        assert(self@[n - j] == reversed@[j]);
                    }
                }
                if self.spec_colorset().has(i) {
                    let j = choose|j: int| 0 <= j < n && (#[trigger] self.colors@[j]).index() == i;
                    if j > 0 {
                        assert(reversed@[n - j] == self@[j]);
                    } else {
                        assert(reversed@[0] == self@[0]);
                    }
                }
            }
        }
        r
    }

    /// The text form: the colors' characters in parentheses, as in "(abc)".
    pub fn to_display_string(&self) -> (r: String)
        ensures
            r@.len() == self@.len() + 2,
            r@[0] == '(',
            r@.last() == ')',
            forall|j: int| 0 <= j < self@.len() ==> r@[j + 1] == color_char((#[trigger] self@[j]).index()),
    {
        proof {
            use_type_invariant(self);
            self.lemma_view();
        }
        let mut s = String::new();
        string_push(&mut s, '(');
        let n = self.length as usize;
        let mut i: usize = 0;
        while i < n
            invariant
                i <= n,
                n == self@.len(),
                n <= 6,
                s@.len() == i + 1,
                s@[0] == '(',
                forall|j: int| 0 <= j < i ==> s@[j + 1] == color_char((#[trigger] self@[j]).index()),
            decreases n - i,
        {
            string_push(&mut s, self.colors[i].to_char());
            i = i + 1;
        }
        string_push(&mut s, ')');
        s
    }
}

/// The canonical form starts with a smallest color.
pub proof fn lemma_canonical(s: Seq<Color>)
    requires
        1 <= s.len(),
    ensures
        canonical(s).len() == s.len(),
        forall|j: int| 0 <= j < s.len() ==> canonical(s)[0].index() <= (#[trigger] canonical(s)[j]).index(),
{
    lemma_first_min_index(s, s.len() as int);
    let m = first_min_index(s, s.len() as int);
    assert forall|j: int| 0 <= j < s.len() implies canonical(s)[0].index() <= (#[trigger] canonical(s)[j]).index() by {
        assert(canonical(s)[j] == s[(m + j) % (s.len() as int)]);
        assert(canonical(s)[0] == s[m % (s.len() as int)]);
        lemma_small_mod(m as nat, s.len());
    }
}

} // verus!
