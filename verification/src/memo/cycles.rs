//! The table of all facial cycles, and the lookup tables computed from it.
//!
//! Cycles are generated grouped by their largest color (2 up to NCOLORS - 1), then by
//! length (3 up to the largest color + 1), then in decreasing lexicographic order. A
//! sequence is kept when it contains its group's largest color, repeats no color and
//! starts with its smallest color.

use crate::geometry::color::Color;
use crate::geometry::constants::{NCOLORS, NCYCLES};
use crate::geometry::cycle::{canonical, first_min_index, rotate, Cycle, CycleId};
use crate::geometry::cycle_set::CycleSet;
use super::cycle_laws::lemma_expected_cycles_len;
use vstd::arithmetic::div_mod::lemma_small_mod;
use vstd::prelude::*;

verus! {

/// `n` to the power `e`.
pub open spec fn power(n: nat, e: nat) -> nat
    decreases e,
{
    if e == 0 {
        1
    } else {
        n * power(n, (e - 1) as nat)
    }
}

/// The `len` base-`base` digits of `code`, most significant first.
pub open spec fn digits(code: nat, base: nat, len: nat) -> Seq<u8>
    decreases len,
{
    if len == 0 {
        seq![]
    } else {
        digits(code / base, base, (len - 1) as nat).push((code % base) as u8)
    }
}

/// A color sequence that is a cycle of its group: it contains `max_color`, repeats no
/// color, and starts with its smallest color.
pub open spec fn is_valid_cycle_sequence(s: Seq<u8>, max_color: u8) -> bool {
    &&& exists|i: int| 0 <= i < s.len() && s[i] == max_color
    &&& forall|i: int, j: int| 0 <= i < j < s.len() ==> s[i] != s[j]
    &&& forall|i: int| 0 < i < s.len() ==> s[0] <= #[trigger] s[i]
}

/// The valid sequences among the digit sequences of the codes below `count`, taken from
/// code `count - 1` down to 0.
pub open spec fn valid_sequences(max_color: u8, len: nat, count: nat) -> Seq<Seq<u8>>
    decreases count,
{
    if count == 0 {
        seq![]
    } else {
        let s = digits((count - 1) as nat, (max_color + 1) as nat, len);
        let rest = valid_sequences(max_color, len, (count - 1) as nat);
        if is_valid_cycle_sequence(s, max_color) {
            seq![s] + rest
        } else {
            rest
        }
    }
}

/// The cycles of a group and length: every sequence of that length over the colors up to
/// `max_color`, in decreasing lexicographic order, keeping the valid ones.
pub open spec fn sequences_for(max_color: u8, len: nat) -> Seq<Seq<u8>> {
    valid_sequences(max_color, len, power((max_color + 1) as nat, len))
}

/// The cycles of a group, for the lengths from 3 up to (not including) `upto_len`.
pub open spec fn sequences_for_max(max_color: u8, upto_len: nat) -> Seq<Seq<u8>>
    decreases upto_len,
{
    if upto_len <= 3 {
        seq![]
    } else {
        sequences_for_max(max_color, (upto_len - 1) as nat) + sequences_for(max_color, (upto_len - 1) as nat)
    }
}

/// The cycles of the groups from 2 up to (not including) `upto_max`.
pub open spec fn all_cycle_sequences(upto_max: nat) -> Seq<Seq<u8>>
    decreases upto_max,
{
    if upto_max <= 2 {
        seq![]
    } else {
        all_cycle_sequences((upto_max - 1) as nat) + sequences_for_max((upto_max - 1) as u8, (upto_max + 1) as nat)
    }
}

/// The colors with the given indices.
pub open spec fn seq_colors(s: Seq<u8>) -> Seq<Color> {
    s.map_values(|v: u8| Color::from_index(v))
}

/// The table of all cycles, as color sequences.
pub open spec fn expected_cycles() -> Seq<Seq<Color>> {
    all_cycle_sequences(NCOLORS as nat).map_values(|s: Seq<u8>| seq_colors(s))
}

proof fn lemma_power_bound(b: nat, e: nat)
    requires
        b <= 6,
        e <= 6,
    ensures
        power(b, e) <= 46656,
        power(b, e) >= 1 || b == 0,
    decreases e,
{
    lemma_power_mono(b, e);
    lemma_power_six(e);
    if e > 0 && b > 0 {
        lemma_power_bound(b, (e - 1) as nat);
        let x = power(b, (e - 1) as nat);
        assert(b * x >= 1) by (nonlinear_arith)
            requires
                b >= 1,
                x >= 1,
        ;
    }
}

proof fn lemma_power_mono(b: nat, e: nat)
    requires
        b <= 6,
    ensures
        power(b, e) <= power(6, e),
    decreases e,
{
    if e > 0 {
        lemma_power_mono(b, (e - 1) as nat);
        let x = power(b, (e - 1) as nat);
        let y = power(6, (e - 1) as nat);
        assert(b * x <= 6 * y) by (nonlinear_arith)
            requires
                b <= 6,
                x <= y,
        ;
    }
}

proof fn lemma_power_six(e: nat)
    requires
        e <= 6,
    ensures
        power(6, e) <= 46656,
    decreases e,
{
    reveal_with_fuel(power, 7);
    if e < 6 {
        lemma_power_six_grows(e);
    }
}

proof fn lemma_power_six_grows(e: nat)
    requires
        e <= 6,
    ensures
        power(6, e) <= power(6, 6),
    decreases 6 - e,
{
    if e < 6 {
        lemma_power_six_grows(e + 1);
        assert(power(6, e + 1) == 6 * power(6, e));
    }
}

pub(crate) proof fn lemma_digits_bound(code: nat, base: nat, len: nat)
    requires
        base >= 1,
    ensures
        digits(code, base, len).len() == len,
        forall|i: int| 0 <= i < len ==> (#[trigger] digits(code, base, len)[i]) < base,
    decreases len,
{
    if len > 0 {
        lemma_digits_bound(code / base, base, (len - 1) as nat);
    }
}

proof fn lemma_valid_sequences_bound(m: u8, len: nat, count: nat)
    requires
        m < NCOLORS,
    ensures
        forall|i: int| 0 <= i < valid_sequences(m, len, count).len() ==> {
            &&& (#[trigger] valid_sequences(m, len, count)[i]).len() == len
            &&& forall|k: int| 0 <= k < len ==> (#[trigger] valid_sequences(m, len, count)[i][k]) < NCOLORS
        },
    decreases count,
{
    if count > 0 {
        lemma_valid_sequences_bound(m, len, (count - 1) as nat);
        lemma_digits_bound((count - 1) as nat, (m + 1) as nat, len);
        let s = digits((count - 1) as nat, (m + 1) as nat, len);
        let rest = valid_sequences(m, len, (count - 1) as nat);
        if is_valid_cycle_sequence(s, m) {
            assert forall|i: int| 0 <= i < valid_sequences(m, len, count).len() implies {
                &&& (#[trigger] valid_sequences(m, len, count)[i]).len() == len
                &&& forall|k: int| 0 <= k < len ==> (#[trigger] valid_sequences(m, len, count)[i][k]) < NCOLORS
            } by {
                if i > 0 {
                    assert(valid_sequences(m, len, count)[i] == rest[i - 1]);
                }
            }
        }
    }
}

proof fn lemma_sequences_for_max_bound(m: u8, upto: nat)
    requires
        m < NCOLORS,
    ensures
        forall|i: int| 0 <= i < sequences_for_max(m, upto).len() ==> {
            &&& 3 <= (#[trigger] sequences_for_max(m, upto)[i]).len() < upto
            &&& forall|k: int| 0 <= k < sequences_for_max(m, upto)[i].len() ==> (#[trigger] sequences_for_max(m, upto)[i][k]) < NCOLORS
        },
    decreases upto,
{
    if upto > 3 {
        lemma_sequences_for_max_bound(m, (upto - 1) as nat);
        lemma_valid_sequences_bound(m, (upto - 1) as nat, power((m + 1) as nat, (upto - 1) as nat));
        let a = sequences_for_max(m, (upto - 1) as nat);
        let b = sequences_for(m, (upto - 1) as nat);
        assert forall|i: int| 0 <= i < sequences_for_max(m, upto).len() implies {
            &&& 3 <= (#[trigger] sequences_for_max(m, upto)[i]).len() < upto
            &&& forall|k: int| 0 <= k < sequences_for_max(m, upto)[i].len() ==> (#[trigger] sequences_for_max(m, upto)[i][k]) < NCOLORS
        } by {
            if i < a.len() {
                assert(sequences_for_max(m, upto)[i] == a[i]);
            } else {
                assert(sequences_for_max(m, upto)[i] == b[i - a.len()]);
            }
        }
    }
}

pub(crate) proof fn lemma_all_sequences_bound(upto: nat)
    requires
        upto <= NCOLORS,
    ensures
        forall|i: int| 0 <= i < all_cycle_sequences(upto).len() ==> {
            &&& 3 <= (#[trigger] all_cycle_sequences(upto)[i]).len() <= NCOLORS
            &&& forall|k: int| 0 <= k < all_cycle_sequences(upto)[i].len() ==> (#[trigger] all_cycle_sequences(upto)[i][k]) < NCOLORS
        },
    decreases upto,
{
    if upto > 2 {
        lemma_all_sequences_bound((upto - 1) as nat);
        lemma_sequences_for_max_bound((upto - 1) as u8, (upto + 1) as nat);
        let a = all_cycle_sequences((upto - 1) as nat);
        let b = sequences_for_max((upto - 1) as u8, (upto + 1) as nat);
        assert forall|i: int| 0 <= i < all_cycle_sequences(upto).len() implies {
            &&& 3 <= (#[trigger] all_cycle_sequences(upto)[i]).len() <= NCOLORS
            &&& forall|k: int| 0 <= k < all_cycle_sequences(upto)[i].len() ==> (#[trigger] all_cycle_sequences(upto)[i][k]) < NCOLORS
        } by {
            if i < a.len() {
                assert(all_cycle_sequences(upto)[i] == a[i]);
            } else {
                assert(all_cycle_sequences(upto)[i] == b[i - a.len()]);
            }
        }
    }
}

/// Every cycle of the table has 3 to NCOLORS colors, each below NCOLORS.
pub proof fn lemma_expected_cycle_colors(c: int)
    requires
        0 <= c < expected_cycles().len(),
    ensures
        3 <= expected_cycles()[c].len() <= NCOLORS,
        forall|k: int| 0 <= k < expected_cycles()[c].len() ==> (#[trigger] expected_cycles()[c][k]).index() < NCOLORS,
{
    lemma_all_sequences_bound(NCOLORS as nat);
    let s = all_cycle_sequences(NCOLORS as nat)[c];
    assert(expected_cycles()[c] == seq_colors(s));
    assert forall|k: int| 0 <= k < expected_cycles()[c].len() implies (#[trigger] expected_cycles()[c][k]).index() < NCOLORS by {
        Color::from_index(s[k]).lemma_from_index(s[k]);
    }
}

/// A sequence whose first color is smaller than all others is its own canonical form.
proof fn lemma_canonical_of_first_min(c: Seq<Color>)
    requires
        1 <= c.len(),
        forall|k: int| 0 < k < c.len() ==> c[0].index() < (#[trigger] c[k]).index(),
    ensures
        canonical(c) == c,
{
    lemma_first_min_stays(c, c.len() as int);
    assert forall|i: int| 0 <= i < c.len() implies #[trigger] rotate(c, 0)[i] == c[i] by {
        lemma_small_mod(i as nat, c.len());
    }
    assert(rotate(c, 0) =~= c);
}

proof fn lemma_first_min_stays(c: Seq<Color>, k: int)
    requires
        1 <= k <= c.len(),
        forall|j: int| 0 < j < c.len() ==> c[0].index() < (#[trigger] c[j]).index(),
    ensures
        first_min_index(c, k) == 0,
    decreases k,
{
    if k > 1 {
        lemma_first_min_stays(c, k - 1);
    }
}

/// The digits of `code` in base `base`.
fn to_digits(code: usize, base: usize, len: usize) -> (r: Vec<u8>)
    requires
        2 <= base <= NCOLORS,
    ensures
        r@ == digits(code as nat, base as nat, len as nat),
    decreases len,
{
    if len == 0 {
        Vec::new()
    } else {
        let mut v = to_digits(code / base, base, len - 1);
        let d = (code % base) as u8;
        v.push(d);
        v
    }
}

/// Whether a color sequence of the given length is a cycle whose largest color is
/// `max_color`: it contains `max_color`, repeats no color and starts with its smallest.
pub fn is_cycle_valid(length: usize, max_color: u8, sequence: &[u8]) -> (r: bool)
    requires
        sequence@.len() == length,
        forall|i: int| 0 <= i < length ==> (#[trigger] sequence@[i]) < NCOLORS,
    ensures
        r == is_valid_cycle_sequence(sequence@, max_color),
{
    let mut has_max = false;
    let mut used = [false; 6];
    let mut i: usize = 0;
    while i < length
        invariant
            i <= length,
            has_max == exists|k: int| 0 <= k < i && sequence@[k] == max_color,
            forall|c: int| 0 <= c < 6 ==> (#[trigger] used@[c] <==> exists|k: int| 0 <= k < i && sequence@[k] == c),
            forall|a: int, b: int| 0 <= a < b < i ==> sequence@[a] != sequence@[b],
            forall|k: int| 0 < k < i ==> sequence@[0] <= #[trigger] sequence@[k],
        decreases length - i,
    {
        let color = sequence[i];
        if color == max_color {
            has_max = true;
        }
        if used[color as usize] {
            proof {
                assert(used@[color as int]);
                let k = choose|k: int| 0 <= k < i && sequence@[k] == color as int;
                assert(sequence@[k] == sequence@[i as int]);
            }
            return false;
        }
        used[color as usize] = true;
        if i > 0 && color < sequence[0] {
            return false;
        }
        i = i + 1;
    }
    has_max
}

/// Append the cycles whose largest color is `max_color` and whose length is `length`,
/// in decreasing lexicographic order.
fn generate_cycles_with_max_and_length(max_color: usize, length: usize, cycles: &mut Vec<Cycle>)
    requires
        2 <= max_color < NCOLORS,
        3 <= length <= max_color + 1,
    ensures
        final(cycles)@.len() == old(cycles)@.len() + sequences_for(max_color as u8, length as nat).len(),
        forall|k: int| 0 <= k < old(cycles)@.len() ==> #[trigger] final(cycles)@[k] == old(cycles)@[k],
        forall|k: int| 0 <= k < sequences_for(max_color as u8, length as nat).len() ==>
            (#[trigger] final(cycles)@[old(cycles)@.len() + k])@ == seq_colors(sequences_for(max_color as u8, length as nat)[k]),
{
    let base = max_color + 1;
    let ghost max8 = max_color as u8;
    let mut total: usize = 1;
    let mut e: usize = 0;
    while e < length
        invariant
            e <= length,
            total == power(base as nat, e as nat),
            total <= 46656,
        decreases length - e,
    {
        proof {
            lemma_power_bound(base as nat, (e + 1) as nat);
            let t = total as nat;
            let b = base as nat;
            assert(power(b, (e + 1) as nat) == b * t);
            assert(b * t == t * b) by (nonlinear_arith);
        }
        total = total * base;
        e = e + 1;
    }
    let ghost target = sequences_for(max8, length as nat);
    let ghost old_len = cycles@.len();
    let ghost old_cycles = cycles@;
    let mut code: usize = total;
    while code > 0
        invariant
            code <= total,
            total == power(base as nat, length as nat),
            cycles@.len() >= old_len,
            cycles@.len() - old_len + valid_sequences(max8, length as nat, code as nat).len() == target.len(),
            forall|k: int| 0 <= k < old_len ==> #[trigger] cycles@[k] == old_cycles[k],
            forall|k: int| 0 <= k < cycles@.len() - old_len ==> (#[trigger] cycles@[old_len + k])@ == seq_colors(target[k]),
            forall|k: int| 0 <= k < valid_sequences(max8, length as nat, code as nat).len() ==>
                #[trigger] valid_sequences(max8, length as nat, code as nat)[k] == target[cycles@.len() - old_len + k],
        decreases code,
    {
        code = code - 1;
        let s = to_digits(code, base, length);
        proof {
            lemma_digits_bound(code as nat, base as nat, length as nat);
        }
        let ghost rest = valid_sequences(max8, length as nat, code as nat);
        let ghost here = valid_sequences(max8, length as nat, (code + 1) as nat);
        if is_cycle_valid(length, max_color as u8, s.as_slice()) {
            let mut colors: Vec<Color> = Vec::new();
            let mut j: usize = 0;
            while j < length
                invariant
                    j <= length,
                    s@.len() == length,
                    colors@.len() == j,
                    forall|k: int| 0 <= k < j ==> #[trigger] colors@[k] == Color::from_index(s@[k]),
                decreases length - j,
            {
                let c = Color::new(s[j]);
                proof {
                    c.lemma_from_index(s@[j as int]);
                }
                colors.push(c);
                j = j + 1;
            }
            proof {
                assert(colors@ =~= seq_colors(s@));
                assert forall|k: int| 0 < k < colors@.len() implies colors@[0].index() < (#[trigger] colors@[k]).index() by {
                    Color::from_index(s@[0]).lemma_from_index(s@[0]);
                    Color::from_index(s@[k]).lemma_from_index(s@[k]);
                    assert(s@[0] != s@[k]);
                }
                lemma_canonical_of_first_min(colors@);
                assert(here == seq![s@] + rest);
                assert(here[0] == s@);
            }
            let cycle = Cycle::new(colors.as_slice());
            cycles.push(cycle);
            proof {
                assert forall|k: int| 0 <= k < rest.len() implies #[trigger] rest[k] == target[cycles@.len() - old_len + k] by {
                    assert(here[k + 1] == rest[k]);
                }
            }
        } else {
            proof {
                assert(here == rest);
            }
        }
    }
}

/// The table of all facial cycles, indexed by cycle id.
#[derive(Debug, Clone)]
pub struct CyclesArray {
    cycles: Vec<Cycle>,
}

impl View for CyclesArray {
    type V = Seq<Seq<Color>>;

    closed spec fn view(&self) -> Seq<Seq<Color>> {
        self.cycles@.map_values(|c: Cycle| c@)
    }
}

impl CyclesArray {
    /// The table holds exactly the generated cycles, NCYCLES of them.
    pub open spec fn wf(&self) -> bool {
        &&& self@ == expected_cycles()
        &&& self@.len() == NCYCLES
    }

    /// Generate all facial cycles, in the order described in the module documentation;
    /// there are NCYCLES of them.
    pub fn generate() -> (r: Self)
        ensures
            r.wf(),
    {
        proof {
            lemma_expected_cycles_len();
        }
        let mut cycles: Vec<Cycle> = Vec::new();
        let mut max_color: usize = 2;
        while max_color < NCOLORS
            invariant
                2 <= max_color <= NCOLORS,
                cycles@.len() == all_cycle_sequences(max_color as nat).len(),
                forall|k: int| 0 <= k < cycles@.len() ==> (#[trigger] cycles@[k])@ == seq_colors(all_cycle_sequences(max_color as nat)[k]),
            decreases NCOLORS - max_color,
        {
            let ghost before = all_cycle_sequences(max_color as nat);
            let mut length: usize = 3;
            while length <= max_color + 1
                invariant
                    3 <= length <= max_color + 2,
                    cycles@.len() == before.len() + sequences_for_max(max_color as u8, length as nat).len(),
                    forall|k: int| 0 <= k < cycles@.len() ==> (#[trigger] cycles@[k])@ == seq_colors(
                        (before + sequences_for_max(max_color as u8, length as nat))[k],
                    ),
                decreases max_color + 2 - length,
            {
                let ghost group = sequences_for_max(max_color as u8, length as nat);
                let ghost added = sequences_for(max_color as u8, length as nat);
                generate_cycles_with_max_and_length(max_color, length, &mut cycles);
                proof {
                    assert(sequences_for_max(max_color as u8, (length + 1) as nat) == group + added);
                    assert forall|k: int| 0 <= k < cycles@.len() implies (#[trigger] cycles@[k])@ == seq_colors(
                        (before + (group + added))[k],
                    ) by {
                        if k >= before.len() + group.len() {
                            let j = k - (before.len() + group.len());
                            assert(cycles@[before.len() + group.len() + j] == cycles@[k]);
                        }
                    }
                }
                length = length + 1;
            }
            proof {
                assert(all_cycle_sequences((max_color + 1) as nat) == before + sequences_for_max(max_color as u8, (max_color + 2) as nat));
            }
            max_color = max_color + 1;
        }
        proof {
            let ghost a = CyclesArray { cycles };
            assert(a@ =~= expected_cycles()) by {
                assert forall|k: int| 0 <= k < a@.len() implies #[trigger] a@[k] == expected_cycles()[k] by {
                    assert(a@[k] == cycles@[k]@);
                }
            }
        }
        CyclesArray { cycles }
    }

    /// The cycle with the given id.
    pub fn get(&self, cycle_id: CycleId) -> (r: &Cycle)
        requires
            self.wf(),
            cycle_id < NCYCLES,
        ensures
            r@ == expected_cycles()[cycle_id as int],
    {
        &self.cycles[cycle_id as usize]
    }

    /// The number of cycles.
    pub fn len(&self) -> (r: usize)
        ensures
            r == self@.len(),
    {
        self.cycles.len()
    }

    /// Whether there are no cycles (never, for a generated table).
    pub fn is_empty(&self) -> (r: bool)
        ensures
            r == (self@.len() == 0),
    {
        self.cycles.len() == 0
    }
}

/// Position `k` of the cycle holds color `a` and the next position (cyclically) color `b`.
pub open spec fn pair_at(s: Seq<Color>, k: int, a: int, b: int) -> bool {
    &&& s[k].index() == a
    &&& s[(k + 1) % (s.len() as int)].index() == b
}

/// The cycle contains color `a` followed (cyclically) by color `b`.
pub open spec fn has_pair(s: Seq<Color>, a: int, b: int) -> bool {
    exists|k: int| 0 <= k < s.len() && #[trigger] pair_at(s, k, a, b)
}

/// Positions `k`, `k + 1` and `k + 2` (cyclically) hold colors `a`, `b` and `c`.
pub open spec fn triple_at(s: Seq<Color>, k: int, a: int, b: int, c: int) -> bool {
    &&& s[k].index() == a
    &&& s[(k + 1) % (s.len() as int)].index() == b
    &&& s[(k + 2) % (s.len() as int)].index() == c
}

/// The cycle contains colors `a`, `b`, `c` consecutively (cyclically).
pub open spec fn has_triple(s: Seq<Color>, a: int, b: int, c: int) -> bool {
    exists|k: int| 0 <= k < s.len() && #[trigger] triple_at(s, k, a, b, c)
}

/// The cycle contains color `a`.
pub open spec fn has_color(s: Seq<Color>, a: int) -> bool {
    exists|k: int| 0 <= k < s.len() && (#[trigger] s[k]).index() == a
}

/// Where the table entry for the color pair (a, b) is kept.
pub open spec fn pair_index(a: int, b: int) -> int {
    a * 6 + b
}

/// Where the table entry for the color triple (a, b, c) is kept.
pub open spec fn triple_index(a: int, b: int, c: int) -> int {
    (a * 6 + b) * 6 + c
}

/// Cycle lookup tables for propagation, over the cycle table `expected_cycles()`.
#[derive(Debug, Clone)]
pub struct CyclesMemo {
    cycle_pairs: Vec<CycleSet>,
    cycle_triples: Vec<CycleSet>,
    cycles_omitting_one_color: Vec<CycleSet>,
    cycles_omitting_color_pair: Vec<CycleSet>,
}

/// A table of `n` empty sets.
fn empty_table(n: usize) -> (r: Vec<CycleSet>)
    ensures
        r@.len() == n,
        forall|k: int, c: int| 0 <= k < n ==> !(#[trigger] r@[k].has(c)),
{
    let mut t: Vec<CycleSet> = Vec::new();
    let mut i: usize = 0;
    while i < n
        invariant
            i <= n,
            t@.len() == i,
            forall|k: int, c: int| 0 <= k < i ==> !(#[trigger] t@[k].has(c)),
        decreases n - i,
    {
        t.push(CycleSet::empty());
        i = i + 1;
    }
    t
}

/// Add a cycle to one entry of a table.
fn table_insert(t: &mut Vec<CycleSet>, idx: usize, id: CycleId)
    requires
        idx < old(t)@.len(),
        id < NCYCLES,
    ensures
        final(t)@.len() == old(t)@.len(),
        forall|k: int, c: int| 0 <= k < old(t)@.len() ==> (#[trigger] final(t)@[k].has(c) <==> (old(t)@[k].has(c) || (k == idx && c == id))),
{
    let mut s = t[idx];
    s.insert(id);
    t.set(idx, s);
}

/// For each color pair (a, b), the cycles containing a followed by b.
fn compute_cycle_pairs(cycles: &CyclesArray) -> (r: Vec<CycleSet>)
    requires
        cycles.wf(),
    ensures
        r@.len() == 36,
        forall|a: int, b: int, c: int| 0 <= a < 6 && 0 <= b < 6 ==>
            (#[trigger] r@[pair_index(a, b)].has(c) <==> 0 <= c < NCYCLES && has_pair(expected_cycles()[c], a, b)),
{
    let ghost cs = expected_cycles();
    let mut pairs = empty_table(36);
    let mut id: u64 = 0;
    while id < NCYCLES as u64
        invariant
            id <= NCYCLES,
            pairs@.len() == 36,
            forall|a: int, b: int, c: int| 0 <= a < 6 && 0 <= b < 6 ==>
                (#[trigger] pairs@[pair_index(a, b)].has(c) <==> 0 <= c < id && has_pair(cs[c], a, b)),
        decreases NCYCLES - id,
    {
        let cycle = cycles.get(id);
        let colors = cycle.colors();
        let n = cycle.len();
        let ghost s = cs[id as int];
        let mut i: usize = 0;
        while i < n
            invariant
                i <= n,
                n == s.len(),
                colors@ == s,
                pairs@.len() == 36,
                forall|a: int, b: int, c: int| 0 <= a < 6 && 0 <= b < 6 ==>
                    (#[trigger] pairs@[pair_index(a, b)].has(c) <==> (0 <= c < id && has_pair(cs[c], a, b)) || (c == id
                        && exists|k: int| 0 <= k < i && #[trigger] pair_at(s, k, a, b))),
            decreases n - i,
        {
            let a0 = colors[i].as_usize();
            let b0 = colors[(i + 1) % n].as_usize();
            let ghost old_pairs = pairs@;
            table_insert(&mut pairs, a0 * 6 + b0, id);
            proof {
                assert(pair_at(s, i as int, a0 as int, b0 as int));
                assert forall|a: int, b: int, c: int| 0 <= a < 6 && 0 <= b < 6 implies
                    (#[trigger] pairs@[pair_index(a, b)].has(c) <==> (0 <= c < id && has_pair(cs[c], a, b)) || (c == id
                        && exists|k: int| 0 <= k < i + 1 && #[trigger] pair_at(s, k, a, b))) by {
                    assert(old_pairs[pair_index(a, b)].has(c) == ((0 <= c < id && has_pair(cs[c], a, b)) || (c == id
                        && exists|k: int| 0 <= k < i && #[trigger] pair_at(s, k, a, b))));
                    if c == id && (exists|k: int| 0 <= k < i + 1 && #[trigger] pair_at(s, k, a, b)) {
                        let k = choose|k: int| 0 <= k < i + 1 && #[trigger] pair_at(s, k, a, b);
                        if k == i {
                            assert(a == a0 && b == b0);
                        }
                    }
                }
            }
            i = i + 1;
        }
        id = id + 1;
    }
    pairs
}

/// For each color triple (a, b, c), the cycles containing a, b, c consecutively.
fn compute_cycle_triples(cycles: &CyclesArray) -> (r: Vec<CycleSet>)
    requires
        cycles.wf(),
    ensures
        r@.len() == 216,
        forall|a: int, b: int, c: int, d: int| 0 <= a < 6 && 0 <= b < 6 && 0 <= c < 6 ==>
            (#[trigger] r@[triple_index(a, b, c)].has(d) <==> 0 <= d < NCYCLES && has_triple(expected_cycles()[d], a, b, c)),
{
    let ghost cs = expected_cycles();
    let mut triples = empty_table(216);
    let mut id: u64 = 0;
    while id < NCYCLES as u64
        invariant
            id <= NCYCLES,
            triples@.len() == 216,
            forall|a: int, b: int, c: int, d: int| 0 <= a < 6 && 0 <= b < 6 && 0 <= c < 6 ==>
                (#[trigger] triples@[triple_index(a, b, c)].has(d) <==> 0 <= d < id && has_triple(cs[d], a, b, c)),
        decreases NCYCLES - id,
    {
        let cycle = cycles.get(id);
        let colors = cycle.colors();
        let n = cycle.len();
        let ghost s = cs[id as int];
        let mut i: usize = 0;
        while i < n
            invariant
                i <= n,
                n == s.len(),
                colors@ == s,
                triples@.len() == 216,
                forall|a: int, b: int, c: int, d: int| 0 <= a < 6 && 0 <= b < 6 && 0 <= c < 6 ==>
                    (#[trigger] triples@[triple_index(a, b, c)].has(d) <==> (0 <= d < id && has_triple(cs[d], a, b, c)) || (d
                        == id && exists|k: int| 0 <= k < i && #[trigger] triple_at(s, k, a, b, c))),
            decreases n - i,
        {
            let a0 = colors[i].as_usize();
            let b0 = colors[(i + 1) % n].as_usize();
            let c0 = colors[(i + 2) % n].as_usize();
            let ghost old_t = triples@;
            table_insert(&mut triples, (a0 * 6 + b0) * 6 + c0, id);
            proof {
                assert(triple_at(s, i as int, a0 as int, b0 as int, c0 as int));
                assert forall|a: int, b: int, c: int, d: int| 0 <= a < 6 && 0 <= b < 6 && 0 <= c < 6 implies
                    (#[trigger] triples@[triple_index(a, b, c)].has(d) <==> (0 <= d < id && has_triple(cs[d], a, b, c)) || (d
                        == id && exists|k: int| 0 <= k < i + 1 && #[trigger] triple_at(s, k, a, b, c))) by {
                    assert(old_t[triple_index(a, b, c)].has(d) == ((0 <= d < id && has_triple(cs[d], a, b, c)) || (d == id
                        && exists|k: int| 0 <= k < i && #[trigger] triple_at(s, k, a, b, c))));
                    if d == id && (exists|k: int| 0 <= k < i + 1 && #[trigger] triple_at(s, k, a, b, c)) {
                        let k = choose|k: int| 0 <= k < i + 1 && #[trigger] triple_at(s, k, a, b, c);
                        if k == i {
                            assert(a == a0 && b == b0 && c == c0);
                        }
                    }
                }
            }
            i = i + 1;
        }
        id = id + 1;
    }
    triples
}

/// For each color, the cycles that do not contain it.
fn compute_cycles_omitting_one_color(cycles: &CyclesArray) -> (r: Vec<CycleSet>)
    requires
        cycles.wf(),
    ensures
        r@.len() == 6,
        forall|a: int, c: int| 0 <= a < 6 ==>
            (#[trigger] r@[a].has(c) <==> 0 <= c < NCYCLES && !has_color(expected_cycles()[c], a)),
{
    let ghost cs = expected_cycles();
    let mut omitting = empty_table(6);
    let mut id: u64 = 0;
    while id < NCYCLES as u64
        invariant
            id <= NCYCLES,
            omitting@.len() == 6,
            forall|a: int, c: int| 0 <= a < 6 ==>
                (#[trigger] omitting@[a].has(c) <==> 0 <= c < id && !has_color(cs[c], a)),
        decreases NCYCLES - id,
    {
        let cycle = cycles.get(id);
        let colorset = cycle.colorset();
        let ghost s = cs[id as int];
        let mut color: usize = 0;
        while color < NCOLORS
            invariant
                color <= NCOLORS,
                cycle@ == s,
                omitting@.len() == 6,
                forall|i: nat| colorset.has(i) <==> exists|j: int| 0 <= j < s.len() && (#[trigger] s[j]).index() == i,
                forall|a: int, c: int| 0 <= a < 6 ==>
                    (#[trigger] omitting@[a].has(c) <==> (0 <= c < id && !has_color(cs[c], a)) || (c == id && a < color
                        && !has_color(s, a))),
            decreases NCOLORS - color,
        {
            let ghost old_t = omitting@;
            if !colorset.contains(Color::new(color as u8)) {
                table_insert(&mut omitting, color, id);
            }
            proof {
                assert(colorset.has(color as nat) == has_color(s, color as int));
            }
            color = color + 1;
        }
        id = id + 1;
    }
    omitting
}

/// For each color pair i < j, the cycles that do not contain i followed by j. The
/// entries with i >= j are empty.
fn compute_cycles_omitting_color_pair(cycles: &CyclesArray) -> (r: Vec<CycleSet>)
    requires
        cycles.wf(),
    ensures
        r@.len() == 36,
        forall|a: int, b: int, c: int| 0 <= a < 6 && 0 <= b < 6 ==>
            (#[trigger] r@[pair_index(a, b)].has(c) <==> a < b && 0 <= c < NCYCLES && !has_pair(expected_cycles()[c], a, b)),
{
    let ghost cs = expected_cycles();
    let mut omitting = empty_table(36);
    let mut id: u64 = 0;
    while id < NCYCLES as u64
        invariant
            id <= NCYCLES,
            omitting@.len() == 36,
            forall|a: int, b: int, c: int| 0 <= a < 6 && 0 <= b < 6 ==>
                (#[trigger] omitting@[pair_index(a, b)].has(c) <==> a < b && 0 <= c < id && !has_pair(cs[c], a, b)),
        decreases NCYCLES - id,
    {
        let cycle = cycles.get(id);
        let colors = cycle.colors();
        let n = cycle.len();
        let ghost s = cs[id as int];
        let mut i: usize = 0;
        while i < NCOLORS
            invariant
                i <= NCOLORS,
                n == s.len(),
                colors@ == s,
                omitting@.len() == 36,
                forall|a: int, b: int, c: int| 0 <= a < 6 && 0 <= b < 6 ==>
                    (#[trigger] omitting@[pair_index(a, b)].has(c) <==> a < b && ((0 <= c < id && !has_pair(cs[c], a, b))
                        || (c == id && a < i && !has_pair(s, a, b)))),
            decreases NCOLORS - i,
        {
            let mut j: usize = i + 1;
            while j < NCOLORS
                invariant
                    i < NCOLORS,
                    i + 1 <= j <= NCOLORS,
                    n == s.len(),
                    colors@ == s,
                    omitting@.len() == 36,
                    forall|a: int, b: int, c: int| 0 <= a < 6 && 0 <= b < 6 ==>
                        (#[trigger] omitting@[pair_index(a, b)].has(c) <==> a < b && ((0 <= c < id && !has_pair(cs[c], a, b))
                            || (c == id && (a < i || (a == i && b < j)) && !has_pair(s, a, b)))),
                decreases NCOLORS - j,
            {
                let mut has_edge = false;
                let mut idx: usize = 0;
                while idx < n
                    invariant
                        idx <= n,
                        n == s.len(),
                        colors@ == s,
                        has_edge == exists|k: int| 0 <= k < idx && #[trigger] pair_at(s, k, i as int, j as int),
                    decreases n - idx,
                {
                    let next_idx = (idx + 1) % n;
                    if colors[idx].as_usize() == i && colors[next_idx].as_usize() == j {
                        has_edge = true;
                    }
                    proof {
                        if has_edge && !(exists|k: int| 0 <= k < idx && #[trigger] pair_at(s, k, i as int, j as int)) {
                            assert(pair_at(s, idx as int, i as int, j as int));
                        }
                    }
                    idx = idx + 1;
                }
                if !has_edge {
                    table_insert(&mut omitting, i * 6 + j, id);
                }
                j = j + 1;
            }
            i = i + 1;
        }
        id = id + 1;
    }
    omitting
}

impl CyclesMemo {
    /// The tables hold, for the cycle table `expected_cycles()`: per color pair the
    /// cycles with that pair; per triple the cycles with that triple; per color the cycles
    /// without it; per pair i < j the cycles without i followed by j.
    pub closed spec fn wf(&self) -> bool {
        &&& self.cycle_pairs@.len() == 36
        &&& self.cycle_triples@.len() == 216
        &&& self.cycles_omitting_one_color@.len() == 6
        &&& self.cycles_omitting_color_pair@.len() == 36
        &&& forall|a: int, b: int, c: int| 0 <= a < 6 && 0 <= b < 6 ==>
            (#[trigger] self.cycle_pairs@[pair_index(a, b)].has(c) <==> 0 <= c < NCYCLES && has_pair(expected_cycles()[c], a, b))
        &&& forall|a: int, b: int, c: int, d: int| 0 <= a < 6 && 0 <= b < 6 && 0 <= c < 6 ==>
            (#[trigger] self.cycle_triples@[triple_index(a, b, c)].has(d) <==> 0 <= d < NCYCLES && has_triple(expected_cycles()[d], a, b, c))
        &&& forall|a: int, c: int| 0 <= a < 6 ==>
            (#[trigger] self.cycles_omitting_one_color@[a].has(c) <==> 0 <= c < NCYCLES && !has_color(expected_cycles()[c], a))
        &&& forall|a: int, b: int, c: int| 0 <= a < 6 && 0 <= b < 6 ==>
            (#[trigger] self.cycles_omitting_color_pair@[pair_index(a, b)].has(c) <==> a < b && 0 <= c < NCYCLES && !has_pair(expected_cycles()[c], a, b))
    }

    /// Compute all lookup tables from the cycle table.
    pub fn initialize(cycles: &CyclesArray) -> (r: Self)
        requires
            cycles.wf(),
        ensures
            r.wf(),
    {
        let cycle_pairs = compute_cycle_pairs(cycles);
        let cycle_triples = compute_cycle_triples(cycles);
        let cycles_omitting_one_color = compute_cycles_omitting_one_color(cycles);
        let cycles_omitting_color_pair = compute_cycles_omitting_color_pair(cycles);
        Self { cycle_pairs, cycle_triples, cycles_omitting_one_color, cycles_omitting_color_pair }
    }

    /// The cycles containing color `a` followed by color `b`.
    pub fn cycle_pairs(&self, a: usize, b: usize) -> (r: CycleSet)
        requires
            self.wf(),
            a < NCOLORS,
            b < NCOLORS,
        ensures
            forall|c: int| r.has(c) <==> 0 <= c < NCYCLES && has_pair(expected_cycles()[c], a as int, b as int),
    {
        let r = self.cycle_pairs[a * 6 + b];
        proof {
            assert forall|c: int| r.has(c) <==> 0 <= c < NCYCLES && has_pair(expected_cycles()[c], a as int, b as int) by {
                assert(self.cycle_pairs@[pair_index(a as int, b as int)].has(c) == r.has(c));
            }
        }
        r
    }

    /// The cycles containing colors `a`, `b`, `c` consecutively.
    pub fn cycle_triples(&self, a: usize, b: usize, c: usize) -> (r: CycleSet)
        requires
            self.wf(),
            a < NCOLORS,
            b < NCOLORS,
            c < NCOLORS,
        ensures
            forall|d: int| r.has(d) <==> 0 <= d < NCYCLES && has_triple(expected_cycles()[d], a as int, b as int, c as int),
    {
        let r = self.cycle_triples[(a * 6 + b) * 6 + c];
        proof {
            assert forall|d: int| r.has(d) <==> 0 <= d < NCYCLES && has_triple(expected_cycles()[d], a as int, b as int, c as int) by {
                assert(self.cycle_triples@[triple_index(a as int, b as int, c as int)].has(d) == r.has(d));
            }
        }
        r
    }

    /// The table's set of the cycles that do not contain color `a`.
    pub closed spec fn spec_omitting_one_color(&self, a: int) -> CycleSet {
        self.cycles_omitting_one_color@[a]
    }

    /// The cycles that do not contain color `color_idx`.
    pub fn get_cycles_omitting_one_color(&self, color_idx: usize) -> (r: CycleSet)
        requires
            self.wf(),
            color_idx < NCOLORS,
        ensures
            forall|c: int| r.has(c) <==> 0 <= c < NCYCLES && !has_color(expected_cycles()[c], color_idx as int),
            r == self.spec_omitting_one_color(color_idx as int),
    {
        let r = self.cycles_omitting_one_color[color_idx];
        proof {
            assert forall|c: int| r.has(c) <==> 0 <= c < NCYCLES && !has_color(expected_cycles()[c], color_idx as int) by {
                assert(self.cycles_omitting_one_color@[color_idx as int].has(c) == r.has(c));
            }
        }
        r
    }

    /// The cycles that do not contain color `i` followed by color `j`; only for i < j.
    pub fn get_cycles_omitting_color_pair(&self, i: usize, j: usize) -> (r: CycleSet)
        requires
            self.wf(),
            i < j < NCOLORS,
        ensures
            forall|c: int| r.has(c) <==> 0 <= c < NCYCLES && !has_pair(expected_cycles()[c], i as int, j as int),
    {
        let r = self.cycles_omitting_color_pair[i * 6 + j];
        proof {
            assert forall|c: int| r.has(c) <==> 0 <= c < NCYCLES && !has_pair(expected_cycles()[c], i as int, j as int) by {
                assert(self.cycles_omitting_color_pair@[pair_index(i as int, j as int)].has(c) == r.has(c));
            }
        }
        r
    }

    /// For edge `i` of a cycle, from color a = c[i] to b = c[i + 1]: the cycles that the
    /// face across both a and b can have, those containing a followed by b.
    pub fn same_direction(&self, cycles: &CyclesArray, cycle_id: CycleId, i: usize) -> (r: CycleSet)
        requires
            self.wf(),
            cycles.wf(),
            cycle_id < NCYCLES,
            i < expected_cycles()[cycle_id as int].len(),
        ensures
            ({
                let s = expected_cycles()[cycle_id as int];
                forall|c: int| r.has(c) <==> 0 <= c < NCYCLES && has_pair(expected_cycles()[c], s[i as int].index() as int,
                    s[(i + 1) % (s.len() as int)].index() as int)
            }),
    {
        let cycle = cycles.get(cycle_id);
        let colors = cycle.colors();
        let n = cycle.len();
        let a = colors[i].as_usize();
        let b = colors[(i + 1) % n].as_usize();
        self.cycle_pairs(a, b)
    }

    /// For edge `i` of a cycle, from color a = c[i] to b = c[i + 1], with p = c[i - 1]
    /// before it: the cycles that the face across a can have, those containing b, a, p
    /// consecutively (the shared edge run the other way).
    pub fn opposite_direction(&self, cycles: &CyclesArray, cycle_id: CycleId, i: usize) -> (r: CycleSet)
        requires
            self.wf(),
            cycles.wf(),
            cycle_id < NCYCLES,
            i < expected_cycles()[cycle_id as int].len(),
        ensures
            ({
                let s = expected_cycles()[cycle_id as int];
                let n = s.len() as int;
                forall|c: int| r.has(c) <==> 0 <= c < NCYCLES && has_triple(expected_cycles()[c], s[(i + 1) % n].index() as int,
                    s[i as int].index() as int, s[(i + n - 1) % n].index() as int)
            }),
    {
        let cycle = cycles.get(cycle_id);
        let colors = cycle.colors();
        let n = cycle.len();
        let a = colors[i].as_usize();
        let b = colors[(i + 1) % n].as_usize();
        let p = colors[(i + n - 1) % n].as_usize();
        self.cycle_triples(b, a, p)
    }
}

} // verus!
