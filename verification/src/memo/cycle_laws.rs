//! What the table of cycles is as a whole: every canonical sequence of 3 to NCOLORS
//! distinct colors is listed exactly once, so there are NCYCLES cycles, and the last one
//! runs through all colors in order.

use crate::geometry::color::Color;
use crate::geometry::constants::{NCOLORS, NCYCLES};
use super::cycles::{
    all_cycle_sequences, digits, lemma_all_sequences_bound, expected_cycles, is_valid_cycle_sequence, lemma_digits_bound, power, seq_colors, sequences_for,
    sequences_for_max, valid_sequences,
};
use vstd::prelude::*;
use vstd::relations::injective_on;

verus! {

/// Distinct codes below `b` to the `len` have distinct digit sequences.
proof fn lemma_digits_injective(c1: nat, c2: nat, b: nat, len: nat)
    requires
        2 <= b <= NCOLORS,
        c1 < power(b, len),
        c2 < power(b, len),
        digits(c1, b, len) == digits(c2, b, len),
    ensures
        c1 == c2,
    decreases len,
{
    if len > 0 {
        let l1 = (len - 1) as nat;
        let p = power(b, l1);
        let q1 = c1 / b;
        let q2 = c2 / b;
        let r1 = c1 % b;
        let r2 = c2 % b;
        vstd::arithmetic::div_mod::lemma_fundamental_div_mod(c1 as int, b as int);
        vstd::arithmetic::div_mod::lemma_fundamental_div_mod(c2 as int, b as int);
        vstd::arithmetic::div_mod::lemma_mod_bound(c1 as int, b as int);
        vstd::arithmetic::div_mod::lemma_mod_bound(c2 as int, b as int);
        lemma_digits_bound(q1, b, l1);
        lemma_digits_bound(q2, b, l1);
        let d1 = digits(c1, b, len);
        let d2 = digits(c2, b, len);
        assert(d1 == digits(q1, b, l1).push(r1 as u8));
        assert(d2 == digits(q2, b, l1).push(r2 as u8));
        assert(d1[len - 1] == r1 as u8);
        assert(d2[len - 1] == r2 as u8);
        assert(r1 == r2);
        assert(digits(q1, b, l1) =~= d1.drop_last());
        assert(digits(q2, b, l1) =~= d2.drop_last());
        assert(q1 < p) by (nonlinear_arith)
            requires
                c1 < b * p,
                c1 == b * q1 + r1,
                r1 >= 0,
                b > 0,
        ;
        assert(q2 < p) by (nonlinear_arith)
            requires
                c2 < b * p,
                c2 == b * q2 + r2,
                r2 >= 0,
                b > 0,
        ;
        lemma_digits_injective(q1, q2, b, l1);
    }
}

/// Each cycle of a group comes from a code below `count`, is valid for the group, has
/// its length and colors up to the group's largest; and no cycle is listed twice.
proof fn lemma_valid_sequences_distinct(m: u8, len: nat, count: nat)
    requires
        2 <= m < NCOLORS,
        count <= power((m + 1) as nat, len),
    ensures
        forall|i: int|
            #![trigger valid_sequences(m, len, count)[i]]
            0 <= i < valid_sequences(m, len, count).len() ==> exists|c: nat|
                #![trigger digits(c, (m + 1) as nat, len)]
                c < count && valid_sequences(m, len, count)[i] == digits(c, (m + 1) as nat, len),
        forall|i: int| 0 <= i < valid_sequences(m, len, count).len() ==> {
            &&& is_valid_cycle_sequence(#[trigger] valid_sequences(m, len, count)[i], m)
            &&& valid_sequences(m, len, count)[i].len() == len
            &&& forall|k: int| 0 <= k < len ==> (#[trigger] valid_sequences(m, len, count)[i][k]) <= m
        },
        valid_sequences(m, len, count).no_duplicates(),
    decreases count,
{
    if count > 0 {
        let n = (count - 1) as nat;
        let b = (m + 1) as nat;
        lemma_valid_sequences_distinct(m, len, n);
        lemma_digits_bound(n, b, len);
        let s = digits(n, b, len);
        let rest = valid_sequences(m, len, n);
        let all = valid_sequences(m, len, count);
        if is_valid_cycle_sequence(s, m) {
            assert(all == seq![s] + rest);
            assert forall|i: int| #![trigger all[i]] 0 <= i < all.len() implies exists|c: nat| #![trigger digits(c, b, len)] c < count && all[i] == digits(c, b, len) by {
                if i == 0 {
                    assert(all[0] == digits(n, b, len));
                } else {
                    assert(all[i] == rest[i - 1]);
                    let c = choose|c: nat| c < n && rest[i - 1] == digits(c, b, len);
                    assert(all[i] == digits(c, b, len));
                }
            }
            assert forall|i: int| 0 <= i < all.len() implies {
                &&& is_valid_cycle_sequence(#[trigger] all[i], m)
                &&& all[i].len() == len
                &&& forall|k: int| 0 <= k < len ==> (#[trigger] all[i][k]) <= m
            } by {
                if i > 0 {
                    assert(all[i] == rest[i - 1]);
                } else {
                    assert(all[0] == s);
                    assert forall|k: int| 0 <= k < len implies (#[trigger] all[i][k]) <= m by {
                        assert(s[k] < b);
                    }
                }
            }
            assert forall|i: int, j: int| 0 <= i < all.len() && 0 <= j < all.len() && i != j implies all[i] != all[j] by {
                if i == 0 || j == 0 {
                    let o = if i == 0 { j } else { i };
                    assert(all[o] == rest[o - 1]);
                    let c = choose|c: nat| c < n && rest[o - 1] == digits(c, b, len);
                    if all[i] == all[j] {
                        assert(digits(c, b, len) == digits(n, b, len));
                        lemma_digits_injective(c, n, b, len);
                    }
                } else {
                    assert(all[i] == rest[i - 1]);
                    assert(all[j] == rest[j - 1]);
                }
            }
        } else {
            assert(all == rest);
        }
    }
}

/// The cycles of a group, lengths 3 up to `upto`, are valid for the group, have colors
/// up to its largest, and none is listed twice.
proof fn lemma_group_distinct(m: u8, upto: nat)
    requires
        2 <= m < NCOLORS,
    ensures
        forall|i: int| 0 <= i < sequences_for_max(m, upto).len() ==> {
            &&& is_valid_cycle_sequence(#[trigger] sequences_for_max(m, upto)[i], m)
            &&& sequences_for_max(m, upto)[i].len() < upto
            &&& forall|k: int| 0 <= k < sequences_for_max(m, upto)[i].len() ==> (#[trigger] sequences_for_max(m, upto)[i][k]) <= m
        },
        sequences_for_max(m, upto).no_duplicates(),
    decreases upto,
{
    if upto > 3 {
        let l = (upto - 1) as nat;
        lemma_group_distinct(m, l);
        lemma_valid_sequences_distinct(m, l, power((m + 1) as nat, l));
        let a = sequences_for_max(m, l);
        let b = sequences_for(m, l);
        let g = sequences_for_max(m, upto);
        assert(g == a + b);
        assert forall|i: int| 0 <= i < g.len() implies {
            &&& is_valid_cycle_sequence(#[trigger] g[i], m)
            &&& g[i].len() < upto
            &&& forall|k: int| 0 <= k < g[i].len() ==> (#[trigger] g[i][k]) <= m
        } by {
            if i < a.len() {
                assert(g[i] == a[i]);
            } else {
                assert(g[i] == b[i - a.len()]);
            }
        }
        assert forall|i: int, j: int| 0 <= i < g.len() && 0 <= j < g.len() && i != j implies g[i] != g[j] by {
            if i < a.len() && j < a.len() {
                assert(g[i] == a[i] && g[j] == a[j]);
            } else if i >= a.len() && j >= a.len() {
                assert(g[i] == b[i - a.len()] && g[j] == b[j - a.len()]);
            } else if i < a.len() {
                assert(g[i] == a[i] && g[j] == b[j - a.len()]);
                assert(g[i].len() < l);
            } else {
                assert(g[j] == a[j] && g[i] == b[i - a.len()]);
                assert(g[j].len() < l);
            }
        }
    }
}

/// The cycles of the groups below `upto` have colors below `upto`, and none is
/// listed twice.
proof fn lemma_all_sequences_distinct(upto: nat)
    requires
        upto <= NCOLORS,
    ensures
        forall|i: int, k: int|
            0 <= i < all_cycle_sequences(upto).len() && 0 <= k < all_cycle_sequences(upto)[i].len() ==> #[trigger] all_cycle_sequences(
                upto,
            )[i][k] < upto,
        forall|i: int| 0 <= i < all_cycle_sequences(upto).len() ==> {
            &&& (#[trigger] all_cycle_sequences(upto)[i]).no_duplicates()
            &&& forall|k: int| 0 < k < all_cycle_sequences(upto)[i].len() ==> all_cycle_sequences(upto)[i][0] < #[trigger] all_cycle_sequences(upto)[i][k]
        },
        all_cycle_sequences(upto).no_duplicates(),
    decreases upto,
{
    if upto > 2 {
        let m = (upto - 1) as u8;
        lemma_all_sequences_distinct((upto - 1) as nat);
        lemma_group_distinct(m, (upto + 1) as nat);
        let a = all_cycle_sequences((upto - 1) as nat);
        let b = sequences_for_max(m, (upto + 1) as nat);
        let g = all_cycle_sequences(upto);
        assert(g == a + b);
        assert forall|i: int, k: int| 0 <= i < g.len() && 0 <= k < g[i].len() implies #[trigger] g[i][k] < upto by {
            if i < a.len() {
                assert(g[i] == a[i]);
            } else {
                assert(g[i] == b[i - a.len()]);
            }
        }
        assert forall|i: int| 0 <= i < g.len() implies {
            &&& (#[trigger] g[i]).no_duplicates()
            &&& forall|k: int| 0 < k < g[i].len() ==> g[i][0] < #[trigger] g[i][k]
        } by {
            if i < a.len() {
                assert(g[i] == a[i]);
            } else {
                let x = b[i - a.len()];
                assert(g[i] == x);
                assert(is_valid_cycle_sequence(x, m));
                assert forall|p: int, q: int| 0 <= p < x.len() && 0 <= q < x.len() && p != q implies x[p] != x[q] by {
                    if p < q {
                        assert(x[p] != x[q]);
                    } else {
                        assert(x[q] != x[p]);
                    }
                }
                assert forall|k: int| 0 < k < x.len() implies x[0] < #[trigger] x[k] by {
                    assert(x[0] <= x[k]);
                    assert(x[0] != x[k]);
                }
            }
        }
        assert forall|i: int, j: int| 0 <= i < g.len() && 0 <= j < g.len() && i != j implies g[i] != g[j] by {
            if i < a.len() && j < a.len() {
                assert(g[i] == a[i] && g[j] == a[j]);
            } else if i >= a.len() && j >= a.len() {
                assert(g[i] == b[i - a.len()] && g[j] == b[j - a.len()]);
            } else {
                let (x, y) = if i < a.len() { (i, j) } else { (j, i) };
                assert(g[x] == a[x] && g[y] == b[y - a.len()]);
                assert(is_valid_cycle_sequence(b[y - a.len()], m));
                let w = choose|w: int| 0 <= w < g[y].len() && g[y][w] == m;
                if g[x] == g[y] {
                    assert(a[x][w] < upto - 1);
                }
            }
        }
    }
}

/// Distinct cycle ids name distinct cycles: no cycle is listed twice in the table.
pub proof fn lemma_expected_cycles_distinct(i: int, j: int)
    requires
        0 <= i < expected_cycles().len(),
        0 <= j < expected_cycles().len(),
        i != j,
    ensures
        expected_cycles()[i] != expected_cycles()[j],
{
    lemma_all_sequences_distinct(NCOLORS as nat);
    let all = all_cycle_sequences(NCOLORS as nat);
    assert(expected_cycles()[i] == seq_colors(all[i]));
    assert(expected_cycles()[j] == seq_colors(all[j]));
    if expected_cycles()[i] == expected_cycles()[j] {
        lemma_seq_colors_injective(all[i], all[j]);
    }
}

/// The number whose `s.len()` base-`b` digits are `s`, most significant first.
pub open spec fn code_of(s: Seq<u8>, b: nat) -> nat
    decreases s.len(),
{
    if s.len() == 0 {
        0
    } else {
        code_of(s.drop_last(), b) * b + s.last() as nat
    }
}

/// A sequence of digits below `b` is the digit sequence of its number, which is below
/// `b` to the length.
proof fn lemma_code_of(s: Seq<u8>, b: nat)
    requires
        2 <= b <= NCOLORS,
        forall|k: int| 0 <= k < s.len() ==> (#[trigger] s[k]) < b,
    ensures
        code_of(s, b) < power(b, s.len()),
        digits(code_of(s, b), b, s.len()) == s,
    decreases s.len(),
{
    if s.len() > 0 {
        let t = s.drop_last();
        lemma_code_of(t, b);
        let q = code_of(t, b);
        let r = s.last() as nat;
        let c = q * b + r;
        let p = power(b, t.len());
        assert(code_of(s, b) == c);
        vstd::arithmetic::div_mod::lemma_fundamental_div_mod_converse_div(c as int, b as int, q as int, r as int);
        vstd::arithmetic::div_mod::lemma_fundamental_div_mod_converse_mod(c as int, b as int, q as int, r as int);
        assert(digits(c, b, s.len()) == digits(q, b, t.len()).push(r as u8));
        assert(t.push(s.last()) =~= s);
        assert(c < b * p) by (nonlinear_arith)
            requires
                c == q * b + r,
                q < p,
                r < b,
        ;
    }
}

/// A valid digit sequence of a code below `count` is among the group's cycles.
proof fn lemma_valid_sequences_contain(m: u8, len: nat, count: nat, c: nat)
    requires
        c < count,
        is_valid_cycle_sequence(digits(c, (m + 1) as nat, len), m),
    ensures
        valid_sequences(m, len, count).contains(digits(c, (m + 1) as nat, len)),
    decreases count,
{
    let n = (count - 1) as nat;
    let x = digits(c, (m + 1) as nat, len);
    let all = valid_sequences(m, len, count);
    let rest = valid_sequences(m, len, n);
    if c == n {
        assert(all == seq![x] + rest);
        assert(all[0] == x);
    } else {
        lemma_valid_sequences_contain(m, len, n, c);
        let i = choose|i: int| 0 <= i < rest.len() && rest[i] == x;
        if is_valid_cycle_sequence(digits(n, (m + 1) as nat, len), m) {
            assert(all == seq![digits(n, (m + 1) as nat, len)] + rest);
            assert(all[i + 1] == x);
        } else {
            assert(all == rest);
            assert(all[i] == x);
        }
    }
}

/// A valid sequence of the group of `m`, of a length from 3 up to `upto`, is among the
/// group's cycles.
proof fn lemma_group_contains(m: u8, upto: nat, x: Seq<u8>)
    requires
        2 <= m < NCOLORS,
        3 <= x.len() < upto,
        is_valid_cycle_sequence(x, m),
        forall|k: int| 0 <= k < x.len() ==> (#[trigger] x[k]) <= m,
    ensures
        sequences_for_max(m, upto).contains(x),
    decreases upto,
{
    let l = (upto - 1) as nat;
    let a = sequences_for_max(m, l);
    let b = sequences_for(m, l);
    assert(sequences_for_max(m, upto) == a + b);
    if x.len() == l {
        lemma_code_of(x, (m + 1) as nat);
        lemma_valid_sequences_contain(m, l, power((m + 1) as nat, l), code_of(x, (m + 1) as nat));
        let i = choose|i: int| 0 <= i < b.len() && b[i] == x;
        assert((a + b)[a.len() + i] == x);
    } else {
        lemma_group_contains(m, l, x);
        let i = choose|i: int| 0 <= i < a.len() && a[i] == x;
        assert((a + b)[i] == x);
    }
}

/// A valid sequence of the group of `m`, for `m` below `upto`, is among the cycles.
proof fn lemma_all_contains(upto: nat, m: u8, x: Seq<u8>)
    requires
        2 <= m < upto <= NCOLORS,
        3 <= x.len() <= m + 1,
        is_valid_cycle_sequence(x, m),
        forall|k: int| 0 <= k < x.len() ==> (#[trigger] x[k]) <= m,
    ensures
        all_cycle_sequences(upto).contains(x),
    decreases upto,
{
    let a = all_cycle_sequences((upto - 1) as nat);
    let b = sequences_for_max((upto - 1) as u8, (upto + 1) as nat);
    assert(all_cycle_sequences(upto) == a + b);
    if m == upto - 1 {
        lemma_group_contains(m, (upto + 1) as nat, x);
        let i = choose|i: int| 0 <= i < b.len() && b[i] == x;
        assert((a + b)[a.len() + i] == x);
    } else {
        lemma_all_contains((upto - 1) as nat, m, x);
        let i = choose|i: int| 0 <= i < a.len() && a[i] == x;
        assert((a + b)[i] == x);
    }
}

/// The index of a largest element.
proof fn lemma_max_index(s: Seq<u8>) -> (w: int)
    requires
        s.len() > 0,
    ensures
        0 <= w < s.len(),
        forall|k: int| 0 <= k < s.len() ==> (#[trigger] s[k]) <= s[w],
    decreases s.len(),
{
    if s.len() == 1 {
        0
    } else {
        let w0 = lemma_max_index(s.drop_last());
        assert(forall|k: int| 0 <= k < s.len() - 1 ==> s[k] == s.drop_last()[k]);
        if s.last() > s[w0] {
            (s.len() - 1) as int
        } else {
            w0
        }
    }
}

/// Distinct values up to `m` number at most `m + 1`.
proof fn lemma_distinct_values_bound(s: Seq<u8>, m: u8)
    requires
        forall|i: int, j: int| 0 <= i < j < s.len() ==> s[i] != s[j],
        forall|k: int| 0 <= k < s.len() ==> (#[trigger] s[k]) <= m,
    ensures
        s.len() <= m + 1,
{
    let t = s.map_values(|v: u8| v as int);
    assert(t.no_duplicates()) by {
        assert forall|i: int, j: int| 0 <= i < t.len() && 0 <= j < t.len() && i != j implies t[i] != t[j] by {
            if i < j {
                assert(s[i] != s[j]);
            } else {
                assert(s[j] != s[i]);
            }
        }
    }
    t.unique_seq_to_set();
    vstd::set_lib::lemma_int_range(0, m + 1);
    assert(t.to_set().subset_of(vstd::set_lib::set_int_range(0, m + 1))) by {
        assert forall|v: int| t.to_set().contains(v) implies vstd::set_lib::set_int_range(0, m + 1).contains(v) by {
            let i = choose|i: int| 0 <= i < t.len() && t[i] == v;
            assert(s[i] <= m);
        }
    }
    vstd::set_lib::lemma_len_subset(t.to_set(), vstd::set_lib::set_int_range(0, m + 1));
}

/// A canonical sequence of at least 3 distinct colors below NCOLORS, its first the
/// smallest, is among the cycles.
proof fn lemma_canonical_listed(s: Seq<u8>)
    requires
        3 <= s.len(),
        forall|k: int| 0 <= k < s.len() ==> (#[trigger] s[k]) < NCOLORS,
        forall|i: int, j: int| 0 <= i < j < s.len() ==> s[i] != s[j],
        forall|k: int| 0 < k < s.len() ==> s[0] < #[trigger] s[k],
    ensures
        all_cycle_sequences(NCOLORS as nat).contains(s),
{
    let w = lemma_max_index(s);
    let m = s[w];
    lemma_distinct_values_bound(s, m);
    assert(m < NCOLORS);
    assert(2 <= m);
    assert(is_valid_cycle_sequence(s, m)) by {
        assert forall|k: int| 0 < k < s.len() implies s[0] <= #[trigger] s[k] by {
            assert(s[0] < s[k]);
        }
    }
    lemma_all_contains(NCOLORS as nat, m, s);
}

/// Every canonical sequence of 3 to NCOLORS distinct colors (its first color the
/// smallest) is a cycle of the table.
pub proof fn lemma_expected_cycles_complete(c: Seq<Color>)
    requires
        3 <= c.len(),
        forall|k: int| 0 <= k < c.len() ==> (#[trigger] c[k]).index() < NCOLORS,
        forall|i: int, j: int| 0 <= i < j < c.len() ==> c[i] != c[j],
        forall|k: int| 0 < k < c.len() ==> c[0].index() < (#[trigger] c[k]).index(),
    ensures
        exists|id: int| 0 <= id < expected_cycles().len() && expected_cycles()[id] == c,
{
    let s = c.map_values(|x: Color| x.index());
    assert forall|k: int| 0 <= k < c.len() implies Color::from_index(#[trigger] s[k]) == c[k] by {
        c[k].lemma_from_index(c[k].index());
    }
    assert(seq_colors(s) =~= c);
    assert forall|i: int, j: int| 0 <= i < j < s.len() implies s[i] != s[j] by {
        c[i].lemma_from_index(c[i].index());
        c[j].lemma_from_index(c[j].index());
    }
    assert forall|k: int| 0 < k < s.len() implies s[0] < #[trigger] s[k] by {
        assert(c[0].index() < c[k].index());
    }
    lemma_canonical_listed(s);
    let all = all_cycle_sequences(NCOLORS as nat);
    let id = choose|id: int| 0 <= id < all.len() && all[id] == s;
    assert(expected_cycles()[id] == seq_colors(all[id]));
}

/// A sequence of colors determines its indices.
proof fn lemma_seq_colors_injective(a: Seq<u8>, b: Seq<u8>)
    requires
        seq_colors(a) == seq_colors(b),
    ensures
        a == b,
{
    assert(a.len() == seq_colors(a).len());
    assert(b.len() == seq_colors(b).len());
    assert forall|k: int| 0 <= k < a.len() implies a[k] == b[k] by {
        Color::from_index(a[k]).lemma_from_index(a[k]);
        Color::from_index(b[k]).lemma_from_index(b[k]);
        assert(seq_colors(a)[k] == seq_colors(b)[k]);
        assert(seq_colors(a)[k] == Color::from_index(a[k]));
        assert(seq_colors(b)[k] == Color::from_index(b[k]));
    }
    assert(a =~= b);
}

/// The digit at position `i` (most significant first) of `c` is `c / b^(len-1-i) mod b`.
proof fn lemma_digit_at(c: nat, b: nat, len: nat, i: int)
    requires
        2 <= b <= NCOLORS,
        0 <= i < len,
    ensures
        digits(c, b, len)[i] == ((c / power(b, (len - 1 - i) as nat)) % b) as u8,
    decreases len,
{
    let l1 = (len - 1) as nat;
    lemma_digits_bound(c / b, b, l1);
    assert(digits(c, b, len) == digits(c / b, b, l1).push((c % b) as u8));
    if i == len - 1 {
        assert(power(b, 0) == 1);
        assert(c / 1 == c);
    } else {
        lemma_digit_at(c / b, b, l1, i);
        let e = (len - 2 - i) as nat;
        let p = power(b, e);
        lemma_power_positive(b, e);
        vstd::arithmetic::div_mod::lemma_div_denominator(c as int, b as int, p as int);
        assert(power(b, (len - 1 - i) as nat) == b * p);
    }
}

/// A power of a positive base is positive.
proof fn lemma_power_positive(b: nat, e: nat)
    requires
        b >= 1,
    ensures
        power(b, e) >= 1,
    decreases e,
{
    if e > 0 {
        lemma_power_positive(b, (e - 1) as nat);
        let x = power(b, (e - 1) as nat);
        assert(b * x >= 1) by (nonlinear_arith)
            requires
                b >= 1,
                x >= 1,
        ;
    }
}

/// The six colors in order, as indices.
pub open spec fn all_colors_in_order() -> Seq<u8> {
    seq![0u8, 1u8, 2u8, 3u8, 4u8, 5u8]
}

/// No code below that of the six colors in order gives a valid sequence of six colors.
proof fn lemma_low_codes_invalid(c: nat)
    requires
        c < 1865,
    ensures
        !is_valid_cycle_sequence(digits(c, 6, 6), 5),
{
    reveal_with_fuel(power, 7);
    let s = digits(c, 6, 6);
    lemma_digit_at(c, 6, 6, 0);
    lemma_digit_at(c, 6, 6, 1);
    lemma_digit_at(c, 6, 6, 2);
    lemma_digit_at(c, 6, 6, 3);
    lemma_digit_at(c, 6, 6, 4);
    lemma_digit_at(c, 6, 6, 5);
    assert(power(6, 5) == 7776 && power(6, 4) == 1296 && power(6, 3) == 216 && power(6, 2) == 36 && power(6, 1) == 6 && power(6, 0) == 1);
    let x0 = (c / 7776) % 6;
    let x1 = (c / 1296) % 6;
    let x2 = (c / 216) % 6;
    let x3 = (c / 36) % 6;
    let x4 = (c / 6) % 6;
    let x5 = (c / 1) % 6;
    assert(s[0] == x0 && s[1] == x1 && s[2] == x2 && s[3] == x3 && s[4] == x4 && s[5] == x5);
    assert(x0 == 0 && x1 <= 1) by (nonlinear_arith)
        requires
            c < 1865,
            x0 == (c / 7776) % 6,
            x1 == (c / 1296) % 6,
    ;
    if x1 == 1 {
        assert(1296 <= c && x2 <= 2) by (nonlinear_arith)
            requires
                c < 1865,
                x1 == (c / 1296) % 6,
                x1 == 1,
                x2 == (c / 216) % 6,
        ;
        if x2 == 2 {
            assert(1728 <= c && x3 <= 3) by (nonlinear_arith)
                requires
                    1296 <= c < 1865,
                    x2 == (c / 216) % 6,
                    x2 == 2,
                    x3 == (c / 36) % 6,
            ;
            if x3 == 3 {
                assert(1836 <= c && x4 <= 4) by (nonlinear_arith)
                    requires
                        1728 <= c < 1865,
                        x3 == (c / 36) % 6,
                        x3 == 3,
                        x4 == (c / 6) % 6,
                ;
                if x4 == 4 {
                    assert(x5 <= 4) by (nonlinear_arith)
                        requires
                            1836 <= c < 1865,
                            x4 == (c / 6) % 6,
                            x4 == 4,
                            x5 == (c / 1) % 6,
                    ;
                    assert(s[5] == s[0] || s[5] == s[1] || s[5] == s[2] || s[5] == s[3] || s[5] == s[4]);
                } else {
                    assert(s[4] == s[0] || s[4] == s[1] || s[4] == s[2] || s[4] == s[3]);
                }
            } else {
                assert(s[3] == s[0] || s[3] == s[1] || s[3] == s[2]);
            }
        } else {
            assert(s[2] == s[0] || s[2] == s[1]);
        }
    } else {
        assert(s[0] == s[1]);
    }
}

/// The group of the largest color 5 and length 6 lists no cycle among the codes below
/// that of the six colors in order.
proof fn lemma_low_codes_none(n: nat)
    requires
        n <= 1865,
    ensures
        valid_sequences(5, 6, n).len() == 0,
    decreases n,
{
    if n > 0 {
        lemma_low_codes_none((n - 1) as nat);
        lemma_low_codes_invalid((n - 1) as nat);
    }
}

/// From the code after that of the six colors in order on, the six colors in order are
/// the group's last cycle.
proof fn lemma_last_of_full_group(n: nat)
    requires
        1865 < n,
    ensures
        valid_sequences(5, 6, n).len() > 0,
        valid_sequences(5, 6, n).last() == all_colors_in_order(),
    decreases n,
{
    let x = all_colors_in_order();
    let vs = valid_sequences(5, 6, n);
    if n == 1866 {
        lemma_low_codes_none(1865);
        lemma_code_of(x, 6);
        reveal_with_fuel(code_of, 7);
        assert(x.drop_last() =~= seq![0u8, 1u8, 2u8, 3u8, 4u8]);
        assert(x.drop_last().drop_last() =~= seq![0u8, 1u8, 2u8, 3u8]);
        assert(x.drop_last().drop_last().drop_last() =~= seq![0u8, 1u8, 2u8]);
        assert(seq![0u8, 1u8, 2u8].drop_last() =~= seq![0u8, 1u8]);
        assert(seq![0u8, 1u8].drop_last() =~= seq![0u8]);
        assert(seq![0u8].drop_last() =~= Seq::<u8>::empty());
        assert(code_of(x, 6) == 1865);
        assert(digits(1865, 6, 6) == x);
        assert(is_valid_cycle_sequence(x, 5)) by {
            assert(x[5] == 5);
        }
        assert(vs == seq![x] + valid_sequences(5, 6, 1865));
        assert(vs =~= seq![x]);
    } else {
        lemma_last_of_full_group((n - 1) as nat);
        let rest = valid_sequences(5, 6, (n - 1) as nat);
        if is_valid_cycle_sequence(digits((n - 1) as nat, 6, 6), 5) {
            assert(vs == seq![digits((n - 1) as nat, 6, 6)] + rest);
            assert(vs.last() == rest.last());
        } else {
            assert(vs == rest);
        }
    }
}

/// The last cycle of the table, the one with id NCYCLES - 1, is the cycle through the
/// six colors in order.
pub proof fn lemma_expected_cycles_last()
    ensures
        expected_cycles().len() > 0,
        expected_cycles().last() == seq_colors(all_colors_in_order()),
        expected_cycles()[NCYCLES - 1] == seq_colors(all_colors_in_order()),
{
    lemma_expected_cycles_len();
    reveal_with_fuel(power, 7);
    lemma_last_of_full_group(power(6, 6));
    let g = sequences_for(5, 6);
    assert(g == valid_sequences(5, 6, power(6, 6)));
    let b = sequences_for_max(5, 7);
    assert(b == sequences_for_max(5, 6) + g);
    assert(b.last() == g.last());
    let all = all_cycle_sequences(NCOLORS as nat);
    assert(all == all_cycle_sequences(5) + b);
    assert(all.last() == b.last());
    assert(expected_cycles().last() == seq_colors(all.last()));
}

/// The sequences of `k` distinct values taken from `s`.
pub open spec fn distinct_from(s: Set<u8>, k: nat) -> Set<Seq<u8>> {
    Set::new(|t: Seq<u8>| t.len() == k && t.no_duplicates() && forall|i: int| 0 <= i < t.len() ==> s.contains(#[trigger] t[i]))
}

/// The falling factorial n (n - 1) ... (n - k + 1).
pub open spec fn falling(n: nat, k: nat) -> nat
    decreases k,
{
    if k == 0 {
        1
    } else if n == 0 {
        0
    } else {
        n * falling((n - 1) as nat, (k - 1) as nat)
    }
}

/// The sequences of `distinct_from(s, j + 1)` whose first value lies in `u`.
pub open spec fn starting_in(s: Set<u8>, u: Set<u8>, j: nat) -> Set<Seq<u8>> {
    distinct_from(s, j + 1).filter(|t: Seq<u8>| u.contains(t[0]))
}

/// Put `x` in front.
pub open spec fn prepend(x: u8) -> spec_fn(Seq<u8>) -> Seq<u8> {
    |t: Seq<u8>| seq![x] + t
}

/// Putting `x` in front of the sequences of `j` distinct values from `s` without `x`
/// gives those of `distinct_from(s, j + 1)` that start with `x`.
proof fn lemma_prepend_block(s: Set<u8>, x: u8, j: nat)
    requires
        s.contains(x),
    ensures
        injective_on(prepend(x), distinct_from(s.remove(x), j)),
        distinct_from(s.remove(x), j).map(prepend(x)) =~= distinct_from(s, j + 1).filter(|t: Seq<u8>| t[0] == x),
{
    let inner = distinct_from(s.remove(x), j);
    assert forall|t1: Seq<u8>, t2: Seq<u8>|
        inner.contains(t1) && inner.contains(t2) && #[trigger] prepend(x)(t1) == #[trigger] prepend(x)(t2) implies t1 == t2 by {
        assert(t1 =~= prepend(x)(t1).subrange(1, j as int + 1));
        assert(t2 =~= prepend(x)(t2).subrange(1, j as int + 1));
    }
    let block = inner.map(prepend(x));
    let target = distinct_from(s, j + 1).filter(|t: Seq<u8>| t[0] == x);
    assert forall|t: Seq<u8>| block.contains(t) implies target.contains(t) by {
        let a = choose|a: Seq<u8>| inner.contains(a) && prepend(x)(a) == t;
        assert(t == seq![x] + a);
        assert(t[0] == x);
        assert forall|i: int| 0 <= i < t.len() implies s.contains(#[trigger] t[i]) by {
            if i > 0 {
                assert(t[i] == a[i - 1]);
            }
        }
        assert forall|i: int, k: int| 0 <= i < t.len() && 0 <= k < t.len() && i != k implies t[i] != t[k] by {
            if i > 0 && k > 0 {
                assert(t[i] == a[i - 1] && t[k] == a[k - 1]);
            } else if i == 0 {
                assert(t[k] == a[k - 1]);
                assert(s.remove(x).contains(a[k - 1]));
            } else {
                assert(t[i] == a[i - 1]);
                assert(s.remove(x).contains(a[i - 1]));
            }
        }
    }
    assert forall|t: Seq<u8>| target.contains(t) implies block.contains(t) by {
        let a = t.subrange(1, j as int + 1);
        assert(prepend(x)(a) =~= t);
        assert forall|i: int| 0 <= i < a.len() implies s.remove(x).contains(#[trigger] a[i]) by {
            assert(a[i] == t[i + 1]);
            assert(t[i + 1] != t[0]);
        }
        assert forall|i: int, k: int| 0 <= i < a.len() && 0 <= k < a.len() && i != k implies a[i] != a[k] by {
            assert(a[i] == t[i + 1] && a[k] == t[k + 1]);
        }
        assert(inner.contains(a));
    }
}

/// There are |u| * falling(|s| - 1, j) sequences of `j + 1` distinct values from `s`
/// that start in `u`.
proof fn lemma_starting_in_len(s: Set<u8>, u: Set<u8>, j: nat)
    requires
        s.finite(),
        u.subset_of(s),
    ensures
        starting_in(s, u, j).finite(),
        starting_in(s, u, j).len() == u.len() * falling((s.len() - 1) as nat, j),
    decreases 2 * j + 1, u.len(),
{
    vstd::set_lib::lemma_len_subset(u, s);
    if u.len() == 0 {
        assert(u =~= Set::empty()) by {
            if exists|v: u8| u.contains(v) {
                let v = choose|v: u8| u.contains(v);
                assert(u.remove(v).len() < u.len());
            }
        }
        assert(starting_in(s, u, j) =~= Set::empty());
    } else {
        let x = u.choose();
        assert(u.contains(x));
        let u2 = u.remove(x);
        lemma_starting_in_len(s, u2, j);
        lemma_distinct_from_len(s.remove(x), j);
        lemma_prepend_block(s, x, j);
        let inner = distinct_from(s.remove(x), j);
        let block = inner.map(prepend(x));
        vstd::set_lib::lemma_map_size(inner, block, prepend(x));
        let rest = starting_in(s, u2, j);
        assert(starting_in(s, u, j) =~= rest + block);
        assert(rest.disjoint(block));
        vstd::set_lib::lemma_set_disjoint_lens(rest, block);
        let f = falling((s.len() - 1) as nat, j);
        assert(s.remove(x).len() == s.len() - 1);
        assert(u.len() * f == u2.len() * f + f) by (nonlinear_arith)
            requires
                u.len() == u2.len() + 1,
        ;
    }
}

/// There are falling(|s|, k) sequences of `k` distinct values from a finite set `s`.
proof fn lemma_distinct_from_len(s: Set<u8>, k: nat)
    requires
        s.finite(),
    ensures
        distinct_from(s, k).finite(),
        distinct_from(s, k).len() == falling(s.len(), k),
    decreases 2 * k, 0nat,
{
    if k == 0 {
        assert(distinct_from(s, 0) =~= set![Seq::<u8>::empty()]) by {
            assert forall|t: Seq<u8>| distinct_from(s, 0).contains(t) implies t == Seq::<u8>::empty() by {
                assert(t =~= Seq::<u8>::empty());
            }
        }
    } else {
        let j = (k - 1) as nat;
        lemma_starting_in_len(s, s, j);
        assert(starting_in(s, s, j) =~= distinct_from(s, k)) by {
            assert forall|t: Seq<u8>| distinct_from(s, k).contains(t) implies starting_in(s, s, j).contains(t) by {
                assert(s.contains(t[0]));
            }
        }
        if s.len() == 0 {
            assert(s.len() * falling((s.len() - 1) as nat, j) == 0);
        }
    }
}

/// A canonical color sequence: distinct colors below NCOLORS, the first the smallest.
pub open spec fn canonical_seq(t: Seq<u8>) -> bool {
    &&& t.no_duplicates()
    &&& forall|k: int| 0 <= k < t.len() ==> #[trigger] t[k] < NCOLORS
    &&& forall|k: int| 0 < k < t.len() ==> t[0] < #[trigger] t[k]
}

/// The canonical sequences of length `len` whose first color is at least `lo`.
pub open spec fn canonical_from(len: nat, lo: nat) -> Set<Seq<u8>> {
    Set::new(|t: Seq<u8>| t.len() == len && canonical_seq(t) && lo <= t[0])
}

/// The colors above `f`.
pub open spec fn colors_above(f: u8) -> Set<u8> {
    Set::new(|v: u8| f < v < NCOLORS)
}

proof fn lemma_colors_above_len(f: u8)
    requires
        f < NCOLORS,
    ensures
        colors_above(f).finite(),
        colors_above(f).len() == NCOLORS - 1 - f,
    decreases NCOLORS - f,
{
    if f + 1 == NCOLORS {
        assert(colors_above(f) =~= Set::empty());
    } else {
        lemma_colors_above_len((f + 1) as u8);
        assert(colors_above(f) =~= colors_above((f + 1) as u8).insert((f + 1) as u8));
    }
}

/// The number of canonical sequences of length `len` whose first color is at least `lo`.
pub open spec fn canonical_count(len: nat, lo: nat) -> nat
    decreases NCOLORS - lo,
{
    if lo >= NCOLORS {
        0
    } else {
        falling((NCOLORS - 1 - lo) as nat, (len - 1) as nat) + canonical_count(len, lo + 1)
    }
}

proof fn lemma_canonical_from_len(len: nat, lo: nat)
    requires
        len >= 1,
    ensures
        canonical_from(len, lo).finite(),
        canonical_from(len, lo).len() == canonical_count(len, lo),
    decreases NCOLORS - lo,
{
    if lo >= NCOLORS {
        assert(canonical_from(len, lo) =~= Set::empty()) by {
            assert forall|t: Seq<u8>| !canonical_from(len, lo).contains(t) by {
                if canonical_from(len, lo).contains(t) {
                    assert(t[0] < NCOLORS);
                }
            }
        }
    } else {
        let f = lo as u8;
        let j = (len - 1) as nat;
        lemma_canonical_from_len(len, lo + 1);
        lemma_colors_above_len(f);
        let above = colors_above(f);
        let sx = above.insert(f);
        assert(sx.remove(f) =~= above);
        lemma_distinct_from_len(above, j);
        lemma_prepend_block(sx, f, j);
        let inner = distinct_from(above, j);
        let block = inner.map(prepend(f));
        vstd::set_lib::lemma_map_size(inner, block, prepend(f));
        let rest = canonical_from(len, lo + 1);
        assert(canonical_from(len, lo) =~= rest + block) by {
            assert forall|t: Seq<u8>| canonical_from(len, lo).contains(t) implies (rest + block).contains(t) by {
                if t[0] == f {
                    assert forall|i: int| 0 <= i < t.len() implies sx.contains(#[trigger] t[i]) by {
                        if i > 0 {
                            assert(t[0] < t[i]);
                        }
                    }
                    assert(distinct_from(sx, j + 1).filter(|t: Seq<u8>| t[0] == f).contains(t));
                }
            }
            assert forall|t: Seq<u8>| (rest + block).contains(t) implies canonical_from(len, lo).contains(t) by {
                if block.contains(t) {
                    assert(distinct_from(sx, j + 1).filter(|t: Seq<u8>| t[0] == f).contains(t));
                    assert forall|k: int| 0 < k < t.len() implies t[0] < #[trigger] t[k] by {
                        assert(sx.contains(t[k]));
                        assert(t[k] != t[0]);
                    }
                    assert forall|k: int| 0 <= k < t.len() implies #[trigger] t[k] < NCOLORS by {
                        assert(sx.contains(t[k]));
                    }
                }
            }
        }
        assert(rest.disjoint(block)) by {
            assert forall|t: Seq<u8>| rest.contains(t) implies !block.contains(t) by {
                if block.contains(t) {
                    assert(distinct_from(sx, j + 1).filter(|t: Seq<u8>| t[0] == f).contains(t));
                }
            }
        }
        vstd::set_lib::lemma_set_disjoint_lens(rest, block);
    }
}

/// The canonical sequences of 3 to NCOLORS colors.
pub open spec fn canonical_cycles() -> Set<Seq<u8>> {
    Set::new(|t: Seq<u8>| 3 <= t.len() <= NCOLORS && canonical_seq(t))
}

proof fn lemma_canonical_cycles_len()
    ensures
        canonical_cycles().finite(),
        canonical_cycles().len() == NCYCLES,
{
    lemma_canonical_from_len(3, 0);
    lemma_canonical_from_len(4, 0);
    lemma_canonical_from_len(5, 0);
    lemma_canonical_from_len(6, 0);
    let c3 = canonical_from(3, 0);
    let c4 = canonical_from(4, 0);
    let c5 = canonical_from(5, 0);
    let c6 = canonical_from(6, 0);
    assert(canonical_cycles() =~= c3 + c4 + c5 + c6);
    vstd::set_lib::lemma_set_disjoint_lens(c3, c4);
    vstd::set_lib::lemma_set_disjoint_lens(c3 + c4, c5);
    vstd::set_lib::lemma_set_disjoint_lens(c3 + c4 + c5, c6);
    reveal_with_fuel(canonical_count, 7);
    reveal_with_fuel(falling, 6);
    assert(canonical_count(3, 0) == 40);
    assert(canonical_count(4, 0) == 90);
    assert(canonical_count(5, 0) == 144);
    assert(canonical_count(6, 0) == 120);
}

/// The table lists NCYCLES cycles: one for each canonical sequence of 3 to NCOLORS
/// colors.
pub proof fn lemma_expected_cycles_len()
    ensures
        expected_cycles().len() == NCYCLES,
{
    let all = all_cycle_sequences(NCOLORS as nat);
    lemma_all_sequences_distinct(NCOLORS as nat);
    lemma_all_sequences_bound(NCOLORS as nat);
    all.unique_seq_to_set();
    assert(all.to_set() =~= canonical_cycles()) by {
        assert forall|t: Seq<u8>| all.to_set().contains(t) implies canonical_cycles().contains(t) by {
            let i = choose|i: int| 0 <= i < all.len() && all[i] == t;
            assert(all[i].no_duplicates());
            assert forall|k: int| 0 <= k < t.len() implies #[trigger] t[k] < NCOLORS by {
                assert(all[i][k] < NCOLORS);
            }
        }
        assert forall|t: Seq<u8>| canonical_cycles().contains(t) implies all.to_set().contains(t) by {
            assert forall|i: int, j: int| 0 <= i < j < t.len() implies t[i] != t[j] by {
                assert(t.no_duplicates());
            }
            lemma_canonical_listed(t);
        }
    }
    lemma_canonical_cycles_len();
}

/// Each cycle of the table repeats no color and starts with its smallest color.
pub proof fn lemma_expected_cycle_canonical(c: int)
    requires
        0 <= c < expected_cycles().len(),
    ensures
        forall|i: int, j: int| 0 <= i < j < expected_cycles()[c].len() ==> expected_cycles()[c][i] != expected_cycles()[c][j],
        forall|k: int| 0 < k < expected_cycles()[c].len() ==> expected_cycles()[c][0].index() < (#[trigger] expected_cycles()[c][k]).index(),
{
    let all = all_cycle_sequences(NCOLORS as nat);
    lemma_all_sequences_distinct(NCOLORS as nat);
    let x = all[c];
    assert(x.no_duplicates());
    let e = expected_cycles()[c];
    assert(e == seq_colors(x));
    assert forall|i: int, j: int| 0 <= i < j < e.len() implies e[i] != e[j] by {
        Color::from_index(x[i]).lemma_from_index(x[i]);
        Color::from_index(x[j]).lemma_from_index(x[j]);
        assert(e[i] == Color::from_index(x[i]));
        assert(e[j] == Color::from_index(x[j]));
        assert(x[i] != x[j]);
    }
    assert forall|k: int| 0 < k < e.len() implies e[0].index() < (#[trigger] e[k]).index() by {
        Color::from_index(x[0]).lemma_from_index(x[0]);
        Color::from_index(x[k]).lemma_from_index(x[k]);
        assert(e[0] == Color::from_index(x[0]));
        assert(e[k] == Color::from_index(x[k]));
        assert(x[0] < x[k]);
    }
}

} // verus!
