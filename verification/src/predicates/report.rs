//! What the reporting predicates write of a solution: its header, a line for each face,
//! the ring of faces with a given number of colors, and the faces along each curve, as
//! the walks that find them and the text written for them.

use crate::context::dynamic::DynamicState;
use crate::geometry::bits::{count_bits, popcount};
use crate::geometry::color::{color_char, Color};
use crate::geometry::constants::{NCOLORS, NFACES};
use crate::geometry::cycle::Cycle;
use crate::geometry::cycle_set::joined_decimals;
use crate::propagation::validation::{first_with_count, next_of};
use crate::state::edge::spec_decode;
use crate::text::{decimal_digits, push_decimal, string_push};
use vstd::prelude::*;
use vstd::string::StringExecFns;

verus! {

/// The first face with `k` colors, if there is one.
pub fn first_face_with_colors(k: usize) -> (r: Option<usize>)
    ensures
        r matches Some(f) ==> first_with_count(f as int, k as nat),
        r is None <==> forall|g: int| 0 <= g < NFACES ==> #[trigger] popcount(g as u64) != k,
{
    let mut f: usize = 0;
    while f < NFACES
        invariant
            f <= NFACES,
            forall|g: int| 0 <= g < f ==> #[trigger] popcount(g as u64) != k,
        decreases NFACES - f,
    {
        if count_bits(f as u64) as usize == k {
            return Some(f);
        }
        f = f + 1;
    }
    None
}

/// The faces written for the ring through `start`, from `cur`, the `m`-th of them:
/// each face is written, then the walk stops after `limit` + 1 faces or before coming
/// back to `start`, and otherwise follows the face's next-face link. None when a face on
/// the way is out of range or has no next face.
pub open spec fn ring_from_face(s: DynamicState, start: int, cur: int, m: nat, limit: nat) -> Option<Seq<int>>
    decreases limit - m,
{
    if m >= limit {
        Some(seq![cur])
    } else if !(0 <= cur < NFACES) {
        None
    } else {
        match next_of(s, cur) {
            None => None,
            Some(n) => if n == start {
                Some(seq![cur])
            } else {
                match ring_from_face(s, start, n, m + 1, limit) {
                    Some(rest) => Some(seq![cur] + rest),
                    None => None,
                }
            },
        }
    }
}

/// `q` follows next-face links: each face but the last is a face whose next face is the
/// one after it, and no face after the first is `start`.
pub open spec fn follows_next_links(s: DynamicState, start: int, q: Seq<int>) -> bool {
    &&& forall|k: int| 0 <= k < q.len() - 1 ==> 0 <= #[trigger] q[k] < NFACES && next_of(s, q[k]) == Some(q[k + 1])
    &&& forall|k: int| 0 < k < q.len() ==> #[trigger] q[k] != start
}

/// Some walk from `start` following the next-face links, of at most `limit` faces and
/// not coming back to `start`, ends at a face out of range or without a next face.
pub open spec fn ring_dead_end(s: DynamicState, start: int, limit: nat) -> bool {
    exists|q: Seq<int>|
        {
            &&& q.len() >= 1
            &&& q[0] == start
            &&& q.len() <= limit
            &&& follows_next_links(s, start, q)
            &&& (!(0 <= q.last() < NFACES) || next_of(s, q.last()) is None)
        }
}

/// Putting `cur` in front of a walk that follows the links, when `cur`'s next face is
/// the walk's first face and that face is not `start`, gives a walk that follows them.
proof fn lemma_follows_prepend(s: DynamicState, start: int, cur: int, r: Seq<int>)
    requires
        r.len() >= 1,
        follows_next_links(s, start, r),
        0 <= cur < NFACES,
        next_of(s, cur) == Some(r[0]),
        r[0] != start,
    ensures
        follows_next_links(s, start, seq![cur] + r),
        (seq![cur] + r).last() == r.last(),
        (seq![cur] + r)[0] == cur,
        (seq![cur] + r).len() == r.len() + 1,
{
    let q = seq![cur] + r;
    assert forall|k: int| 0 <= k < q.len() - 1 implies 0 <= #[trigger] q[k] < NFACES && next_of(s, q[k]) == Some(q[k + 1]) by {
        if k > 0 {
            assert(q[k] == r[k - 1] && q[k + 1] == r[k]);
        }
    }
    assert forall|k: int| 0 < k < q.len() implies #[trigger] q[k] != start by {
        assert(q[k] == r[k - 1]);
    }
}

/// A walk of the ring that has written `m` faces before `cur` (itself not `start` unless
/// `m` is 0), when it gives faces: they start at `cur`, follow the next-face links, and
/// end either after `limit` + 1 faces in all or at a face whose next face is `start`.
pub proof fn lemma_ring_from_face(s: DynamicState, start: int, cur: int, m: nat, limit: nat)
    requires
        m <= limit,
        m > 0 ==> cur != start,
    ensures
        ring_from_face(s, start, cur, m, limit) matches Some(q) ==> {
            &&& q.len() >= 1
            &&& q[0] == cur
            &&& m + q.len() <= limit + 1
            &&& follows_next_links(s, start, q)
            &&& m + q.len() == limit + 1 || (0 <= q.last() < NFACES && next_of(s, q.last()) == Some(start))
        },
    decreases limit - m,
{
    assert(follows_next_links(s, start, seq![cur]));
    assert(seq![cur].last() == cur);
    if m < limit && 0 <= cur < NFACES {
        if let Some(n) = next_of(s, cur) {
            if n != start {
                lemma_ring_from_face(s, start, n, m + 1, limit);
                if let Some(rest) = ring_from_face(s, start, n, m + 1, limit) {
                    lemma_follows_prepend(s, start, cur, rest);
                }
            }
        }
    }
}

/// A walk of the ring that gives None: some walk from `cur` following the next-face links,
/// within the limit and before coming back to `start`, ends at a face out of range or
/// without a next face.
pub proof fn lemma_ring_from_face_fails(s: DynamicState, start: int, cur: int, m: nat, limit: nat) -> (q: Seq<int>)
    requires
        m <= limit,
        m > 0 ==> cur != start,
        ring_from_face(s, start, cur, m, limit) is None,
    ensures
        q.len() >= 1,
        q[0] == cur,
        m + q.len() <= limit,
        follows_next_links(s, start, q),
        !(0 <= q.last() < NFACES) || next_of(s, q.last()) is None,
    decreases limit - m,
{
    assert(follows_next_links(s, start, seq![cur]));
    assert(seq![cur].last() == cur);
    if !(0 <= cur < NFACES) {
        seq![cur]
    } else if next_of(s, cur) is None {
        seq![cur]
    } else {
        let n = next_of(s, cur)->0;
        let r = lemma_ring_from_face_fails(s, start, n, m + 1, limit);
        lemma_follows_prepend(s, start, cur, r);
        seq![cur] + r
    }
}

/// The faces of the ring of faces through `start`, as `ring_from_face` describes them.
#[verifier::loop_isolation(true)]
pub fn face_ring(state: &DynamicState, start: usize, limit: usize) -> (r: Option<Vec<usize>>)
    requires
        state.wf(),
        start < NFACES,
    ensures
        r is Some <==> ring_from_face(*state, start as int, start as int, 0, limit as nat) is Some,
        r matches Some(v) ==> v@.map_values(|x: usize| x as int) == ring_from_face(*state, start as int, start as int, 0, limit as nat)->0,
        r matches Some(v) ==> {
            let q = v@.map_values(|x: usize| x as int);
            &&& q.len() >= 1
            &&& q[0] == start
            &&& q.len() <= limit + 1
            &&& follows_next_links(*state, start as int, q)
            &&& q.len() == limit + 1 || next_of(*state, q.last()) == Some(start as int)
        },
        r is None ==> ring_dead_end(*state, start as int, limit as nat),
{
    proof {
        lemma_ring_from_face(*state, start as int, start as int, 0, limit as nat);
        if ring_from_face(*state, start as int, start as int, 0, limit as nat) is None {
            let q = lemma_ring_from_face_fails(*state, start as int, start as int, 0, limit as nat);
            assert(ring_dead_end(*state, start as int, limit as nat));
        }
    }
    let ghost whole = ring_from_face(*state, start as int, start as int, 0, limit as nat);
    let mut out: Vec<usize> = Vec::new();
    let mut cur: usize = start;
    let mut m: usize = 0;
    loop
        invariant_except_break
            m <= limit,
            out@.len() == m,
            whole == (match ring_from_face(*state, start as int, cur as int, m as nat, limit as nat) {
                Some(rest) => Some(out@.map_values(|x: usize| x as int) + rest),
                None => None,
            }),
        invariant
            state.wf(),
            start < NFACES,
            whole == ring_from_face(*state, start as int, start as int, 0, limit as nat),
            whole is None ==> ring_dead_end(*state, start as int, limit as nat),
        ensures
            whole is Some,
            out@.map_values(|x: usize| x as int) == whole->0,
        decreases limit - m,
    {
        let ghost before = out@.map_values(|x: usize| x as int);
        out.push(cur);
        proof {
            assert(out@.map_values(|x: usize| x as int) =~= before + seq![cur as int]);
        }
        if m >= limit {
            proof {
                assert(before + seq![cur as int] =~= before + seq![cur as int]);
            }
            break;
        }
        if cur >= NFACES {
            return None;
        }
        let next = state.faces.faces[cur].next_face();
        match next {
            None => {
                return None;
            },
            Some(n) => {
                if n == start {
                    break;
                }
                proof {
                    let rest_after = ring_from_face(*state, start as int, n as int, (m + 1) as nat, limit as nat);
                    match rest_after {
                        Some(rest) => {
                            assert(before + (seq![cur as int] + rest) =~= (before + seq![cur as int]) + rest);
                        },
                        None => {},
                    }
                }
                cur = n;
                m = m + 1;
            },
        }
    }
    Some(out)
}

/// The faces written along the curve of color `c` from `cur`, the `m`-th of them: each
/// face is written, then its edge of color `c` must lead on (None when it has no
/// connection, leads to another color or the face is out of range); the walk stops on
/// coming back to the inner face or after `limit` + 1 faces.
pub open spec fn curve_from_face(s: DynamicState, c: int, cur: int, m: nat, limit: nat) -> Option<Seq<int>>
    decreases limit + 1 - m,
{
    if !(0 <= cur < NFACES) || m > limit {
        None
    } else {
        match spec_decode(s.faces.faces@[cur].edge_dynamic@[c].to_encoded) {
            None => None,
            Some(link) => if link.next.color_idx != c {
                None
            } else if link.next.face_id == NFACES - 1 || m + 1 > limit {
                Some(seq![cur])
            } else {
                match curve_from_face(s, c, link.next.face_id as int, m + 1, limit) {
                    Some(rest) => Some(seq![cur] + rest),
                    None => None,
                }
            },
        }
    }
}

/// Where the edge of color `c` on face `f` leads along its curve: the face of the next
/// edge, when the edge is connected and the next edge has color `c` too.
pub open spec fn curve_next(s: DynamicState, c: int, f: int) -> Option<int> {
    match spec_decode(s.faces.faces@[f].edge_dynamic@[c].to_encoded) {
        Some(l) => if l.next.color_idx == c {
            Some(l.next.face_id as int)
        } else {
            None
        },
        None => None,
    }
}

/// `q` follows the curve of color `c`: each face but the last is a face whose edge of
/// color `c` leads to the one after it, and no face after the first is the inner face.
pub open spec fn follows_curve(s: DynamicState, c: int, q: Seq<int>) -> bool {
    &&& forall|k: int| 0 <= k < q.len() - 1 ==> 0 <= #[trigger] q[k] < NFACES && curve_next(s, c, q[k]) == Some(q[k + 1])
    &&& forall|k: int| 0 < k < q.len() ==> #[trigger] q[k] != NFACES - 1
}

/// Some walk along the curve of color `c` from the inner face, of at most `limit` + 1
/// faces and not coming back to the inner face, ends at a face out of range or whose edge
/// of color `c` does not lead on along the curve.
pub open spec fn curve_dead_end(s: DynamicState, c: int, limit: nat) -> bool {
    exists|q: Seq<int>|
        {
            &&& q.len() >= 1
            &&& q[0] == NFACES - 1
            &&& q.len() <= limit + 1
            &&& follows_curve(s, c, q)
            &&& (!(0 <= q.last() < NFACES) || curve_next(s, c, q.last()) is None)
        }
}

proof fn lemma_follows_curve_prepend(s: DynamicState, c: int, cur: int, r: Seq<int>)
    requires
        r.len() >= 1,
        follows_curve(s, c, r),
        0 <= cur < NFACES,
        curve_next(s, c, cur) == Some(r[0]),
        r[0] != NFACES - 1,
    ensures
        follows_curve(s, c, seq![cur] + r),
        (seq![cur] + r).last() == r.last(),
        (seq![cur] + r)[0] == cur,
        (seq![cur] + r).len() == r.len() + 1,
{
    let q = seq![cur] + r;
    assert forall|k: int| 0 <= k < q.len() - 1 implies 0 <= #[trigger] q[k] < NFACES && curve_next(s, c, q[k]) == Some(q[k + 1]) by {
        if k > 0 {
            assert(q[k] == r[k - 1] && q[k + 1] == r[k]);
        }
    }
    assert forall|k: int| 0 < k < q.len() implies #[trigger] q[k] != NFACES - 1 by {
        assert(q[k] == r[k - 1]);
    }
}

/// A walk along the curve that has written `m` faces before `cur` (itself not the inner
/// face unless `m` is 0), when it gives faces: they start at `cur`, follow the curve, and
/// the last one's edge leads on along the curve, to the inner face unless `limit` + 1
/// faces were written in all.
pub proof fn lemma_curve_from_face(s: DynamicState, c: int, cur: int, m: nat, limit: nat)
    requires
        m <= limit,
        m > 0 ==> cur != NFACES - 1,
    ensures
        curve_from_face(s, c, cur, m, limit) matches Some(q) ==> {
            &&& q.len() >= 1
            &&& q[0] == cur
            &&& m + q.len() <= limit + 1
            &&& follows_curve(s, c, q)
            &&& 0 <= q.last() < NFACES
            &&& curve_next(s, c, q.last()) matches Some(n) && (n == NFACES - 1 || m + q.len() == limit + 1)
        },
    decreases limit - m,
{
    assert(follows_curve(s, c, seq![cur]));
    assert(seq![cur].last() == cur);
    if 0 <= cur < NFACES {
        if let Some(n) = curve_next(s, c, cur) {
            if n != NFACES - 1 && m + 1 <= limit {
                lemma_curve_from_face(s, c, n, m + 1, limit);
                if let Some(rest) = curve_from_face(s, c, n, m + 1, limit) {
                    lemma_follows_curve_prepend(s, c, cur, rest);
                }
            }
        }
    }
}

/// A walk along the curve that gives None: some walk from `cur` following the curve,
/// within the limit and before coming back to the inner face, ends at a face out of range
/// or whose edge does not lead on along the curve.
pub proof fn lemma_curve_from_face_fails(s: DynamicState, c: int, cur: int, m: nat, limit: nat) -> (q: Seq<int>)
    requires
        m <= limit,
        m > 0 ==> cur != NFACES - 1,
        curve_from_face(s, c, cur, m, limit) is None,
    ensures
        q.len() >= 1,
        q[0] == cur,
        m + q.len() <= limit + 1,
        follows_curve(s, c, q),
        !(0 <= q.last() < NFACES) || curve_next(s, c, q.last()) is None,
    decreases limit - m,
{
    assert(follows_curve(s, c, seq![cur]));
    assert(seq![cur].last() == cur);
    if !(0 <= cur < NFACES) || curve_next(s, c, cur) is None {
        seq![cur]
    } else {
        let n = curve_next(s, c, cur)->0;
        let r = lemma_curve_from_face_fails(s, c, n, m + 1, limit);
        lemma_follows_curve_prepend(s, c, cur, r);
        seq![cur] + r
    }
}

/// The faces along the curve of color `c`, starting from the inner face, as
/// `curve_from_face` describes them.
#[verifier::loop_isolation(true)]
pub fn curve_faces(state: &DynamicState, c: usize, limit: usize) -> (r: Option<Vec<usize>>)
    requires
        state.wf(),
        c < NCOLORS,
        limit < usize::MAX,
    ensures
        r is Some <==> curve_from_face(*state, c as int, NFACES - 1, 0, limit as nat) is Some,
        r matches Some(v) ==> v@.map_values(|x: usize| x as int) == curve_from_face(*state, c as int, NFACES - 1, 0, limit as nat)->0,
        r matches Some(v) ==> {
            let q = v@.map_values(|x: usize| x as int);
            &&& q.len() >= 1
            &&& q[0] == NFACES - 1
            &&& q.len() <= limit + 1
            &&& follows_curve(*state, c as int, q)
            &&& curve_next(*state, c as int, q.last()) matches Some(n) && (n == NFACES - 1 || q.len() == limit + 1)
        },
        r is None ==> curve_dead_end(*state, c as int, limit as nat),
{
    proof {
        lemma_curve_from_face(*state, c as int, NFACES - 1, 0, limit as nat);
        if curve_from_face(*state, c as int, NFACES - 1, 0, limit as nat) is None {
            let q = lemma_curve_from_face_fails(*state, c as int, NFACES - 1, 0, limit as nat);
            assert(curve_dead_end(*state, c as int, limit as nat));
        }
    }
    let ghost whole = curve_from_face(*state, c as int, NFACES - 1, 0, limit as nat);
    let mut out: Vec<usize> = Vec::new();
    let mut cur: usize = NFACES - 1;
    let mut m: usize = 0;
    loop
        invariant_except_break
            m <= limit,
            out@.len() == m,
            whole == (match curve_from_face(*state, c as int, cur as int, m as nat, limit as nat) {
                Some(rest) => Some(out@.map_values(|x: usize| x as int) + rest),
                None => None,
            }),
        invariant
            state.wf(),
            c < NCOLORS,
            limit < usize::MAX,
            whole == curve_from_face(*state, c as int, NFACES - 1, 0, limit as nat),
            whole is None ==> curve_dead_end(*state, c as int, limit as nat),
        ensures
            whole is Some,
            out@.map_values(|x: usize| x as int) == whole->0,
        decreases limit - m,
    {
        let ghost before = out@.map_values(|x: usize| x as int);
        out.push(cur);
        proof {
            assert(out@.map_values(|x: usize| x as int) =~= before + seq![cur as int]);
        }
        if cur >= NFACES {
            return None;
        }
        let link = match state.faces.faces[cur].edge_dynamic[c].get_to() {
            None => {
                return None;
            },
            Some(l) => l,
        };
        if link.next.color_idx != c {
            return None;
        }
        if link.next.face_id == NFACES - 1 || m + 1 > limit {
            break;
        }
        proof {
            let rest_after = curve_from_face(*state, c as int, link.next.face_id as int, (m + 1) as nat, limit as nat);
            match rest_after {
                Some(rest) => {
                    assert(before + (seq![cur as int] + rest) =~= (before + seq![cur as int]) + rest);
                },
                None => {},
            }
        }
        cur = link.next.face_id;
        m = m + 1;
    }
    Some(out)
}

/// The binary digits of `v`, zero-padded to at least `w` of them, most significant
/// first.
pub open spec fn binary_text(v: nat, w: nat) -> Seq<char>
    decreases v + w,
{
    if v == 0 && w == 0 {
        seq![]
    } else {
        binary_text(
            v / 2,
            if w > 0 {
                (w - 1) as nat
            } else {
                0
            },
        ).push(
            if v % 2 == 1 {
                '1'
            } else {
                '0'
            },
        )
    }
}

/// Append `binary_text(v, w)`.
pub fn push_binary(s: &mut String, v: u64, w: usize)
    ensures
        final(s)@ == old(s)@ + binary_text(v as nat, w as nat),
    decreases v as int + w as int,
{
    if v == 0 && w == 0 {
        proof {
            assert(old(s)@ + binary_text(0, 0) =~= old(s)@);
        }
        return;
    }
    let w2: usize = if w > 0 {
        w - 1
    } else {
        0
    };
    push_binary(s, v / 2, w2);
    if v % 2 == 1 {
        string_push(s, '1');
    } else {
        string_push(s, '0');
    }
    proof {
        assert(final(s)@ =~= old(s)@ + binary_text(v as nat, w as nat));
    }
}

/// The decimal form of `n`, right-aligned in two characters.
pub open spec fn padded2(n: nat) -> Seq<char> {
    if n < 10 {
        seq![' '] + decimal_digits(n)
    } else {
        decimal_digits(n)
    }
}

/// Append `padded2(n)`.
fn push_padded2(s: &mut String, n: u64)
    ensures
        final(s)@ == old(s)@ + padded2(n as nat),
{
    if n < 10 {
        string_push(s, ' ');
    }
    push_decimal(s, n);
    proof {
        assert(final(s)@ =~= old(s)@ + padded2(n as nat));
    }
}

/// Append the characters of `cs`.
fn push_chars(s: &mut String, cs: &[char])
    ensures
        final(s)@ == old(s)@ + cs@,
{
    let mut i: usize = 0;
    while i < cs.len()
        invariant
            i <= cs@.len(),
            s@ == old(s)@ + cs@.take(i as int),
        decreases cs@.len() - i,
    {
        string_push(s, cs[i]);
        proof {
            assert(cs@.take(i as int + 1) =~= cs@.take(i as int).push(cs@[i as int]));
        }
        i = i + 1;
    }
    proof {
        assert(cs@.take(cs@.len() as int) =~= cs@);
    }
}

/// The text form of a cycle, as in "(abc)".
pub open spec fn cycle_text(c: Seq<Color>) -> Seq<char> {
    seq!['('] + c.map_values(|x: Color| color_char(x.index())) + seq![')']
}

/// The line written for a face: its id, its colors in binary, its cycle (id and text)
/// or UNASSIGNED, and its next and previous faces in binary.
pub open spec fn face_line_text(face_id: nat, cycle: Option<(nat, Seq<Color>)>, next: nat, prev: nat) -> Seq<char> {
    let head = seq!['F', 'a', 'c', 'e', ' '] + padded2(face_id) + seq![' ', '('] + binary_text(face_id, NCOLORS as nat) + seq![
        ')',
        ':',
        ' ',
    ];
    let tail = seq![' ', '[', 'n', 'e', 'x', 't', '='] + binary_text(next, NCOLORS as nat) + seq![',', ' ', 'p', 'r', 'e', 'v', '=']
        + binary_text(prev, NCOLORS as nat) + seq![']'];
    match cycle {
        Some((id, c)) => head + seq!['c', 'y', 'c', 'l', 'e', ' '] + padded2(id) + seq![' ', '=', ' '] + cycle_text(c) + tail,
        None => head + seq!['U', 'N', 'A', 'S', 'S', 'I', 'G', 'N', 'E', 'D'] + tail,
    }
}

/// The line written for a face, as `face_line_text` describes it.
pub fn face_line(face_id: usize, cycle: Option<(u64, &Cycle)>, next: u64, prev: u64) -> (r: String)
    ensures
        r@ == face_line_text(
            face_id as nat,
            match cycle {
                Some((id, c)) => Some((id as nat, c@)),
                None => None,
            },
            next as nat,
            prev as nat,
        ),
{
    let mut s = String::new();
    push_chars(&mut s, &['F', 'a', 'c', 'e', ' ']);
    push_padded2(&mut s, face_id as u64);
    push_chars(&mut s, &[' ', '(']);
    push_binary(&mut s, face_id as u64, NCOLORS);
    push_chars(&mut s, &[')', ':', ' ']);
    match cycle {
        Some((id, c)) => {
            push_chars(&mut s, &['c', 'y', 'c', 'l', 'e', ' ']);
            push_padded2(&mut s, id);
            push_chars(&mut s, &[' ', '=', ' ']);
            let t = c.to_display_string();
            proof {
                assert(t@ =~= cycle_text(c@));
            }
            s.append(t.as_str());
        },
        None => {
            push_chars(&mut s, &['U', 'N', 'A', 'S', 'S', 'I', 'G', 'N', 'E', 'D']);
        },
    }
    push_chars(&mut s, &[' ', '[', 'n', 'e', 'x', 't', '=']);
    push_binary(&mut s, next, NCOLORS);
    push_chars(&mut s, &[',', ' ', 'p', 'r', 'e', 'v', '=']);
    push_binary(&mut s, prev, NCOLORS);
    push_chars(&mut s, &[']']);
    proof {
        let expected = face_line_text(
            face_id as nat,
            match cycle {
                Some((id, c)) => Some((id as nat, c@)),
                None => None,
            },
            next as nat,
            prev as nat,
        );
        assert(s@ =~= expected);
    }
    s
}

/// Each face in binary followed by ", ".
pub open spec fn faces_list_text(faces: Seq<usize>) -> Seq<char>
    decreases faces.len(),
{
    if faces.len() == 0 {
        seq![]
    } else {
        faces_list_text(faces.drop_last()) + binary_text(faces.last() as nat, NCOLORS as nat) + seq![',', ' ']
    }
}

/// Append `faces_list_text(faces)`.
fn push_faces_list(s: &mut String, faces: &Vec<usize>)
    ensures
        final(s)@ == old(s)@ + faces_list_text(faces@),
{
    let mut i: usize = 0;
    while i < faces.len()
        invariant
            i <= faces@.len(),
            s@ == old(s)@ + faces_list_text(faces@.take(i as int)),
        decreases faces@.len() - i,
    {
        push_binary(s, faces[i] as u64, NCOLORS);
        push_chars(s, &[',', ' ']);
        proof {
            let t = faces@.take(i as int + 1);
            assert(t.drop_last() =~= faces@.take(i as int));
            assert(s@ =~= old(s)@ + faces_list_text(t));
        }
        i = i + 1;
    }
    proof {
        assert(faces@.take(faces@.len() as int) =~= faces@);
    }
}

/// The text written for a ring of faces: the faces, then "i.e. N faces" on a line of
/// its own.
pub open spec fn ring_text(faces: Seq<usize>) -> Seq<char> {
    faces_list_text(faces) + seq!['\n', 'i', '.', 'e', '.', ' '] + decimal_digits(faces.len()) + seq![' ', 'f', 'a', 'c', 'e', 's', '\n']
}

/// The text written for a ring of faces, as `ring_text` describes it.
pub fn face_ring_text(faces: &Vec<usize>) -> (r: String)
    ensures
        r@ == ring_text(faces@),
{
    let mut s = String::new();
    push_faces_list(&mut s, faces);
    push_chars(&mut s, &['\n', 'i', '.', 'e', '.', ' ']);
    push_decimal(&mut s, faces.len() as u64);
    push_chars(&mut s, &[' ', 'f', 'a', 'c', 'e', 's', '\n']);
    proof {
        assert(s@ =~= ring_text(faces@));
    }
    s
}

/// The text written for the curve of color `c`: its letter, the faces, and the number
/// of steps.
pub open spec fn curve_text(c: nat, faces: Seq<usize>) -> Seq<char> {
    seq!['C', 'o', 'l', 'o', 'r', ' ', color_char(c as u8), ':', ' '] + faces_list_text(faces) + seq![' ', '['] + decimal_digits(
        faces.len(),
    ) + seq![' ', 's', 't', 'e', 'p', 's', ']', '\n']
}

/// The text written for a curve, as `curve_text` describes it.
pub fn curve_faces_text(c: usize, faces: &Vec<usize>) -> (r: String)
    requires
        c < NCOLORS,
    ensures
        r@ == curve_text(c as nat, faces@),
{
    let mut s = String::new();
    push_chars(&mut s, &['C', 'o', 'l', 'o', 'r', ' ']);
    let letter = Color::new(c as u8).to_display_string();
    s.append(letter.as_str());
    push_chars(&mut s, &[':', ' ']);
    push_faces_list(&mut s, faces);
    push_chars(&mut s, &[' ', '[']);
    push_decimal(&mut s, faces.len() as u64);
    push_chars(&mut s, &[' ', 's', 't', 'e', 'p', 's', ']', '\n']);
    proof {
        assert(s@ =~= curve_text(c as nat, faces@));
    }
    s
}

/// The header written for a solution: its number and the inner face's degrees.
pub open spec fn header_text(number: nat, degrees: Seq<u64>) -> Seq<char> {
    seq!['#', '#', ' ', 'S', 'o', 'l', 'u', 't', 'i', 'o', 'n', ' '] + decimal_digits(number) + seq![
        ' ',
        '-',
        ' ',
        'i',
        'n',
        'n',
        'e',
        'r',
        ' ',
        'f',
        'a',
        'c',
        'e',
        ' ',
        'd',
        'e',
        'g',
        'r',
        'e',
        'e',
        's',
        ':',
        ' ',
        '[',
    ] + joined_decimals(degrees.map_values(|d: u64| d as nat)) + seq![']', '\n', '\n']
}

/// The header written for a solution, as `header_text` describes it.
pub fn solution_header(number: u64, degrees: &[u64; 6]) -> (r: String)
    ensures
        r@ == header_text(number as nat, degrees@),
{
    let mut s = String::new();
    push_chars(&mut s, &['#', '#', ' ', 'S', 'o', 'l', 'u', 't', 'i', 'o', 'n', ' ']);
    push_decimal(&mut s, number);
    push_chars(
        &mut s,
        &[
            ' ',
            '-',
            ' ',
            'i',
            'n',
            'n',
            'e',
            'r',
            ' ',
            'f',
            'a',
            'c',
            'e',
            ' ',
            'd',
            'e',
            'g',
            'r',
            'e',
            'e',
            's',
            ':',
            ' ',
            '[',
        ],
    );
    let ghost start = s@;
    let ghost ds = degrees@.map_values(|d: u64| d as nat);
    let mut i: usize = 0;
    while i < 6
        invariant
            i <= 6,
            ds.len() == 6,
            forall|k: int| 0 <= k < 6 ==> #[trigger] ds[k] == degrees@[k] as nat,
            s@ == start + joined_decimals(ds.take(i as int)),
        decreases 6 - i,
    {
        if i > 0 {
            push_chars(&mut s, &[',', ' ']);
        }
        push_decimal(&mut s, degrees[i]);
        proof {
            let t = ds.take(i as int + 1);
            assert(t.drop_last() =~= ds.take(i as int));
            assert(t.last() == degrees@[i as int] as nat);
            if i == 0 {
                assert(ds.take(0) =~= Seq::<nat>::empty());
            }
            assert(s@ =~= start + joined_decimals(t));
        }
        i = i + 1;
    }
    push_chars(&mut s, &[']', '\n', '\n']);
    proof {
        assert(ds.take(6) =~= ds);
        assert(s@ =~= header_text(number as nat, degrees@));
    }
    s
}

} // verus!
