//! Configuring the vertices of a face's cycle: connecting its edges to the vertices where
//! consecutive curves cross, counting crossings per pair of curves, and counting the
//! edges of each curve.

use crate::context::dynamic::{slot_value, target_valid};
use crate::context::memoized::MemoizedData;
use crate::geometry::color::Color;
use crate::geometry::constants::{NCOLORS, NCYCLES, NFACES, NPOINTS};
use crate::geometry::bits::bit;
use crate::geometry::corner::MAX_CROSSINGS_PER_PAIR;
use crate::geometry::cycle::CycleId;
use crate::geometry::edge::EdgeRef;
use crate::memo::faces::{face_links_ok, face_shape_ok, lemma_link_names_table_vertex, lemma_spec_link_in_range, spec_link};
use crate::memo::cycles::expected_cycles;
use crate::memo::vertices::{count_valid_below, incoming_spec, lemma_incoming_bound, vertex_entry_ok};
use crate::context::dynamic::DynamicState;
use crate::state::edge::{spec_decode, spec_encode};
use crate::geometry::vertex::Vertex;
use crate::trail::{Target, TrailedState};
use super::cascade::step_ok;
use super::errors::PropagationFailure;
use vstd::prelude::*;

verus! {

/// Every connected edge keeps its connection, and every processed vertex stays processed.
#[verifier::opaque]
pub open spec fn configuration_kept(a: &TrailedState, b: &TrailedState) -> bool {
    &&& forall|f: u16, c: u16|
        f < NFACES && c < NCOLORS && spec_decode(slot_value(a.spec_state(), Target::EdgeConnection(f, c))) is Some ==> #[trigger] slot_value(
            b.spec_state(),
            Target::EdgeConnection(f, c),
        ) == slot_value(a.spec_state(), Target::EdgeConnection(f, c))
    &&& forall|v: u16|
        v < NPOINTS && slot_value(a.spec_state(), Target::VertexProcessed(v)) != 0 ==> #[trigger] slot_value(
            b.spec_state(),
            Target::VertexProcessed(v),
        ) != 0
}

/// The step of a cycle from color `a` to color `b` on face `f` is configured: its edge of
/// color `a` is connected, or the vertex where `a` meets `b` is processed.
pub open spec fn step_configured(s: DynamicState, f: int, a: int, b: int) -> bool {
    spec_link(f, a, b) matches Some(l) ==> (spec_decode(slot_value(s, Target::EdgeConnection(f as u16, a as u16))) is Some
        || slot_value(s, Target::VertexProcessed(l.vertex_id as u16)) != 0)
}

/// Every crossing count and every edge count per curve and direction is below `bound`.
pub open spec fn counts_below(s: DynamicState, bound: int) -> bool {
    forall|t: Target| target_valid(t) && (t is CrossingCount || t is EdgeColorCount) ==> #[trigger] slot_value(s, t) < bound
}

/// Every step of the cycle assigned to face `f` is already configured in `s`: the
/// assignment has no vertex left to process.
pub open spec fn vertices_settled(s: DynamicState, f: int, cycle: int) -> bool {
    let c = expected_cycles()[cycle];
    let n = c.len() as int;
    forall|i: int| 0 <= i < n ==> #[trigger] step_configured(s, f, c[i].index() as int, c[(i + 1) % n].index() as int)
}

/// The crossing-count slot of the pair of colors `a` and `b`, smaller first.
pub open spec fn pair_target(a: int, b: int) -> Target {
    if a < b {
        Target::CrossingCount(a as u16, b as u16)
    } else {
        Target::CrossingCount(b as u16, a as u16)
    }
}

/// Every crossing count of `b` is that of `a`, or at most MAX_CROSSINGS_PER_PAIR.
pub open spec fn crossings_within_limit(a: DynamicState, b: DynamicState) -> bool {
    forall|t: Target| target_valid(t) && t is CrossingCount ==> #[trigger] slot_value(b, t) == slot_value(a, t) || slot_value(b, t)
        <= MAX_CROSSINGS_PER_PAIR
}

/// The first step of the cycle on face `f`, from color a to color b, reaches for the first
/// time the vertex where a meets b, through an edge of color a without a connection, and
/// the pair's crossing count is already at the limit (below its largest value), with room
/// in the log.
pub open spec fn first_step_over_limit(s: &TrailedState, f: int, cycle: int) -> bool {
    let a = expected_cycles()[cycle][0].index() as int;
    let b = expected_cycles()[cycle][1].index() as int;
    let before = slot_value(s.spec_state(), pair_target(a, b));
    &&& spec_decode(slot_value(s.spec_state(), Target::EdgeConnection(f as u16, a as u16))) is None
    &&& spec_link(f, a, b) is Some
    &&& slot_value(s.spec_state(), Target::VertexProcessed(spec_link(f, a, b)->0.vertex_id as u16)) == 0
    &&& before < u64::MAX
    &&& before + 1 > MAX_CROSSINGS_PER_PAIR
    &&& s.spec_entries().len() < crate::trail::TRAIL_MAX_SIZE
}

/// The failure of that first step: the pair's count one past the limit.
pub open spec fn first_step_failure(s: &TrailedState, cycle: int, depth: usize) -> PropagationFailure {
    let a = expected_cycles()[cycle][0].index() as int;
    let b = expected_cycles()[cycle][1].index() as int;
    PropagationFailure::CrossingLimitExceeded {
        color_i: (if a < b { a } else { b }) as usize,
        color_j: (if a < b { b } else { a }) as usize,
        count: (slot_value(s.spec_state(), pair_target(a, b)) + 1) as usize,
        max_allowed: MAX_CROSSINGS_PER_PAIR,
        depth,
    }
}

/// The pair of colors crossing at vertex `v` of the table, smaller first.
pub open spec fn vertex_pair(memo: &MemoizedData, v: int) -> (int, int) {
    let x = memo.vertices.spec_by_id()[v];
    let a = x.primary.index() as int;
    let b = x.secondary.index() as int;
    if a < b {
        (a, b)
    } else {
        (b, a)
    }
}

/// The vertices where colors i and j cross that are processed in `b` and were not in `a`.
pub open spec fn newly_processed(memo: &MemoizedData, a: DynamicState, b: DynamicState, i: int, j: int) -> Set<int> {
    Set::new(
        |v: int|
            0 <= v < NPOINTS && slot_value(a, Target::VertexProcessed(v as u16)) == 0 && slot_value(b, Target::VertexProcessed(v as u16))
                != 0 && vertex_pair(memo, v) == (i, j),
    )
}

/// Each crossing count of `b` is that of `a` plus the number of vertices of its pair
/// newly processed from `a` to `b`.
pub open spec fn crossings_counted(memo: &MemoizedData, a: DynamicState, b: DynamicState) -> bool {
    forall|i: int, j: int|
        0 <= i < j < NCOLORS ==> #[trigger] slot_value(b, Target::CrossingCount(i as u16, j as u16)) == slot_value(
            a,
            Target::CrossingCount(i as u16, j as u16),
        ) + newly_processed(memo, a, b, i, j).len()
}

proof fn lemma_newly_finite(memo: &MemoizedData, a: DynamicState, b: DynamicState, i: int, j: int)
    ensures
        newly_processed(memo, a, b, i, j).finite(),
{
    vstd::set_lib::lemma_int_range(0, NPOINTS as int);
    vstd::set_lib::lemma_len_subset(newly_processed(memo, a, b, i, j), vstd::set_lib::set_int_range(0, NPOINTS as int));
}

proof fn lemma_counted_refl(memo: &MemoizedData, a: DynamicState)
    ensures
        crossings_counted(memo, a, a),
{
    assert forall|i: int, j: int| 0 <= i < j < NCOLORS implies #[trigger] slot_value(a, Target::CrossingCount(i as u16, j as u16))
        == slot_value(a, Target::CrossingCount(i as u16, j as u16)) + newly_processed(memo, a, a, i, j).len() by {
        assert(newly_processed(memo, a, a, i, j) =~= Set::empty());
    }
}

/// Processing one more vertex, of the pair (ci, cj), keeps the counts counted.
proof fn lemma_counted_step(memo: &MemoizedData, a: DynamicState, s1: DynamicState, s2: DynamicState, vid: int, ci: int, cj: int)
    requires
        crossings_counted(memo, a, s1),
        0 <= vid < NPOINTS,
        slot_value(a, Target::VertexProcessed(vid as u16)) == 0,
        slot_value(s1, Target::VertexProcessed(vid as u16)) == 0,
        slot_value(s2, Target::VertexProcessed(vid as u16)) != 0,
        vertex_pair(memo, vid) == (ci, cj),
        0 <= ci < cj < NCOLORS,
        forall|u: Target| target_valid(u) && u is VertexProcessed && u != Target::VertexProcessed(vid as u16) ==> #[trigger] slot_value(s2, u)
            == slot_value(s1, u),
        slot_value(s2, Target::CrossingCount(ci as u16, cj as u16)) == slot_value(s1, Target::CrossingCount(ci as u16, cj as u16)) + 1,
        forall|u: Target| target_valid(u) && u is CrossingCount && u != Target::CrossingCount(ci as u16, cj as u16) ==> #[trigger] slot_value(s2, u)
            == slot_value(s1, u),
    ensures
        crossings_counted(memo, a, s2),
{
    assert forall|i: int, j: int| 0 <= i < j < NCOLORS implies #[trigger] slot_value(s2, Target::CrossingCount(i as u16, j as u16))
        == slot_value(a, Target::CrossingCount(i as u16, j as u16)) + newly_processed(memo, a, s2, i, j).len() by {
        let old_set = newly_processed(memo, a, s1, i, j);
        let new_set = newly_processed(memo, a, s2, i, j);
        lemma_newly_finite(memo, a, s1, i, j);
        assert(slot_value(s1, Target::CrossingCount(i as u16, j as u16)) == slot_value(a, Target::CrossingCount(i as u16, j as u16))
            + old_set.len());
        assert forall|v: int| 0 <= v < NPOINTS && v != vid implies #[trigger] slot_value(s2, Target::VertexProcessed(v as u16)) == slot_value(
            s1,
            Target::VertexProcessed(v as u16),
        ) by {
            assert(target_valid(Target::VertexProcessed(v as u16)));
            assert(Target::VertexProcessed(v as u16) != Target::VertexProcessed(vid as u16));
        }
        if i == ci && j == cj {
            assert(new_set =~= old_set.insert(vid));
            assert(!old_set.contains(vid));
        } else {
            assert(new_set =~= old_set);
            let u = Target::CrossingCount(i as u16, j as u16);
            assert(target_valid(u) && u != Target::CrossingCount(ci as u16, cj as u16));
        }
    }
}

/// The vertex with id `v` in the table.
pub open spec fn table_vertex(memo: &MemoizedData, v: int) -> Vertex {
    memo.vertices.spec_by_id()[v]
}

/// The color crossing at `x` other than `c`.
pub open spec fn other_color(x: Vertex, c: int) -> int {
    if x.primary.index() == c {
        x.secondary.index() as int
    } else {
        x.primary.index() as int
    }
}

/// The edge of color `c` on face `f` is incoming edge `j` of `x`.
pub open spec fn incoming_at(x: Vertex, j: int, f: int, c: int) -> bool {
    x.incoming_edges@[j] as int == f * 6 + c
}

/// The edge of color `c` on face `f` is one of the first `k` incoming edges of `x`.
pub open spec fn incoming_before(x: Vertex, k: int, f: int, c: int) -> bool {
    ||| (0 < k && incoming_at(x, 0, f, c))
    ||| (1 < k && incoming_at(x, 1, f, c))
    ||| (2 < k && incoming_at(x, 2, f, c))
    ||| (3 < k && incoming_at(x, 3, f, c))
}

/// The edge of color `c` on face `f` is an incoming edge of `x`.
pub open spec fn is_incoming(x: Vertex, f: int, c: int) -> bool {
    incoming_before(x, 4, f, c)
}

/// The connection an incoming edge of `x` gets: its link towards the other color at `x`.
pub open spec fn incoming_link(x: Vertex, f: int, c: int) -> u64 {
    spec_encode(spec_link(f, c, other_color(x, c)))
}

/// From `a` to `b`, the incoming edges of `x` among the first `k` that had no connection
/// got their link, and no other connection changed.
pub open spec fn connected_before(x: Vertex, k: int, a: DynamicState, b: DynamicState) -> bool {
    forall|f: int, c: int|
        0 <= f < NFACES && 0 <= c < NCOLORS ==> #[trigger] slot_value(b, Target::EdgeConnection(f as u16, c as u16)) == if incoming_before(
            x,
            k,
            f,
            c,
        ) && spec_decode(slot_value(a, Target::EdgeConnection(f as u16, c as u16))) is None {
            incoming_link(x, f, c)
        } else {
            slot_value(a, Target::EdgeConnection(f as u16, c as u16))
        }
}

/// How many of the first `k` incoming edges of `x` are counted in direction `d` for color
/// `c`: they come clockwise and counterclockwise in the primary color, then
/// counterclockwise and clockwise in the secondary color.
pub open spec fn counted_before(x: Vertex, k: int, d: int, c: int) -> int {
    let p = x.primary.index() as int;
    let s = x.secondary.index() as int;
    (if 0 < k && d == 0 && c == p { 1int } else { 0 }) + (if 1 < k && d == 1 && c == p { 1int } else { 0 }) + (if 2 < k && d == 1
        && c == s { 1int } else { 0 }) + (if 3 < k && d == 0 && c == s { 1int } else { 0 })
}

/// From `a` to `b`, each edge count per direction and color grew by the first `k`
/// incoming edges of `x` counted there.
pub open spec fn edges_counted_before(x: Vertex, k: int, a: DynamicState, b: DynamicState) -> bool {
    forall|d: int, c: int|
        0 <= d < 2 && 0 <= c < NCOLORS ==> #[trigger] slot_value(b, Target::EdgeColorCount(d as u16, c as u16)) == slot_value(
            a,
            Target::EdgeColorCount(d as u16, c as u16),
        ) + counted_before(x, k, d, c)
}

/// Vertex `v` is processed in `b` and was not in `a`.
pub open spec fn newly_processed_vertex(a: DynamicState, b: DynamicState, v: int) -> bool {
    &&& 0 <= v < NPOINTS
    &&& slot_value(a, Target::VertexProcessed(v as u16)) == 0
    &&& slot_value(b, Target::VertexProcessed(v as u16)) != 0
}

/// From `a` to `b`, each connection either kept its value, or had none and now holds
/// the link of one of its vertices newly processed in between.
pub open spec fn connections_from_vertices(memo: &MemoizedData, a: DynamicState, b: DynamicState) -> bool {
    forall|f: int, c: int|
        0 <= f < NFACES && 0 <= c < NCOLORS ==> #[trigger] slot_value(b, Target::EdgeConnection(f as u16, c as u16)) == slot_value(
            a,
            Target::EdgeConnection(f as u16, c as u16),
        ) || (spec_decode(slot_value(a, Target::EdgeConnection(f as u16, c as u16))) is None && exists|v: int|
            newly_processed_vertex(a, b, v) && is_incoming(table_vertex(memo, v), f, c) && slot_value(
                b,
                Target::EdgeConnection(f as u16, c as u16),
            ) == incoming_link(table_vertex(memo, v), f, c))
}

/// Every incoming edge of every vertex newly processed from `a` to `b` is connected in `b`.
pub open spec fn vertices_connected(memo: &MemoizedData, a: DynamicState, b: DynamicState) -> bool {
    forall|v: int, f: int, c: int|
        newly_processed_vertex(a, b, v) && 0 <= f < NFACES && 0 <= c < NCOLORS && #[trigger] is_incoming(table_vertex(memo, v), f, c)
            ==> spec_decode(slot_value(b, Target::EdgeConnection(f as u16, c as u16))) is Some
}

/// The vertices newly processed from `a` to `b` where color `c` crosses.
pub open spec fn newly_with_color(memo: &MemoizedData, a: DynamicState, b: DynamicState, c: int) -> Set<int> {
    Set::new(
        |v: int|
            newly_processed_vertex(a, b, v) && (table_vertex(memo, v).primary.index() == c || table_vertex(memo, v).secondary.index()
                == c),
    )
}

/// Each edge count of `b`, in either direction, is that of `a` plus the number of
/// vertices of its color newly processed in between.
pub open spec fn edges_counted(memo: &MemoizedData, a: DynamicState, b: DynamicState) -> bool {
    forall|d: int, c: int|
        0 <= d < 2 && 0 <= c < NCOLORS ==> #[trigger] slot_value(b, Target::EdgeColorCount(d as u16, c as u16)) == slot_value(
            a,
            Target::EdgeColorCount(d as u16, c as u16),
        ) + newly_with_color(memo, a, b, c).len()
}

/// The two colors crossing at a vertex of the table differ.
pub proof fn lemma_table_vertex_colors(memo: &MemoizedData, v: int)
    requires
        memo.wf(),
        0 <= v < NPOINTS,
    ensures
        table_vertex(memo, v).primary.index() != table_vertex(memo, v).secondary.index(),
{
    memo.vertices.lemma_wf();
    memo.vertices.lemma_vertex_by_id(v);
    let n = choose|n: int| 0 <= n < 2304 && crate::memo::vertices::slot_valid_at(n) && count_valid_below(n) == v
        && #[trigger] memo.vertices.spec_entry(n) == Some(memo.vertices.spec_by_id()[v]);
    assert(vertex_entry_ok(n, memo.vertices.spec_entry(n)));
}

/// The link an incoming edge gets is a present connection.
#[verifier::spinoff_prover]
#[verifier::rlimit(100)]
proof fn lemma_incoming_link_some(memo: &MemoizedData, v: int, f: int, c: int)
    requires
        memo.wf(),
        0 <= v < NPOINTS,
        0 <= f < NFACES,
        0 <= c < NCOLORS,
        is_incoming(table_vertex(memo, v), f, c),
    ensures
        spec_decode(incoming_link(table_vertex(memo, v), f, c)) is Some,
        other_color(table_vertex(memo, v), c) != c,
{
    memo.vertices.lemma_wf();
    memo.vertices.lemma_vertex_by_id(v);
    let n = choose|n: int| 0 <= n < 2304 && crate::memo::vertices::slot_valid_at(n) && count_valid_below(n) == v
        && #[trigger] memo.vertices.spec_entry(n) == Some(memo.vertices.spec_by_id()[v]);
    assert(vertex_entry_ok(n, memo.vertices.spec_entry(n)));
    crate::memo::vertices::lemma_incoming_shape(n);
    let x = table_vertex(memo, v);
    let inc = x.incoming_edges@;
    assert(c == inc[0] % 6 || c == inc[1] % 6 || c == inc[2] % 6 || c == inc[3] % 6);
    let o = other_color(x, c);
    lemma_spec_link_in_range(f, c, o);
    crate::state::edge::lemma_decode_encode(spec_link(f, c, o));
}

proof fn lemma_vertices_refl(memo: &MemoizedData, a: DynamicState)
    ensures
        connections_from_vertices(memo, a, a),
        vertices_connected(memo, a, a),
        edges_counted(memo, a, a),
{
    assert forall|d: int, c: int| 0 <= d < 2 && 0 <= c < NCOLORS implies #[trigger] slot_value(a, Target::EdgeColorCount(d as u16, c as u16))
        == slot_value(a, Target::EdgeColorCount(d as u16, c as u16)) + newly_with_color(memo, a, a, c).len() by {
        assert(newly_with_color(memo, a, a, c) =~= Set::empty());
    }
}

/// Processing one more vertex keeps the connections and edge counts accounted for.
proof fn lemma_vertices_step(memo: &MemoizedData, a: DynamicState, s1: DynamicState, s2: DynamicState, vid: int)
    requires
        memo.wf(),
        connections_from_vertices(memo, a, s1),
        vertices_connected(memo, a, s1),
        edges_counted(memo, a, s1),
        0 <= vid < NPOINTS,
        slot_value(a, Target::VertexProcessed(vid as u16)) == 0,
        slot_value(s1, Target::VertexProcessed(vid as u16)) == 0,
        slot_value(s2, Target::VertexProcessed(vid as u16)) != 0,
        forall|u: Target| target_valid(u) && u is VertexProcessed && u != Target::VertexProcessed(vid as u16) ==> #[trigger] slot_value(s2, u)
            == slot_value(s1, u),
        connected_before(table_vertex(memo, vid), 4, s1, s2),
        edges_counted_before(table_vertex(memo, vid), 4, s1, s2),
    ensures
        connections_from_vertices(memo, a, s2),
        vertices_connected(memo, a, s2),
        edges_counted(memo, a, s2),
{
    lemma_table_vertex_colors(memo, vid);
    let x = table_vertex(memo, vid);
    assert forall|v: int| v != vid implies #[trigger] newly_processed_vertex(a, s2, v) == newly_processed_vertex(a, s1, v) by {
        if 0 <= v < NPOINTS {
            let t = Target::VertexProcessed(v as u16);
            assert(target_valid(t));
            assert(t != Target::VertexProcessed(vid as u16));
        }
    }
    assert(newly_processed_vertex(a, s2, vid));
    assert(!newly_processed_vertex(a, s1, vid));
    assert forall|f: int, c: int| 0 <= f < NFACES && 0 <= c < NCOLORS implies #[trigger] slot_value(
        s2,
        Target::EdgeConnection(f as u16, c as u16),
    ) == slot_value(a, Target::EdgeConnection(f as u16, c as u16)) || (spec_decode(slot_value(a, Target::EdgeConnection(f as u16, c as u16)))
        is None && exists|v: int|
        newly_processed_vertex(a, s2, v) && is_incoming(table_vertex(memo, v), f, c) && slot_value(
            s2,
            Target::EdgeConnection(f as u16, c as u16),
        ) == incoming_link(table_vertex(memo, v), f, c)) by {
        let t = Target::EdgeConnection(f as u16, c as u16);
        if is_incoming(x, f, c) && spec_decode(slot_value(s1, t)) is None {
            lemma_incoming_link_some(memo, vid, f, c);
            if slot_value(s1, t) != slot_value(a, t) {
                let w = choose|v: int|
                    newly_processed_vertex(a, s1, v) && is_incoming(table_vertex(memo, v), f, c) && slot_value(s1, t) == incoming_link(
                        table_vertex(memo, v),
                        f,
                        c,
                    );
                lemma_incoming_link_some(memo, w, f, c);
                assert(false);
            }
            assert(newly_processed_vertex(a, s2, vid));
        } else {
            assert(slot_value(s2, t) == slot_value(s1, t));
            if slot_value(s1, t) != slot_value(a, t) {
                let w = choose|v: int|
                    newly_processed_vertex(a, s1, v) && is_incoming(table_vertex(memo, v), f, c) && slot_value(s1, t) == incoming_link(
                        table_vertex(memo, v),
                        f,
                        c,
                    );
                assert(w != vid);
                assert(newly_processed_vertex(a, s2, w));
            }
        }
    }
    assert forall|v: int, f: int, c: int|
        newly_processed_vertex(a, s2, v) && 0 <= f < NFACES && 0 <= c < NCOLORS && #[trigger] is_incoming(table_vertex(memo, v), f, c)
        implies spec_decode(slot_value(s2, Target::EdgeConnection(f as u16, c as u16))) is Some by {
        let t = Target::EdgeConnection(f as u16, c as u16);
        if v == vid {
            if spec_decode(slot_value(s1, t)) is None {
                lemma_incoming_link_some(memo, vid, f, c);
            }
        } else {
            assert(newly_processed_vertex(a, s1, v));
            assert(spec_decode(slot_value(s1, t)) is Some);
        }
    }
    assert forall|d: int, c: int| 0 <= d < 2 && 0 <= c < NCOLORS implies #[trigger] slot_value(s2, Target::EdgeColorCount(d as u16, c as u16))
        == slot_value(a, Target::EdgeColorCount(d as u16, c as u16)) + newly_with_color(memo, a, s2, c).len() by {
        let old_set = newly_with_color(memo, a, s1, c);
        vstd::set_lib::lemma_int_range(0, NPOINTS as int);
        vstd::set_lib::lemma_len_subset(old_set, vstd::set_lib::set_int_range(0, NPOINTS as int));
        if x.primary.index() == c || x.secondary.index() == c {
            assert(newly_with_color(memo, a, s2, c) =~= old_set.insert(vid));
        } else {
            assert(newly_with_color(memo, a, s2, c) =~= old_set);
        }
    }
}

pub proof fn lemma_kept_refl(a: &TrailedState)
    ensures
        configuration_kept(a, a),
{
    reveal(configuration_kept);
}

pub proof fn lemma_kept_trans(a: &TrailedState, b: &TrailedState, c: &TrailedState)
    requires
        configuration_kept(a, b),
        configuration_kept(b, c),
    ensures
        configuration_kept(a, c),
{
    reveal(configuration_kept);
    assert forall|f: u16, cc: u16|
        f < NFACES && cc < NCOLORS && spec_decode(slot_value(a.spec_state(), Target::EdgeConnection(f, cc))) is Some implies #[trigger] slot_value(
            c.spec_state(),
            Target::EdgeConnection(f, cc),
        ) == slot_value(a.spec_state(), Target::EdgeConnection(f, cc)) by {
        assert(slot_value(b.spec_state(), Target::EdgeConnection(f, cc)) == slot_value(a.spec_state(), Target::EdgeConnection(f, cc)));
    }
    assert forall|v: u16| v < NPOINTS && slot_value(a.spec_state(), Target::VertexProcessed(v)) != 0 implies #[trigger] slot_value(
        c.spec_state(),
        Target::VertexProcessed(v),
    ) != 0 by {
        assert(slot_value(b.spec_state(), Target::VertexProcessed(v)) != 0);
    }
}

/// States with the same connections and processed flags keep the configuration.
pub proof fn lemma_kept_same(a: &TrailedState, b: &TrailedState)
    requires
        forall|t: Target| target_valid(t) && (t is EdgeConnection || t is VertexProcessed) ==> #[trigger] slot_value(b.spec_state(), t)
            == slot_value(a.spec_state(), t),
    ensures
        configuration_kept(a, b),
{
    reveal(configuration_kept);
    assert forall|f: u16, c: u16|
        f < NFACES && c < NCOLORS && spec_decode(slot_value(a.spec_state(), Target::EdgeConnection(f, c))) is Some implies #[trigger] slot_value(
            b.spec_state(),
            Target::EdgeConnection(f, c),
        ) == slot_value(a.spec_state(), Target::EdgeConnection(f, c)) by {
        assert(target_valid(Target::EdgeConnection(f, c)));
    }
    assert forall|v: u16| v < NPOINTS && slot_value(a.spec_state(), Target::VertexProcessed(v)) != 0 implies #[trigger] slot_value(
        b.spec_state(),
        Target::VertexProcessed(v),
    ) != 0 by {
        assert(target_valid(Target::VertexProcessed(v)));
    }
}

/// A single write keeps the configuration when it writes neither a connection that is
/// present nor a processed flag to 0.
proof fn lemma_kept_write(a: &TrailedState, b: &TrailedState, t: Target)
    requires
        forall|u: Target| target_valid(u) && u != t ==> #[trigger] slot_value(b.spec_state(), u) == slot_value(a.spec_state(), u),
        t matches Target::EdgeConnection(f, c) ==> spec_decode(slot_value(a.spec_state(), t)) is None,
        t matches Target::VertexProcessed(v) ==> slot_value(b.spec_state(), t) != 0,
    ensures
        configuration_kept(a, b),
{
    reveal(configuration_kept);
    assert forall|f: u16, c: u16|
        f < NFACES && c < NCOLORS && spec_decode(slot_value(a.spec_state(), Target::EdgeConnection(f, c))) is Some implies #[trigger] slot_value(
            b.spec_state(),
            Target::EdgeConnection(f, c),
        ) == slot_value(a.spec_state(), Target::EdgeConnection(f, c)) by {
        assert(target_valid(Target::EdgeConnection(f, c)));
    }
    assert forall|v: u16| v < NPOINTS && slot_value(a.spec_state(), Target::VertexProcessed(v)) != 0 implies #[trigger] slot_value(
        b.spec_state(),
        Target::VertexProcessed(v),
    ) != 0 by {
        assert(target_valid(Target::VertexProcessed(v)));
    }
}

pub proof fn lemma_configured_kept(s1: &TrailedState, s2: &TrailedState, f: int, a: int, b: int)
    requires
        0 <= f < NFACES,
        0 <= a < NCOLORS,
        0 <= b < NCOLORS,
        count_valid_below(2304) == NPOINTS,
        step_configured(s1.spec_state(), f, a, b),
        configuration_kept(s1, s2),
    ensures
        step_configured(s2.spec_state(), f, a, b),
{
    reveal(configuration_kept);
    lemma_spec_link_in_range(f, a, b);
    if let Some(l) = spec_link(f, a, b) {
        assert(slot_value(s2.spec_state(), Target::EdgeConnection(f as u16, a as u16)) == slot_value(s2.spec_state(), Target::EdgeConnection(f as u16, a as u16)));
        assert(slot_value(s2.spec_state(), Target::VertexProcessed(l.vertex_id as u16)) == slot_value(s2.spec_state(), Target::VertexProcessed(l.vertex_id as u16)));
    }
}

/// Configure the vertices along the cycle assigned to a face. For each step of the cycle
/// from color a to color b whose edge of color a has no connection yet, the vertex where
/// a meets b is processed the first time it is reached: the crossing count of the pair
/// grows by one (failing beyond MAX_CROSSINGS_PER_PAIR), each of its four incoming edges
/// without a connection is connected, and each is counted for its curve and direction.
/// Then, except for the inner face, the corner check runs for each color of the cycle.
#[verifier::rlimit(60)]
pub fn check_face_vertices(
    memo: &MemoizedData,
    state: &mut TrailedState,
    face_id: usize,
    cycle_id: CycleId,
    depth: usize,
) -> (r: Result<(), PropagationFailure>)
    requires
        memo.wf(),
        old(state).wf(),
        face_id < NFACES,
        cycle_id < NCYCLES,
    ensures
        step_ok(old(state), final(state)),
        r matches Err(e) ==> (e matches PropagationFailure::CrossingLimitExceeded { .. } || e matches PropagationFailure::LimitReached { .. }),
        r matches Err(PropagationFailure::CrossingLimitExceeded { color_i, color_j, count, max_allowed, depth: d }) ==> {
            &&& color_i < color_j < NCOLORS
            &&& max_allowed == MAX_CROSSINGS_PER_PAIR
            &&& d == depth
            &&& slot_value(final(state).spec_state(), Target::CrossingCount(color_i as u16, color_j as u16)) > MAX_CROSSINGS_PER_PAIR
            &&& count == slot_value(final(state).spec_state(), Target::CrossingCount(color_i as u16, color_j as u16)) as usize
        },
        r matches Err(PropagationFailure::LimitReached { depth: d }) ==> d == depth,
        configuration_kept(old(state), final(state)),
        r is Ok ==> crossings_within_limit(old(state).spec_state(), final(state).spec_state()),
        r is Ok ==> crossings_counted(memo, old(state).spec_state(), final(state).spec_state()),
        r is Ok ==> connections_from_vertices(memo, old(state).spec_state(), final(state).spec_state()),
        r is Ok ==> vertices_connected(memo, old(state).spec_state(), final(state).spec_state()),
        r is Ok ==> edges_counted(memo, old(state).spec_state(), final(state).spec_state()),
        forall|u: Target| target_valid(u) && u is PossibleCycleWord ==> #[trigger] slot_value(final(state).spec_state(), u) == slot_value(
            old(state).spec_state(),
            u,
        ),
        old(state).spec_entries().len() + 60 <= crate::trail::TRAIL_MAX_SIZE && counts_below(old(state).spec_state(), u64::MAX - 24)
            ==> !(r matches Err(PropagationFailure::LimitReached { .. })),
        first_step_over_limit(old(state), face_id as int, cycle_id as int) ==> r == Err::<(), PropagationFailure>(
            first_step_failure(old(state), cycle_id as int, depth),
        ),
        r is Ok ==> forall|i: int|
            0 <= i < expected_cycles()[cycle_id as int].len() ==> #[trigger] step_configured(
                final(state).spec_state(),
                face_id as int,
                expected_cycles()[cycle_id as int][i].index() as int,
                expected_cycles()[cycle_id as int][(i + 1) % expected_cycles()[cycle_id as int].len() as int].index() as int,
            ),
        vertices_settled(old(state).spec_state(), face_id as int, cycle_id as int) ==> r is Ok && *final(state) == *old(state),
{
    let ghost start = *state;
    let ghost settled = vertices_settled(start.spec_state(), face_id as int, cycle_id as int);
    proof {
        TrailedState::lemma_unchanged_keeps_history(&start, state);
        lemma_kept_refl(&start);
        lemma_counted_refl(memo, start.spec_state());
        lemma_vertices_refl(memo, start.spec_state());
    }
    let cycle = memo.cycles.get(cycle_id);
    let colors = cycle.colors();
    let n = cycle.len();
    let face_memo = memo.faces.get_face(face_id);
    proof {
        crate::memo::cycles::lemma_expected_cycle_colors(cycle_id as int);
    }
    let mut i: usize = 0;
    while i < n
        invariant
            memo.wf(),
            face_id < NFACES,
            i <= n,
            n == colors@.len(),
            3 <= n <= NCOLORS,
            forall|k: int| 0 <= k < n ==> (#[trigger] colors@[k]).index() < NCOLORS,
            face_shape_ok(face_id as int, *face_memo),
            face_links_ok(face_id as int, *face_memo),
            step_ok(&start, state),
            colors@ == expected_cycles()[cycle_id as int],
            configuration_kept(&start, state),
            forall|k: int| 0 <= k < i ==> #[trigger] step_configured(
                state.spec_state(),
                face_id as int,
                colors@[k].index() as int,
                colors@[(k + 1) % (n as int)].index() as int,
            ),
            state.spec_entries().len() <= start.spec_entries().len() + 10 * i,
            forall|bd: int| #[trigger] counts_below(start.spec_state(), bd) ==> counts_below(state.spec_state(), bd + 4 * i),
            crossings_within_limit(start.spec_state(), state.spec_state()),
            i == 0 ==> *state == start,
            settled ==> *state == start,
            settled == vertices_settled(start.spec_state(), face_id as int, cycle_id as int),
            i > 0 ==> !first_step_over_limit(&start, face_id as int, cycle_id as int),
            crossings_counted(memo, start.spec_state(), state.spec_state()),
            connections_from_vertices(memo, start.spec_state(), state.spec_state()),
            vertices_connected(memo, start.spec_state(), state.spec_state()),
            edges_counted(memo, start.spec_state(), state.spec_state()),
            forall|u: Target| target_valid(u) && u is PossibleCycleWord ==> #[trigger] slot_value(state.spec_state(), u) == slot_value(
                start.spec_state(),
                u,
            ),
            start.wf(),
        decreases n - i,
    {
        proof {
            assert(1int % (n as int) == 1) by (nonlinear_arith)
                requires
                    n >= 3,
            ;
        }
        let a = colors[i].as_usize();
        let b = colors[(i + 1) % n].as_usize();
        let existing_to = state.state().faces.faces[face_id].edge_dynamic[a].get_to();
        if existing_to.is_none() {
            let vertex_link = face_memo.edges[a].possibly_to[b];
            if let Some(link) = vertex_link {
                proof {
                    memo.vertices.lemma_wf();
                    lemma_spec_link_in_range(face_id as int, a as int, b as int);
                }
                let vertex_id = link.vertex_id;
                if vertex_id < state.state().vertex_processed.len() && state.state().vertex_processed[vertex_id] == 0 {
                    proof {
                        if settled {
                            reveal(configuration_kept);
                            assert(colors@[i as int].index() == a);
                            assert(colors@[(i as int + 1) % (n as int)].index() == b);
                            assert(step_configured(start.spec_state(), face_id as int, a as int, b as int));
                            lemma_link_names_table_vertex(&memo.vertices, face_id as int, a as int, b as int);
                            assert(target_valid(Target::VertexProcessed(vertex_id as u16)));
                            assert(target_valid(Target::EdgeConnection(face_id as u16, a as u16)));
                            assert(false);
                        }
                    }
                    let ghost s1 = *state;
                    proof {
                        assert(counts_below(s1.spec_state(), u64::MAX - 24 + 4 * i) ==> counts_below(s1.spec_state(), u64::MAX - 4)) by {
                            if counts_below(s1.spec_state(), u64::MAX - 24 + 4 * i) {
                                assert forall|t: Target| target_valid(t) && (t is CrossingCount || t is EdgeColorCount) implies #[trigger] slot_value(
                                    s1.spec_state(),
                                    t,
                                ) < u64::MAX - 4 by {
                                    assert(slot_value(s1.spec_state(), t) < u64::MAX - 24 + 4 * i);
                                }
                            }
                        }
                    }
                    let processed = process_vertex(memo, state, a, b, vertex_id, depth);
                    proof {
                        assert forall|bd: int| #[trigger] counts_below(start.spec_state(), bd) implies counts_below(
                            state.spec_state(),
                            bd + 4 * (i + 1),
                        ) by {
                            assert(counts_below(s1.spec_state(), bd + 4 * i));
                            assert(counts_below(state.spec_state(), bd + 4 * i + 4));
                        }
                        if processed is Ok {
                            reveal(configuration_kept);
                            lemma_link_names_table_vertex(&memo.vertices, face_id as int, a as int, b as int);
                            assert(target_valid(Target::VertexProcessed(vertex_id as u16)));
                            assert(slot_value(s1.spec_state(), Target::VertexProcessed(vertex_id as u16)) == 0);
                            assert(slot_value(start.spec_state(), Target::VertexProcessed(vertex_id as u16)) == 0);
                            let ci: int = if a < b { a as int } else { b as int };
                            let cj: int = if a < b { b as int } else { a as int };
                            assert(vertex_pair(memo, vertex_id as int) == (ci, cj));
                            assert(pair_target(a as int, b as int) == Target::CrossingCount(ci as u16, cj as u16));
                            lemma_counted_step(memo, start.spec_state(), s1.spec_state(), state.spec_state(), vertex_id as int, ci, cj);
                            lemma_vertices_step(memo, start.spec_state(), s1.spec_state(), state.spec_state(), vertex_id as int);
                            assert forall|t: Target| target_valid(t) && t is CrossingCount implies #[trigger] slot_value(state.spec_state(), t)
                                == slot_value(start.spec_state(), t) || slot_value(state.spec_state(), t) <= MAX_CROSSINGS_PER_PAIR by {
                                if t != pair_target(a as int, b as int) {
                                    assert(slot_value(state.spec_state(), t) == slot_value(s1.spec_state(), t));
                                }
                            }
                        }
                        TrailedState::lemma_history_transitive(&start, &s1, state);
                        lemma_kept_trans(&start, &s1, state);
                        memo.vertices.lemma_wf();
                        assert forall|k: int| 0 <= k < i implies #[trigger] step_configured(
                            state.spec_state(),
                            face_id as int,
                            colors@[k].index() as int,
                            colors@[(k + 1) % (n as int)].index() as int,
                        ) by {
                            lemma_configured_kept(&s1, state, face_id as int, colors@[k].index() as int, colors@[(k + 1) % (n as int)].index() as int);
                        }
                    }
                    if let Err(e) = processed {
                        return Err(e);
                    }
                }
            }
        }
        assert(step_configured(state.spec_state(), face_id as int, a as int, b as int));
        proof {
            if i == 0 && first_step_over_limit(&start, face_id as int, cycle_id as int) {
                memo.vertices.lemma_wf();
                lemma_spec_link_in_range(face_id as int, a as int, b as int);
                assert(false);
            }
        }
        i = i + 1;
    }
    let ghost s_end = *state;
    if face_id != NFACES - 1 {
        let mut i: usize = 0;
        while i < n
            invariant
                i <= n,
                n == colors@.len(),
                step_ok(&start, state),
                *state == s_end,
            decreases n - i,
        {
            let checked = vertex_corner_check(memo, state, face_id, colors[i].as_usize(), depth);
            if let Err(e) = checked {
                return Err(e);
            }
            i = i + 1;
        }
    }
    Ok(())
}

/// Process a vertex reached for the first time, where colors `color_a` and `color_b`
/// cross: count the crossing, then connect and count its four incoming edges, then mark it
/// processed.
#[verifier::rlimit(100)]
fn process_vertex(
    memo: &MemoizedData,
    state: &mut TrailedState,
    color_a: usize,
    color_b: usize,
    vertex_id: usize,
    depth: usize,
) -> (r: Result<(), PropagationFailure>)
    requires
        memo.wf(),
        old(state).wf(),
        color_a < NCOLORS,
        color_b < NCOLORS,
        color_a != color_b,
        vertex_id < NPOINTS,
    ensures
        step_ok(old(state), final(state)),
        r matches Err(e) ==> (e matches PropagationFailure::CrossingLimitExceeded { .. } || e matches PropagationFailure::LimitReached { .. }),
        r matches Err(PropagationFailure::CrossingLimitExceeded { color_i, color_j, count, max_allowed, depth: d }) ==> {
            &&& color_i < color_j < NCOLORS
            &&& max_allowed == MAX_CROSSINGS_PER_PAIR
            &&& d == depth
            &&& slot_value(final(state).spec_state(), Target::CrossingCount(color_i as u16, color_j as u16)) > MAX_CROSSINGS_PER_PAIR
            &&& count == slot_value(final(state).spec_state(), Target::CrossingCount(color_i as u16, color_j as u16)) as usize
        },
        r matches Err(PropagationFailure::LimitReached { depth: d }) ==> d == depth,
        configuration_kept(old(state), final(state)),
        ({
            let ci = if color_a < color_b { color_a } else { color_b };
            let cj = if color_a < color_b { color_b } else { color_a };
            let before = slot_value(old(state).spec_state(), Target::CrossingCount(ci as u16, cj as u16));
            &&& r is Ok ==> {
                &&& slot_value(final(state).spec_state(), Target::VertexProcessed(vertex_id as u16)) != 0
                &&& slot_value(final(state).spec_state(), Target::CrossingCount(ci as u16, cj as u16)) == before + 1
                &&& before + 1 <= MAX_CROSSINGS_PER_PAIR
            }
            &&& (before < u64::MAX && before + 1 > MAX_CROSSINGS_PER_PAIR && old(state).spec_entries().len()
                < crate::trail::TRAIL_MAX_SIZE) ==> r == Err::<(), PropagationFailure>(
                PropagationFailure::CrossingLimitExceeded {
                    color_i: ci,
                    color_j: cj,
                    count: (before + 1) as usize,
                    max_allowed: MAX_CROSSINGS_PER_PAIR,
                    depth,
                },
            )
            &&& slot_value(final(state).spec_state(), Target::CrossingCount(ci as u16, cj as u16)) == before
                || slot_value(final(state).spec_state(), Target::CrossingCount(ci as u16, cj as u16)) == before + 1
        }),
        forall|t: Target| target_valid(t) && t is CrossingCount && t != pair_target(color_a as int, color_b as int) ==> #[trigger] slot_value(
            final(state).spec_state(),
            t,
        ) == slot_value(old(state).spec_state(), t),
        final(state).spec_entries().len() <= old(state).spec_entries().len() + 10,
        forall|u: Target| target_valid(u) && u is PossibleCycleWord ==> #[trigger] slot_value(final(state).spec_state(), u) == slot_value(
            old(state).spec_state(),
            u,
        ),
        forall|u: Target| target_valid(u) && u is VertexProcessed && u != Target::VertexProcessed(vertex_id as u16) ==> #[trigger] slot_value(
            final(state).spec_state(),
            u,
        ) == slot_value(old(state).spec_state(), u),
        forall|b: int| #[trigger] counts_below(old(state).spec_state(), b) ==> counts_below(final(state).spec_state(), b + 4),
        old(state).spec_entries().len() + 10 <= crate::trail::TRAIL_MAX_SIZE && counts_below(old(state).spec_state(), u64::MAX - 4)
            ==> !(r matches Err(PropagationFailure::LimitReached { .. })),
        r is Ok ==> connected_before(table_vertex(memo, vertex_id as int), 4, old(state).spec_state(), final(state).spec_state()),
        r is Ok ==> edges_counted_before(table_vertex(memo, vertex_id as int), 4, old(state).spec_state(), final(state).spec_state()),
{
    let ghost start = *state;
    proof {
        TrailedState::lemma_unchanged_keeps_history(&start, state);
        lemma_kept_refl(&start);
    }
    let (color_i, color_j) = if color_a < color_b {
        (color_a, color_b)
    } else {
        (color_b, color_a)
    };
    let current_count = state.state().crossing_counts.get(color_i, color_j);
    if current_count == u64::MAX || !state.has_room(1) {
        return Err(PropagationFailure::LimitReached { depth });
    }
    let new_count = current_count + 1;
    state.set_crossing_count(color_i, color_j, new_count);
    proof {
        lemma_kept_write(&start, state, Target::CrossingCount(color_i as u16, color_j as u16));
        assert(pair_target(color_a as int, color_b as int) == Target::CrossingCount(color_i as u16, color_j as u16));
    }
    if new_count > MAX_CROSSINGS_PER_PAIR as u64 {
        return Err(
            PropagationFailure::CrossingLimitExceeded {
                color_i,
                color_j,
                count: new_count as usize,
                max_allowed: MAX_CROSSINGS_PER_PAIR,
                depth,
            },
        );
    }
    proof {
        memo.vertices.lemma_wf();
        memo.vertices.lemma_vertex_by_id(vertex_id as int);
    }
    let vertex = match memo.vertices.get_vertex_by_id(vertex_id) {
        Some(v) => v,
        None => {
            return Ok(());
        },
    };
    let ghost vn = choose|n: int| 0 <= n < 2304 && crate::memo::vertices::slot_valid_at(n) && count_valid_below(n) == vertex_id
        && #[trigger] memo.vertices.spec_entry(n) == Some(memo.vertices.spec_by_id()[vertex_id as int]);
    proof {
        assert(vertex_entry_ok(vn, memo.vertices.spec_entry(vn)));
        lemma_incoming_bound(vn);
        crate::memo::vertices::lemma_incoming_shape(vn);
        let s0 = state.spec_state();
        assert forall|f: int, c: int| 0 <= f < NFACES && 0 <= c < NCOLORS implies #[trigger] slot_value(
            s0,
            Target::EdgeConnection(f as u16, c as u16),
        ) == slot_value(start.spec_state(), Target::EdgeConnection(f as u16, c as u16)) by {
            assert(target_valid(Target::EdgeConnection(f as u16, c as u16)));
        }
        assert forall|d: int, c: int| 0 <= d < 2 && 0 <= c < NCOLORS implies #[trigger] slot_value(
            s0,
            Target::EdgeColorCount(d as u16, c as u16),
        ) == slot_value(start.spec_state(), Target::EdgeColorCount(d as u16, c as u16)) by {
            assert(target_valid(Target::EdgeColorCount(d as u16, c as u16)));
        }
    }
    let mut k: usize = 0;
    while k < 4
        invariant
            memo.wf(),
            k <= 4,
            0 <= vn < 2304,
            vertex.incoming_edges@ == incoming_spec(vn / 36, (vn / 6) % 6, vn % 6),
            vertex.primary.index() == (vn / 6) % 6,
            vertex.secondary.index() == vn % 6,
            vertex.primary.index() != vertex.secondary.index(),
            forall|q: int| 0 <= q < 4 ==> (#[trigger] vertex.incoming_edges@[q]) < 384,
            step_ok(&start, state),
            vertex_id < NPOINTS,
            configuration_kept(&start, state),
            color_i < color_j < NCOLORS,
            slot_value(state.spec_state(), Target::CrossingCount(color_i as u16, color_j as u16)) == new_count,
            new_count == current_count + 1,
            current_count == slot_value(start.spec_state(), Target::CrossingCount(color_i as u16, color_j as u16)),
            forall|t: Target| target_valid(t) && t is EdgeColorCount ==> #[trigger] slot_value(state.spec_state(), t) <= slot_value(
                start.spec_state(),
                t,
            ) + k,
            forall|t: Target| target_valid(t) && t is CrossingCount && t != Target::CrossingCount(color_i as u16, color_j as u16)
                ==> #[trigger] slot_value(state.spec_state(), t) == slot_value(start.spec_state(), t),
            state.spec_entries().len() <= start.spec_entries().len() + 1 + 2 * k,
            forall|u: Target| target_valid(u) && u is VertexProcessed ==> #[trigger] slot_value(state.spec_state(), u) == slot_value(
                start.spec_state(),
                u,
            ),
            forall|u: Target| target_valid(u) && u is PossibleCycleWord ==> #[trigger] slot_value(state.spec_state(), u) == slot_value(
                start.spec_state(),
                u,
            ),
            vertex == table_vertex(memo, vertex_id as int),
            ({
                let p = (vn / 6) % 6;
                let sc = vn % 6;
                let inc = incoming_spec(vn / 36, p, sc);
                &&& forall|q: int| 0 <= q < 4 ==> #[trigger] inc[q] / 6 < NFACES && inc[q] % 6 == if q < 2 { p } else { sc }
                &&& bit((inc[0] / 6) as u64, p as u64)
                &&& !bit((inc[1] / 6) as u64, p as u64)
                &&& !bit((inc[2] / 6) as u64, sc as u64)
                &&& bit((inc[3] / 6) as u64, sc as u64)
            }),
            connected_before(vertex, k as int, start.spec_state(), state.spec_state()),
            edges_counted_before(vertex, k as int, start.spec_state(), state.spec_state()),
        decreases 4 - k,
    {
        let ghost sk = *state;
        let edge = EdgeRef::from_id(vertex.incoming_edges[k]);
        let edge_face_id = edge.face_id;
        let edge_color_idx = edge.color_idx;
        proof {
            super::corners::lemma_edge_id_parts(vertex.incoming_edges@[k as int] as int, edge_face_id as int, edge_color_idx as int);
            let inc = vertex.incoming_edges@;
            assert(inc[k as int] / 6 < NFACES);
            assert(incoming_at(vertex, k as int, edge_face_id as int, edge_color_idx as int));
            assert(inc[0] != inc[1] && inc[0] != inc[2] && inc[0] != inc[3] && inc[1] != inc[2] && inc[1] != inc[3] && inc[2] != inc[3]) by {
                assert(inc[0] % 6 == inc[1] % 6);
                assert(inc[2] % 6 == inc[3] % 6);
            }
            assert(!incoming_before(vertex, k as int, edge_face_id as int, edge_color_idx as int));
            assert(incoming_before(vertex, k as int + 1, edge_face_id as int, edge_color_idx as int));
            assert(slot_value(sk.spec_state(), Target::EdgeConnection(edge_face_id as u16, edge_color_idx as u16)) == slot_value(
                start.spec_state(),
                Target::EdgeConnection(edge_face_id as u16, edge_color_idx as u16),
            ));
        }
        assert(edge_face_id < NFACES);
        let existing_to = state.state().faces.faces[edge_face_id].edge_dynamic[edge_color_idx].get_to();
        let edge_face = memo.faces.get_face(edge_face_id);
        if existing_to.is_none() {
            let other_color = if edge_color_idx == vertex.primary.as_usize() {
                vertex.secondary
            } else {
                vertex.primary
            };
            let other_color_idx = other_color.as_usize();
            if let Some(link_to_set) = edge_face.edges[edge_color_idx].possibly_to[other_color_idx] {
                proof {
                    lemma_spec_link_in_range(edge_face_id as int, edge_color_idx as int, other_color_idx as int);
                }
                if !state.has_room(1) {
                    return Err(PropagationFailure::LimitReached { depth });
                }
                let ghost s1 = *state;
                state.set_edge_connection(edge_face_id, edge_color_idx, Some(link_to_set));
                proof {
                    assert forall|t: Target| target_valid(t) && (t is EdgeColorCount || t is CrossingCount) implies #[trigger] slot_value(
                        state.spec_state(),
                        t,
                    ) == slot_value(s1.spec_state(), t) by {}
                    TrailedState::lemma_history_transitive(&start, &s1, state);
                    lemma_kept_write(&s1, state, Target::EdgeConnection(edge_face_id as u16, edge_color_idx as u16));
                    lemma_kept_trans(&start, &s1, state);
                }
            }
        }
        let ghost s_mid = *state;
        proof {
            assert(other_color(vertex, edge_color_idx as int) != edge_color_idx as int);
            assert forall|f: int, c: int| 0 <= f < NFACES && 0 <= c < NCOLORS implies #[trigger] slot_value(
                s_mid.spec_state(),
                Target::EdgeConnection(f as u16, c as u16),
            ) == if incoming_before(vertex, k as int + 1, f, c) && spec_decode(
                slot_value(start.spec_state(), Target::EdgeConnection(f as u16, c as u16)),
            ) is None {
                incoming_link(vertex, f, c)
            } else {
                slot_value(start.spec_state(), Target::EdgeConnection(f as u16, c as u16))
            } by {
                let t = Target::EdgeConnection(f as u16, c as u16);
                assert(target_valid(t));
                if f == edge_face_id as int && c == edge_color_idx as int {
                } else {
                    assert(!incoming_at(vertex, k as int, f, c));
                    assert(slot_value(s_mid.spec_state(), t) == slot_value(sk.spec_state(), t));
                }
            }
            assert forall|d: int, c: int| 0 <= d < 2 && 0 <= c < NCOLORS implies #[trigger] slot_value(
                s_mid.spec_state(),
                Target::EdgeColorCount(d as u16, c as u16),
            ) == slot_value(sk.spec_state(), Target::EdgeColorCount(d as u16, c as u16)) by {
                assert(target_valid(Target::EdgeColorCount(d as u16, c as u16)));
            }
        }
        let edge_color = Color::new(edge_color_idx as u8);
        let direction: usize = if edge_face.colors.contains(edge_color) {
            0
        } else {
            1
        };
        let count = state.state().edge_color_count(direction, edge_color_idx);
        if count == u64::MAX || !state.has_room(1) {
            return Err(PropagationFailure::LimitReached { depth });
        }
        let ghost s2 = *state;
        state.increment_edge_color_count(direction, edge_color_idx);
        proof {
            assert forall|t: Target| target_valid(t) && t is EdgeColorCount implies #[trigger] slot_value(state.spec_state(), t)
                <= slot_value(start.spec_state(), t) + k + 1 by {
                assert(slot_value(s2.spec_state(), t) <= slot_value(start.spec_state(), t) + k);
            }
            assert forall|t: Target| target_valid(t) && t is CrossingCount && t != Target::CrossingCount(color_i as u16, color_j as u16)
                implies #[trigger] slot_value(state.spec_state(), t) == slot_value(start.spec_state(), t) by {
                assert(slot_value(s2.spec_state(), t) == slot_value(start.spec_state(), t));
            }
            TrailedState::lemma_history_transitive(&start, &s2, state);
            lemma_kept_write(&s2, state, Target::EdgeColorCount(direction as u16, edge_color_idx as u16));
            lemma_kept_trans(&start, &s2, state);
            assert(edge_face.colors.spec_bits() == edge_face_id as u64);
            assert(direction == if k == 0 || k == 3 { 0usize } else { 1usize });
            assert forall|f: int, c: int| 0 <= f < NFACES && 0 <= c < NCOLORS implies #[trigger] slot_value(
                state.spec_state(),
                Target::EdgeConnection(f as u16, c as u16),
            ) == slot_value(s_mid.spec_state(), Target::EdgeConnection(f as u16, c as u16)) by {
                assert(target_valid(Target::EdgeConnection(f as u16, c as u16)));
            }
            assert forall|d: int, c: int| 0 <= d < 2 && 0 <= c < NCOLORS implies #[trigger] slot_value(
                state.spec_state(),
                Target::EdgeColorCount(d as u16, c as u16),
            ) == slot_value(start.spec_state(), Target::EdgeColorCount(d as u16, c as u16)) + counted_before(vertex, k as int + 1, d, c) by {
                let t = Target::EdgeColorCount(d as u16, c as u16);
                assert(target_valid(t));
                assert(slot_value(s2.spec_state(), t) == slot_value(sk.spec_state(), t));
                assert(slot_value(sk.spec_state(), t) == slot_value(start.spec_state(), t) + counted_before(vertex, k as int, d, c));
                if d == direction as int && c == edge_color_idx as int {
                } else {
                    assert(slot_value(state.spec_state(), t) == slot_value(s2.spec_state(), t));
                }
            }
        }
        k = k + 1;
    }
    if !state.has_room(1) {
        return Err(PropagationFailure::LimitReached { depth });
    }
    let ghost s3 = *state;
    state.mark_vertex_processed(vertex_id);
    proof {
        TrailedState::lemma_history_transitive(&start, &s3, state);
        lemma_kept_write(&s3, state, Target::VertexProcessed(vertex_id as u16));
        lemma_kept_trans(&start, &s3, state);
        assert forall|f: int, c: int| 0 <= f < NFACES && 0 <= c < NCOLORS implies #[trigger] slot_value(
            state.spec_state(),
            Target::EdgeConnection(f as u16, c as u16),
        ) == slot_value(s3.spec_state(), Target::EdgeConnection(f as u16, c as u16)) by {
            assert(target_valid(Target::EdgeConnection(f as u16, c as u16)));
        }
        assert forall|d: int, c: int| 0 <= d < 2 && 0 <= c < NCOLORS implies #[trigger] slot_value(
            state.spec_state(),
            Target::EdgeColorCount(d as u16, c as u16),
        ) == slot_value(s3.spec_state(), Target::EdgeColorCount(d as u16, c as u16)) by {
            assert(target_valid(Target::EdgeColorCount(d as u16, c as u16)));
        }
    }
    Ok(())
}

/// The corner check made as each edge of a curve is added. It finds no corner to reject
/// here and always succeeds; the curve walk of `check_corners_for_cycle` does the
/// counting.
pub fn vertex_corner_check(
    memo: &MemoizedData,
    state: &TrailedState,
    face_id: usize,
    color_idx: usize,
    depth: usize,
) -> (r: Result<(), PropagationFailure>)
    ensures
        r is Ok,
{
    Ok(())
}

} // verus!
