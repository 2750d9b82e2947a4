use venn_search::state::DynamicEdge;
use venn_search::geometry::{
    Color, ColorSet, CurveLink, CycleSet, EdgeDynamic, EdgeMemo, EdgeRef, Face, Vertex,
};

#[test]
fn test_edge_ref_creation() {
    let edge_ref = EdgeRef::new(5, 2);
    assert_eq!(edge_ref.face_id, 5);
    assert_eq!(edge_ref.color_idx, 2);
}

#[test]
fn test_edge_ref_equality() {
    let ref1 = EdgeRef::new(5, 2);
    let ref2 = EdgeRef::new(5, 2);
    let ref3 = EdgeRef::new(5, 3);

    assert_eq!(ref1, ref2);
    assert_ne!(ref1, ref3);
}

#[test]
fn test_curve_link_creation() {
    let next_edge = EdgeRef::new(10, 1);
    let link = CurveLink::new(next_edge, 42);

    assert_eq!(link.next, next_edge);
    assert_eq!(link.vertex_id, 42);
}

#[test]
fn test_edge_memo_creation() {
    let color = Color::new(0);
    let face_colors = ColorSet::from_colors(&[Color::new(0), Color::new(1), Color::new(2)]);
    let reversed = EdgeRef::new(7, 0);

    let edge = EdgeMemo::new(color, face_colors, reversed);

    assert_eq!(edge.color, color);
    assert_eq!(edge.face_colors, face_colors);
    assert_eq!(edge.reversed, reversed);
    assert!(edge.possibly_to.iter().all(|x| x.is_none()));
}

#[test]
fn test_edge_memo_is_clockwise() {
    let color_a = Color::new(0);
    let reversed = EdgeRef::new(0, 0);

    let face_abc = ColorSet::from_colors(&[Color::new(0), Color::new(1), Color::new(2)]);
    let edge1 = EdgeMemo::new(color_a, face_abc, reversed);
    assert!(edge1.is_clockwise());

    let face_bc = ColorSet::from_colors(&[Color::new(1), Color::new(2)]);
    let edge2 = EdgeMemo::new(color_a, face_bc, reversed);
    assert!(!edge2.is_clockwise());
}

#[test]
fn test_edge_memo_set_possibly_to() {
    let color = Color::new(0);
    let face_colors = ColorSet::from_colors(&[Color::new(0), Color::new(1)]);
    let reversed = EdgeRef::new(1, 0);

    let mut edge = EdgeMemo::new(color, face_colors, reversed);

    let link = CurveLink::new(EdgeRef::new(2, 1), 10);
    edge.set_possibly_to(0, Some(link));

    assert_eq!(edge.possibly_to[0], Some(link));
    assert_eq!(edge.possibly_to[1], None);
}

#[test]
fn edge_test_edge_dynamic_default() {
    let edge = EdgeDynamic::new();
    assert!(edge.to.is_none());

    let edge2 = EdgeDynamic::default();
    assert!(edge2.to.is_none());

    let edge = DynamicEdge::new();
    assert!(edge.get_to().is_none());
    assert_eq!(edge.to_encoded, 0);

    let edge2 = DynamicEdge::default();
    assert!(edge2.get_to().is_none());
    assert_eq!(edge2.to_encoded, 0);
}

#[test]
fn test_edge_pair_reversal() {
    let color = Color::new(0);
    let face1 = ColorSet::from_colors(&[Color::new(0), Color::new(1), Color::new(2)]);
    let face2 = ColorSet::from_colors(&[Color::new(1), Color::new(2)]);

    let ref1 = EdgeRef::new(5, 0);
    let ref2 = EdgeRef::new(3, 0);

    let edge_fwd = EdgeMemo::new(color, face1, ref2);
    let edge_rev = EdgeMemo::new(color, face2, ref1);

    assert_eq!(edge_fwd.reversed, ref2);
    assert_eq!(edge_rev.reversed, ref1);

    assert_eq!(edge_fwd.color, edge_rev.color);

    assert!(face1.contains(Color::new(0)));
    assert!(!face2.contains(Color::new(0)));
}

#[test]
fn edge_ref_id_round_trip() {
    let r = EdgeRef::new(37, 4);
    assert_eq!(r.id(), 37 * 6 + 4);
    assert_eq!(EdgeRef::from_id(r.id()), r);
}

#[test]
fn test_face_creation() {
    let colors = ColorSet::from_colors(&[Color::new(0), Color::new(1), Color::new(2)]);
    let mut possible = CycleSet::empty();
    possible.insert(0);
    possible.insert(1);

    let face = Face::new(7, colors, possible);

    assert_eq!(face.id, 7);
    assert_eq!(face.colors, colors);
    assert_eq!(face.cycle_count, 2);
    assert!(!face.has_unique_cycle());
}

#[test]
fn test_num_colors() {
    let colors = ColorSet::from_colors(&[Color::new(0), Color::new(1), Color::new(2)]);
    let face = Face::new(0, colors, CycleSet::empty());

    assert_eq!(face.num_colors(), 3);
}

#[test]
fn face_test_has_color() {
    let colors = ColorSet::from_colors(&[Color::new(1), Color::new(2)]);
    let face = Face::new(0, colors, CycleSet::empty());

    assert!(!face.has_color(Color::new(0)));
    assert!(face.has_color(Color::new(1)));
    assert!(face.has_color(Color::new(2)));
}

#[test]
fn test_unique_cycle() {
    let colors = ColorSet::from_colors(&[Color::new(0), Color::new(1), Color::new(2)]);

    let mut possible_multi = CycleSet::empty();
    possible_multi.insert(5);
    possible_multi.insert(10);
    let face_multi = Face::new(0, colors, possible_multi);

    assert!(!face_multi.has_unique_cycle());
    assert_eq!(face_multi.unique_cycle(), None);

    let mut possible_single = CycleSet::empty();
    possible_single.insert(7);
    let face_single = Face::new(0, colors, possible_single);

    assert!(face_single.has_unique_cycle());
    assert_eq!(face_single.unique_cycle(), Some(7));
}

#[test]
fn test_is_cycle_possible() {
    let colors = ColorSet::from_colors(&[Color::new(0), Color::new(1), Color::new(2)]);
    let mut possible = CycleSet::empty();
    possible.insert(3);
    possible.insert(7);

    let face = Face::new(0, colors, possible);

    assert!(face.is_cycle_possible(3));
    assert!(!face.is_cycle_possible(5));
    assert!(face.is_cycle_possible(7));
}

#[test]
fn test_empty_possible_cycles() {
    let colors = ColorSet::from_colors(&[Color::new(0), Color::new(1), Color::new(2)]);
    let face = Face::new(0, colors, CycleSet::empty());

    assert_eq!(face.cycle_count, 0);
    assert!(!face.has_unique_cycle());
    assert_eq!(face.unique_cycle(), None);
}

#[test]
fn face_edges_point_across_their_curves() {
    let colors = ColorSet::from_bits(5);
    let face = Face::new(5, colors, CycleSet::empty());
    assert_eq!(face.adjacent_faces, [4, 7, 1, 13, 21, 37]);
    assert_eq!(face.edges[1].reversed, EdgeRef::new(7, 1));
    assert_eq!(face.edges[1].color, Color::new(1));
}

#[test]
fn test_vertex_creation() {
    let primary = Color::new(0);
    let secondary = Color::new(1);
    let incoming = [10, 11, 12, 13];

    let vertex = Vertex::new(0, primary, secondary, incoming);

    assert_eq!(vertex.id, 0);
    assert_eq!(vertex.primary, primary);
    assert_eq!(vertex.secondary, secondary);
    assert_eq!(vertex.incoming_edges, incoming);
}

#[test]
fn test_crossing_colors() {
    let primary = Color::new(2);
    let secondary = Color::new(4);
    let vertex = Vertex::new(5, primary, secondary, [0, 1, 2, 3]);

    let (p, s) = vertex.crossing_colors();
    assert_eq!(p, primary);
    assert_eq!(s, secondary);
}

#[test]
fn vertex_test_has_color() {
    let primary = Color::new(0);
    let secondary = Color::new(2);
    let vertex = Vertex::new(0, primary, secondary, [0, 1, 2, 3]);

    assert!(vertex.has_color(Color::new(0)));
    assert!(!vertex.has_color(Color::new(1)));
    assert!(vertex.has_color(Color::new(2)));
}

#[test]
fn test_colors_bitset() {
    let primary = Color::new(1);
    let secondary = Color::new(3);
    let vertex = Vertex::new(0, primary, secondary, [0, 1, 2, 3]);

    assert_eq!(vertex.colors.len(), 2);
    assert!(vertex.colors.contains(primary));
    assert!(vertex.colors.contains(secondary));

    assert!(!vertex.colors.contains(Color::new(0)));
    assert!(!vertex.colors.contains(Color::new(2)));
}
