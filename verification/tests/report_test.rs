use venn_search::geometry::constants::{NCOLORS, NFACES};
use venn_search::geometry::edge::{CurveLink, EdgeRef};
use venn_search::predicates::report::{
    curve_faces, curve_faces_text, face_line, face_ring, face_ring_text, first_face_with_colors, solution_header,
};
use venn_search::SearchContext;

fn new_context() -> SearchContext {
    SearchContext::new()
}

fn faces_with(k: u32) -> Vec<usize> {
    (0..NFACES).filter(|f| (*f as u64).count_ones() == k).collect()
}

fn link_rings(ctx: &mut SearchContext) {
    let (_, owner) = ctx.parts_mut();
    for k in 1..NCOLORS as u32 {
        let ring = faces_with(k);
        for (pos, &f) in ring.iter().enumerate() {
            owner.set_next_face(f, Some(ring[(pos + 1) % ring.len()]));
        }
    }
}

#[test]
fn first_faces_by_color_count() {
    assert_eq!(first_face_with_colors(0), Some(0));
    assert_eq!(first_face_with_colors(1), Some(1));
    assert_eq!(first_face_with_colors(3), Some(7));
    assert_eq!(first_face_with_colors(6), Some(63));
    assert_eq!(first_face_with_colors(7), None);
}

#[test]
fn a_ring_of_faces_is_walked_from_its_start() {
    let mut ctx = new_context();
    link_rings(&mut ctx);
    assert_eq!(face_ring(ctx.state(), 3, 100), Some(faces_with(2)));
    assert_eq!(faces_with(2).len(), 15);
}

#[test]
fn a_ring_walk_stops_after_the_limit() {
    let mut ctx = new_context();
    link_rings(&mut ctx);
    let ring = faces_with(3);
    assert_eq!(face_ring(ctx.state(), 7, 4), Some(ring[..5].to_vec()));
    assert_eq!(face_ring(ctx.state(), 7, 0), Some(vec![7]));
}

#[test]
fn a_ring_walk_without_links_fails() {
    let ctx = new_context();
    assert_eq!(face_ring(ctx.state(), 3, 100), None);
}

#[test]
fn a_curve_is_walked_from_the_inner_face() {
    let mut ctx = new_context();
    {
        let (_, owner) = ctx.parts_mut();
        owner.set_edge_connection(63, 0, Some(CurveLink::new(EdgeRef::new(62, 0), 0)));
        owner.set_edge_connection(62, 0, Some(CurveLink::new(EdgeRef::new(63, 0), 1)));
    }
    assert_eq!(curve_faces(ctx.state(), 0, 100), Some(vec![63, 62]));
    assert_eq!(curve_faces(ctx.state(), 0, 0), Some(vec![63]));
    assert_eq!(curve_faces(ctx.state(), 1, 100), None);
}

#[test]
fn a_curve_that_changes_color_fails() {
    let mut ctx = new_context();
    {
        let (_, owner) = ctx.parts_mut();
        owner.set_edge_connection(63, 0, Some(CurveLink::new(EdgeRef::new(62, 1), 0)));
    }
    assert_eq!(curve_faces(ctx.state(), 0, 100), None);
}

#[test]
fn face_lines_are_written_as_the_original_formats_them() {
    assert_eq!(face_line(5, None, 0, 0), "Face  5 (000101): UNASSIGNED [next=000000, prev=000000]");
    assert_eq!(face_line(12, None, 64, 3), "Face 12 (001100): UNASSIGNED [next=1000000, prev=000011]");
    let ctx = new_context();
    let last = ctx.memo.cycles.get(393);
    assert_eq!(
        face_line(63, Some((393, last)), 62, 61),
        "Face 63 (111111): cycle 393 = (abcdef) [next=111110, prev=111101]"
    );
    let first = ctx.memo.cycles.get(0);
    assert_eq!(
        face_line(7, Some((0, first)), 11, 13),
        format!("Face  7 (000111): cycle  0 = {} [next=001011, prev=001101]", first.to_display_string())
    );
}

#[test]
fn ring_and_curve_texts() {
    assert_eq!(face_ring_text(&vec![1, 2, 4]), "000001, 000010, 000100, \ni.e. 3 faces\n");
    assert_eq!(face_ring_text(&vec![]), "\ni.e. 0 faces\n");
    assert_eq!(curve_faces_text(0, &vec![63, 62]), "Color a: 111111, 111110,  [2 steps]\n");
    assert_eq!(curve_faces_text(5, &vec![63]), "Color f: 111111,  [1 steps]\n");
}

#[test]
fn solution_headers_list_the_degrees() {
    assert_eq!(
        solution_header(12, &[3, 4, 5, 3, 4, 5]),
        "## Solution 12 - inner face degrees: [3, 4, 5, 3, 4, 5]\n\n"
    );
    assert_eq!(
        solution_header(0, &[0; 6]),
        format!("## Solution {} - inner face degrees: {:?}\n\n", 0, [0u64; 6])
    );
}
