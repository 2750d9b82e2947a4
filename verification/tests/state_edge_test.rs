use venn_search::geometry::{CurveLink, EdgeRef, NCOLORS, NFACES, NPOINTS};
use venn_search::state::edge::{decode_curve_link, CURVELINK_SOME_BIT};
use venn_search::state::DynamicEdge;

#[test]
fn test_edge_dynamic_encode_decode() {
    let encoded_none = DynamicEdge::encode_to(None);
    assert_eq!(encoded_none, 0);
    assert_eq!(decode_curve_link(encoded_none), None);

    let link = CurveLink::new(EdgeRef::new(NFACES - 1, NCOLORS - 1), NPOINTS - 1);
    let encoded = DynamicEdge::encode_to(Some(link));
    assert_ne!(encoded, 0);

    let decoded = decode_curve_link(encoded);
    assert_eq!(decoded, Some(link));

    let mut edge = DynamicEdge::new();
    edge.to_encoded = encoded;
    assert_eq!(edge.get_to(), Some(link));
}

#[test]
fn zero_fields_are_distinct_from_none() {
    let link = CurveLink::new(EdgeRef::new(0, 0), 0);
    let encoded = DynamicEdge::encode_to(Some(link));
    assert_eq!(encoded, CURVELINK_SOME_BIT);
    assert_eq!(decode_curve_link(encoded), Some(link));
    assert_eq!(decode_curve_link(0), None);
}

#[test]
fn test_curve_link_encoding_bounds() {
    let max_face = NFACES - 1;
    let max_color = NCOLORS - 1;
    let max_vertex = NPOINTS - 1;

    let link = CurveLink::new(EdgeRef::new(max_face, max_color), max_vertex);
    let encoded = DynamicEdge::encode_to(Some(link));
    let decoded = decode_curve_link(encoded);

    assert_eq!(decoded, Some(link));
    assert_eq!(decoded.unwrap().next.face_id, max_face);
    assert_eq!(decoded.unwrap().next.color_idx, max_color);
    assert_eq!(decoded.unwrap().vertex_id, max_vertex);
}

#[test]
fn encoding_packs_fields_in_their_bits() {
    let link = CurveLink::new(EdgeRef::new(3, 2), 5);
    let encoded = DynamicEdge::encode_to(Some(link));
    assert_eq!(encoded, CURVELINK_SOME_BIT | 3 | (2 << 6) | (5 << 9));
}
