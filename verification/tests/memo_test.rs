use venn_search::context::MemoizedData;
use venn_search::geometry::color::Color;
use venn_search::geometry::color_set::ColorSet;
use venn_search::geometry::constants::{NCOLORS, NCYCLES, NFACES, NPOINTS};
use venn_search::geometry::edge::{CurveLink, EdgeRef};
use venn_search::memo::cycles::{CyclesArray, CyclesMemo};
use venn_search::memo::faces::{compute_binomial_coefficients, create_face_with_edges, FacesMemo};
use venn_search::memo::vertices::{
    compute_incoming_edge_slot, compute_outside_face, determine_primary_secondary, is_edge_clockwise, VerticesMemo,
};

fn generate() -> CyclesArray {
    CyclesArray::generate()
}

fn vertices() -> VerticesMemo {
    VerticesMemo::initialize()
}

#[test]
fn test_cycle_generation_count() {
    let cycles = generate();
    assert_eq!(cycles.len(), NCYCLES);
    match NCOLORS {
        3 => assert_eq!(cycles.len(), 2),
        4 => assert_eq!(cycles.len(), 14),
        5 => assert_eq!(cycles.len(), 74),
        6 => assert_eq!(cycles.len(), 394),
        _ => unreachable!(),
    }
}

#[test]
fn test_cycles_non_empty() {
    let cycles = generate();
    assert!(!cycles.is_empty());
}

#[test]
fn test_all_cycles_have_valid_length() {
    let cycles = generate();
    for cycle_id in 0..cycles.len() as u64 {
        let cycle = cycles.get(cycle_id);
        assert!(cycle.len() >= 3, "Cycle {} has length < 3", cycle_id);
        assert!(cycle.len() <= NCOLORS, "Cycle {} has length > NCOLORS", cycle_id);
    }
}

#[test]
fn test_cycles_start_with_smallest_color() {
    let cycles = generate();
    for cycle_id in 0..cycles.len() as u64 {
        let cycle = cycles.get(cycle_id);
        let colors = cycle.colors();
        for (i, &color) in colors.iter().enumerate() {
            if i > 0 {
                assert!(color.value() >= colors[0].value(), "Cycle {} not canonical at {}", cycle_id, i);
            }
        }
    }
}

#[test]
fn test_cycles_have_no_duplicates() {
    let cycles = generate();
    for cycle_id in 0..cycles.len() as u64 {
        let cycle = cycles.get(cycle_id);
        let colors = cycle.colors();
        for i in 0..colors.len() {
            for j in (i + 1)..colors.len() {
                assert_ne!(colors[i], colors[j], "Cycle {} has duplicate color", cycle_id);
            }
        }
    }
}

#[test]
fn test_cycles_omitting_color_pair_accessor() {
    let cycles = generate();
    let memo = CyclesMemo::initialize(&cycles);
    for i in 0..NCOLORS {
        for j in (i + 1)..NCOLORS {
            let _omitting = memo.get_cycles_omitting_color_pair(i, j);
        }
    }
}

#[test]
fn test_binomial_coefficients() {
    let coeffs = compute_binomial_coefficients();
    assert_eq!(coeffs[0], 1);
    assert_eq!(coeffs[NCOLORS], 1);
    assert_eq!(coeffs[1], 6);
    assert_eq!(coeffs[2], 15);
    assert_eq!(coeffs[3], 20);
    assert_eq!(coeffs[4], 15);
    assert_eq!(coeffs[5], 6);
}

#[test]
fn test_create_face_color_mapping() {
    let face0 = create_face_with_edges(0);
    assert_eq!(face0.id, 0);
    assert_eq!(face0.colors.len(), 0);

    let face1 = create_face_with_edges(1);
    assert_eq!(face1.id, 1);
    assert_eq!(face1.colors.len(), 1);
    assert!(face1.colors.contains(Color::new(0)));

    let face3 = create_face_with_edges(3);
    assert_eq!(face3.id, 3);
    assert_eq!(face3.colors.len(), 2);
    assert!(face3.colors.contains(Color::new(0)));
    assert!(face3.colors.contains(Color::new(1)));

    let face_inner = create_face_with_edges(NFACES - 1);
    assert_eq!(face_inner.id, NFACES - 1);
    assert_eq!(face_inner.colors.len(), NCOLORS);
}

#[test]
fn test_faces_memo_initialization() {
    let cycles = generate();
    let vertices = vertices();
    let memo = FacesMemo::initialize(&cycles, &vertices);
    assert_eq!(memo.faces.len(), NFACES);
    let outer = memo.get_face(0);
    assert_eq!(outer.colors.len(), 0);
    let inner = memo.get_face(NFACES - 1);
    assert_eq!(inner.colors.len(), NCOLORS);
    assert_eq!(memo.face_degree_by_color_count[0], 1);
    assert_eq!(memo.face_degree_by_color_count[NCOLORS], 1);
}

#[test]
fn test_outer_and_inner_face_cycle_constraints() {
    let cycles = generate();
    let vertices = vertices();
    let memo = FacesMemo::initialize(&cycles, &vertices);
    let outer = memo.get_face(0);
    for cycle_id in 0..NCYCLES as u64 {
        let cycle = cycles.get(cycle_id);
        if outer.possible_cycles.contains(cycle_id) {
            assert_eq!(cycle.len(), NCOLORS, "Outer face cycle {} has wrong length {}", cycle_id, cycle.len());
        }
    }
    let inner = memo.get_face(NFACES - 1);
    for cycle_id in 0..NCYCLES as u64 {
        let cycle = cycles.get(cycle_id);
        if inner.possible_cycles.contains(cycle_id) {
            assert_eq!(cycle.len(), NCOLORS, "Inner face cycle {} has wrong length {}", cycle_id, cycle.len());
        }
    }
    assert!(!outer.possible_cycles.is_empty(), "Outer face has no possible cycles");
    assert!(!inner.possible_cycles.is_empty(), "Inner face has no possible cycles");
}

#[test]
fn test_is_edge_clockwise() {
    let color_a = Color::new(0);
    let color_b = Color::new(1);
    let face_ab = ColorSet::from_colors(&[color_a, color_b]);
    assert!(is_edge_clockwise(color_a, face_ab));
    let face_b = ColorSet::from_colors(&[color_b]);
    assert!(!is_edge_clockwise(color_a, face_b));
}

#[test]
fn test_compute_incoming_edge_slot() {
    let edge_color = Color::new(0);
    let other_color = Color::new(1);
    let face1 = ColorSet::from_colors(&[edge_color, other_color]);
    assert_eq!(compute_incoming_edge_slot(edge_color, other_color, face1), 0);
    let face2 = ColorSet::from_colors(&[Color::new(2)]);
    assert_eq!(compute_incoming_edge_slot(edge_color, other_color, face2), 1);
    let face3 = ColorSet::from_colors(&[other_color]);
    assert_eq!(compute_incoming_edge_slot(edge_color, other_color, face3), 2);
    let face4 = ColorSet::from_colors(&[edge_color]);
    assert_eq!(compute_incoming_edge_slot(edge_color, other_color, face4), 3);
}

#[test]
fn test_determine_primary_secondary() {
    let edge_color = Color::new(0);
    let other_color = Color::new(1);
    assert_eq!(determine_primary_secondary(0, edge_color, other_color), (edge_color, other_color));
    assert_eq!(determine_primary_secondary(1, edge_color, other_color), (edge_color, other_color));
    assert_eq!(determine_primary_secondary(2, edge_color, other_color), (other_color, edge_color));
    assert_eq!(determine_primary_secondary(3, edge_color, other_color), (other_color, edge_color));
}

#[test]
fn test_compute_outside_face() {
    let primary = Color::new(0);
    let secondary = Color::new(1);
    let face_012 = ColorSet::from_colors(&[Color::new(0), Color::new(1), Color::new(2)]);
    assert_eq!(compute_outside_face(face_012, primary, secondary), 0b100);
    let face_01 = ColorSet::from_colors(&[primary, secondary]);
    assert_eq!(compute_outside_face(face_01, primary, secondary), 0);
    let face_23 = ColorSet::from_colors(&[Color::new(2), Color::new(3)]);
    assert_eq!(compute_outside_face(face_23, primary, secondary), 0b1100);
}

#[test]
fn test_vertices_memo_initialization() {
    let memo = vertices();
    // The table is addressed by outside face, primary and secondary color.
    let mut positions = 0;
    for face in 0..NFACES {
        for color_a in 0..NCOLORS {
            for color_b in 0..NCOLORS {
                let _ = memo.get_vertex(face, color_a, color_b);
                positions += 1;
            }
        }
    }
    assert_eq!(positions, NFACES * NCOLORS * NCOLORS);
}

#[test]
fn test_vertex_count() {
    let memo = vertices();
    let mut count = 0;
    for face in 0..NFACES {
        for color_a in 0..NCOLORS {
            for color_b in 0..NCOLORS {
                if memo.get_vertex(face, color_a, color_b).is_some() {
                    count += 1;
                }
            }
        }
    }
    assert_eq!(count, NPOINTS);
    match NCOLORS {
        3 => assert_eq!(count, 12),
        4 => assert_eq!(count, 48),
        5 => assert_eq!(count, 160),
        6 => assert_eq!(count, 480),
        _ => unreachable!(),
    }
}

#[test]
fn test_no_diagonal_vertices() {
    let memo = vertices();
    for face in 0..NFACES {
        for color in 0..NCOLORS {
            assert!(memo.get_vertex(face, color, color).is_none(), "Unexpected vertex at [{}][{}][{}]", face, color, color);
        }
    }
}

#[test]
fn test_vertex_lookups() {
    let memo = vertices();
    let mut found_at_least_one = false;
    for face in 0..NFACES {
        for color_a in 0..NCOLORS {
            for color_b in 0..NCOLORS {
                if let Some(vertex) = memo.get_vertex(face, color_a, color_b) {
                    found_at_least_one = true;
                    assert_eq!(vertex.primary.value() as usize, color_a);
                    assert_eq!(vertex.secondary.value() as usize, color_b);
                    assert!(vertex.colors.contains(vertex.primary));
                    assert!(vertex.colors.contains(vertex.secondary));
                }
            }
        }
    }
    assert!(found_at_least_one, "Should have found at least one vertex");
}

#[test]
fn test_vertex_ids_unique() {
    let memo = vertices();
    let mut ids = Vec::new();
    for face in 0..NFACES {
        for color_a in 0..NCOLORS {
            for color_b in 0..NCOLORS {
                if let Some(vertex) = memo.get_vertex(face, color_a, color_b) {
                    ids.push(vertex.id);
                }
            }
        }
    }
    ids.sort();
    for i in 1..ids.len() {
        assert_ne!(ids[i - 1], ids[i], "Found duplicate vertex ID: {}", ids[i]);
    }
    assert_eq!(ids.len(), NPOINTS);
    for (i, &id) in ids.iter().enumerate() {
        assert_eq!(id, i, "Expected vertex ID {}, found {} at position {}", i, id, i);
    }
}

#[test]
fn test_incoming_edges_populated() {
    let memo = vertices();
    let mut checked_count = 0;
    for face in 0..NFACES {
        for color_a in 0..NCOLORS {
            for color_b in 0..NCOLORS {
                if let Some(vertex) = memo.get_vertex(face, color_a, color_b) {
                    for (slot, &edge_id) in vertex.incoming_edges.iter().enumerate() {
                        let edge_ref = EdgeRef::from_id(edge_id);
                        assert!(edge_ref.face_id < NFACES, "slot {} has invalid face_id {}", slot, edge_ref.face_id);
                        assert!(edge_ref.color_idx < NCOLORS, "slot {} has invalid color_idx {}", slot, edge_ref.color_idx);
                        if edge_ref.face_id != 0 || edge_ref.color_idx != 0 {
                            checked_count += 1;
                        }
                    }
                }
            }
        }
    }
    assert!(checked_count > NPOINTS * 2, "Expected many non-placeholder incoming_edges, found only {}", checked_count);
}

#[test]
fn test_incoming_edges_reference_correct_colors() {
    let memo = vertices();
    for face in 0..NFACES {
        for color_a in 0..NCOLORS {
            for color_b in 0..NCOLORS {
                if let Some(vertex) = memo.get_vertex(face, color_a, color_b) {
                    let primary = vertex.primary;
                    let secondary = vertex.secondary;
                    for &edge_id in vertex.incoming_edges.iter() {
                        let edge_color = Color::new(EdgeRef::from_id(edge_id).color_idx as u8);
                        assert!(edge_color == primary || edge_color == secondary);
                    }
                    assert_eq!(Color::new(EdgeRef::from_id(vertex.incoming_edges[0]).color_idx as u8), primary);
                    assert_eq!(Color::new(EdgeRef::from_id(vertex.incoming_edges[1]).color_idx as u8), primary);
                    assert_eq!(Color::new(EdgeRef::from_id(vertex.incoming_edges[2]).color_idx as u8), secondary);
                    assert_eq!(Color::new(EdgeRef::from_id(vertex.incoming_edges[3]).color_idx as u8), secondary);
                }
            }
        }
    }
}

#[test]
fn test_vertex_tables_and_face_links_agree() {
    let memo = MemoizedData::new();
    assert!(memo.vertices.get_vertex_by_id(NPOINTS - 1).is_some());
    assert!(memo.vertices.get_vertex_by_id(NPOINTS).is_none());

    for outside in 0..NFACES {
        for primary in 0..NCOLORS {
            for secondary in 0..NCOLORS {
                let Some(vertex) = memo.vertices.get_vertex(outside, primary, secondary) else { continue };
                assert_eq!(memo.vertices.get_vertex_by_id(vertex.id), Some(vertex));

                let primary_bit = 1 << primary;
                let secondary_bit = 1 << secondary;
                assert_eq!(outside & (primary_bit | secondary_bit), 0);
                let incoming: Vec<EdgeRef> = vertex.incoming_edges.iter().map(|&id| EdgeRef::from_id(id)).collect();
                assert_eq!(
                    incoming,
                    vec![
                        EdgeRef::new(outside | primary_bit | secondary_bit, primary),
                        EdgeRef::new(outside, primary),
                        EdgeRef::new(outside | primary_bit, secondary),
                        EdgeRef::new(outside | secondary_bit, secondary),
                    ]
                );

                for incoming in incoming {
                    let other = if incoming.color_idx == primary { secondary } else { primary };
                    let next = EdgeRef::new(incoming.face_id ^ (1 << other), incoming.color_idx);
                    let edge = &memo.faces.faces[incoming.face_id].edges[incoming.color_idx];
                    assert_eq!(edge.possibly_to[other], Some(CurveLink::new(next, vertex.id)));
                }
            }
        }
    }

    for face in &memo.faces.faces {
        for (color, edge) in face.edges.iter().enumerate() {
            assert!(edge.possibly_to[color].is_none());
        }
    }
}

#[test]
fn the_last_cycle_runs_through_all_colors_in_order() {
    let cycles = generate();
    let last = cycles.get((NCYCLES - 1) as u64);
    let values: Vec<u8> = last.colors().iter().map(|c| c.value()).collect();
    assert_eq!(values, vec![0, 1, 2, 3, 4, 5]);
}

#[test]
fn every_canonical_triple_is_a_cycle_exactly_once() {
    let cycles = generate();
    for a in 0..NCOLORS as u8 {
        for b in (a + 1)..NCOLORS as u8 {
            for c in (a + 1)..NCOLORS as u8 {
                if b == c {
                    continue;
                }
                let found = (0..NCYCLES as u64)
                    .filter(|&id| {
                        let values: Vec<u8> = cycles.get(id).colors().iter().map(|x| x.value()).collect();
                        values == vec![a, b, c]
                    })
                    .count();
                assert_eq!(found, 1, "cycle {} {} {}", a, b, c);
            }
        }
    }
}
