use shipframe::client::{apply_update, frame_from_snapshot};
use shipframe::graph::Graph;
use shipframe::messages::{graph_from_snapshot, serialize_graph, FrameUpdate, SerializedGraph};
use shipframe::server::{add_beam_extend, add_beam_join, map_frame, new_from_beam, FrameIdWorld};
use shipframe::{BeamId, GraphError, Position, VertexId};

fn pos(x: i64, y: i64, z: i64) -> Position {
    Position { x, y, z }
}

fn bid(a: u64, b: u64) -> BeamId {
    BeamId::from_vertices(VertexId(a), VertexId(b)).unwrap()
}

#[test]
fn beam_id_symmetry() {
    let a = VertexId(3);
    let b = VertexId(7);
    assert_eq!(
        BeamId::from_vertices(a, b).unwrap(),
        BeamId::from_vertices(b, a).unwrap()
    );
    let id = BeamId::from_vertices(b, a).unwrap();
    assert_eq!(id.down_vertex(), a);
    assert_eq!(id.up_vertex(), b);
    assert_eq!(id.vertices(), (a, b));
}

#[test]
fn self_loop_rejected() {
    let v = VertexId(5);
    assert_eq!(BeamId::from_vertices(v, v), Err(GraphError::SelfLoopBeam));
}

#[test]
fn add_and_query_beam() {
    let mut g: Graph<u32> = Graph::default();
    let r = g.add_beam(
        VertexId(0),
        Some(pos(0, 0, 0)),
        VertexId(1),
        Some(pos(10, 0, 0)),
        42,
    );
    assert_eq!(r, Ok(bid(0, 1)));
    assert_eq!(g.get_beam(bid(0, 1)), Some(&42));
    assert!(g.get_vertex(VertexId(0)).is_some());
    assert!(g.get_vertex(VertexId(1)).is_some());
    assert_eq!(g.get_vertex(VertexId(0)).unwrap().position(), pos(0, 0, 0));
    assert_eq!(g.get_vertex(VertexId(0)).unwrap().connections().len(), 1);
    assert_eq!(g.iter_vertices(), vec![VertexId(0), VertexId(1)]);
}

#[test]
fn add_beam_errors() {
    let mut g: Graph<u32> = Graph::default();
    g.add_beam(
        VertexId(0),
        Some(pos(0, 0, 0)),
        VertexId(1),
        Some(pos(10, 0, 0)),
        1,
    )
    .unwrap();
    // Self-loop.
    assert_eq!(
        g.add_beam(VertexId(2), Some(pos(1, 1, 1)), VertexId(2), None, 9),
        Err(GraphError::SelfLoopBeam)
    );
    // Creating a vertex that already exists.
    assert_eq!(
        g.add_beam(VertexId(0), Some(pos(1, 1, 1)), VertexId(3), Some(pos(2, 2, 2)), 9),
        Err(GraphError::DuplicateVertex)
    );
    // Connecting to a vertex that does not exist.
    assert_eq!(
        g.add_beam(VertexId(7), None, VertexId(8), Some(pos(2, 2, 2)), 9),
        Err(GraphError::VertexNotFound)
    );
    // The same beam twice.
    assert_eq!(
        g.add_beam(VertexId(0), None, VertexId(1), None, 9),
        Err(GraphError::DuplicateBeam)
    );
}

#[test]
fn remove_beam_errors() {
    let mut g: Graph<u32> = Graph::default();
    g.add_beam(
        VertexId(0),
        Some(pos(0, 0, 0)),
        VertexId(1),
        Some(pos(10, 0, 0)),
        1,
    )
    .unwrap();
    assert!(matches!(
        g.remove_beam(bid(0, 2)),
        Err(GraphError::BeamNotFound)
    ));
    // Removing the last beam would leave a graph with zero structure.
    assert!(matches!(
        g.remove_beam(bid(0, 1)),
        Err(GraphError::EmptyGraphInvariantViolation)
    ));
}

#[test]
fn add_remove_round_trip() {
    // A chain 0 - 1 - 2; adding and removing a joining beam 0 - 2 restores
    // the vertex and beam sets.
    let mut g: Graph<u32> = Graph::default();
    g.add_beam(
        VertexId(0),
        Some(pos(0, 0, 0)),
        VertexId(1),
        Some(pos(10, 0, 0)),
        1,
    )
    .unwrap();
    g.add_beam(VertexId(1), None, VertexId(2), Some(pos(20, 0, 0)), 2)
        .unwrap();
    let before: Vec<VertexId> = g.iter_vertices();
    g.add_beam(VertexId(0), None, VertexId(2), None, 3).unwrap();
    let (data, split) = g.remove_beam(bid(0, 2)).unwrap();
    assert_eq!(data, 3);
    assert!(split.is_none());
    assert_eq!(g.iter_vertices(), before);
    assert_eq!(g.get_beam(bid(0, 1)), Some(&1));
    assert_eq!(g.get_beam(bid(1, 2)), Some(&2));
    assert_eq!(g.get_beam(bid(0, 2)), None);
}

#[test]
fn chain_removal_no_split() {
    // Two beams sharing a vertex: removing either leaves one connected
    // graph of one beam, no split, and drops the emptied vertices.
    let mut g: Graph<u32> = Graph::default();
    g.add_beam(
        VertexId(0),
        Some(pos(0, 0, 0)),
        VertexId(1),
        Some(pos(10, 0, 0)),
        1,
    )
    .unwrap();
    g.add_beam(VertexId(1), None, VertexId(2), Some(pos(20, 0, 0)), 2)
        .unwrap();
    let (data, split) = g.remove_beam(bid(0, 1)).unwrap();
    assert_eq!(data, 1);
    assert!(split.is_none());
    let mut left: Vec<u64> = g.iter_vertices().iter().map(|v| v.0).collect();
    left.sort();
    assert_eq!(left, vec![1, 2]);
    assert_eq!(g.get_beam(bid(1, 2)), Some(&2));
}

#[test]
fn square_with_diagonal_no_split() {
    // A square of four beams plus a diagonal: removing the diagonal leaves
    // the square connected; then removing one square edge still leaves a
    // path round the other side, so no split either.
    let mut g: Graph<u32> = Graph::default();
    g.add_beam(
        VertexId(0),
        Some(pos(0, 0, 0)),
        VertexId(1),
        Some(pos(10, 0, 0)),
        1,
    )
    .unwrap();
    g.add_beam(VertexId(1), None, VertexId(2), Some(pos(10, 10, 0)), 2)
        .unwrap();
    g.add_beam(VertexId(2), None, VertexId(3), Some(pos(0, 10, 0)), 3)
        .unwrap();
    g.add_beam(VertexId(3), None, VertexId(0), None, 4).unwrap();
    g.add_beam(VertexId(0), None, VertexId(2), None, 5).unwrap();
    let (_, split) = g.remove_beam(bid(0, 2)).unwrap();
    assert!(split.is_none());
    assert_eq!(g.iter_vertices().len(), 4);
    let (_, split) = g.remove_beam(bid(0, 1)).unwrap();
    assert!(split.is_none());
    assert_eq!(g.iter_vertices().len(), 4);
}

#[test]
fn bridge_removal_splits() {
    // Two beams with no shared vertex, joined by a third: removing the
    // joining beam must split the frame in two, the side of the up anchor
    // (the larger-id end) being reported as the detached component.
    let mut g: Graph<u32> = Graph::default();
    g.add_beam(
        VertexId(0),
        Some(pos(0, 0, 0)),
        VertexId(1),
        Some(pos(10, 0, 0)),
        1,
    )
    .unwrap();
    g.add_beam(
        VertexId(2),
        Some(pos(100, 0, 0)),
        VertexId(3),
        Some(pos(110, 0, 0)),
        2,
    )
    .unwrap();
    g.add_beam(VertexId(1), None, VertexId(2), None, 3).unwrap();
    let (data, split) = g.remove_beam(bid(1, 2)).unwrap();
    assert_eq!(data, 3);
    let part = split.expect("removal must split the frame");
    let mut ids: Vec<u64> = part.iter_vertices().iter().map(|v| v.0).collect();
    ids.sort();
    assert_eq!(ids, vec![2, 3]);
    assert_eq!(part.get_beam(bid(2, 3)), Some(&2));
    // The retained side keeps exactly the down anchor's component.
    let mut left: Vec<u64> = g.iter_vertices().iter().map(|v| v.0).collect();
    left.sort();
    assert_eq!(left, vec![0, 1]);
    assert_eq!(g.get_beam(bid(0, 1)), Some(&1));
    assert_eq!(g.get_beam(bid(2, 3)), None);
}

#[test]
fn snapshot_round_trip() {
    // A 3-vertex, 2-beam frame survives a full serialize / reconstruct
    // cycle: same positions, same payloads, same connection sets.
    let mut g: Graph<u32> = Graph::default();
    g.add_beam(
        VertexId(0),
        Some(pos(0, 0, 0)),
        VertexId(1),
        Some(pos(10, 0, 0)),
        7,
    )
    .unwrap();
    g.add_beam(VertexId(1), None, VertexId(2), Some(pos(20, 5, 0)), 8)
        .unwrap();
    let snap = serialize_graph(&g);
    let g2 = graph_from_snapshot(snap).expect("snapshot must reconstruct");
    for raw in [0u64, 1, 2] {
        let v1 = g.get_vertex(VertexId(raw)).unwrap();
        let v2 = g2.get_vertex(VertexId(raw)).unwrap();
        assert_eq!(v1.position(), v2.position());
        let mut c1: Vec<(u64, u64)> = v1
            .connections()
            .iter()
            .map(|e| (e.beam_id.down_vertex().0, e.beam_id.up_vertex().0))
            .collect();
        let mut c2: Vec<(u64, u64)> = v2
            .connections()
            .iter()
            .map(|e| (e.beam_id.down_vertex().0, e.beam_id.up_vertex().0))
            .collect();
        c1.sort();
        c2.sort();
        assert_eq!(c1, c2);
    }
    assert_eq!(g2.get_beam(bid(0, 1)), Some(&7));
    assert_eq!(g2.get_beam(bid(1, 2)), Some(&8));
}

#[test]
fn invalid_snapshot_rejected() {
    // A beam whose endpoint has no listed position is rejected whole.
    let snap: SerializedGraph<u32> = SerializedGraph {
        vertices: vec![(VertexId(0), pos(0, 0, 0))],
        beams: vec![(bid(0, 1), 1)],
    };
    assert!(matches!(
        graph_from_snapshot(snap),
        Err(GraphError::InvalidSnapshot)
    ));
    // An unreferenced (zero-degree) vertex is rejected too.
    let snap2: SerializedGraph<u32> = SerializedGraph {
        vertices: vec![
            (VertexId(0), pos(0, 0, 0)),
            (VertexId(1), pos(1, 0, 0)),
            (VertexId(9), pos(9, 9, 9)),
        ],
        beams: vec![(bid(0, 1), 1)],
    };
    assert!(matches!(
        graph_from_snapshot(snap2),
        Err(GraphError::InvalidSnapshot)
    ));
}

#[test]
fn server_edits_and_mirror_replay() {
    // The server builds a frame; a mirror built from its snapshot replays
    // the update stream and ends up with the same structure.
    let mut world = FrameIdWorld::default();
    let mut g: Graph<u32> = new_from_beam(&mut world, pos(0, 0, 0), pos(10, 0, 0), 1);
    let mut mirror = frame_from_snapshot(serialize_graph(&g)).unwrap();
    let u1 = add_beam_extend(&mut g, &mut world, VertexId(1), pos(20, 0, 0), 2).unwrap();
    let u2 = add_beam_join(&mut g, VertexId(0), VertexId(2), 3).unwrap();
    assert!(matches!(
        u1,
        FrameUpdate::AddBeam { vertex_b: VertexId(2), position_a: None, .. }
    ));
    apply_update(&mut mirror, u1).unwrap();
    apply_update(&mut mirror, u2).unwrap();
    apply_update(&mut mirror, FrameUpdate::RemoveBeam { id: bid(0, 2) }).unwrap();
    g.remove_beam(bid(0, 2)).unwrap();
    let mut a: Vec<u64> = g.iter_vertices().iter().map(|v| v.0).collect();
    let mut b: Vec<u64> = mirror.iter_vertices().iter().map(|v| v.0).collect();
    a.sort();
    b.sort();
    assert_eq!(a, b);
    assert_eq!(mirror.get_beam(bid(0, 1)), Some(&1));
    assert_eq!(mirror.get_beam(bid(1, 2)), Some(&2));
}

#[test]
fn join_rejects_already_connected() {
    let mut world = FrameIdWorld::default();
    let mut g: Graph<u32> = new_from_beam(&mut world, pos(0, 0, 0), pos(10, 0, 0), 1);
    assert!(matches!(
        add_beam_join(&mut g, VertexId(0), VertexId(1), 9),
        Err(GraphError::BeamAlreadyExists)
    ));
    assert!(matches!(
        add_beam_join(&mut g, VertexId(0), VertexId(7), 9),
        Err(GraphError::VertexNotFound)
    ));
    assert!(matches!(
        add_beam_extend(&mut g, &mut world, VertexId(7), pos(1, 1, 1), 9),
        Err(GraphError::VertexNotFound)
    ));
}

#[test]
fn remap_is_fresh_and_structure_preserving() {
    // Remapping the same fragment twice against an advancing allocator
    // yields two structurally matching graphs with disjoint id ranges, and
    // never reuses an id the authority already issued.
    let mut world = FrameIdWorld::default();
    let g0: Graph<u32> = new_from_beam(&mut world, pos(0, 0, 0), pos(10, 0, 0), 1);
    let fragment = serialize_graph(&g0);
    let frag2 = SerializedGraph {
        vertices: fragment.vertices.clone(),
        beams: fragment.beams.clone(),
    };
    let m1 = map_frame(&mut world, fragment).unwrap();
    let m2 = map_frame(&mut world, frag2).unwrap();
    let mut ids1: Vec<u64> = m1.iter_vertices().iter().map(|v| v.0).collect();
    let mut ids2: Vec<u64> = m2.iter_vertices().iter().map(|v| v.0).collect();
    ids1.sort();
    ids2.sort();
    // Fresh: nothing below the allocator state at remap time.
    assert!(ids1.iter().all(|i| *i >= 2));
    // Disjoint between the two remaps.
    assert!(ids1.iter().all(|i| !ids2.contains(i)));
    // Structurally matching: one beam joining the two vertices, same payload.
    assert_eq!(ids1.len(), 2);
    assert_eq!(ids2.len(), 2);
    assert_eq!(
        m1.get_beam(bid(ids1[0], ids1[1])),
        Some(&1)
    );
    assert_eq!(
        m2.get_beam(bid(ids2[0], ids2[1])),
        Some(&1)
    );
}

#[test]
fn set_beam_data_replaces_payload() {
    let mut g: Graph<u32> = Graph::default();
    g.add_beam(
        VertexId(0),
        Some(pos(0, 0, 0)),
        VertexId(1),
        Some(pos(10, 0, 0)),
        1,
    )
    .unwrap();
    assert_eq!(g.set_beam_data(bid(0, 1), 7), Ok(1));
    assert_eq!(g.get_beam(bid(0, 1)), Some(&7));
    assert_eq!(g.set_beam_data(bid(0, 2), 9), Err(GraphError::BeamNotFound));
}

#[test]
fn opposite_ends() {
    let id = bid(4, 9);
    let end_down = shipframe::BeamEnd {
        beam_id: id,
        beam_end: shipframe::BeamDirection::Down,
    };
    let end_up = shipframe::BeamEnd {
        beam_id: id,
        beam_end: shipframe::BeamDirection::Up,
    };
    assert_eq!(end_down.opposite(), VertexId(9));
    assert_eq!(end_up.opposite(), VertexId(4));
    assert_eq!(
        shipframe::BeamDirection::Down.opposite(),
        shipframe::BeamDirection::Up
    );
    assert_eq!(id.vertex(shipframe::BeamDirection::Up), VertexId(9));
}
