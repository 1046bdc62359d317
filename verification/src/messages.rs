//! The replication surface: a full-snapshot format for state transfer and
//! the incremental update message a server emits for its client mirrors.

use vstd::prelude::*;

use crate::graph::{vmodels, Graph, GraphModel, Vertex};
use crate::store::{distinct_keys, kv_contains, kv_map};
use crate::{BeamEnd, BeamId, GraphError, Position, VertexId};

verus! {

/// A flat, order-stable snapshot of a frame graph: every vertex with its
/// position, every beam with its payload.  Connection lists are not stored;
/// they are re-derived from the beam list on reconstruction.
pub struct SerializedGraph<B> {
    pub vertices: Vec<(VertexId, Position)>,
    pub beams: Vec<(BeamId, B)>,
}

impl<B> Default for SerializedGraph<B> {
    /// The empty snapshot.
    fn default() -> (r: Self)
        ensures
            r.vertices@.len() == 0,
            r.beams@.len() == 0,
    {
        SerializedGraph { vertices: Vec::new(), beams: Vec::new() }
    }
}

/// A discriminated update message: one beam added (a position is present
/// exactly when that vertex is newly created by the edit) or one removed.
pub enum FrameUpdate<B> {
    AddBeam {
        vertex_a: VertexId,
        position_a: Option<Position>,
        vertex_b: VertexId,
        position_b: Option<Position>,
        beam_data: B,
    },
    RemoveBeam { id: BeamId },
}

/// The snapshot's vertex list carries this id at this position.
pub open spec fn position_listed(vs: Seq<(VertexId, Position)>, v: VertexId, p: Position) -> bool {
    exists|j: int| #![trigger vs[j]] 0 <= j < vs.len() && vs[j] == (v, p)
}

/// Some beam of the list touches this vertex.
pub open spec fn lists_endpoint<B>(bs: Seq<(BeamId, B)>, v: VertexId) -> bool {
    exists|k: int|
        #![trigger bs[k]]
        0 <= k < bs.len() && ((bs[k].0.spec_down_vertex() == v) || (bs[k].0.spec_up_vertex() == v))
}

/// A snapshot that reconstructs: vertex keys and beam keys are unique,
/// every beam id is canonical with both endpoints listed in the vertex
/// list, and every listed vertex is an endpoint of some beam (a vertex
/// with no connection never exists in a frame graph).
pub open spec fn snapshot_ok<B>(vs: Seq<(VertexId, Position)>, bs: Seq<(BeamId, B)>) -> bool {
    &&& distinct_keys(vs)
    &&& distinct_keys(bs)
    &&& (forall|k: int| 0 <= k < bs.len() ==> (#[trigger] bs[k]).0.canonical())
    &&& (forall|k: int|
        0 <= k < bs.len() ==> kv_contains(vs, (#[trigger] bs[k]).0.spec_down_vertex())
            && kv_contains(vs, bs[k].0.spec_up_vertex()))
    &&& (forall|j: int| 0 <= j < vs.len() ==> lists_endpoint(bs, (#[trigger] vs[j]).0))
}

/// A full snapshot of the graph: vertices and beams in table order, each
/// vertex with its position, each beam with its payload.
pub fn serialize_graph<B: Copy>(g: &Graph<B>) -> (s: SerializedGraph<B>)
    requires
        g.inv(),
    ensures
        s.vertices@.len() == g.vertices@.len(),
        forall|i: int|
            0 <= i < s.vertices@.len() ==> (#[trigger] s.vertices@[i]) == (
                g.vertices@[i].0,
                g.vertices@[i].1@.position,
            ),
        s.beams@ == g.beams@,
{
    let mut vertices: Vec<(VertexId, Position)> = Vec::new();
    let mut beams: Vec<(BeamId, B)> = Vec::new();
    let nv = g.vertices.len();
    let mut i: usize = 0;
    while i < nv
        invariant
            nv == g.vertices@.len(),
            i <= nv,
            vertices@.len() == i,
            forall|j: int|
                0 <= j < i ==> (#[trigger] vertices@[j]) == (
                    g.vertices@[j].0,
                    g.vertices@[j].1@.position,
                ),
        decreases nv - i,
    {
        let id = g.vertices[i].0;
        let p = g.vertices[i].1.position;
        vertices.push((id, p));
        i += 1;
    }
    let nb = g.beams.len();
    let mut k: usize = 0;
    while k < nb
        invariant
            nb == g.beams@.len(),
            k <= nb,
            beams@.len() == k,
            forall|j: int| 0 <= j < k ==> (#[trigger] beams@[j]) == g.beams@[j],
        decreases nb - k,
    {
        let pair = g.beams[k];
        beams.push(pair);
        k += 1;
    }
    proof {
        assert(beams@ =~= g.beams@);
    }
    SerializedGraph { vertices, beams }
}

/// The position stored for a vertex id, searching front to back.
fn find_position(vs: &Vec<(VertexId, Position)>, id: VertexId) -> (r: Option<Position>)
    ensures
        match r {
            Some(p) => position_listed(vs@, id, p),
            None => forall|j: int| 0 <= j < vs@.len() ==> (#[trigger] vs@[j]).0 != id,
        },
{
    let n = vs.len();
    let mut j: usize = 0;
    while j < n
        invariant
            n == vs@.len(),
            j <= n,
            forall|k: int| 0 <= k < j ==> (#[trigger] vs@[k]).0 != id,
        decreases n - j,
    {
        if vs[j].0 == id {
            proof {
                assert(vs@[j as int] == (id, vs@[j as int].1));
            }
            return Some(vs[j].1);
        }
        j += 1;
    }
    None
}

/// Reconstructs a graph from a snapshot by replaying one beam insertion per
/// listed beam, deriving every vertex's connection list from the beam list
/// as the snapshot format prescribes.  A snapshot whose beam list is
/// inconsistent (a non-canonical or repeated beam id, an endpoint without a
/// listed position) or whose vertex list does not exactly cover the beams'
/// endpoints (a repeated or never-referenced vertex) is rejected whole.
pub fn graph_from_snapshot<B>(s: SerializedGraph<B>) -> (r: Result<Graph<B>, GraphError>)
    ensures
        r is Ok <==> snapshot_ok(s.vertices@, s.beams@),
        match r {
            Ok(g) => {
                &&& g.inv()
                &&& g@.beams == kv_map(s.beams@)
                &&& distinct_keys(s.beams@)
                &&& g.vertices@.len() == s.vertices@.len()
                &&& (forall|v: VertexId|
                    #[trigger] g@.vertices.dom().contains(v) <==> lists_endpoint(s.beams@, v))
                &&& (forall|v: VertexId|
                    #[trigger] g@.vertices.dom().contains(v) ==> position_listed(
                        s.vertices@,
                        v,
                        g@.vertices[v].position,
                    ))
            },
            Err(e) => e == GraphError::InvalidSnapshot,
        },
{
    let ghost origb = s.beams@;
    let ghost origv = s.vertices@;
    let mut snap = s;
    let mut g: Graph<B> = Graph::default();
    let ghost mut i: int = 0;
    proof {
        assert(snap.beams@ =~= origb.skip(0));
        assert(origb.take(0) =~= Seq::<(BeamId, B)>::empty());
        assert(g@.beams =~= kv_map(origb.take(0)));
    }
    while snap.beams.len() > 0
        invariant
            origv == s.vertices@,
            origb == s.beams@,
            0 <= i <= origb.len(),
            snap.beams@ == origb.skip(i),
            snap.vertices@ == origv,
            g.inv(),
            g@.beams == kv_map(origb.take(i)),
            distinct_keys(origb.take(i)),
            forall|v: VertexId|
                #[trigger] g@.vertices.dom().contains(v) <==> lists_endpoint(origb.take(i), v),
            forall|v: VertexId|
                #[trigger] g@.vertices.dom().contains(v) ==> position_listed(
                    origv,
                    v,
                    g@.vertices[v].position,
                ),
        decreases snap.beams@.len(),
    {
        let pair = snap.beams.remove(0);
        proof {
            assert(pair == origb[i]);
            assert(snap.beams@ =~= origb.skip(i + 1));
        }
        let bid = pair.0;
        let down = bid.down_vertex();
        let up = bid.up_vertex();
        if !(down.0 < up.0) {
            proof {
                assert(!origb[i].0.canonical());
            }
            return Err(GraphError::InvalidSnapshot);
        }
        let pa = match g.get_vertex(down) {
            Some(_) => None,
            None => match find_position(&snap.vertices, down) {
                Some(p) => Some(p),
                None => {
                    proof {
                        assert(!kv_contains(origv, origb[i].0.spec_down_vertex())) by {
                            if kv_contains(origv, down) {
                                let j = choose|j: int|
                                    0 <= j < origv.len() && (#[trigger] origv[j]).0 == down;
                            }
                        }
                    }
                    return Err(GraphError::InvalidSnapshot);
                },
            },
        };
        let pb = match g.get_vertex(up) {
            Some(_) => None,
            None => match find_position(&snap.vertices, up) {
                Some(p) => Some(p),
                None => {
                    proof {
                        assert(!kv_contains(origv, origb[i].0.spec_up_vertex())) by {
                            if kv_contains(origv, up) {
                                let j = choose|j: int|
                                    0 <= j < origv.len() && (#[trigger] origv[j]).0 == up;
                            }
                        }
                    }
                    return Err(GraphError::InvalidSnapshot);
                },
            },
        };
        let ghost g0 = g@;
        match g.add_beam(down, pa, up, pb, pair.1) {
            Ok(_) => {},
            Err(_) => {
                proof {
                    // Only a repeated beam id can fail here: the endpoints
                    // are distinct and each is created or connected exactly
                    // as it is absent or present.
                    assert(g0.add_beam_check(down, pa, up, pb) == Err::<(), GraphError>(
                        GraphError::DuplicateBeam,
                    ));
                    assert(BeamId::spec_from_vertices(down, up) == bid);
                    assert(g0.beams.dom().contains(bid));
                    assert(kv_contains(origb.take(i), bid));
                    let k = choose|k: int|
                        0 <= k < origb.take(i).len() && (#[trigger] origb.take(i)[k]).0 == bid;
                    assert(origb[k].0 == origb[i].0);
                    assert(!distinct_keys(origb));
                }
                return Err(GraphError::InvalidSnapshot);
            },
        }
        proof {
            assert(BeamId::spec_from_vertices(down, up) == bid);
            // The replayed beam was fresh, so the beam table extends by one.
            assert(!kv_contains(origb.take(i), bid)) by {
                if kv_contains(origb.take(i), bid) {
                    assert(kv_map(origb.take(i)).dom().contains(bid));
                    assert(g0.beams.dom().contains(bid));
                }
            }
            crate::store::lemma_kv_push_fresh(origb.take(i), bid, pair.1);
            assert(origb.take(i + 1) =~= origb.take(i).push((bid, pair.1)));
            assert(g@.beams =~= kv_map(origb.take(i + 1)));
            // The vertex table extends by exactly the two endpoints.
            assert forall|v: VertexId| #[trigger] g@.vertices.dom().contains(v)
                <==> lists_endpoint(origb.take(i + 1), v) by {
                if g@.vertices.dom().contains(v) {
                    if v == down || v == up {
                        assert(origb.take(i + 1)[i] == (bid, pair.1));
                        assert(lists_endpoint(origb.take(i + 1), v));
                    } else {
                        assert(g0.vertices.dom().contains(v));
                        assert(lists_endpoint(origb.take(i), v));
                        let k = choose|k: int|
                            #![trigger origb.take(i)[k]]
                            0 <= k < origb.take(i).len() && ((origb.take(i)[k].0.spec_down_vertex() == v)
                                || (origb.take(i)[k].0.spec_up_vertex() == v));
                        assert(origb.take(i + 1)[k] == origb.take(i)[k]);
                        assert(lists_endpoint(origb.take(i + 1), v));
                    }
                }
                if lists_endpoint(origb.take(i + 1), v) {
                    let k = choose|k: int|
                        #![trigger origb.take(i + 1)[k]]
                        0 <= k < origb.take(i + 1).len() && ((origb.take(i + 1)[k].0.spec_down_vertex() == v)
                            || (origb.take(i + 1)[k].0.spec_up_vertex() == v));
                    if k < i {
                        assert(origb.take(i)[k] == origb.take(i + 1)[k]);
                        assert(lists_endpoint(origb.take(i), v));
                        assert(g0.vertices.dom().contains(v));
                    } else {
                        assert(v == down || v == up);
                    }
                    assert(g@.vertices.dom().contains(v));
                }
            }
            // Positions: a created endpoint got its listed position, an
            // existing one kept its own.
            assert forall|v: VertexId| #[trigger] g@.vertices.dom().contains(v)
                implies position_listed(origv, v, g@.vertices[v].position) by {
                if v == down && pa is Some {
                } else if v == up && pb is Some {
                } else if v == down || v == up {
                    assert(g@.vertices[v].position == g0.vertices[v].position);
                } else {
                    assert(g@.vertices[v] == g0.vertices[v]);
                }
            }
        }
        proof {
            i = i + 1;
        }
    }
    proof {
        assert(origb.take(i) =~= origb);
    }
    if g.vertices.len() != snap.vertices.len() {
        proof {
            // A snapshot whose vertex list exactly covers the beams'
            // endpoints reconstructs with equal vertex counts, so this
            // mismatch convicts the vertex list.
            if snapshot_ok(origv, origb) {
                let dom = g@.vertices.dom();
                assert(dom =~= kv_map(origv).dom()) by {
                    assert forall|v: VertexId| dom.contains(v) implies kv_map(
                        origv,
                    ).dom().contains(v) by {
                        assert(position_listed(origv, v, g@.vertices[v].position));
                        let j = choose|j: int|
                            #![trigger origv[j]]
                            0 <= j < origv.len() && origv[j] == (v, g@.vertices[v].position);
                        assert(origv[j].0 == v);
                        assert(kv_contains(origv, v));
                    }
                    assert forall|v: VertexId| kv_map(origv).dom().contains(v) implies dom.contains(
                        v,
                    ) by {
                        let j = choose|j: int| 0 <= j < origv.len() && (#[trigger] origv[j]).0 == v;
                        assert(lists_endpoint(origb, origv[j].0));
                    }
                }
                assert forall|p: int, q: int| 0 <= p < q < crate::graph::vmodels(
                    g.vertices@,
                ).len() implies (#[trigger] crate::graph::vmodels(g.vertices@)[p]).0 != (
                #[trigger] crate::graph::vmodels(g.vertices@)[q]).0 by {
                }
                crate::store::lemma_kv_dom_len(crate::graph::vmodels(g.vertices@));
                crate::store::lemma_kv_dom_len(origv);
                assert(false);
            }
        }
        return Err(GraphError::InvalidSnapshot);
    }
    proof {
        // The snapshot reconstructed, so each validity condition holds.
        assert(distinct_keys(origb));
        assert forall|k: int| 0 <= k < origb.len() implies (#[trigger] origb[k]).0.canonical()
            && kv_contains(origv, origb[k].0.spec_down_vertex()) && kv_contains(
            origv,
            origb[k].0.spec_up_vertex(),
        ) by {
            crate::store::lemma_kv_get_at(origb, k);
            assert(g@.beams.dom().contains(origb[k].0));
            assert(g@.wf_beam(origb[k].0));
            assert(g@.vertices.dom().contains(origb[k].0.spec_down_vertex()));
            assert(g@.vertices.dom().contains(origb[k].0.spec_up_vertex()));
            assert forall|v: VertexId|
                (v == origb[k].0.spec_down_vertex() || v == origb[k].0.spec_up_vertex())
                implies kv_contains(origv, v) by {
                assert(position_listed(origv, v, g@.vertices[v].position));
                let j = choose|j: int|
                    #![trigger origv[j]]
                    0 <= j < origv.len() && origv[j] == (v, g@.vertices[v].position);
                assert(origv[j].0 == v);
            }
        }
        // The vertex list's keys are exactly the reconstructed vertex set.
        let dom = g@.vertices.dom();
        assert(dom.subset_of(kv_map(origv).dom())) by {
            assert forall|v: VertexId| dom.contains(v) implies kv_map(origv).dom().contains(
                v,
            ) by {
                assert(position_listed(origv, v, g@.vertices[v].position));
                let j = choose|j: int|
                    #![trigger origv[j]]
                    0 <= j < origv.len() && origv[j] == (v, g@.vertices[v].position);
                assert(origv[j].0 == v);
                assert(kv_contains(origv, v));
            }
        }
        assert forall|p: int, q: int| 0 <= p < q < crate::graph::vmodels(g.vertices@).len() implies
            (#[trigger] crate::graph::vmodels(g.vertices@)[p]).0 != (#[trigger] crate::graph::vmodels(
            g.vertices@,
        )[q]).0 by {
        }
        crate::store::lemma_kv_dom_len(crate::graph::vmodels(g.vertices@));
        crate::store::lemma_kv_dom_len_le(origv);
        vstd::set_lib::lemma_len_subset(dom, kv_map(origv).dom());
        assert(kv_map(origv).dom().len() == origv.len());
        crate::store::lemma_full_dom_distinct(origv);
        vstd::set_lib::lemma_subset_equality(dom, kv_map(origv).dom());
        assert forall|j: int| 0 <= j < origv.len() implies lists_endpoint(
            origb,
            (#[trigger] origv[j]).0,
        ) by {
            assert(kv_contains(origv, origv[j].0));
            assert(kv_map(origv).dom().contains(origv[j].0));
            assert(dom.contains(origv[j].0));
        }
        assert(snapshot_ok(origv, origb));
    }
    Ok(g)
}

/// A snapshot taken of a well-formed graph is valid, so reconstructing it
/// is owed to succeed.  The snapshot is given as `serialize_graph` states
/// it: the vertex list pairs the graph's vertex table entrywise, the beam
/// list is the beam table.
pub proof fn lemma_serialized_snapshot_ok<B>(
    m: GraphModel<B>,
    rv: Seq<(VertexId, Vertex)>,
    vs: Seq<(VertexId, Position)>,
    bs: Seq<(BeamId, B)>,
)
    requires
        m.wf(),
        distinct_keys(vmodels(rv)),
        m.vertices == kv_map(vmodels(rv)),
        m.beams == kv_map(bs),
        distinct_keys(bs),
        vs.len() == rv.len(),
        forall|i: int| 0 <= i < vs.len() ==> (#[trigger] vs[i]) == (rv[i].0, rv[i].1@.position),
    ensures
        snapshot_ok(vs, bs),
{
    assert forall|i: int, j: int| 0 <= i < j < vs.len() implies (#[trigger] vs[i]).0 != (
    #[trigger] vs[j]).0 by {
        assert(vmodels(rv)[i].0 == rv[i].0);
        assert(vmodels(rv)[j].0 == rv[j].0);
        assert(vmodels(rv)[i].0 != vmodels(rv)[j].0);
    }
    assert forall|k: int| 0 <= k < bs.len() implies (#[trigger] bs[k]).0.canonical()
        && kv_contains(vs, bs[k].0.spec_down_vertex()) && kv_contains(
        vs,
        bs[k].0.spec_up_vertex(),
    ) by {
        crate::store::lemma_kv_get_at(bs, k);
        assert(m.beams.dom().contains(bs[k].0));
        assert(m.wf_beam(bs[k].0));
        assert forall|v: VertexId|
            (v == bs[k].0.spec_down_vertex() || v == bs[k].0.spec_up_vertex()) implies kv_contains(
            vs,
            v,
        ) by {
            assert(m.vertices.dom().contains(v));
            let j = choose|j: int| 0 <= j < vmodels(rv).len() && (#[trigger] vmodels(rv)[j]).0 == v;
            assert(rv[j].0 == v);
            assert(vs[j].0 == v);
        }
    }
    assert forall|j: int| 0 <= j < vs.len() implies lists_endpoint(bs, (#[trigger] vs[j]).0) by {
        assert(vmodels(rv)[j].0 == rv[j].0);
        crate::store::lemma_kv_get_at(vmodels(rv), j);
        let v = rv[j].0;
        assert(m.vertices.dom().contains(v));
        assert(m.wf_vertex(v));
        let conns = m.vertices[v].connections;
        assert(conns.len() > 0);
        let e = conns[0];
        assert(m.beams.dom().contains(e.beam_id));
        let k = choose|k: int| 0 <= k < bs.len() && (#[trigger] bs[k]).0 == e.beam_id;
        assert(e.spec_here() == v);
        assert(bs[k].0.spec_down_vertex() == v || bs[k].0.spec_up_vertex() == v);
        assert(vs[j].0 == v);
    }
}

/// Reconstructing a snapshot of a well-formed graph reproduces it: the
/// same beams with the same payloads, the same vertex set with the same
/// positions, and every vertex's connection set — only the order within a
/// connection list may differ.
pub proof fn lemma_snapshot_round_trip<B>(
    m: GraphModel<B>,
    rv: Seq<(VertexId, Vertex)>,
    vs: Seq<(VertexId, Position)>,
    bs: Seq<(BeamId, B)>,
    m2: GraphModel<B>,
)
    requires
        m.wf(),
        distinct_keys(vmodels(rv)),
        m.vertices == kv_map(vmodels(rv)),
        m.beams == kv_map(bs),
        distinct_keys(bs),
        vs.len() == rv.len(),
        forall|i: int| 0 <= i < vs.len() ==> (#[trigger] vs[i]) == (rv[i].0, rv[i].1@.position),
        m2.wf(),
        m2.beams == kv_map(bs),
        forall|v: VertexId| #[trigger] m2.vertices.dom().contains(v) <==> lists_endpoint(bs, v),
        forall|v: VertexId|
            #[trigger] m2.vertices.dom().contains(v) ==> position_listed(
                vs,
                v,
                m2.vertices[v].position,
            ),
    ensures
        m2.beams == m.beams,
        m2.vertices.dom() == m.vertices.dom(),
        forall|v: VertexId|
            #[trigger] m.vertices.dom().contains(v) ==> m2.vertices[v].position
                == m.vertices[v].position,
        forall|v: VertexId, e: BeamEnd|
            m.vertices.dom().contains(v) ==> ((#[trigger] m2.vertices[v].connections.contains(e))
                <==> m.vertices[v].connections.contains(e)),
{
    // The vertex sets coincide: both are the beams' endpoint sets.
    assert forall|v: VertexId| #[trigger] m.vertices.dom().contains(v) implies lists_endpoint(
        bs,
        v,
    ) by {
        assert(m.wf_vertex(v));
        let conns = m.vertices[v].connections;
        assert(conns.len() > 0);
        let e = conns[0];
        assert(m.beams.dom().contains(e.beam_id));
        let k = choose|k: int| 0 <= k < bs.len() && (#[trigger] bs[k]).0 == e.beam_id;
        assert(e.spec_here() == v);
        assert(bs[k].0.spec_down_vertex() == v || bs[k].0.spec_up_vertex() == v);
    }
    assert forall|v: VertexId| lists_endpoint(bs, v) implies m.vertices.dom().contains(v) by {
        let k = choose|k: int|
            #![trigger bs[k]]
            0 <= k < bs.len() && ((bs[k].0.spec_down_vertex() == v) || (bs[k].0.spec_up_vertex()
                == v));
        crate::store::lemma_kv_get_at(bs, k);
        assert(m.beams.dom().contains(bs[k].0));
        assert(m.wf_beam(bs[k].0));
    }
    assert(m2.vertices.dom() =~= m.vertices.dom());
    // Positions: the listed position of a vertex is its table entry.
    assert forall|v: VertexId| #[trigger] m.vertices.dom().contains(v)
        implies m2.vertices[v].position == m.vertices[v].position by {
        assert(m2.vertices.dom().contains(v));
        assert(position_listed(vs, v, m2.vertices[v].position));
        let j = choose|j: int|
            #![trigger vs[j]]
            0 <= j < vs.len() && vs[j] == (v, m2.vertices[v].position);
        assert(vs[j] == (rv[j].0, rv[j].1@.position));
        assert(rv[j].0 == v);
        assert(vmodels(rv)[j].0 == v);
        crate::store::lemma_kv_get_at(vmodels(rv), j);
        assert(m.vertices[v] == vmodels(rv)[j].1);
        assert(m.vertices[v].position == rv[j].1@.position);
    }
    // Connection sets: both well-formed graphs share the beam table, which
    // determines every connection list up to order.
    assert forall|v: VertexId, e: BeamEnd| m.vertices.dom().contains(v) implies ((
    #[trigger] m2.vertices[v].connections.contains(e)) <==> m.vertices[v].connections.contains(
        e,
    )) by {
        crate::graph::lemma_wf_connections_characterized(m, v, e);
        assert(m2.vertices.dom().contains(v));
        crate::graph::lemma_wf_connections_characterized(m2, v, e);
    }
}

} // verus!
