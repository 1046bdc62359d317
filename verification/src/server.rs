//! The authority side: the session-scoped id allocator and the edits a
//! server performs on its canonical frame, each returning the update
//! message a client mirror replays.

use vstd::prelude::*;

use crate::graph::{Graph, GraphModel, VertexModel};
use crate::messages::{
    graph_from_snapshot, lists_endpoint, position_listed, snapshot_ok, FrameUpdate,
    SerializedGraph,
};
use crate::store::{distinct_keys, kv_contains, kv_map};
use crate::{BeamId, GraphError, Position, VertexId};

verus! {

/// A monotonic counter issuing fresh, process-unique vertex ids.  Ids are
/// never recycled within one allocator's lifetime; beam ids are never
/// allocated, always derived from their two endpoints.
pub struct FrameIdWorld {
    pub next_id: u64,
}

impl Default for FrameIdWorld {
    /// A fresh allocator, starting at zero.
    fn default() -> (r: Self)
        ensures
            r.next_id == 0,
    {
        FrameIdWorld { next_id: 0 }
    }
}

impl FrameIdWorld {
    /// The next fresh vertex id.
    pub fn next(&mut self) -> (r: VertexId)
        requires
            old(self).next_id < u64::MAX,
        ensures
            r == VertexId(old(self).next_id),
            final(self).next_id == old(self).next_id + 1,
    {
        let id = VertexId(self.next_id);
        self.next_id = self.next_id + 1;
        id
    }
}

/// Every vertex id of the graph was issued before the given counter value,
/// so the allocator's next id is certainly fresh for it.
pub open spec fn ids_below<B>(m: GraphModel<B>, bound: u64) -> bool {
    forall|v: VertexId| #[trigger] m.vertices.dom().contains(v) ==> v.0 < bound
}

/// A graph whose vertices all carry positions listed in a snapshot's
/// vertex list inherits any id bound on that list: this carries the
/// allocator-freshness invariant through snapshot loading, since a
/// reconstructed graph's ensures list every vertex's position.
pub proof fn lemma_listed_ids_below<B>(
    m: GraphModel<B>,
    vs: Seq<(VertexId, Position)>,
    bound: u64,
)
    requires
        forall|v: VertexId|
            #[trigger] m.vertices.dom().contains(v) ==> position_listed(
                vs,
                v,
                m.vertices[v].position,
            ),
        forall|j: int| 0 <= j < vs.len() ==> (#[trigger] vs[j]).0.0 < bound,
    ensures
        ids_below(m, bound),
{
    assert forall|v: VertexId| #[trigger] m.vertices.dom().contains(v) implies v.0 < bound by {
        assert(position_listed(vs, v, m.vertices[v].position));
        let j = choose|j: int|
            #![trigger vs[j]]
            0 <= j < vs.len() && vs[j] == (v, m.vertices[v].position);
        assert(vs[j].0 == v);
    }
}

/// A brand-new frame: one beam between two freshly allocated vertices.
pub fn new_from_beam<B>(
    id_world: &mut FrameIdWorld,
    position_a: Position,
    position_b: Position,
    beam_data: B,
) -> (g: Graph<B>)
    requires
        old(id_world).next_id + 2 <= u64::MAX,
    ensures
        g.inv(),
        final(id_world).next_id == old(id_world).next_id + 2,
        g@ == (GraphModel {
            vertices: Map::<VertexId, VertexModel>::empty(),
            beams: Map::<BeamId, B>::empty(),
        }).spec_add_beam(
            VertexId(old(id_world).next_id),
            Some(position_a),
            VertexId((old(id_world).next_id + 1) as u64),
            Some(position_b),
            beam_data,
        ),
        ids_below(g@, final(id_world).next_id),
{
    let mut graph: Graph<B> = Graph::default();
    let vertex_a = id_world.next();
    let vertex_b = id_world.next();
    let ghost m0 = graph@;
    match graph.add_beam(vertex_a, Some(position_a), vertex_b, Some(position_b), beam_data) {
        Ok(_) => {},
        Err(_) => {
            proof {
                assert(m0.add_beam_check(vertex_a, Some(position_a), vertex_b, Some(position_b))
                    is Ok);
                assert(false);
            }
        },
    }
    proof {
        assert forall|v: VertexId| #[trigger] graph@.vertices.dom().contains(v) implies v.0
            < id_world.next_id by {
            assert(v == vertex_a || v == vertex_b);
        }
    }
    graph
}

/// Extends the frame: a fresh vertex at the given position, connected to an
/// existing one; returns the update message a mirror replays.  Rejected,
/// with the allocator untouched, exactly when the existing vertex is
/// absent.
pub fn add_beam_extend<B: Copy>(
    g: &mut Graph<B>,
    id_world: &mut FrameIdWorld,
    existing_vertex: VertexId,
    position: Position,
    beam_data: B,
) -> (r: Result<FrameUpdate<B>, GraphError>)
    requires
        old(g).inv(),
        old(id_world).next_id < u64::MAX,
        ids_below(old(g)@, old(id_world).next_id),
    ensures
        final(g).inv(),
        match r {
            Ok(u) => {
                &&& old(g)@.vertices.dom().contains(existing_vertex)
                &&& final(id_world).next_id == old(id_world).next_id + 1
                &&& final(g)@ == old(g)@.spec_add_beam(
                    existing_vertex,
                    None,
                    VertexId(old(id_world).next_id),
                    Some(position),
                    beam_data,
                )
                &&& u == (FrameUpdate::AddBeam {
                    vertex_a: existing_vertex,
                    position_a: None,
                    vertex_b: VertexId(old(id_world).next_id),
                    position_b: Some(position),
                    beam_data,
                })
                &&& ids_below(final(g)@, final(id_world).next_id)
            },
            Err(e) => {
                &&& e == GraphError::VertexNotFound
                &&& !old(g)@.vertices.dom().contains(existing_vertex)
                &&& *final(g) == *old(g)
                &&& *final(id_world) == *old(id_world)
            },
        },
{
    if g.get_vertex(existing_vertex).is_none() {
        return Err(GraphError::VertexNotFound);
    }
    let ghost m0 = g@;
    let new_vertex = id_world.next();
    proof {
        assert(!m0.vertices.dom().contains(new_vertex));
        assert(existing_vertex != new_vertex);
        let bid = BeamId::spec_from_vertices(existing_vertex, new_vertex);
        if m0.beams.dom().contains(bid) {
            assert(m0.wf_beam(bid));
            assert(bid.spec_down_vertex() == new_vertex || bid.spec_up_vertex() == new_vertex);
            assert(m0.vertices.dom().contains(new_vertex));
        }
        assert(m0.add_beam_check(existing_vertex, None, new_vertex, Some(position)) is Ok);
    }
    match g.add_beam(existing_vertex, None, new_vertex, Some(position), beam_data) {
        Ok(_) => {
            proof {
                assert forall|v: VertexId| #[trigger] g@.vertices.dom().contains(v) implies v.0
                    < id_world.next_id by {
                    if v != existing_vertex && v != new_vertex {
                        assert(m0.vertices.dom().contains(v));
                    }
                }
            }
            Ok(
                FrameUpdate::AddBeam {
                    vertex_a: existing_vertex,
                    position_a: None,
                    vertex_b: new_vertex,
                    position_b: Some(position),
                    beam_data,
                },
            )
        },
        Err(e) => {
            proof {
                assert(false);
            }
            Err(e)
        },
    }
}

/// Joins two already-existing vertices with a new beam; returns the update
/// message a mirror replays.  Rejected when either vertex is absent, when
/// both are the same, or — as [`GraphError::BeamAlreadyExists`] — when a
/// beam already connects them.
pub fn add_beam_join<B: Copy>(
    g: &mut Graph<B>,
    vertex_a: VertexId,
    vertex_b: VertexId,
    beam_data: B,
) -> (r: Result<FrameUpdate<B>, GraphError>)
    requires
        old(g).inv(),
    ensures
        final(g).inv(),
        ({
            let chk = old(g)@.add_beam_check(vertex_a, None, vertex_b, None);
            match r {
                Ok(u) => {
                    &&& chk is Ok
                    &&& final(g)@ == old(g)@.spec_add_beam(
                        vertex_a,
                        None,
                        vertex_b,
                        None,
                        beam_data,
                    )
                    &&& u == (FrameUpdate::AddBeam {
                        vertex_a,
                        position_a: None,
                        vertex_b,
                        position_b: None,
                        beam_data,
                    })
                },
                Err(e) => {
                    &&& chk is Err
                    &&& e == (if chk->Err_0 == GraphError::DuplicateBeam {
                        GraphError::BeamAlreadyExists
                    } else {
                        chk->Err_0
                    })
                    &&& *final(g) == *old(g)
                },
            }
        }),
{
    match g.add_beam(vertex_a, None, vertex_b, None, beam_data) {
        Ok(_) => Ok(
            FrameUpdate::AddBeam {
                vertex_a,
                position_a: None,
                vertex_b,
                position_b: None,
                beam_data,
            },
        ),
        Err(GraphError::DuplicateBeam) => Err(GraphError::BeamAlreadyExists),
        Err(e) => Err(e),
    }
}

/// One vertex entry, remapped: the id through `f`, the position kept.
pub open spec fn vertex_entry_mapped(
    f: Map<VertexId, VertexId>,
    e0: (VertexId, Position),
    e1: (VertexId, Position),
) -> bool {
    f.dom().contains(e0.0) && e1 == (f[e0.0], e0.1)
}

/// One beam entry, remapped: the id recomputed from the remapped endpoint
/// pair, the payload kept.
pub open spec fn beam_entry_mapped<B>(
    f: Map<VertexId, VertexId>,
    e0: (BeamId, B),
    e1: (BeamId, B),
) -> bool {
    let d = e0.0.spec_down_vertex();
    let u = e0.0.spec_up_vertex();
    f.dom().contains(d) && f.dom().contains(u) && e1 == (
        BeamId::spec_from_vertices(f[d], f[u]),
        e0.1,
    )
}

/// `f` remaps the fragment's id namespace: every id maps to a fresh
/// allocator-issued id in `[lo, hi)`, injectively; the vertex list is
/// mapped entrywise with positions kept; each beam id is recomputed from
/// its remapped endpoints, payloads kept.
pub open spec fn remap_ok<B>(
    f: Map<VertexId, VertexId>,
    v0: Seq<(VertexId, Position)>,
    b0: Seq<(BeamId, B)>,
    v1: Seq<(VertexId, Position)>,
    b1: Seq<(BeamId, B)>,
    lo: u64,
    hi: u64,
) -> bool {
    &&& v1.len() == v0.len()
    &&& b1.len() == b0.len()
    &&& (forall|i: int| 0 <= i < v0.len() ==> vertex_entry_mapped(f, #[trigger] v0[i], v1[i]))
    &&& (forall|i: int| 0 <= i < b0.len() ==> beam_entry_mapped(f, #[trigger] b0[i], b1[i]))
    &&& (forall|v: VertexId| #[trigger] f.dom().contains(v) ==> lo <= f[v].0 < hi)
    &&& (forall|v: VertexId, w: VertexId|
        f.dom().contains(v) && f.dom().contains(w) && v != w ==> (#[trigger] f[v]) != (
        #[trigger] f[w]))
}

/// What `map_frame` hands back on success: a remapped snapshot `(v1, b1)`
/// of the fragment under `f`, reconstructed into the graph model `gm`.
pub open spec fn frame_mapped<B>(
    f: Map<VertexId, VertexId>,
    v0: Seq<(VertexId, Position)>,
    b0: Seq<(BeamId, B)>,
    v1: Seq<(VertexId, Position)>,
    b1: Seq<(BeamId, B)>,
    gm: GraphModel<B>,
    gvlen: int,
    lo: u64,
    hi: u64,
) -> bool {
    &&& remap_ok(f, v0, b0, v1, b1, lo, hi)
    &&& gm.beams == kv_map(b1)
    &&& distinct_keys(b1)
    &&& gvlen == v1.len()
    &&& (forall|v: VertexId| #[trigger] gm.vertices.dom().contains(v) <==> lists_endpoint(b1, v))
    &&& (forall|v: VertexId|
        #[trigger] gm.vertices.dom().contains(v) ==> position_listed(
            v1,
            v,
            gm.vertices[v].position,
        ))
}

/// Looks up, or allocates and memoizes, the authority id for a fragment
/// id.  Repeated appearances of the same fragment id reuse the same
/// mapping; distinct fragment ids never share an authority id.
fn remap_id(memo: &mut Vec<(VertexId, VertexId)>, id_world: &mut FrameIdWorld, id: VertexId) -> (r:
    VertexId)
    requires
        distinct_keys(old(memo)@),
        old(id_world).next_id < u64::MAX,
        forall|k: int|
            0 <= k < old(memo)@.len() ==> (#[trigger] old(memo)@[k]).1.0 < old(id_world).next_id,
        forall|k1: int, k2: int|
            0 <= k1 < k2 < old(memo)@.len() ==> (#[trigger] old(memo)@[k1]).1 != (
            #[trigger] old(memo)@[k2]).1,
    ensures
        distinct_keys(final(memo)@),
        kv_contains(final(memo)@, id),
        r == kv_map(final(memo)@)[id],
        kv_contains(old(memo)@, id) ==> final(memo)@ == old(memo)@ && *final(id_world) == *old(id_world),
        !kv_contains(old(memo)@, id) ==> final(memo)@ == old(memo)@.push(
            (id, VertexId(old(id_world).next_id)),
        ) && final(id_world).next_id == old(id_world).next_id + 1,
        forall|k: int|
            0 <= k < final(memo)@.len() ==> (#[trigger] final(memo)@[k]).1.0 < final(id_world).next_id,
        forall|k1: int, k2: int|
            0 <= k1 < k2 < final(memo)@.len() ==> (#[trigger] final(memo)@[k1]).1 != (
            #[trigger] final(memo)@[k2]).1,
{
    let n = memo.len();
    let mut k: usize = 0;
    while k < n
        invariant
            n == memo@.len(),
            k <= n,
            distinct_keys(memo@),
            forall|j: int| 0 <= j < k ==> (#[trigger] memo@[j]).0 != id,
            forall|j: int| 0 <= j < memo@.len() ==> (#[trigger] memo@[j]).1.0 < id_world.next_id,
            forall|k1: int, k2: int|
                0 <= k1 < k2 < memo@.len() ==> (#[trigger] memo@[k1]).1 != (
                #[trigger] memo@[k2]).1,
        decreases n - k,
    {
        if memo[k].0 == id {
            proof {
                crate::store::lemma_kv_get_at(memo@, k as int);
            }
            return memo[k].1;
        }
        k += 1;
    }
    let nid = id_world.next();
    let ghost m0 = memo@;
    memo.push((id, nid));
    proof {
        assert(!kv_contains(m0, id)) by {
            if kv_contains(m0, id) {
                let j = choose|j: int| 0 <= j < m0.len() && (#[trigger] m0[j]).0 == id;
            }
        }
        crate::store::lemma_kv_push_fresh(m0, id, nid);
        crate::store::lemma_kv_get_at(memo@, n as int);
    }
    nid
}

/// Maps a graph fragment, built in a foreign (for instance client-local)
/// id namespace, into this allocator's namespace: every fragment vertex id
/// is assigned a fresh authority id (memoized, so repeated appearances
/// agree), every beam id is recomputed from its remapped endpoint pair —
/// canonical order can flip under new ids — and the remapped snapshot is
/// reconstructed into a graph.  The merged fragment therefore collides
/// with no id this allocator ever issued.
pub fn map_frame<B>(id_world: &mut FrameIdWorld, s: SerializedGraph<B>) -> (r: Result<
    Graph<B>,
    GraphError,
>)
    requires
        old(id_world).next_id + s.vertices@.len() + 2 * s.beams@.len() <= u64::MAX,
    ensures
        final(id_world).next_id >= old(id_world).next_id,
        final(id_world).next_id <= old(id_world).next_id + s.vertices@.len() + 2
            * s.beams@.len(),
        snapshot_ok(s.vertices@, s.beams@) ==> r is Ok,
        match r {
            Ok(g) => {
                &&& g.inv()
                &&& ids_below(g@, final(id_world).next_id)
                &&& (exists|
                    f: Map<VertexId, VertexId>,
                    v1: Seq<(VertexId, Position)>,
                    b1: Seq<(BeamId, B)>,
                |
                    frame_mapped(
                        f,
                        s.vertices@,
                        s.beams@,
                        v1,
                        b1,
                        g@,
                        g.vertices@.len() as int,
                        old(id_world).next_id,
                        final(id_world).next_id,
                    ))
            },
            Err(e) => e == GraphError::InvalidSnapshot,
        },
{
    let ghost lo = id_world.next_id;
    let ghost origv = s.vertices@;
    let ghost origb = s.beams@;
    let mut frag = s;
    let mut memo: Vec<(VertexId, VertexId)> = Vec::new();
    let mut v1: Vec<(VertexId, Position)> = Vec::new();
    let nv = frag.vertices.len();
    let mut i: usize = 0;
    while i < nv
        invariant
            nv == origv.len(),
            origv == s.vertices@,
            origb == s.beams@,
            frag.vertices@ == origv,
            frag.beams@ == origb,
            i <= nv,
            v1@.len() == i,
            distinct_keys(memo@),
            lo == old(id_world).next_id,
            lo <= id_world.next_id,
            id_world.next_id == lo + memo@.len(),
            memo@.len() <= i,
            lo + origv.len() + 2 * origb.len() <= u64::MAX,
            forall|k: int| 0 <= k < memo@.len() ==> lo <= (#[trigger] memo@[k]).1.0,
            forall|k: int|
                0 <= k < memo@.len() ==> (#[trigger] memo@[k]).1.0 < id_world.next_id,
            forall|k1: int, k2: int|
                0 <= k1 < k2 < memo@.len() ==> (#[trigger] memo@[k1]).1 != (
                #[trigger] memo@[k2]).1,
            forall|j: int|
                0 <= j < i ==> vertex_entry_mapped(kv_map(memo@), #[trigger] origv[j], v1@[j]),
        decreases nv - i,
    {
        let pair = frag.vertices[i];
        let ghost memo0 = memo@;
        let ghost next0 = id_world.next_id;
        let nid = remap_id(&mut memo, id_world, pair.0);
        v1.push((nid, pair.1));
        proof {
            if !kv_contains(memo0, pair.0) {
                crate::store::lemma_kv_push_fresh(memo0, pair.0, VertexId(next0));
            }
            assert(pair == origv[i as int]);
            assert forall|j: int| 0 <= j < i + 1 implies vertex_entry_mapped(
                kv_map(memo@),
                #[trigger] origv[j],
                v1@[j],
            ) by {
                if j < i {
                    assert(vertex_entry_mapped(kv_map(memo0), origv[j], v1@[j]));
                    if !kv_contains(memo0, pair.0) {
                        assert(origv[j].0 != pair.0);
                        assert(kv_map(memo@) == kv_map(memo0).insert(pair.0, VertexId(next0)));
                        assert(kv_map(memo@)[origv[j].0] == kv_map(memo0)[origv[j].0]);
                    } else {
                        assert(memo@ == memo0);
                    }
                } else {
                    assert(origv[j] == pair);
                    assert(v1@[j] == (nid, pair.1));
                    assert(nid == kv_map(memo@)[pair.0]);
                    assert(kv_contains(memo@, pair.0));
                }
            }
        }
        i += 1;
    }
    let mut b1: Vec<(BeamId, B)> = Vec::new();
    while frag.beams.len() > 0
        invariant
            origv == s.vertices@,
            origb == s.beams@,
            frag.vertices@ == origv,
            b1@.len() + frag.beams@.len() == origb.len(),
            frag.beams@ == origb.skip(b1@.len() as int),
            distinct_keys(memo@),
            lo == old(id_world).next_id,
            lo <= id_world.next_id,
            id_world.next_id == lo + memo@.len(),
            memo@.len() <= origv.len() + 2 * b1@.len(),
            lo + origv.len() + 2 * origb.len() <= u64::MAX,
            forall|k: int| 0 <= k < memo@.len() ==> lo <= (#[trigger] memo@[k]).1.0,
            forall|k: int|
                0 <= k < memo@.len() ==> (#[trigger] memo@[k]).1.0 < id_world.next_id,
            forall|k1: int, k2: int|
                0 <= k1 < k2 < memo@.len() ==> (#[trigger] memo@[k1]).1 != (
                #[trigger] memo@[k2]).1,
            v1@.len() == origv.len(),
            forall|j: int|
                0 <= j < origv.len() ==> vertex_entry_mapped(
                    kv_map(memo@),
                    #[trigger] origv[j],
                    v1@[j],
                ),
            forall|j: int|
                0 <= j < b1@.len() ==> beam_entry_mapped(
                    kv_map(memo@),
                    #[trigger] origb[j],
                    b1@[j],
                ),
        decreases frag.beams@.len(),
    {
        let ghost j0 = b1@.len() as int;
        let pair = frag.beams.remove(0);
        proof {
            assert(pair == origb[j0]);
            assert(frag.beams@ =~= origb.skip(j0 + 1));
        }
        let d = pair.0.down_vertex();
        let u = pair.0.up_vertex();
        let ghost memo0 = memo@;
        let ghost next0 = id_world.next_id;
        let nd = remap_id(&mut memo, id_world, d);
        proof {
            if !kv_contains(memo0, d) {
                crate::store::lemma_kv_push_fresh(memo0, d, VertexId(next0));
            }
            assert forall|j: int| 0 <= j < origv.len() implies vertex_entry_mapped(
                kv_map(memo@),
                #[trigger] origv[j],
                v1@[j],
            ) by {
                assert(vertex_entry_mapped(kv_map(memo0), origv[j], v1@[j]));
                if !kv_contains(memo0, d) {
                    assert(origv[j].0 != d);
                    assert(kv_map(memo@) == kv_map(memo0).insert(d, VertexId(next0)));
                    assert(kv_map(memo@)[origv[j].0] == kv_map(memo0)[origv[j].0]);
                } else {
                    assert(memo@ == memo0);
                }
            }
            assert forall|j: int| 0 <= j < b1@.len() implies beam_entry_mapped(
                kv_map(memo@),
                #[trigger] origb[j],
                b1@[j],
            ) by {
                let dd = origb[j].0.spec_down_vertex();
                let uu = origb[j].0.spec_up_vertex();
                assert(beam_entry_mapped(kv_map(memo0), origb[j], b1@[j]));
                if !kv_contains(memo0, d) {
                    assert(dd != d && uu != d);
                    assert(kv_map(memo@) == kv_map(memo0).insert(d, VertexId(next0)));
                    assert(kv_map(memo@)[dd] == kv_map(memo0)[dd]);
                    assert(kv_map(memo@)[uu] == kv_map(memo0)[uu]);
                } else {
                    assert(memo@ == memo0);
                }
            }
        }
        let ghost memo1 = memo@;
        let ghost next1 = id_world.next_id;
        let nu = remap_id(&mut memo, id_world, u);
        proof {
            if !kv_contains(memo1, u) {
                crate::store::lemma_kv_push_fresh(memo1, u, VertexId(next1));
            }
            assert forall|j: int| 0 <= j < origv.len() implies vertex_entry_mapped(
                kv_map(memo@),
                #[trigger] origv[j],
                v1@[j],
            ) by {
                assert(vertex_entry_mapped(kv_map(memo1), origv[j], v1@[j]));
                if !kv_contains(memo1, u) {
                    assert(origv[j].0 != u);
                    assert(kv_map(memo@) == kv_map(memo1).insert(u, VertexId(next1)));
                    assert(kv_map(memo@)[origv[j].0] == kv_map(memo1)[origv[j].0]);
                } else {
                    assert(memo@ == memo1);
                }
            }
            assert forall|j: int| 0 <= j < b1@.len() implies beam_entry_mapped(
                kv_map(memo@),
                #[trigger] origb[j],
                b1@[j],
            ) by {
                let dd = origb[j].0.spec_down_vertex();
                let uu = origb[j].0.spec_up_vertex();
                assert(beam_entry_mapped(kv_map(memo1), origb[j], b1@[j]));
                if !kv_contains(memo1, u) {
                    assert(dd != u && uu != u);
                    assert(kv_map(memo@) == kv_map(memo1).insert(u, VertexId(next1)));
                    assert(kv_map(memo@)[dd] == kv_map(memo1)[dd]);
                    assert(kv_map(memo@)[uu] == kv_map(memo1)[uu]);
                } else {
                    assert(memo@ == memo1);
                }
            }
            assert(kv_contains(memo1, d));
            if !kv_contains(memo1, u) {
                assert(d != u);
                assert(kv_map(memo@)[d] == kv_map(memo1)[d]);
            }
            assert(nd == kv_map(memo@)[d]);
        }
        let nb = match BeamId::from_vertices(nd, nu) {
            Ok(x) => x,
            Err(_) => {
                proof {
                    // A valid fragment has distinct beam endpoints, and the
                    // memo maps distinct ids to distinct fresh ids, so the
                    // recomputed pair cannot degenerate.
                    if snapshot_ok(origv, origb) {
                        assert(origb[j0].0.canonical());
                        assert(d != u);
                        let kd = choose|k: int|
                            0 <= k < memo@.len() && (#[trigger] memo@[k]).0 == d;
                        let ku = choose|k: int|
                            0 <= k < memo@.len() && (#[trigger] memo@[k]).0 == u;
                        crate::store::lemma_kv_get_at(memo@, kd);
                        crate::store::lemma_kv_get_at(memo@, ku);
                        assert(kd != ku);
                        if kd < ku {
                            assert(memo@[kd].1 != memo@[ku].1);
                        } else {
                            assert(memo@[ku].1 != memo@[kd].1);
                        }
                        assert(nd != nu);
                        assert(false);
                    }
                }
                return Err(GraphError::InvalidSnapshot);
            },
        };
        let ghost b1pre = b1@;
        b1.push((nb, pair.1));
        proof {
            assert forall|j: int| 0 <= j < b1@.len() implies beam_entry_mapped(
                kv_map(memo@),
                #[trigger] origb[j],
                b1@[j],
            ) by {
                if j < b1pre.len() {
                    assert(b1@[j] == b1pre[j]);
                    assert(beam_entry_mapped(kv_map(memo@), origb[j], b1pre[j]));
                } else {
                    assert(b1@[j] == (nb, pair.1));
                    assert(origb[j] == pair);
                    assert(nb == BeamId::spec_from_vertices(nd, nu));
                    assert(nd == kv_map(memo@)[d] && nu == kv_map(memo@)[u]);
                    assert(pair.0.spec_down_vertex() == d && pair.0.spec_up_vertex() == u);
                }
            }
        }
    }
    proof {
        let f = kv_map(memo@);
        assert forall|v: VertexId| #[trigger] f.dom().contains(v) implies lo <= f[v].0
            < id_world.next_id by {
            let k = choose|k: int| 0 <= k < memo@.len() && (#[trigger] memo@[k]).0 == v;
            crate::store::lemma_kv_get_at(memo@, k);
        }
        assert forall|v: VertexId, w: VertexId|
            f.dom().contains(v) && f.dom().contains(w) && v != w implies (#[trigger] f[v]) != (
        #[trigger] f[w]) by {
            let k1 = choose|k: int| 0 <= k < memo@.len() && (#[trigger] memo@[k]).0 == v;
            let k2 = choose|k: int| 0 <= k < memo@.len() && (#[trigger] memo@[k]).0 == w;
            crate::store::lemma_kv_get_at(memo@, k1);
            crate::store::lemma_kv_get_at(memo@, k2);
            assert(k1 != k2);
            if k1 < k2 {
                assert(memo@[k1].1 != memo@[k2].1);
            } else {
                assert(memo@[k2].1 != memo@[k1].1);
            }
        }
        assert(remap_ok(f, origv, origb, v1@, b1@, lo, id_world.next_id));
    }
    let ghost fwitness = kv_map(memo@);
    let ghost v1snap = v1@;
    let ghost b1snap = b1@;
    let ghost hi = id_world.next_id;
    let snap = SerializedGraph { vertices: v1, beams: b1 };
    match graph_from_snapshot(snap) {
        Ok(g) => {
            proof {
                assert(frame_mapped(
                    fwitness,
                    origv,
                    origb,
                    v1snap,
                    b1snap,
                    g@,
                    g.vertices@.len() as int,
                    lo,
                    hi,
                ));
                assert forall|v: VertexId| #[trigger] g@.vertices.dom().contains(v) implies v.0
                    < hi by {
                    assert(lists_endpoint(b1snap, v));
                    let k = choose|k: int|
                        #![trigger b1snap[k]]
                        0 <= k < b1snap.len() && ((b1snap[k].0.spec_down_vertex() == v) || (
                        b1snap[k].0.spec_up_vertex() == v));
                    assert(beam_entry_mapped(fwitness, origb[k], b1snap[k]));
                    let dd = origb[k].0.spec_down_vertex();
                    let uu = origb[k].0.spec_up_vertex();
                    assert(b1snap[k].0 == BeamId::spec_from_vertices(
                        fwitness[dd],
                        fwitness[uu],
                    ));
                    assert(v == fwitness[dd] || v == fwitness[uu]);
                }
            }
            Ok(g)
        },
        Err(e) => {
            proof {
                // A valid fragment remaps to a valid snapshot, which is
                // owed to reconstruct.
                if snapshot_ok(origv, origb) {
                    lemma_remap_preserves_snapshot_ok(
                        fwitness,
                        origv,
                        origb,
                        v1snap,
                        b1snap,
                        lo,
                        hi,
                    );
                    assert(false);
                }
            }
            Err(e)
        },
    }
}

/// An injective remap of a valid fragment is again a valid snapshot: key
/// distinctness, endpoint listing and vertex coverage carry over, and each
/// recomputed beam id is canonical by construction.
proof fn lemma_remap_preserves_snapshot_ok<B>(
    f: Map<VertexId, VertexId>,
    v0: Seq<(VertexId, Position)>,
    b0: Seq<(BeamId, B)>,
    v1: Seq<(VertexId, Position)>,
    b1: Seq<(BeamId, B)>,
    lo: u64,
    hi: u64,
)
    requires
        remap_ok(f, v0, b0, v1, b1, lo, hi),
        snapshot_ok(v0, b0),
    ensures
        snapshot_ok(v1, b1),
{
    assert forall|i: int, j: int| 0 <= i < j < v1.len() implies (#[trigger] v1[i]).0 != (
    #[trigger] v1[j]).0 by {
        assert(vertex_entry_mapped(f, v0[i], v1[i]));
        assert(vertex_entry_mapped(f, v0[j], v1[j]));
        assert(v0[i].0 != v0[j].0);
    }
    assert forall|i: int, j: int| 0 <= i < j < b1.len() implies (#[trigger] b1[i]).0 != (
    #[trigger] b1[j]).0 by {
        assert(beam_entry_mapped(f, b0[i], b1[i]));
        assert(beam_entry_mapped(f, b0[j], b1[j]));
        let di = b0[i].0.spec_down_vertex();
        let ui = b0[i].0.spec_up_vertex();
        let dj = b0[j].0.spec_down_vertex();
        let uj = b0[j].0.spec_up_vertex();
        assert(b0[i].0.canonical() && b0[j].0.canonical());
        assert(di != ui && dj != uj);
        if b1[i].0 == b1[j].0 {
            // The canonical id of a mapped pair determines the pair as a
            // set, and the map is injective, so the source pairs coincide.
            assert(f[di] != f[ui] && f[dj] != f[uj]);
            assert((f[di] == f[dj] && f[ui] == f[uj]) || (f[di] == f[uj] && f[ui] == f[dj]));
            if f[di] == f[dj] && f[ui] == f[uj] {
                assert(di == dj && ui == uj);
                assert(b0[i].0 == b0[j].0);
            } else {
                assert(di == uj && ui == dj);
                assert(di.0 < ui.0 && dj.0 < uj.0);
            }
            assert(false);
        }
    }
    assert forall|k: int| 0 <= k < b1.len() implies (#[trigger] b1[k]).0.canonical() by {
        assert(beam_entry_mapped(f, b0[k], b1[k]));
        let d = b0[k].0.spec_down_vertex();
        let u = b0[k].0.spec_up_vertex();
        assert(b0[k].0.canonical());
        assert(d != u);
        assert(f[d] != f[u]);
    }
    assert forall|k: int| 0 <= k < b1.len() implies kv_contains(
        v1,
        (#[trigger] b1[k]).0.spec_down_vertex(),
    ) && kv_contains(v1, b1[k].0.spec_up_vertex()) by {
        assert(beam_entry_mapped(f, b0[k], b1[k]));
        let d = b0[k].0.spec_down_vertex();
        let u = b0[k].0.spec_up_vertex();
        assert(kv_contains(v0, d) && kv_contains(v0, u));
        assert forall|x: VertexId| (x == d || x == u) implies kv_contains(v1, f[x]) by {
            let j = choose|j: int| 0 <= j < v0.len() && (#[trigger] v0[j]).0 == x;
            assert(vertex_entry_mapped(f, v0[j], v1[j]));
            assert(v1[j].0 == f[x]);
        }
        assert(b1[k].0.spec_down_vertex() == f[d] || b1[k].0.spec_down_vertex() == f[u]);
        assert(b1[k].0.spec_up_vertex() == f[d] || b1[k].0.spec_up_vertex() == f[u]);
    }
    assert forall|j: int| 0 <= j < v1.len() implies lists_endpoint(b1, (#[trigger] v1[j]).0) by {
        assert(vertex_entry_mapped(f, v0[j], v1[j]));
        assert(lists_endpoint(b0, v0[j].0));
        let k = choose|k: int|
            #![trigger b0[k]]
            0 <= k < b0.len() && ((b0[k].0.spec_down_vertex() == v0[j].0) || (
            b0[k].0.spec_up_vertex() == v0[j].0));
        assert(beam_entry_mapped(f, b0[k], b1[k]));
        let d = b0[k].0.spec_down_vertex();
        let u = b0[k].0.spec_up_vertex();
        assert(b1[k].0.spec_down_vertex() == f[d] || b1[k].0.spec_down_vertex() == f[u]);
        assert(b1[k].0.spec_up_vertex() == f[d] || b1[k].0.spec_up_vertex() == f[u]);
        assert((b1[k].0.spec_down_vertex() == v1[j].0) || (b1[k].0.spec_up_vertex() == v1[j].0))
            by {
            assert(v1[j].0 == f[v0[j].0]);
            if v0[j].0 == d {
                assert(b1[k].0 == BeamId::spec_from_vertices(f[d], f[u]));
            } else {
                assert(v0[j].0 == u);
                assert(b1[k].0 == BeamId::spec_from_vertices(f[d], f[u]));
            }
        }
    }
}

/// Within one merge, remapping never reuses an authority id: two remaps
/// whose allocator ranges do not overlap — as two successive `map_frame`
/// calls always are — produce graphs with no vertex id in common, each
/// structurally a copy of its fragment under its own fresh mapping.
pub proof fn lemma_remapped_frames_disjoint<B>(
    f1: Map<VertexId, VertexId>,
    v0a: Seq<(VertexId, Position)>,
    b0a: Seq<(BeamId, B)>,
    v1a: Seq<(VertexId, Position)>,
    b1a: Seq<(BeamId, B)>,
    gm1: GraphModel<B>,
    n1: int,
    lo1: u64,
    hi1: u64,
    f2: Map<VertexId, VertexId>,
    v0b: Seq<(VertexId, Position)>,
    b0b: Seq<(BeamId, B)>,
    v1b: Seq<(VertexId, Position)>,
    b1b: Seq<(BeamId, B)>,
    gm2: GraphModel<B>,
    n2: int,
    lo2: u64,
    hi2: u64,
)
    requires
        frame_mapped(f1, v0a, b0a, v1a, b1a, gm1, n1, lo1, hi1),
        frame_mapped(f2, v0b, b0b, v1b, b1b, gm2, n2, lo2, hi2),
        hi1 <= lo2,
    ensures
        forall|v: VertexId| #[trigger] gm1.vertices.dom().contains(v) ==> !gm2.vertices.dom().contains(v),
{
    assert forall|v: VertexId| #[trigger] gm1.vertices.dom().contains(v) implies !gm2.vertices.dom().contains(v) by {
        assert(lists_endpoint(b1a, v));
        let k = choose|k: int|
            #![trigger b1a[k]]
            0 <= k < b1a.len() && ((b1a[k].0.spec_down_vertex() == v) || (b1a[k].0.spec_up_vertex() == v));
        assert(beam_entry_mapped(f1, b0a[k], b1a[k]));
        let d = b0a[k].0.spec_down_vertex();
        let u = b0a[k].0.spec_up_vertex();
        assert(b1a[k].0 == BeamId::spec_from_vertices(f1[d], f1[u]));
        assert(v == f1[d] || v == f1[u]);
        assert(v.0 < hi1);
        if gm2.vertices.dom().contains(v) {
            assert(lists_endpoint(b1b, v));
            let m = choose|m: int|
                #![trigger b1b[m]]
                0 <= m < b1b.len() && ((b1b[m].0.spec_down_vertex() == v) || (b1b[m].0.spec_up_vertex() == v));
            assert(beam_entry_mapped(f2, b0b[m], b1b[m]));
            let d2 = b0b[m].0.spec_down_vertex();
            let u2 = b0b[m].0.spec_up_vertex();
            assert(b1b[m].0 == BeamId::spec_from_vertices(f2[d2], f2[u2]));
            assert(v == f2[d2] || v == f2[u2]);
            assert(v.0 >= lo2);
        }
    }
}

} // verus!
