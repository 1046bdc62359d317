//! The graph store: a vertex table and a beam table, each keyed by
//! identifier, with back-references (each vertex lists the beam ends that
//! touch it), plus the edit operations that keep the two tables consistent.

use vstd::prelude::*;

use crate::store::{distinct_keys, kv_contains, kv_map, sieve, sieve_source};
use crate::{BeamDirection, BeamEnd, BeamId, GraphError, Position, VertexId};

verus! {

/// An anchor point of the frame: a position and the ordered list of beam
/// ends touching it.  A vertex with no remaining connection is removed from
/// the graph immediately, never kept as a dangling node.
pub struct Vertex {
    pub position: Position,
    pub connections: Vec<BeamEnd>,
}

/// The mathematical reading of a [`Vertex`].
pub struct VertexModel {
    pub position: Position,
    pub connections: Seq<BeamEnd>,
}

impl View for Vertex {
    type V = VertexModel;

    open spec fn view(&self) -> VertexModel {
        VertexModel { position: self.position, connections: self.connections@ }
    }
}

/// The mathematical reading of a [`Graph`]: two finite maps.
#[verifier::ext_equal]
pub struct GraphModel<B> {
    pub vertices: Map<VertexId, VertexModel>,
    pub beams: Map<BeamId, B>,
}

/// The core data structure used by the server and client: vertices keyed by
/// [`VertexId`], beams keyed by [`BeamId`], each table a key-unique vector.
///
/// The tables are association vectors rather than hash or index maps: the
/// proofs need transparent reasoning about the tables' contents and about
/// in-place mutation of stored vertices, which an opaque map type declared
/// by trusted contract cannot offer — in particular, handing out mutable
/// access into such a map has no expressible frame.  Insertion order is
/// kept and removal swaps in the last entry, so iteration order is stable
/// though unspecified.
///
/// Beam identity is derived from the endpoint ids, so a vertex's identity
/// is immutable for its lifetime; junction-merging edits that reassign a
/// beam's endpoints independently of its identity are out of this design's
/// scope.
pub struct Graph<B> {
    pub vertices: Vec<(VertexId, Vertex)>,
    pub beams: Vec<(BeamId, B)>,
}

/// The vertex table with each vertex read as its model.
pub open spec fn vmodels(s: Seq<(VertexId, Vertex)>) -> Seq<(VertexId, VertexModel)> {
    s.map_values(|p: (VertexId, Vertex)| (p.0, p.1@))
}

impl<B> View for Graph<B> {
    type V = GraphModel<B>;

    open spec fn view(&self) -> GraphModel<B> {
        GraphModel { vertices: kv_map(vmodels(self.vertices@)), beams: kv_map(self.beams@) }
    }
}

/// The beam end by which a beam touches one of its two endpoints.
pub open spec fn end_for(bid: BeamId, at: VertexId) -> BeamEnd {
    if at == bid.spec_down_vertex() {
        BeamEnd { beam_id: bid, beam_end: BeamDirection::Down }
    } else {
        BeamEnd { beam_id: bid, beam_end: BeamDirection::Up }
    }
}

/// Attach one beam end to the vertex table: either create the vertex with
/// that single connection (a position is given) or append the connection to
/// the existing vertex (no position given).
pub open spec fn spec_add_vertex_end(
    vs: Map<VertexId, VertexModel>,
    id: VertexId,
    pos: Option<Position>,
    e: BeamEnd,
) -> Map<VertexId, VertexModel> {
    match pos {
        Some(p) => vs.insert(id, VertexModel { position: p, connections: seq![e] }),
        None => vs.insert(
            id,
            VertexModel { position: vs[id].position, connections: vs[id].connections.push(e) },
        ),
    }
}

/// A vertex with the matching beam end filtered out.
pub open spec fn spec_remove_end(v: VertexModel, bid: BeamId) -> VertexModel {
    VertexModel {
        position: v.position,
        connections: v.connections.filter(|e: BeamEnd| e.beam_id != bid),
    }
}

/// Detach a beam end from the vertex table; a vertex emptied of connections
/// is dropped from the table.
pub open spec fn spec_drop_end(
    vs: Map<VertexId, VertexModel>,
    id: VertexId,
    bid: BeamId,
) -> Map<VertexId, VertexModel> {
    let v2 = spec_remove_end(vs[id], bid);
    if v2.connections.len() == 0 {
        vs.remove(id)
    } else {
        vs.insert(id, v2)
    }
}

impl<B> GraphModel<B> {
    /// The vertex lists only ends of beams that exist, each pointing back at
    /// it, at most once per beam, and has at least one connection.
    pub open spec fn wf_vertex(self, id: VertexId) -> bool {
        let v = self.vertices[id];
        &&& v.connections.len() > 0
        &&& (forall|i: int|
            0 <= i < v.connections.len() ==> {
                let e = #[trigger] v.connections[i];
                self.beams.dom().contains(e.beam_id) && e.spec_here() == id
            })
        &&& (forall|i: int, j: int|
            0 <= i < j < v.connections.len() ==> (#[trigger] v.connections[i]).beam_id != (
            #[trigger] v.connections[j]).beam_id)
    }

    /// The beam is canonically directed, both endpoints exist, and each
    /// endpoint lists the matching beam end.
    pub open spec fn wf_beam(self, b: BeamId) -> bool {
        &&& b.canonical()
        &&& self.vertices.dom().contains(b.spec_down_vertex())
        &&& self.vertices.dom().contains(b.spec_up_vertex())
        &&& self.vertices[b.spec_down_vertex()].connections.contains(
            BeamEnd { beam_id: b, beam_end: BeamDirection::Down },
        )
        &&& self.vertices[b.spec_up_vertex()].connections.contains(
            BeamEnd { beam_id: b, beam_end: BeamDirection::Up },
        )
    }

    /// Well-formedness: the vertex table and the beam table exactly mirror
    /// each other.
    pub open spec fn wf(self) -> bool {
        &&& (forall|id: VertexId|
            #[trigger] self.vertices.dom().contains(id) ==> self.wf_vertex(id))
        &&& (forall|b: BeamId| #[trigger] self.beams.dom().contains(b) ==> self.wf_beam(b))
    }

    /// Which failure, if any, an `add_beam` request runs into, checked in
    /// this order: self-loop, then each endpoint in argument order (a vertex
    /// to create must be absent, a vertex to connect to must be present),
    /// then a duplicate beam.
    pub open spec fn add_beam_check(
        self,
        a: VertexId,
        pa: Option<Position>,
        b: VertexId,
        pb: Option<Position>,
    ) -> Result<(), GraphError> {
        if a == b {
            Err(GraphError::SelfLoopBeam)
        } else if pa is Some && self.vertices.dom().contains(a) {
            Err(GraphError::DuplicateVertex)
        } else if pa is None && !self.vertices.dom().contains(a) {
            Err(GraphError::VertexNotFound)
        } else if pb is Some && self.vertices.dom().contains(b) {
            Err(GraphError::DuplicateVertex)
        } else if pb is None && !self.vertices.dom().contains(b) {
            Err(GraphError::VertexNotFound)
        } else if self.beams.dom().contains(BeamId::spec_from_vertices(a, b)) {
            Err(GraphError::DuplicateBeam)
        } else {
            Ok(())
        }
    }

    /// The graph after a successful `add_beam`.
    pub open spec fn spec_add_beam(
        self,
        a: VertexId,
        pa: Option<Position>,
        b: VertexId,
        pb: Option<Position>,
        data: B,
    ) -> GraphModel<B> {
        let bid = BeamId::spec_from_vertices(a, b);
        GraphModel {
            vertices: spec_add_vertex_end(
                spec_add_vertex_end(self.vertices, a, pa, end_for(bid, a)),
                b,
                pb,
                end_for(bid, b),
            ),
            beams: self.beams.insert(bid, data),
        }
    }

    /// The graph after a beam removal (before any split is materialized):
    /// the beam leaves the beam table and each endpoint loses the matching
    /// beam end, disappearing entirely when that was its last connection.
    pub open spec fn spec_remove_beam(self, bid: BeamId) -> GraphModel<B> {
        GraphModel {
            vertices: spec_drop_end(
                spec_drop_end(self.vertices, bid.spec_down_vertex(), bid),
                bid.spec_up_vertex(),
                bid,
            ),
            beams: self.beams.remove(bid),
        }
    }
}

/// Adding a beam and then removing it restores the graph exactly.
pub proof fn lemma_add_remove_round_trip<B>(
    m: GraphModel<B>,
    a: VertexId,
    pa: Option<Position>,
    b: VertexId,
    pb: Option<Position>,
    data: B,
)
    requires
        m.wf(),
        m.add_beam_check(a, pa, b, pb) is Ok,
    ensures
        m.spec_add_beam(a, pa, b, pb, data).spec_remove_beam(BeamId::spec_from_vertices(a, b))
            == m,
{
    let bid = BeamId::spec_from_vertices(a, b);
    let m1 = m.spec_add_beam(a, pa, b, pb, data);
    let pred = |e: BeamEnd| e.beam_id != bid;
    assert(m1.beams.remove(bid) =~= m.beams);
    let down = bid.spec_down_vertex();
    let up = bid.spec_up_vertex();
    assert(down == a || down == b);
    assert(up == a || up == b);
    assert(down != up);
    let ea = end_for(bid, a);
    let eb = end_for(bid, b);
    // The endpoints' entries after the add.
    assert(m1.vertices[a].connections == (match pa {
        Some(_) => seq![ea],
        None => m.vertices[a].connections.push(ea),
    }));
    assert(m1.vertices[b].connections == (match pb {
        Some(_) => seq![eb],
        None => m.vertices[b].connections.push(eb),
    }));
    // An endpoint that existed before the add has no end of the new beam,
    // so the filter leaves its old connections intact.
    if pa is None {
        assert(m.wf_vertex(a));
        let conns = m.vertices[a].connections;
        assert forall|i: int| 0 <= i < conns.len() implies pred(#[trigger] conns[i]) by {
            assert(m.beams.dom().contains(conns[i].beam_id));
        }
        lemma_filter_push_out(conns, ea, bid);
        lemma_filter_all_true(conns, pred);
        assert(spec_remove_end(m1.vertices[a], bid) == m.vertices[a]);
    } else {
        reveal(Seq::filter);
        assert(seq![ea] =~= Seq::<BeamEnd>::empty().push(ea));
        lemma_filter_push_out(Seq::<BeamEnd>::empty(), ea, bid);
        assert(spec_remove_end(m1.vertices[a], bid).connections =~= Seq::<BeamEnd>::empty());
    }
    if pb is None {
        assert(m.wf_vertex(b));
        let conns = m.vertices[b].connections;
        assert forall|i: int| 0 <= i < conns.len() implies pred(#[trigger] conns[i]) by {
            assert(m.beams.dom().contains(conns[i].beam_id));
        }
        lemma_filter_push_out(conns, eb, bid);
        lemma_filter_all_true(conns, pred);
        assert(spec_remove_end(m1.vertices[b], bid) == m.vertices[b]);
    } else {
        reveal(Seq::filter);
        assert(seq![eb] =~= Seq::<BeamEnd>::empty().push(eb));
        lemma_filter_push_out(Seq::<BeamEnd>::empty(), eb, bid);
        assert(spec_remove_end(m1.vertices[b], bid).connections =~= Seq::<BeamEnd>::empty());
    }
    // Dropping the two ends, down endpoint first, restores the vertex table.
    let w1 = spec_drop_end(m1.vertices, down, bid);
    let w2 = spec_drop_end(w1, up, bid);
    // The up endpoint's entry is untouched by the first drop.
    assert(w1[up] == m1.vertices[up]);
    assert(spec_remove_end(w1[up], bid) == spec_remove_end(m1.vertices[up], bid));
    assert(w2 =~= m.vertices) by {
        assert forall|k: VertexId| true implies (w2.dom().contains(k) == m.vertices.dom().contains(
            k,
        ) && (m.vertices.dom().contains(k) ==> w2[k] == m.vertices[k])) by {
            if k == a {
                if pa is Some {
                    assert(!m.vertices.dom().contains(a));
                    assert(!w2.dom().contains(a));
                } else {
                    assert(m.vertices[a].connections.len() > 0) by {
                        assert(m.wf_vertex(a));
                    }
                    assert(w2.dom().contains(a) && w2[a] == m.vertices[a]);
                }
            } else if k == b {
                if pb is Some {
                    assert(!m.vertices.dom().contains(b));
                    assert(!w2.dom().contains(b));
                } else {
                    assert(m.vertices[b].connections.len() > 0) by {
                        assert(m.wf_vertex(b));
                    }
                    assert(w2.dom().contains(b) && w2[b] == m.vertices[b]);
                }
            } else {
            }
        }
    }
    assert(m.spec_add_beam(a, pa, b, pb, data).spec_remove_beam(bid) =~= m);
}

/// Filtering a sequence that a predicate accepts throughout leaves it
/// unchanged.
pub proof fn lemma_filter_all_true<A>(s: Seq<A>, pred: spec_fn(A) -> bool)
    requires
        forall|i: int| 0 <= i < s.len() ==> pred(#[trigger] s[i]),
    ensures
        s.filter(pred) == s,
    decreases s.len(),
{
    reveal(Seq::filter);
    if s.len() > 0 {
        lemma_filter_all_true(s.drop_last(), pred);
        assert(s.filter(pred) == s.drop_last().push(s.last()));
        assert(s.filter(pred) =~= s);
    }
}

/// Pushing an end of the filtered-out beam and then filtering undoes the
/// push, when the rest of the sequence passes the filter.
proof fn lemma_filter_push_out(s: Seq<BeamEnd>, e: BeamEnd, bid: BeamId)
    requires
        e.beam_id == bid,
    ensures
        s.push(e).filter(|x: BeamEnd| x.beam_id != bid) == s.filter(
            |x: BeamEnd| x.beam_id != bid,
        ),
{
    reveal(Seq::filter);
    assert(s.push(e).drop_last() =~= s);
    assert(s.push(e).last() == e);
}

/// An element already present is still present after a push.
proof fn lemma_push_preserves_contains<A>(s: Seq<A>, x: A, y: A)
    requires
        s.contains(y),
    ensures
        s.push(x).contains(y),
{
    let i = choose|i: int| 0 <= i < s.len() && s[i] == y;
    assert(s.push(x)[i] == y);
}

/// No vertex of a well-formed graph has an empty connection list: a vertex
/// whose last connection goes is removed at once, never kept dangling.
pub proof fn lemma_zero_degree_elimination<B>(m: GraphModel<B>, id: VertexId)
    requires
        m.wf(),
        m.vertices.dom().contains(id),
    ensures
        m.vertices[id].connections.len() > 0,
{
    assert(m.wf_vertex(id));
}

/// In a well-formed graph, a vertex's connection list is determined up to
/// order by the beam table: it holds exactly the ends of existing beams
/// that sit on the vertex.
pub proof fn lemma_wf_connections_characterized<B>(m: GraphModel<B>, v: VertexId, e: BeamEnd)
    requires
        m.wf(),
        m.vertices.dom().contains(v),
    ensures
        m.vertices[v].connections.contains(e) <==> (m.beams.dom().contains(e.beam_id)
            && e.spec_here() == v),
{
    if m.vertices[v].connections.contains(e) {
        let i = choose|i: int|
            0 <= i < m.vertices[v].connections.len() && m.vertices[v].connections[i] == e;
        assert(m.wf_vertex(v));
        assert(m.vertices[v].connections[i] == e);
    }
    if m.beams.dom().contains(e.beam_id) && e.spec_here() == v {
        assert(m.wf_beam(e.beam_id));
        let b = e.beam_id;
        match e.beam_end {
            BeamDirection::Down => {
                assert(v == b.spec_down_vertex());
                assert(e == BeamEnd { beam_id: b, beam_end: BeamDirection::Down });
            },
            BeamDirection::Up => {
                assert(v == b.spec_up_vertex());
                assert(e == BeamEnd { beam_id: b, beam_end: BeamDirection::Up });
            },
        }
    }
}

/// A successful `add_beam` keeps the graph well-formed.
pub proof fn lemma_add_beam_wf<B>(
    m: GraphModel<B>,
    a: VertexId,
    pa: Option<Position>,
    b: VertexId,
    pb: Option<Position>,
    data: B,
)
    requires
        m.wf(),
        m.add_beam_check(a, pa, b, pb) is Ok,
    ensures
        m.spec_add_beam(a, pa, b, pb, data).wf(),
{
    let bid = BeamId::spec_from_vertices(a, b);
    let m2 = m.spec_add_beam(a, pa, b, pb, data);
    let ea = end_for(bid, a);
    let eb = end_for(bid, b);
    assert(bid.canonical());
    assert(ea.spec_here() == a);
    assert(eb.spec_here() == b);
    assert(ea.beam_id == bid && eb.beam_id == bid);
    assert(m2.vertices[a].connections == (match pa {
        Some(_) => seq![ea],
        None => m.vertices[a].connections.push(ea),
    }));
    assert(m2.vertices[b].connections == (match pb {
        Some(_) => seq![eb],
        None => m.vertices[b].connections.push(eb),
    }));
    assert(m2.vertices[a].position == (match pa {
        Some(p) => p,
        None => m.vertices[a].position,
    }));
    assert forall|id: VertexId| #[trigger] m2.vertices.dom().contains(id) implies m2.wf_vertex(
        id,
    ) by {
        let conns2 = m2.vertices[id].connections;
        if id == a || id == b {
            let e_new = if id == a {
                ea
            } else {
                eb
            };
            let fresh = (if id == a {
                pa
            } else {
                pb
            }) is Some;
            if fresh {
                assert(conns2 == seq![e_new]);
                assert(conns2[0] == e_new);
                assert(m2.beams.dom().contains(bid));
            } else {
                assert(m.wf_vertex(id));
                let conns = m.vertices[id].connections;
                assert(conns2 == conns.push(e_new));
                assert forall|i: int| 0 <= i < conns2.len() implies m2.beams.dom().contains(
                    (#[trigger] conns2[i]).beam_id,
                ) && conns2[i].spec_here() == id by {
                    if i < conns.len() {
                        assert(conns2[i] == conns[i]);
                        assert(m.beams.dom().contains(conns[i].beam_id));
                    } else {
                        assert(conns2[i] == e_new);
                    }
                }
                assert forall|i: int, j: int| 0 <= i < j < conns2.len() implies (
                #[trigger] conns2[i]).beam_id != (#[trigger] conns2[j]).beam_id by {
                    if j < conns.len() {
                        assert(conns2[i] == conns[i] && conns2[j] == conns[j]);
                    } else {
                        assert(conns2[j] == e_new);
                        assert(conns2[i] == conns[i]);
                        assert(m.beams.dom().contains(conns[i].beam_id));
                        assert(!m.beams.dom().contains(bid));
                    }
                }
            }
        } else {
            assert(m2.vertices[id] == m.vertices[id]);
            assert(m.vertices.dom().contains(id));
            assert(m.wf_vertex(id));
            assert forall|i: int| 0 <= i < conns2.len() implies m2.beams.dom().contains(
                (#[trigger] conns2[i]).beam_id,
            ) && conns2[i].spec_here() == id by {
                assert(m.beams.dom().contains(conns2[i].beam_id));
            }
        }
    }
    assert forall|b2: BeamId| #[trigger] m2.beams.dom().contains(b2) implies m2.wf_beam(b2) by {
        let d_end = BeamEnd { beam_id: b2, beam_end: BeamDirection::Down };
        let u_end = BeamEnd { beam_id: b2, beam_end: BeamDirection::Up };
        if b2 == bid {
            assert(m2.vertices.dom().contains(a));
            assert(m2.vertices.dom().contains(b));
            // Each endpoint's connection list ends with its new end.
            assert(m2.vertices[a].connections.contains(ea)) by {
                let conns2 = m2.vertices[a].connections;
                assert(conns2[conns2.len() - 1] == ea);
            }
            assert(m2.vertices[b].connections.contains(eb)) by {
                let conns2 = m2.vertices[b].connections;
                assert(conns2[conns2.len() - 1] == eb);
            }
            if a.0 < b.0 {
                assert(bid.spec_down_vertex() == a && bid.spec_up_vertex() == b);
                assert(ea == d_end && eb == u_end);
            } else {
                assert(bid.spec_down_vertex() == b && bid.spec_up_vertex() == a);
                assert(eb == d_end && ea == u_end);
            }
        } else {
            assert(m.wf_beam(b2));
            let vd = b2.spec_down_vertex();
            let vu = b2.spec_up_vertex();
            assert(m2.vertices.dom().contains(vd));
            assert(m2.vertices.dom().contains(vu));
            assert forall|v: VertexId|
                (v == vd || v == vu) implies #[trigger] m2.vertices[v].connections.contains(
                end_for(b2, v),
            ) by {
                let e = end_for(b2, v);
                assert(m.vertices[v].connections.contains(e));
                if v == a || v == b {
                    // An endpoint that coincides with an add endpoint existed
                    // before (a created vertex has no prior beams), so its
                    // list was extended by a push.
                    assert(m.vertices.dom().contains(v));
                    lemma_push_preserves_contains(
                        m.vertices[v].connections,
                        if v == a {
                            ea
                        } else {
                            eb
                        },
                        e,
                    );
                } else {
                    assert(m2.vertices[v] == m.vertices[v]);
                }
            }
            assert(end_for(b2, vd) == d_end);
            assert(end_for(b2, vu) == u_end);
            assert(m2.vertices[vd].connections.contains(d_end));
            assert(m2.vertices[vu].connections.contains(u_end));
        }
    }
}

impl<B> Graph<B> {
    /// Representation invariant: key-unique tables reading back as a
    /// well-formed graph.
    pub open spec fn inv(self) -> bool {
        &&& distinct_keys(vmodels(self.vertices@))
        &&& distinct_keys(self.beams@)
        &&& self@.wf()
    }
}

impl<B> Default for Graph<B> {
    /// The empty graph, the starting point for building a frame.
    fn default() -> (r: Self)
        ensures
            r.inv(),
            r@.vertices == Map::<VertexId, VertexModel>::empty(),
            r@.beams == Map::<BeamId, B>::empty(),
    {
        let r = Graph::<B> { vertices: Vec::new(), beams: Vec::new() };
        proof {
            assert(r@.vertices =~= Map::<VertexId, VertexModel>::empty());
            assert(r@.beams =~= Map::<BeamId, B>::empty());
        }
        r
    }
}

/// The index of the entry for a vertex id, if present.
pub(crate) fn find_vertex(vs: &Vec<(VertexId, Vertex)>, id: VertexId) -> (r: Option<usize>)
    ensures
        match r {
            Some(i) => i < vs@.len() && vs@[i as int].0 == id && kv_contains(vmodels(vs@), id),
            None => !kv_contains(vmodels(vs@), id),
        },
{
    let n = vs.len();
    let mut i: usize = 0;
    while i < n
        invariant
            n == vs@.len(),
            i <= n,
            forall|j: int| 0 <= j < i ==> (#[trigger] vs@[j]).0 != id,
        decreases n - i,
    {
        if vs[i].0 == id {
            proof {
                assert(vmodels(vs@)[i as int].0 == id);
            }
            return Some(i);
        }
        i += 1;
    }
    proof {
        if kv_contains(vmodels(vs@), id) {
            let j = choose|j: int|
                0 <= j < vmodels(vs@).len() && (#[trigger] vmodels(vs@)[j]).0 == id;
            assert(vs@[j].0 == id);
        }
    }
    None
}

/// The index of the entry for a beam id, if present.
pub(crate) fn find_beam<B>(bs: &Vec<(BeamId, B)>, id: BeamId) -> (r: Option<usize>)
    ensures
        match r {
            Some(i) => i < bs@.len() && bs@[i as int].0 == id && kv_contains(bs@, id),
            None => !kv_contains(bs@, id),
        },
{
    let n = bs.len();
    let mut i: usize = 0;
    while i < n
        invariant
            n == bs@.len(),
            i <= n,
            forall|j: int| 0 <= j < i ==> (#[trigger] bs@[j]).0 != id,
        decreases n - i,
    {
        if bs[i].0 == id {
            return Some(i);
        }
        i += 1;
    }
    None
}

/// Attach one beam end to the vertex table, creating the vertex when a
/// position is supplied.
fn attach_end(vs: &mut Vec<(VertexId, Vertex)>, id: VertexId, pos: Option<Position>, e: BeamEnd)
    requires
        distinct_keys(vmodels(old(vs)@)),
        pos is Some <==> !kv_contains(vmodels(old(vs)@), id),
    ensures
        distinct_keys(vmodels(final(vs)@)),
        kv_map(vmodels(final(vs)@)) == spec_add_vertex_end(kv_map(vmodels(old(vs)@)), id, pos, e),
{
    let ghost s0 = vmodels(old(vs)@);
    match pos {
        Some(p) => {
            let mut conns: Vec<BeamEnd> = Vec::new();
            conns.push(e);
            let v = Vertex { position: p, connections: conns };
            proof {
                assert(v@ == VertexModel { position: p, connections: seq![e] });
            }
            vs.push((id, v));
            proof {
                assert(vmodels(vs@) =~= s0.push(
                    (id, VertexModel { position: p, connections: seq![e] }),
                ));
                crate::store::lemma_kv_push_fresh(
                    s0,
                    id,
                    VertexModel { position: p, connections: seq![e] },
                );
            }
        },
        None => {
            let i = match find_vertex(vs, id) {
                Some(i) => i,
                None => {
                    proof {
                        assert(false);
                    }
                    0
                },
            };
            let mut pair = vs.swap_remove(i);
            proof {
                assert(pair == old(vs)@[i as int]);
                assert(vmodels(vs@) =~= s0.update(i as int, s0.last()).drop_last());
                crate::store::lemma_kv_swap_remove(s0, i as int);
                crate::store::lemma_kv_get_at(s0, i as int);
            }
            let ghost mid = vmodels(vs@);
            let ghost v1 = VertexModel {
                position: pair.1@.position,
                connections: pair.1@.connections.push(e),
            };
            pair.1.connections.push(e);
            vs.push(pair);
            proof {
                assert(vmodels(vs@) =~= mid.push((id, v1)));
                assert(!kv_contains(mid, id)) by {
                    assert(kv_map(mid).dom() == kv_map(s0).remove(id).dom());
                    if kv_contains(mid, id) {
                        assert(kv_map(mid).dom().contains(id));
                    }
                }
                crate::store::lemma_kv_push_fresh(mid, id, v1);
                assert(kv_map(vmodels(vs@)) =~= kv_map(s0).insert(id, v1));
                assert(v1 == VertexModel {
                    position: kv_map(s0)[id].position,
                    connections: kv_map(s0)[id].connections.push(e),
                });
            }
        },
    }
}

impl<B> Graph<B> {
    /// Inserts a beam between either existing or new vertices.
    ///
    /// For each endpoint, a supplied position creates that vertex with this
    /// beam as its single connection; an omitted position appends the beam
    /// to the vertex's existing connection list.  The request is rejected
    /// exactly as [`GraphModel::add_beam_check`] says, leaving the graph
    /// unchanged; on success the canonical beam id is returned and the graph
    /// becomes [`GraphModel::spec_add_beam`] of the old one.
    pub fn add_beam(
        &mut self,
        vertex_a: VertexId,
        position_a: Option<Position>,
        vertex_b: VertexId,
        position_b: Option<Position>,
        beam_data: B,
    ) -> (r: Result<BeamId, GraphError>)
        requires
            old(self).inv(),
        ensures
            final(self).inv(),
            match r {
                Ok(bid) => {
                    &&& old(self)@.add_beam_check(vertex_a, position_a, vertex_b, position_b)
                        is Ok
                    &&& bid == BeamId::spec_from_vertices(vertex_a, vertex_b)
                    &&& final(self)@ == old(self)@.spec_add_beam(
                        vertex_a,
                        position_a,
                        vertex_b,
                        position_b,
                        beam_data,
                    )
                },
                Err(e) => {
                    &&& old(self)@.add_beam_check(vertex_a, position_a, vertex_b, position_b)
                        == Err::<(), GraphError>(e)
                    &&& *final(self) == *old(self)
                },
            },
    {
        if vertex_a.0 == vertex_b.0 {
            return Err(GraphError::SelfLoopBeam);
        }
        let ia = find_vertex(&self.vertices, vertex_a);
        if position_a.is_some() && ia.is_some() {
            return Err(GraphError::DuplicateVertex);
        }
        if position_a.is_none() && ia.is_none() {
            return Err(GraphError::VertexNotFound);
        }
        let ib = find_vertex(&self.vertices, vertex_b);
        if position_b.is_some() && ib.is_some() {
            return Err(GraphError::DuplicateVertex);
        }
        if position_b.is_none() && ib.is_none() {
            return Err(GraphError::VertexNotFound);
        }
        let bid = match BeamId::from_vertices(vertex_a, vertex_b) {
            Ok(x) => x,
            Err(e) => {
                return Err(e);
            },
        };
        if find_beam(&self.beams, bid).is_some() {
            return Err(GraphError::DuplicateBeam);
        }
        let is_a_down = vertex_a.0 < vertex_b.0;
        let end_a = BeamEnd {
            beam_id: bid,
            beam_end: if is_a_down {
                BeamDirection::Down
            } else {
                BeamDirection::Up
            },
        };
        let end_b = BeamEnd {
            beam_id: bid,
            beam_end: if is_a_down {
                BeamDirection::Up
            } else {
                BeamDirection::Down
            },
        };
        proof {
            assert(end_a == end_for(bid, vertex_a));
            assert(end_b == end_for(bid, vertex_b));
        }
        attach_end(&mut self.vertices, vertex_a, position_a, end_a);
        proof {
            let mid = kv_map(vmodels(self.vertices@));
            assert(kv_contains(vmodels(self.vertices@), vertex_b) == mid.dom().contains(vertex_b));
            assert(mid.dom().contains(vertex_b) == old(self)@.vertices.dom().contains(vertex_b));
        }
        attach_end(&mut self.vertices, vertex_b, position_b, end_b);
        let ghost beams0 = self.beams@;
        self.beams.push((bid, beam_data));
        proof {
            crate::store::lemma_kv_push_fresh(beams0, bid, beam_data);
            assert(self@ =~= old(self)@.spec_add_beam(
                vertex_a,
                position_a,
                vertex_b,
                position_b,
                beam_data,
            ));
            lemma_add_beam_wf(old(self)@, vertex_a, position_a, vertex_b, position_b, beam_data);
        }
        Ok(bid)
    }

    /// The vertex stored under an id, if any.
    pub fn get_vertex(&self, vertex_id: VertexId) -> (r: Option<&Vertex>)
        requires
            self.inv(),
        ensures
            match r {
                Some(v) => self@.vertices.dom().contains(vertex_id) && v@
                    == self@.vertices[vertex_id],
                None => !self@.vertices.dom().contains(vertex_id),
            },
    {
        match find_vertex(&self.vertices, vertex_id) {
            Some(i) => {
                proof {
                    crate::store::lemma_kv_get_at(vmodels(self.vertices@), i as int);
                }
                Some(&self.vertices[i].1)
            },
            None => None,
        }
    }

    /// The payload stored under a beam id, if any.
    pub fn get_beam(&self, beam_id: BeamId) -> (r: Option<&B>)
        requires
            self.inv(),
        ensures
            match r {
                Some(d) => self@.beams.dom().contains(beam_id) && *d == self@.beams[beam_id],
                None => !self@.beams.dom().contains(beam_id),
            },
    {
        match find_beam(&self.beams, beam_id) {
            Some(i) => {
                proof {
                    crate::store::lemma_kv_get_at(self.beams@, i as int);
                }
                Some(&self.beams[i].1)
            },
            None => None,
        }
    }

    /// Replaces a beam's payload, returning the previous one.
    pub fn set_beam_data(&mut self, beam_id: BeamId, data: B) -> (r: Result<B, GraphError>)
        requires
            old(self).inv(),
        ensures
            final(self).inv(),
            match r {
                Ok(prev) => {
                    &&& old(self)@.beams.dom().contains(beam_id)
                    &&& prev == old(self)@.beams[beam_id]
                    &&& final(self)@.beams == old(self)@.beams.insert(beam_id, data)
                    &&& final(self)@.vertices == old(self)@.vertices
                },
                Err(e) => {
                    &&& e == GraphError::BeamNotFound
                    &&& !old(self)@.beams.dom().contains(beam_id)
                    &&& *final(self) == *old(self)
                },
            },
    {
        let i = match find_beam(&self.beams, beam_id) {
            Some(i) => i,
            None => {
                return Err(GraphError::BeamNotFound);
            },
        };
        proof {
            crate::store::lemma_kv_get_at(self.beams@, i as int);
        }
        let ghost beams0 = self.beams@;
        let prev = self.beams.swap_remove(i);
        proof {
            crate::store::lemma_kv_swap_remove(beams0, i as int);
        }
        let ghost mid = self.beams@;
        self.beams.push((beam_id, data));
        proof {
            assert(!kv_contains(mid, beam_id)) by {
                if kv_contains(mid, beam_id) {
                    assert(kv_map(mid).dom().contains(beam_id));
                }
            }
            crate::store::lemma_kv_push_fresh(mid, beam_id, data);
            assert(self@.beams =~= old(self)@.beams.insert(beam_id, data));
            assert(self@.beams.dom() =~= old(self)@.beams.dom());
            assert(self@.wf()) by {
                assert forall|id: VertexId| #[trigger] self@.vertices.dom().contains(id)
                    implies self@.wf_vertex(id) by {
                    assert(old(self)@.wf_vertex(id));
                    assert(self@.vertices[id] == old(self)@.vertices[id]);
                }
                assert forall|b2: BeamId| #[trigger] self@.beams.dom().contains(b2)
                    implies self@.wf_beam(b2) by {
                    assert(old(self)@.wf_beam(b2));
                }
            }
        }
        Ok(prev.1)
    }

    /// The ids of all vertices, in table order.
    pub fn iter_vertices(&self) -> (r: Vec<VertexId>)
        requires
            self.inv(),
        ensures
            r@.len() == self.vertices@.len(),
            forall|i: int| 0 <= i < r@.len() ==> r@[i] == (#[trigger] self.vertices@[i]).0,
            forall|id: VertexId| r@.contains(id) <==> self@.vertices.dom().contains(id),
    {
        let n = self.vertices.len();
        let mut r: Vec<VertexId> = Vec::new();
        let mut i: usize = 0;
        while i < n
            invariant
                n == self.vertices@.len(),
                i <= n,
                r@.len() == i,
                forall|j: int| 0 <= j < i ==> r@[j] == (#[trigger] self.vertices@[j]).0,
            decreases n - i,
        {
            r.push(self.vertices[i].0);
            i += 1;
        }
        proof {
            assert forall|id: VertexId| r@.contains(id) <==> self@.vertices.dom().contains(id) by {
                if r@.contains(id) {
                    let j = choose|j: int| 0 <= j < r@.len() && r@[j] == id;
                    assert(vmodels(self.vertices@)[j].0 == id);
                    assert(kv_contains(vmodels(self.vertices@), id));
                }
                if self@.vertices.dom().contains(id) {
                    let j = choose|j: int|
                        0 <= j < vmodels(self.vertices@).len() && (#[trigger] vmodels(
                            self.vertices@,
                        )[j]).0 == id;
                    assert(r@[j] == id);
                }
            }
        }
        r
    }
}

/// Every element of a filtered sequence is an element of the original.
proof fn lemma_filter_sub<A>(s: Seq<A>, pred: spec_fn(A) -> bool)
    ensures
        forall|i: int| 0 <= i < s.filter(pred).len() ==> s.contains(#[trigger] s.filter(pred)[i]),
    decreases s.len(),
{
    reveal(Seq::filter);
    if s.len() > 0 {
        let f = s.filter(pred);
        let fd = s.drop_last().filter(pred);
        lemma_filter_sub(s.drop_last(), pred);
        assert forall|i: int| 0 <= i < f.len() implies s.contains(#[trigger] f[i]) by {
            if pred(s.last()) && i == f.len() - 1 {
                assert(f[i] == s.last());
                assert(s[s.len() - 1] == s.last());
            } else {
                assert(f[i] == fd[i]);
                assert(s.drop_last().contains(fd[i]));
                let j = choose|j: int| 0 <= j < s.drop_last().len() && s.drop_last()[j] == fd[i];
                assert(s[j] == fd[i]);
            }
        }
    }
}

/// Filtering keeps beam-end lists free of repeated beam ids.
proof fn lemma_filter_distinct_ids(s: Seq<BeamEnd>, pred: spec_fn(BeamEnd) -> bool)
    requires
        forall|p: int, q: int|
            0 <= p < q < s.len() ==> (#[trigger] s[p]).beam_id != (#[trigger] s[q]).beam_id,
    ensures
        forall|p: int, q: int|
            0 <= p < q < s.filter(pred).len() ==> (#[trigger] s.filter(pred)[p]).beam_id != (
            #[trigger] s.filter(pred)[q]).beam_id,
    decreases s.len(),
{
    reveal(Seq::filter);
    if s.len() > 0 {
        let f = s.filter(pred);
        let fd = s.drop_last().filter(pred);
        lemma_filter_distinct_ids(s.drop_last(), pred);
        lemma_filter_sub(s.drop_last(), pred);
        assert forall|p: int, q: int| 0 <= p < q < f.len() implies (#[trigger] f[p]).beam_id != (
        #[trigger] f[q]).beam_id by {
            if pred(s.last()) && q == f.len() - 1 {
                assert(f[q] == s.last());
                assert(f[p] == fd[p]);
                assert(s.drop_last().contains(fd[p]));
                let j = choose|j: int| 0 <= j < s.drop_last().len() && s.drop_last()[j] == fd[p];
                assert(s[j].beam_id != s[s.len() - 1].beam_id);
            } else {
                assert(f[p] == fd[p] && f[q] == fd[q]);
            }
        }
    }
}

/// Removing the unique end of a beam from a list is the same as filtering
/// that beam out.
proof fn lemma_remove_unique_match(s: Seq<BeamEnd>, j: int, bid: BeamId)
    requires
        0 <= j < s.len(),
        s[j].beam_id == bid,
        forall|p: int, q: int|
            0 <= p < q < s.len() ==> (#[trigger] s[p]).beam_id != (#[trigger] s[q]).beam_id,
    ensures
        s.remove(j) == s.filter(|e: BeamEnd| e.beam_id != bid),
{
    let pred = |e: BeamEnd| e.beam_id != bid;
    let t1 = s.subrange(0, j);
    let single = seq![s[j]];
    let t2 = s.subrange(j + 1, s.len() as int);
    assert(s =~= (t1 + single) + t2);
    assert forall|i: int| 0 <= i < t1.len() implies pred(#[trigger] t1[i]) by {
        assert(t1[i] == s[i]);
        assert(s[i].beam_id != s[j].beam_id);
    }
    assert forall|i: int| 0 <= i < t2.len() implies pred(#[trigger] t2[i]) by {
        assert(t2[i] == s[j + 1 + i]);
        assert(s[j].beam_id != s[j + 1 + i].beam_id);
    }
    lemma_filter_all_true(t1, pred);
    lemma_filter_all_true(t2, pred);
    assert(single.filter(pred) =~= Seq::<BeamEnd>::empty()) by {
        reveal_with_fuel(Seq::filter, 2);
        assert(single.drop_last() =~= Seq::<BeamEnd>::empty());
        assert(!pred(single.last()));
        assert(Seq::<BeamEnd>::empty().filter(pred) =~= Seq::<BeamEnd>::empty());
    }
    Seq::filter_distributes_over_add(t1 + single, t2, pred);
    Seq::filter_distributes_over_add(t1, single, pred);
    assert(s.filter(pred) == (t1.filter(pred) + single.filter(pred)) + t2.filter(pred));
    assert(t1.filter(pred) + single.filter(pred) =~= t1);
    assert(s.remove(j) =~= t1 + t2);
}

/// A beam removal keeps the graph well-formed.
pub proof fn lemma_remove_beam_wf<B>(m: GraphModel<B>, bid: BeamId)
    requires
        m.wf(),
        m.beams.dom().contains(bid),
    ensures
        m.spec_remove_beam(bid).wf(),
{
    let m2 = m.spec_remove_beam(bid);
    let pred = |e: BeamEnd| e.beam_id != bid;
    let down = bid.spec_down_vertex();
    let up = bid.spec_up_vertex();
    assert(m.wf_beam(bid));
    assert(down != up);
    let w1 = spec_drop_end(m.vertices, down, bid);
    assert(w1[up] == m.vertices[up]);
    // Connection lists of the two endpoints, after the drops.
    assert(m2.vertices.dom().contains(down) ==> m2.vertices[down] == spec_remove_end(
        m.vertices[down],
        bid,
    ));
    assert(m2.vertices.dom().contains(up) ==> m2.vertices[up] == spec_remove_end(
        m.vertices[up],
        bid,
    ));
    assert forall|id: VertexId| #[trigger] m2.vertices.dom().contains(id) implies m2.wf_vertex(
        id,
    ) by {
        assert(m.vertices.dom().contains(id));
        assert(m.wf_vertex(id));
        let conns = m.vertices[id].connections;
        if id == down || id == up {
            let conns2 = m2.vertices[id].connections;
            assert(conns2 == conns.filter(pred));
            lemma_filter_sub(conns, pred);
            lemma_filter_distinct_ids(conns, pred);
            assert forall|i: int| 0 <= i < conns2.len() implies m2.beams.dom().contains(
                (#[trigger] conns2[i]).beam_id,
            ) && conns2[i].spec_here() == id by {
                conns.lemma_filter_pred(pred, i);
                assert(conns.contains(conns2[i]));
                let j = choose|j: int| 0 <= j < conns.len() && conns[j] == conns2[i];
                assert(m.beams.dom().contains(conns[j].beam_id));
            }
        } else {
            assert(m2.vertices[id] == m.vertices[id]);
            assert forall|i: int| 0 <= i < conns.len() implies m2.beams.dom().contains(
                (#[trigger] conns[i]).beam_id,
            ) && conns[i].spec_here() == id by {
                assert(m.beams.dom().contains(conns[i].beam_id));
                if conns[i].beam_id == bid {
                    assert(conns[i].spec_here() == down || conns[i].spec_here() == up);
                }
            }
        }
    }
    assert forall|b2: BeamId| #[trigger] m2.beams.dom().contains(b2) implies m2.wf_beam(b2) by {
        assert(b2 != bid);
        assert(m.beams.dom().contains(b2));
        assert(m.wf_beam(b2));
        assert forall|v: VertexId|
            (v == b2.spec_down_vertex() || v == b2.spec_up_vertex()) implies (
        #[trigger] m2.vertices.dom().contains(v)) && m2.vertices[v].connections.contains(
            end_for(b2, v),
        ) by {
            let e = end_for(b2, v);
            assert(m.vertices[v].connections.contains(e));
            assert(e.beam_id == b2);
            if v == down || v == up {
                let conns = m.vertices[v].connections;
                let i = choose|i: int| 0 <= i < conns.len() && conns[i] == e;
                conns.lemma_filter_contains(pred, i);
                assert(conns.filter(pred).contains(e));
                assert(conns.filter(pred).len() > 0);
            } else {
                assert(m2.vertices[v] == m.vertices[v]);
            }
        }
        assert(end_for(b2, b2.spec_down_vertex()) == BeamEnd {
            beam_id: b2,
            beam_end: BeamDirection::Down,
        });
        assert(end_for(b2, b2.spec_up_vertex()) == BeamEnd {
            beam_id: b2,
            beam_end: BeamDirection::Up,
        });
    }
}

/// The index of the first end of the given beam in a connection list.
fn find_conn(conns: &Vec<BeamEnd>, bid: BeamId) -> (r: Option<usize>)
    ensures
        match r {
            Some(j) => j < conns@.len() && conns@[j as int].beam_id == bid,
            None => forall|k: int| 0 <= k < conns@.len() ==> (#[trigger] conns@[k]).beam_id != bid,
        },
{
    let n = conns.len();
    let mut j: usize = 0;
    while j < n
        invariant
            n == conns@.len(),
            j <= n,
            forall|k: int| 0 <= k < j ==> (#[trigger] conns@[k]).beam_id != bid,
        decreases n - j,
    {
        if conns[j].beam_id == bid {
            return Some(j);
        }
        j += 1;
    }
    None
}

/// Detach the end of a beam from a vertex, dropping the vertex when that
/// was its last connection; says whether the vertex survived.
fn detach_end(vs: &mut Vec<(VertexId, Vertex)>, id: VertexId, bid: BeamId) -> (survived: bool)
    requires
        distinct_keys(vmodels(old(vs)@)),
        kv_contains(vmodels(old(vs)@), id),
        exists|i: int|
            0 <= i < kv_map(vmodels(old(vs)@))[id].connections.len() && (#[trigger] kv_map(
                vmodels(old(vs)@),
            )[id].connections[i]).beam_id == bid,
        forall|p: int, q: int|
            0 <= p < q < kv_map(vmodels(old(vs)@))[id].connections.len() ==> (#[trigger] kv_map(
                vmodels(old(vs)@),
            )[id].connections[p]).beam_id != (#[trigger] kv_map(
                vmodels(old(vs)@),
            )[id].connections[q]).beam_id,
    ensures
        distinct_keys(vmodels(final(vs)@)),
        kv_map(vmodels(final(vs)@)) == spec_drop_end(kv_map(vmodels(old(vs)@)), id, bid),
        survived <==> spec_remove_end(kv_map(vmodels(old(vs)@))[id], bid).connections.len() > 0,
        survived <==> kv_map(vmodels(final(vs)@)).dom().contains(id),
{
    let ghost s0 = vmodels(old(vs)@);
    let ghost m0 = kv_map(s0);
    let i = match find_vertex(vs, id) {
        Some(i) => i,
        None => {
            proof {
                assert(false);
            }
            0
        },
    };
    proof {
        crate::store::lemma_kv_get_at(s0, i as int);
        assert(old(vs)@[i as int].1@ == m0[id]);
    }
    let mut pair = vs.swap_remove(i);
    proof {
        assert(pair == old(vs)@[i as int]);
        assert(vmodels(vs@) =~= s0.update(i as int, s0.last()).drop_last());
        crate::store::lemma_kv_swap_remove(s0, i as int);
    }
    let ghost mid = vmodels(vs@);
    let ghost conns0 = pair.1@.connections;
    let j = match find_conn(&pair.1.connections, bid) {
        Some(j) => j,
        None => {
            proof {
                assert(false);
            }
            0
        },
    };
    pair.1.connections.remove(j);
    proof {
        lemma_remove_unique_match(conns0, j as int, bid);
        assert(pair.1@ == spec_remove_end(m0[id], bid));
    }
    if pair.1.connections.is_empty() {
        proof {
            assert(kv_map(vmodels(vs@)) == m0.remove(id));
            assert(spec_drop_end(m0, id, bid) == m0.remove(id));
            assert(!kv_map(vmodels(vs@)).dom().contains(id));
        }
        false
    } else {
        vs.push(pair);
        proof {
            assert(vmodels(vs@) =~= mid.push((id, spec_remove_end(m0[id], bid))));
            assert(!kv_contains(mid, id)) by {
                if kv_contains(mid, id) {
                    assert(kv_map(mid).dom().contains(id));
                }
            }
            crate::store::lemma_kv_push_fresh(mid, id, spec_remove_end(m0[id], bid));
            assert(kv_map(vmodels(vs@)) =~= m0.insert(id, spec_remove_end(m0[id], bid)));
        }
        true
    }
}

impl<B> Graph<B> {
    /// Removes the beam from both tables: its entry leaves the beam table
    /// and each endpoint loses the matching beam end, disappearing entirely
    /// when that was its last connection.  Reports whether each endpoint
    /// survived.
    pub(crate) fn remove_beam_inner(&mut self, beam: BeamId) -> (r: (B, bool, bool))
        requires
            old(self).inv(),
            old(self)@.beams.dom().contains(beam),
        ensures
            final(self).inv(),
            final(self)@ == old(self)@.spec_remove_beam(beam),
            r.0 == old(self)@.beams[beam],
            r.1 == final(self)@.vertices.dom().contains(beam.spec_down_vertex()),
            r.2 == final(self)@.vertices.dom().contains(beam.spec_up_vertex()),
    {
        let ghost m0 = old(self)@;
        proof {
            assert(m0.wf_beam(beam));
            assert(beam.spec_down_vertex() != beam.spec_up_vertex());
        }
        let ib = match find_beam(&self.beams, beam) {
            Some(i) => i,
            None => {
                proof {
                    assert(false);
                }
                0
            },
        };
        proof {
            crate::store::lemma_kv_get_at(self.beams@, ib as int);
        }
        let ghost bs0 = self.beams@;
        let data = self.beams.swap_remove(ib);
        proof {
            crate::store::lemma_kv_swap_remove(bs0, ib as int);
        }
        let down = beam.down_vertex();
        let up = beam.up_vertex();
        proof {
            // The down endpoint has an end of this beam, and distinct ids.
            assert(m0.wf_vertex(down));
            let dconns = m0.vertices[down].connections;
            assert(dconns.contains(BeamEnd { beam_id: beam, beam_end: BeamDirection::Down }));
            let k = choose|k: int|
                0 <= k < dconns.len() && dconns[k] == BeamEnd {
                    beam_id: beam,
                    beam_end: BeamDirection::Down,
                };
            assert(dconns[k].beam_id == beam);
        }
        let down_survived = detach_end(&mut self.vertices, down, beam);
        let ghost w1 = spec_drop_end(m0.vertices, down, beam);
        proof {
            assert(kv_map(vmodels(self.vertices@)) == w1);
            assert(w1[up] == m0.vertices[up]);
            assert(w1.dom().contains(up));
            assert(m0.wf_vertex(up));
            let uconns = m0.vertices[up].connections;
            assert(uconns.contains(BeamEnd { beam_id: beam, beam_end: BeamDirection::Up }));
            let k = choose|k: int|
                0 <= k < uconns.len() && uconns[k] == BeamEnd {
                    beam_id: beam,
                    beam_end: BeamDirection::Up,
                };
            assert(uconns[k].beam_id == beam);
        }
        let up_survived = detach_end(&mut self.vertices, up, beam);
        proof {
            assert(kv_map(vmodels(self.vertices@)) == spec_drop_end(w1, up, beam));
            assert(self@ =~= m0.spec_remove_beam(beam));
            lemma_remove_beam_wf(m0, beam);
            // The second drop only touches the up entry, so the down
            // endpoint's survival is unchanged by it.
            assert(spec_drop_end(w1, up, beam).dom().contains(down) == w1.dom().contains(down));
        }
        (data.1, down_survived, up_survived)
    }
}

/// `part` holds exactly the slice of `gr` reachable from the anchor, and
/// `rest` exactly the remainder; positions, connection lists and payloads
/// are carried over unchanged on both sides.
pub open spec fn split_into<B>(
    gr: GraphModel<B>,
    anchor: VertexId,
    rest: GraphModel<B>,
    part: GraphModel<B>,
) -> bool {
    &&& (forall|v: VertexId|
        #[trigger] part.vertices.dom().contains(v) <==> gr.vertices.dom().contains(v)
            && gr.reachable(anchor, v))
    &&& (forall|v: VertexId|
        #[trigger] part.vertices.dom().contains(v) ==> part.vertices[v] == gr.vertices[v])
    &&& (forall|v: VertexId|
        #[trigger] rest.vertices.dom().contains(v) <==> gr.vertices.dom().contains(v)
            && !gr.reachable(anchor, v))
    &&& (forall|v: VertexId|
        #[trigger] rest.vertices.dom().contains(v) ==> rest.vertices[v] == gr.vertices[v])
    &&& (forall|b: BeamId|
        #[trigger] part.beams.dom().contains(b) <==> gr.beams.dom().contains(b) && gr.reachable(
            anchor,
            b.spec_down_vertex(),
        ))
    &&& (forall|b: BeamId| #[trigger] part.beams.dom().contains(b) ==> part.beams[b] == gr.beams[b])
    &&& (forall|b: BeamId|
        #[trigger] rest.beams.dom().contains(b) <==> gr.beams.dom().contains(b) && !gr.reachable(
            anchor,
            b.spec_down_vertex(),
        ))
    &&& (forall|b: BeamId| #[trigger] rest.beams.dom().contains(b) ==> rest.beams[b] == gr.beams[b])
}

impl<B> Graph<B> {
    /// Removes a beam; each endpoint vertex goes too if this beam was its
    /// last remaining connection.
    ///
    /// If the removal leaves the beam's two anchors in different components
    /// (the best-first search from the up anchor exhausts its frontier
    /// without meeting the down anchor), everything reachable from the up
    /// anchor — those vertices and every beam among them — is extracted
    /// into a brand-new graph, returned beside the payload; the down
    /// anchor's side is retained.  Removing an absent beam is rejected, as
    /// is removing the last beam, which would leave a graph with zero
    /// structure.
    pub fn remove_beam(&mut self, beam: BeamId) -> (r: Result<
        (B, Option<Graph<B>>),
        GraphError,
    >)
        requires
            old(self).inv(),
        ensures
            final(self).inv(),
            match r {
                Ok((data, split)) => {
                    let gr = old(self)@.spec_remove_beam(beam);
                    &&& old(self)@.beams.dom().contains(beam)
                    &&& old(self)@.beams.dom().len() > 1
                    &&& data == old(self)@.beams[beam]
                    &&& (split is Some <==> old(self)@.removal_splits(beam))
                    &&& match split {
                        None => final(self)@ == gr,
                        Some(g2) => {
                            &&& g2.inv()
                            &&& split_into(gr, beam.spec_up_vertex(), final(self)@, g2@)
                        },
                    }
                },
                Err(e) => {
                    &&& *final(self) == *old(self)
                    &&& (e == GraphError::BeamNotFound || e
                        == GraphError::EmptyGraphInvariantViolation)
                    &&& (e == GraphError::BeamNotFound <==> !old(self)@.beams.dom().contains(
                        beam,
                    ))
                    &&& (e == GraphError::EmptyGraphInvariantViolation <==> old(self)@.beams.dom().contains(beam) && old(self)@.beams.dom().len() == 1)
                },
            },
    {
        proof {
            crate::store::lemma_kv_dom_len(self.beams@);
        }
        if find_beam(&self.beams, beam).is_none() {
            return Err(GraphError::BeamNotFound);
        }
        if self.beams.len() == 1 {
            return Err(GraphError::EmptyGraphInvariantViolation);
        }
        let ghost m0 = self@;
        let ghost gr = m0.spec_remove_beam(beam);
        let inner = self.remove_beam_inner(beam);
        let data = inner.0;
        let down_ok = inner.1;
        let up_ok = inner.2;
        if !down_ok || !up_ok {
            proof {
                assert(!m0.removal_splits(beam));
            }
            return Ok((data, None));
        }
        let up = beam.up_vertex();
        let down = beam.down_vertex();
        let result = crate::search::search_component(self, up, down);
        if result.0 {
            proof {
                assert(self@.reachable(up, down));
                assert(!m0.removal_splits(beam));
            }
            return Ok((data, None));
        }
        let table = result.1;
        proof {
            assert(m0.removal_splits(beam)) by {
                assert(!kv_contains(table@, down));
                assert(!gr.reachable(up, down));
            }
            assert forall|v: VertexId, w: VertexId|
                kv_contains(table@, v) && #[trigger] self@.adjacent(v, w) implies kv_contains(
                table@,
                w,
            ) by {
                assert(gr.reachable(up, v));
                crate::search::lemma_adjacent_in_vertices(gr, v, w);
                crate::search::lemma_reachable_step(gr, up, v, w);
            }
        }
        let g2 = self.extract_component(&table);
        Ok((data, Some(g2)))
    }
}

/// Keep predicate for the vertex table: the id is absent from the cost
/// table.
pub open spec fn vkeep_out(t: Seq<(VertexId, u64)>) -> spec_fn((VertexId, Vertex)) -> bool {
    |p: (VertexId, Vertex)| !kv_contains(t, p.0)
}

/// Keep predicate for the vertex table: the id is present in the cost
/// table.
pub open spec fn vkeep_in(t: Seq<(VertexId, u64)>) -> spec_fn((VertexId, Vertex)) -> bool {
    |p: (VertexId, Vertex)| kv_contains(t, p.0)
}

/// Keep predicate for the beam table: the beam's down endpoint is absent
/// from the cost table.
pub open spec fn bkeep_out<B>(t: Seq<(VertexId, u64)>) -> spec_fn((BeamId, B)) -> bool {
    |p: (BeamId, B)| !kv_contains(t, p.0.spec_down_vertex())
}

/// Keep predicate for the beam table: the beam's down endpoint is present
/// in the cost table.
pub open spec fn bkeep_in<B>(t: Seq<(VertexId, u64)>) -> spec_fn((BeamId, B)) -> bool {
    |p: (BeamId, B)| kv_contains(t, p.0.spec_down_vertex())
}

/// Split a vertex table by membership of the cost table, emptying it:
/// non-members into the first result, members into the second.
fn partition_vertices(src: &mut Vec<(VertexId, Vertex)>, table: &Vec<(VertexId, u64)>) -> (r: (
    Vec<(VertexId, Vertex)>,
    Vec<(VertexId, Vertex)>,
))
    requires
        distinct_keys(old(src)@),
    ensures
        distinct_keys(r.0@),
        distinct_keys(r.1@),
        forall|j: int|
            0 <= j < r.0@.len() ==> sieve_source(
                old(src)@,
                vkeep_out(table@),
                0,
                (#[trigger] r.0@[j]),
            ),
        forall|j: int|
            0 <= j < r.1@.len() ==> sieve_source(
                old(src)@,
                vkeep_in(table@),
                0,
                (#[trigger] r.1@[j]),
            ),
        forall|i: int|
            0 <= i < old(src)@.len() && kv_contains(table@, (#[trigger] old(src)@[i]).0)
                ==> r.1@.contains(old(src)@[i]),
        forall|i: int|
            0 <= i < old(src)@.len() && !kv_contains(table@, (#[trigger] old(src)@[i]).0)
                ==> r.0@.contains(old(src)@[i]),
{
    let ghost orig_v = old(src)@;
    let mut kept: Vec<(VertexId, Vertex)> = Vec::new();
    let mut moved: Vec<(VertexId, Vertex)> = Vec::new();
    proof {
        assert(src@ =~= orig_v.take(src@.len() as int));
        assert(kept@ =~= sieve(orig_v, vkeep_out(table@), src@.len() as int));
        assert(moved@ =~= sieve(orig_v, vkeep_in(table@), src@.len() as int));
    }
    while src.len() > 0
        invariant
            src@ == orig_v.take(src@.len() as int),
            src@.len() <= orig_v.len(),
            kept@ == sieve(orig_v, vkeep_out(table@), src@.len() as int),
            moved@ == sieve(orig_v, vkeep_in(table@), src@.len() as int),
        decreases src@.len(),
    {
        let ghost n_pre = src@.len() as int;
        let pair = match src.pop() {
            Some(p) => p,
            None => {
                proof {
                    assert(false);
                }
                return (Vec::new(), Vec::new());
            },
        };
        proof {
            assert(pair == orig_v[n_pre - 1]);
            assert(src@ =~= orig_v.take(n_pre - 1));
        }
        if crate::search::find_cost(table, pair.0).is_some() {
            moved.push(pair);
            proof {
                assert(vkeep_in(table@)(orig_v[n_pre - 1]));
                assert(!vkeep_out(table@)(orig_v[n_pre - 1]));
                assert(sieve(orig_v, vkeep_in(table@), n_pre - 1) == sieve(
                    orig_v,
                    vkeep_in(table@),
                    n_pre,
                ).push(orig_v[n_pre - 1]));
                assert(sieve(orig_v, vkeep_out(table@), n_pre - 1) == sieve(
                    orig_v,
                    vkeep_out(table@),
                    n_pre,
                ));
            }
        } else {
            kept.push(pair);
            proof {
                assert(!vkeep_in(table@)(orig_v[n_pre - 1]));
                assert(vkeep_out(table@)(orig_v[n_pre - 1]));
                assert(sieve(orig_v, vkeep_out(table@), n_pre - 1) == sieve(
                    orig_v,
                    vkeep_out(table@),
                    n_pre,
                ).push(orig_v[n_pre - 1]));
                assert(sieve(orig_v, vkeep_in(table@), n_pre - 1) == sieve(
                    orig_v,
                    vkeep_in(table@),
                    n_pre,
                ));
            }
        }
    }
    proof {
        crate::store::lemma_sieve_members(orig_v, vkeep_out(table@), 0);
        crate::store::lemma_sieve_members(orig_v, vkeep_in(table@), 0);
        crate::store::lemma_sieve_distinct(orig_v, vkeep_out(table@), |p: (VertexId, Vertex)| p.0, 0);
        crate::store::lemma_sieve_distinct(orig_v, vkeep_in(table@), |p: (VertexId, Vertex)| p.0, 0);
        assert forall|p: int, q: int| 0 <= p < q < kept@.len() implies (#[trigger] kept@[p]).0 != (
        #[trigger] kept@[q]).0 by {}
        assert forall|p: int, q: int| 0 <= p < q < moved@.len() implies (
        #[trigger] moved@[p]).0 != (#[trigger] moved@[q]).0 by {}
        assert forall|i: int|
            0 <= i < orig_v.len() && kv_contains(table@, (#[trigger] orig_v[i]).0)
            implies moved@.contains(orig_v[i]) by {
            assert(vkeep_in(table@)(orig_v[i]));
        }
        assert forall|i: int|
            0 <= i < orig_v.len() && !kv_contains(table@, (#[trigger] orig_v[i]).0)
            implies kept@.contains(orig_v[i]) by {
            assert(vkeep_out(table@)(orig_v[i]));
        }
    }
    (kept, moved)
}

/// Split a beam table by whether the beam's down endpoint is in the cost
/// table, emptying it: outsiders into the first result, members into the
/// second.
fn partition_beams<B>(src: &mut Vec<(BeamId, B)>, table: &Vec<(VertexId, u64)>) -> (r: (
    Vec<(BeamId, B)>,
    Vec<(BeamId, B)>,
))
    requires
        distinct_keys(old(src)@),
    ensures
        distinct_keys(r.0@),
        distinct_keys(r.1@),
        forall|j: int|
            0 <= j < r.0@.len() ==> sieve_source(
                old(src)@,
                bkeep_out(table@),
                0,
                (#[trigger] r.0@[j]),
            ),
        forall|j: int|
            0 <= j < r.1@.len() ==> sieve_source(
                old(src)@,
                bkeep_in(table@),
                0,
                (#[trigger] r.1@[j]),
            ),
        forall|i: int|
            0 <= i < old(src)@.len() && kv_contains(
                table@,
                (#[trigger] old(src)@[i]).0.spec_down_vertex(),
            ) ==> r.1@.contains(old(src)@[i]),
        forall|i: int|
            0 <= i < old(src)@.len() && !kv_contains(
                table@,
                (#[trigger] old(src)@[i]).0.spec_down_vertex(),
            ) ==> r.0@.contains(old(src)@[i]),
{
    let ghost orig_b = old(src)@;
    let mut kept: Vec<(BeamId, B)> = Vec::new();
    let mut moved: Vec<(BeamId, B)> = Vec::new();
    proof {
        assert(src@ =~= orig_b.take(src@.len() as int));
        assert(kept@ =~= sieve(orig_b, bkeep_out(table@), src@.len() as int));
        assert(moved@ =~= sieve(orig_b, bkeep_in(table@), src@.len() as int));
    }
    while src.len() > 0
        invariant
            src@ == orig_b.take(src@.len() as int),
            src@.len() <= orig_b.len(),
            kept@ == sieve(orig_b, bkeep_out(table@), src@.len() as int),
            moved@ == sieve(orig_b, bkeep_in(table@), src@.len() as int),
        decreases src@.len(),
    {
        let ghost n_pre = src@.len() as int;
        let pair = match src.pop() {
            Some(p) => p,
            None => {
                proof {
                    assert(false);
                }
                return (Vec::new(), Vec::new());
            },
        };
        proof {
            assert(pair == orig_b[n_pre - 1]);
            assert(src@ =~= orig_b.take(n_pre - 1));
        }
        if crate::search::find_cost(table, pair.0.down_vertex()).is_some() {
            moved.push(pair);
            proof {
                assert(bkeep_in::<B>(table@)(orig_b[n_pre - 1]));
                assert(!bkeep_out::<B>(table@)(orig_b[n_pre - 1]));
                assert(sieve(orig_b, bkeep_in(table@), n_pre - 1) == sieve(
                    orig_b,
                    bkeep_in(table@),
                    n_pre,
                ).push(orig_b[n_pre - 1]));
                assert(sieve(orig_b, bkeep_out(table@), n_pre - 1) == sieve(
                    orig_b,
                    bkeep_out(table@),
                    n_pre,
                ));
            }
        } else {
            kept.push(pair);
            proof {
                assert(!bkeep_in::<B>(table@)(orig_b[n_pre - 1]));
                assert(bkeep_out::<B>(table@)(orig_b[n_pre - 1]));
                assert(sieve(orig_b, bkeep_out(table@), n_pre - 1) == sieve(
                    orig_b,
                    bkeep_out(table@),
                    n_pre,
                ).push(orig_b[n_pre - 1]));
                assert(sieve(orig_b, bkeep_in(table@), n_pre - 1) == sieve(
                    orig_b,
                    bkeep_in(table@),
                    n_pre,
                ));
            }
        }
    }
    proof {
        crate::store::lemma_sieve_members(orig_b, bkeep_out::<B>(table@), 0);
        crate::store::lemma_sieve_members(orig_b, bkeep_in::<B>(table@), 0);
        crate::store::lemma_sieve_distinct(orig_b, bkeep_out::<B>(table@), |p: (BeamId, B)| p.0, 0);
        crate::store::lemma_sieve_distinct(orig_b, bkeep_in::<B>(table@), |p: (BeamId, B)| p.0, 0);
        assert forall|p: int, q: int| 0 <= p < q < kept@.len() implies (#[trigger] kept@[p]).0 != (
        #[trigger] kept@[q]).0 by {}
        assert forall|p: int, q: int| 0 <= p < q < moved@.len() implies (
        #[trigger] moved@[p]).0 != (#[trigger] moved@[q]).0 by {}
        assert forall|i: int|
            0 <= i < orig_b.len() && kv_contains(
                table@,
                (#[trigger] orig_b[i]).0.spec_down_vertex(),
            ) implies moved@.contains(orig_b[i]) by {
            assert(bkeep_in::<B>(table@)(orig_b[i]));
        }
        assert forall|i: int|
            0 <= i < orig_b.len() && !kv_contains(
                table@,
                (#[trigger] orig_b[i]).0.spec_down_vertex(),
            ) implies kept@.contains(orig_b[i]) by {
            assert(bkeep_out::<B>(table@)(orig_b[i]));
        }
    }
    (kept, moved)
}

/// From the two partitions' element-level facts, derive the map-level
/// membership and value conditions and well-formedness of both halves.
#[verifier::rlimit(50)]
proof fn lemma_partition_views<B>(
    m0: GraphModel<B>,
    table: Seq<(VertexId, u64)>,
    km: GraphModel<B>,
    mm: GraphModel<B>,
    kept_v: Seq<(VertexId, Vertex)>,
    moved_v: Seq<(VertexId, Vertex)>,
    kept_b: Seq<(BeamId, B)>,
    moved_b: Seq<(BeamId, B)>,
    orig_v: Seq<(VertexId, Vertex)>,
    orig_b: Seq<(BeamId, B)>,
)
    requires
        m0.wf(),
        distinct_keys(orig_v),
        distinct_keys(orig_b),
        m0.vertices == kv_map(vmodels(orig_v)),
        m0.beams == kv_map(orig_b),
        km.vertices == kv_map(vmodels(kept_v)),
        km.beams == kv_map(kept_b),
        mm.vertices == kv_map(vmodels(moved_v)),
        mm.beams == kv_map(moved_b),
        distinct_keys(kept_v),
        distinct_keys(moved_v),
        distinct_keys(kept_b),
        distinct_keys(moved_b),
        forall|v: VertexId, w: VertexId|
            kv_contains(table, v) && #[trigger] m0.adjacent(v, w) ==> kv_contains(table, w),
        forall|j: int|
            0 <= j < kept_v.len() ==> sieve_source(orig_v, vkeep_out(table), 0, (
            #[trigger] kept_v[j])),
        forall|j: int|
            0 <= j < moved_v.len() ==> sieve_source(orig_v, vkeep_in(table), 0, (
            #[trigger] moved_v[j])),
        forall|i: int|
            0 <= i < orig_v.len() && kv_contains(table, (#[trigger] orig_v[i]).0)
                ==> moved_v.contains(orig_v[i]),
        forall|i: int|
            0 <= i < orig_v.len() && !kv_contains(table, (#[trigger] orig_v[i]).0)
                ==> kept_v.contains(orig_v[i]),
        forall|j: int|
            0 <= j < kept_b.len() ==> sieve_source(orig_b, bkeep_out(table), 0, (
            #[trigger] kept_b[j])),
        forall|j: int|
            0 <= j < moved_b.len() ==> sieve_source(orig_b, bkeep_in(table), 0, (
            #[trigger] moved_b[j])),
        forall|i: int|
            0 <= i < orig_b.len() && kv_contains(
                table,
                (#[trigger] orig_b[i]).0.spec_down_vertex(),
            ) ==> moved_b.contains(orig_b[i]),
        forall|i: int|
            0 <= i < orig_b.len() && !kv_contains(
                table,
                (#[trigger] orig_b[i]).0.spec_down_vertex(),
            ) ==> kept_b.contains(orig_b[i]),
    ensures
        km.wf(),
        mm.wf(),
        forall|v: VertexId|
            #[trigger] mm.vertices.dom().contains(v) <==> m0.vertices.dom().contains(v)
                && kv_contains(table, v),
        forall|v: VertexId|
            #[trigger] mm.vertices.dom().contains(v) ==> mm.vertices[v] == m0.vertices[v],
        forall|v: VertexId|
            #[trigger] km.vertices.dom().contains(v) <==> m0.vertices.dom().contains(v)
                && !kv_contains(table, v),
        forall|v: VertexId|
            #[trigger] km.vertices.dom().contains(v) ==> km.vertices[v] == m0.vertices[v],
        forall|b: BeamId|
            #[trigger] mm.beams.dom().contains(b) <==> m0.beams.dom().contains(b) && kv_contains(
                table,
                b.spec_down_vertex(),
            ),
        forall|b: BeamId| #[trigger] mm.beams.dom().contains(b) ==> mm.beams[b] == m0.beams[b],
        forall|b: BeamId|
            #[trigger] km.beams.dom().contains(b) <==> m0.beams.dom().contains(b) && !kv_contains(
                table,
                b.spec_down_vertex(),
            ),
        forall|b: BeamId| #[trigger] km.beams.dom().contains(b) ==> km.beams[b] == m0.beams[b],
{
    // The raw tables and their model readings carry the same keys.
    assert forall|i: int, j: int| 0 <= i < j < vmodels(orig_v).len() implies (#[trigger] vmodels(
        orig_v,
    )[i]).0 != (#[trigger] vmodels(orig_v)[j]).0 by {
        assert(orig_v[i].0 != orig_v[j].0);
    }
    assert forall|i: int, j: int| 0 <= i < j < vmodels(kept_v).len() implies (#[trigger] vmodels(
        kept_v,
    )[i]).0 != (#[trigger] vmodels(kept_v)[j]).0 by {
        assert(kept_v[i].0 != kept_v[j].0);
    }
    assert forall|i: int, j: int| 0 <= i < j < vmodels(moved_v).len() implies (#[trigger] vmodels(
        moved_v,
    )[i]).0 != (#[trigger] vmodels(moved_v)[j]).0 by {
        assert(moved_v[i].0 != moved_v[j].0);
    }
    // Membership and values, vertex side.
    assert forall|v: VertexId| #[trigger] km.vertices.dom().contains(v) implies
        m0.vertices.dom().contains(v) && !kv_contains(table, v) && km.vertices[v]
        == m0.vertices[v] by {
        let j = choose|j: int|
            0 <= j < vmodels(kept_v).len() && (#[trigger] vmodels(kept_v)[j]).0 == v;
        assert(kept_v[j].0 == v);
        assert(sieve_source(orig_v, vkeep_out(table), 0, kept_v[j]));
        let i = choose|i: int|
            #![trigger orig_v[i]]
            0 <= i < orig_v.len() && orig_v[i] == kept_v[j] && vkeep_out(table)(orig_v[i]);
        assert(!kv_contains(table, v));
        assert(vmodels(orig_v)[i] == vmodels(kept_v)[j]);
        crate::store::lemma_kv_get_at(vmodels(kept_v), j);
        crate::store::lemma_kv_get_at(vmodels(orig_v), i);
    }
    assert forall|v: VertexId| #[trigger] mm.vertices.dom().contains(v) implies
        m0.vertices.dom().contains(v) && kv_contains(table, v) && mm.vertices[v]
        == m0.vertices[v] by {
        let j = choose|j: int|
            0 <= j < vmodels(moved_v).len() && (#[trigger] vmodels(moved_v)[j]).0 == v;
        assert(moved_v[j].0 == v);
        assert(sieve_source(orig_v, vkeep_in(table), 0, moved_v[j]));
        let i = choose|i: int|
            #![trigger orig_v[i]]
            0 <= i < orig_v.len() && orig_v[i] == moved_v[j] && vkeep_in(table)(orig_v[i]);
        assert(kv_contains(table, v));
        assert(vmodels(orig_v)[i] == vmodels(moved_v)[j]);
        crate::store::lemma_kv_get_at(vmodels(moved_v), j);
        crate::store::lemma_kv_get_at(vmodels(orig_v), i);
    }
    assert forall|v: VertexId| #[trigger] m0.vertices.dom().contains(v) implies (if kv_contains(
        table,
        v,
    ) {
        mm.vertices.dom().contains(v)
    } else {
        km.vertices.dom().contains(v)
    }) by {
        let i = choose|i: int|
            0 <= i < vmodels(orig_v).len() && (#[trigger] vmodels(orig_v)[i]).0 == v;
        assert(orig_v[i].0 == v);
        if kv_contains(table, v) {
            assert(moved_v.contains(orig_v[i]));
            let j = choose|j: int| 0 <= j < moved_v.len() && moved_v[j] == orig_v[i];
            assert(vmodels(moved_v)[j].0 == v);
            assert(kv_contains(vmodels(moved_v), v));
        } else {
            assert(kept_v.contains(orig_v[i]));
            let j = choose|j: int| 0 <= j < kept_v.len() && kept_v[j] == orig_v[i];
            assert(vmodels(kept_v)[j].0 == v);
            assert(kv_contains(vmodels(kept_v), v));
        }
    }
    // Membership and values, beam side.
    assert forall|b: BeamId| #[trigger] km.beams.dom().contains(b) implies
        m0.beams.dom().contains(b) && !kv_contains(table, b.spec_down_vertex()) && km.beams[b]
        == m0.beams[b] by {
        let j = choose|j: int| 0 <= j < kept_b.len() && (#[trigger] kept_b[j]).0 == b;
        assert(sieve_source(orig_b, bkeep_out(table), 0, kept_b[j]));
        let i = choose|i: int|
            #![trigger orig_b[i]]
            0 <= i < orig_b.len() && orig_b[i] == kept_b[j] && bkeep_out::<B>(table)(orig_b[i]);
        crate::store::lemma_kv_get_at(kept_b, j);
        crate::store::lemma_kv_get_at(orig_b, i);
    }
    assert forall|b: BeamId| #[trigger] mm.beams.dom().contains(b) implies
        m0.beams.dom().contains(b) && kv_contains(table, b.spec_down_vertex()) && mm.beams[b]
        == m0.beams[b] by {
        let j = choose|j: int| 0 <= j < moved_b.len() && (#[trigger] moved_b[j]).0 == b;
        assert(sieve_source(orig_b, bkeep_in(table), 0, moved_b[j]));
        let i = choose|i: int|
            #![trigger orig_b[i]]
            0 <= i < orig_b.len() && orig_b[i] == moved_b[j] && bkeep_in::<B>(table)(orig_b[i]);
        crate::store::lemma_kv_get_at(moved_b, j);
        crate::store::lemma_kv_get_at(orig_b, i);
    }
    assert forall|b: BeamId| #[trigger] m0.beams.dom().contains(b) implies (if kv_contains(
        table,
        b.spec_down_vertex(),
    ) {
        mm.beams.dom().contains(b)
    } else {
        km.beams.dom().contains(b)
    }) by {
        let i = choose|i: int| 0 <= i < orig_b.len() && (#[trigger] orig_b[i]).0 == b;
        if kv_contains(table, b.spec_down_vertex()) {
            assert(moved_b.contains(orig_b[i]));
            let j = choose|j: int| 0 <= j < moved_b.len() && moved_b[j] == orig_b[i];
            assert(moved_b[j].0 == b);
        } else {
            assert(kept_b.contains(orig_b[i]));
            let j = choose|j: int| 0 <= j < kept_b.len() && kept_b[j] == orig_b[i];
            assert(kept_b[j].0 == b);
        }
    }
    // A beam crosses no cut: both endpoints are on the same side.
    assert forall|b: BeamId| #[trigger] m0.beams.dom().contains(b) implies (kv_contains(
        table,
        b.spec_down_vertex(),
    ) <==> kv_contains(table, b.spec_up_vertex())) by {
        crate::search::lemma_beam_adjacent(m0, b);
        if kv_contains(table, b.spec_down_vertex()) {
            assert(m0.adjacent(b.spec_down_vertex(), b.spec_up_vertex()));
        }
        if kv_contains(table, b.spec_up_vertex()) {
            assert(m0.adjacent(b.spec_up_vertex(), b.spec_down_vertex()));
        }
    }
    // Well-formedness of the kept half.
    assert forall|id: VertexId| #[trigger] km.vertices.dom().contains(id) implies km.wf_vertex(
        id,
    ) by {
        assert(m0.vertices.dom().contains(id) && !kv_contains(table, id));
        assert(m0.wf_vertex(id));
        assert(km.vertices[id] == m0.vertices[id]);
        let conns = m0.vertices[id].connections;
        assert forall|i: int| 0 <= i < conns.len() implies km.beams.dom().contains(
            (#[trigger] conns[i]).beam_id,
        ) && conns[i].spec_here() == id by {
            let e = conns[i];
            assert(m0.beams.dom().contains(e.beam_id));
            assert(!kv_contains(table, e.beam_id.spec_down_vertex())) by {
                assert(id == e.beam_id.spec_down_vertex() || id == e.beam_id.spec_up_vertex());
                if kv_contains(table, e.beam_id.spec_down_vertex()) {
                    assert(kv_contains(table, e.beam_id.spec_up_vertex()));
                }
            }
        }
    }
    assert forall|b: BeamId| #[trigger] km.beams.dom().contains(b) implies km.wf_beam(b) by {
        assert(m0.beams.dom().contains(b) && !kv_contains(table, b.spec_down_vertex()));
        assert(m0.wf_beam(b));
        assert(!kv_contains(table, b.spec_up_vertex()));
        assert(km.vertices.dom().contains(b.spec_down_vertex()));
        assert(km.vertices.dom().contains(b.spec_up_vertex()));
        assert(km.vertices[b.spec_down_vertex()] == m0.vertices[b.spec_down_vertex()]);
        assert(km.vertices[b.spec_up_vertex()] == m0.vertices[b.spec_up_vertex()]);
    }
    // Well-formedness of the moved half.
    assert forall|id: VertexId| #[trigger] mm.vertices.dom().contains(id) implies mm.wf_vertex(
        id,
    ) by {
        assert(m0.vertices.dom().contains(id) && kv_contains(table, id));
        assert(m0.wf_vertex(id));
        assert(mm.vertices[id] == m0.vertices[id]);
        let conns = m0.vertices[id].connections;
        assert forall|i: int| 0 <= i < conns.len() implies mm.beams.dom().contains(
            (#[trigger] conns[i]).beam_id,
        ) && conns[i].spec_here() == id by {
            let e = conns[i];
            assert(m0.beams.dom().contains(e.beam_id));
            assert(kv_contains(table, e.beam_id.spec_down_vertex())) by {
                assert(id == e.beam_id.spec_down_vertex() || id == e.beam_id.spec_up_vertex());
                if id == e.beam_id.spec_up_vertex() {
                    assert(kv_contains(table, e.beam_id.spec_up_vertex()));
                }
            }
        }
    }
    assert forall|b: BeamId| #[trigger] mm.beams.dom().contains(b) implies mm.wf_beam(b) by {
        assert(m0.beams.dom().contains(b) && kv_contains(table, b.spec_down_vertex()));
        assert(m0.wf_beam(b));
        assert(kv_contains(table, b.spec_up_vertex()));
        assert(mm.vertices.dom().contains(b.spec_down_vertex()));
        assert(mm.vertices.dom().contains(b.spec_up_vertex()));
        assert(mm.vertices[b.spec_down_vertex()] == m0.vertices[b.spec_down_vertex()]);
        assert(mm.vertices[b.spec_up_vertex()] == m0.vertices[b.spec_up_vertex()]);
    }
}

impl<B> Graph<B> {
    /// Move the vertices listed in the table, and every beam among them,
    /// into a brand-new graph, leaving the rest behind.  The table's keys
    /// must be closed under adjacency, so the cut crosses no beam.
    fn extract_component(&mut self, table: &Vec<(VertexId, u64)>) -> (g2: Graph<B>)
        requires
            old(self).inv(),
            forall|v: VertexId, w: VertexId|
                kv_contains(table@, v) && #[trigger] old(self)@.adjacent(v, w) ==> kv_contains(
                    table@,
                    w,
                ),
        ensures
            final(self).inv(),
            g2.inv(),
            forall|v: VertexId|
                #[trigger] g2@.vertices.dom().contains(v) <==> old(self)@.vertices.dom().contains(
                    v,
                ) && kv_contains(table@, v),
            forall|v: VertexId|
                #[trigger] g2@.vertices.dom().contains(v) ==> g2@.vertices[v] == old(self)@.vertices[v],
            forall|v: VertexId|
                #[trigger] final(self)@.vertices.dom().contains(v) <==> old(self)@.vertices.dom().contains(v) && !kv_contains(table@, v),
            forall|v: VertexId|
                #[trigger] final(self)@.vertices.dom().contains(v) ==> final(self)@.vertices[v]
                    == old(self)@.vertices[v],
            forall|b: BeamId|
                #[trigger] g2@.beams.dom().contains(b) <==> old(self)@.beams.dom().contains(b)
                    && kv_contains(table@, b.spec_down_vertex()),
            forall|b: BeamId|
                #[trigger] g2@.beams.dom().contains(b) ==> g2@.beams[b] == old(self)@.beams[b],
            forall|b: BeamId|
                #[trigger] final(self)@.beams.dom().contains(b) <==> old(self)@.beams.dom().contains(b) && !kv_contains(table@, b.spec_down_vertex()),
            forall|b: BeamId|
                #[trigger] final(self)@.beams.dom().contains(b) ==> final(self)@.beams[b] == old(self)@.beams[b],
    {
        let ghost m0 = old(self)@;
        let ghost orig_v = old(self).vertices@;
        let ghost orig_b = old(self).beams@;
        proof {
            assert forall|i: int, j: int| 0 <= i < j < orig_v.len() implies (
            #[trigger] orig_v[i]).0 != (#[trigger] orig_v[j]).0 by {
                assert(vmodels(orig_v)[i].0 == orig_v[i].0);
                assert(vmodels(orig_v)[j].0 == orig_v[j].0);
                assert(vmodels(orig_v)[i].0 != vmodels(orig_v)[j].0);
            }
        }
        let parts_v = partition_vertices(&mut self.vertices, table);
        let ghost kvsnap = parts_v.0@;
        let ghost mvsnap = parts_v.1@;
        let parts_b = partition_beams(&mut self.beams, table);
        let ghost kbsnap = parts_b.0@;
        let ghost mbsnap = parts_b.1@;
        let (kept_v, moved_v) = parts_v;
        let (kept_b, moved_b) = parts_b;
        self.vertices = kept_v;
        self.beams = kept_b;
        let g2 = Graph { vertices: moved_v, beams: moved_b };
        proof {
            assert(self.vertices@ == kvsnap);
            assert(self.beams@ == kbsnap);
            assert(g2.vertices@ == mvsnap);
            assert(g2.beams@ == mbsnap);
            lemma_partition_views(
                m0,
                table@,
                self@,
                g2@,
                kvsnap,
                mvsnap,
                kbsnap,
                mbsnap,
                orig_v,
                orig_b,
            );
            // The model invariant asks for distinct keys of the model
            // reading; the partitions give them on the raw tables.
            assert forall|i: int, j: int| 0 <= i < j < vmodels(kvsnap).len() implies (
            #[trigger] vmodels(kvsnap)[i]).0 != (#[trigger] vmodels(kvsnap)[j]).0 by {
                assert(kvsnap[i].0 != kvsnap[j].0);
            }
            assert forall|i: int, j: int| 0 <= i < j < vmodels(mvsnap).len() implies (
            #[trigger] vmodels(mvsnap)[i]).0 != (#[trigger] vmodels(mvsnap)[j]).0 by {
                assert(mvsnap[i].0 != mvsnap[j].0);
            }
        }
        g2
    }
}

impl Vertex {
    /// Where this vertex sits.
    pub fn position(&self) -> (r: Position)
        ensures
            r == self@.position,
    {
        self.position
    }

    /// The beam ends touching this vertex, in insertion order.
    pub fn connections(&self) -> (r: &Vec<BeamEnd>)
        ensures
            r@ == self@.connections,
    {
        &self.connections
    }
}

} // verus!
