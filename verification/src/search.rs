//! The connectivity-split search: a best-first shortest-path walk from one
//! anchor vertex toward another, over the remaining beams, using straight-
//! line distance between positions as edge cost and as the heuristic toward
//! the goal.  If the goal is popped the anchors are still connected; if the
//! frontier runs dry first, the vertices visited are exactly the component
//! reachable from the start anchor.

use vstd::prelude::*;

use crate::graph::{vmodels, Graph, GraphModel};
use crate::store::{distinct_keys, kv_contains, kv_map};
use crate::{Position, VertexId};

verus! {

impl<B> GraphModel<B> {
    /// One step: some beam end at `a` leads to `b`.
    pub open spec fn adjacent(self, a: VertexId, b: VertexId) -> bool {
        &&& self.vertices.dom().contains(a)
        &&& exists|i: int|
            0 <= i < self.vertices[a].connections.len()
                && (#[trigger] self.vertices[a].connections[i]).spec_opposite() == b
    }

    /// A walk along beams: every vertex present, neighbours adjacent.
    pub open spec fn is_path(self, p: Seq<VertexId>) -> bool {
        &&& p.len() > 0
        &&& (forall|i: int| 0 <= i < p.len() ==> self.vertices.dom().contains(#[trigger] p[i]))
        &&& (forall|i: int| 0 <= i < p.len() - 1 ==> #[trigger] self.adjacent(p[i], p[i + 1]))
    }

    /// `b` can be reached from `a` along beams.
    pub open spec fn reachable(self, a: VertexId, b: VertexId) -> bool {
        exists|p: Seq<VertexId>| self.is_path(p) && p.first() == a && p.last() == b
    }
}

impl<B> GraphModel<B> {
    /// Whether removing the beam leaves its two anchors in different
    /// components: both endpoints must survive the removal and the up anchor
    /// must no longer reach the down anchor over the remaining beams.
    pub open spec fn removal_splits(self, beam: crate::BeamId) -> bool {
        let gr = self.spec_remove_beam(beam);
        &&& gr.vertices.dom().contains(beam.spec_down_vertex())
        &&& gr.vertices.dom().contains(beam.spec_up_vertex())
        &&& !gr.reachable(beam.spec_up_vertex(), beam.spec_down_vertex())
    }
}

/// Every vertex reaches itself.
pub proof fn lemma_reachable_refl<B>(m: GraphModel<B>, v: VertexId)
    requires
        m.vertices.dom().contains(v),
    ensures
        m.reachable(v, v),
{
    let p = seq![v];
    assert(m.is_path(p));
    assert(p.first() == v && p.last() == v);
}

/// Reachability extends along an edge.
pub proof fn lemma_reachable_step<B>(m: GraphModel<B>, a: VertexId, b: VertexId, c: VertexId)
    requires
        m.reachable(a, b),
        m.adjacent(b, c),
        m.vertices.dom().contains(c),
    ensures
        m.reachable(a, c),
{
    let p = choose|p: Seq<VertexId>| m.is_path(p) && p.first() == a && p.last() == b;
    let q = p.push(c);
    assert(m.is_path(q)) by {
        assert forall|i: int| 0 <= i < q.len() implies m.vertices.dom().contains(
            #[trigger] q[i],
        ) by {
            if i < p.len() {
                assert(q[i] == p[i]);
            } else {
                assert(q[i] == c);
            }
        }
        assert forall|i: int| 0 <= i < q.len() - 1 implies #[trigger] m.adjacent(
            q[i],
            q[i + 1],
        ) by {
            if i < p.len() - 1 {
                assert(q[i] == p[i] && q[i + 1] == p[i + 1]);
                assert(m.adjacent(p[i], p[i + 1]));
            } else {
                assert(q[i] == p.last() && q[i + 1] == c);
            }
        }
    }
    assert(q.first() == a && q.last() == c);
}

/// In a well-formed graph an edge leads to a vertex of the graph.
pub proof fn lemma_adjacent_in_vertices<B>(m: GraphModel<B>, a: VertexId, b: VertexId)
    requires
        m.wf(),
        m.adjacent(a, b),
    ensures
        m.vertices.dom().contains(b),
{
    let conns = m.vertices[a].connections;
    let i = choose|i: int| 0 <= i < conns.len() && (#[trigger] conns[i]).spec_opposite() == b;
    assert(m.wf_vertex(a));
    let e = conns[i];
    assert(m.beams.dom().contains(e.beam_id));
    assert(m.wf_beam(e.beam_id));
    assert(b == e.beam_id.spec_down_vertex() || b == e.beam_id.spec_up_vertex());
}

/// The two endpoints of a beam are adjacent, both ways round.
pub proof fn lemma_beam_adjacent<B>(m: GraphModel<B>, b: crate::BeamId)
    requires
        m.wf(),
        m.beams.dom().contains(b),
    ensures
        m.adjacent(b.spec_down_vertex(), b.spec_up_vertex()),
        m.adjacent(b.spec_up_vertex(), b.spec_down_vertex()),
{
    assert(m.wf_beam(b));
    let dconns = m.vertices[b.spec_down_vertex()].connections;
    let de = crate::BeamEnd { beam_id: b, beam_end: crate::BeamDirection::Down };
    assert(dconns.contains(de));
    let i = choose|i: int| 0 <= i < dconns.len() && dconns[i] == de;
    assert(dconns[i].spec_opposite() == b.spec_up_vertex());
    let uconns = m.vertices[b.spec_up_vertex()].connections;
    let ue = crate::BeamEnd { beam_id: b, beam_end: crate::BeamDirection::Up };
    assert(uconns.contains(ue));
    let j = choose|j: int| 0 <= j < uconns.len() && uconns[j] == ue;
    assert(uconns[j].spec_opposite() == b.spec_down_vertex());
}

/// A path cannot leave a set that is closed under adjacency.
proof fn lemma_path_stays_in_closed<B>(m: GraphModel<B>, s: Set<VertexId>, p: Seq<VertexId>)
    requires
        m.is_path(p),
        s.contains(p.first()),
        forall|v: VertexId, w: VertexId|
            s.contains(v) && #[trigger] m.adjacent(v, w) ==> s.contains(w),
    ensures
        s.contains(p.last()),
    decreases p.len(),
{
    if p.len() > 1 {
        let q = p.drop_last();
        assert(m.is_path(q)) by {
            assert forall|i: int| 0 <= i < q.len() - 1 implies #[trigger] m.adjacent(
                q[i],
                q[i + 1],
            ) by {
                assert(q[i] == p[i] && q[i + 1] == p[i + 1]);
                assert(m.adjacent(p[i], p[i + 1]));
            }
        }
        assert(q.first() == p.first());
        lemma_path_stays_in_closed(m, s, q);
        let k = p.len() - 2;
        assert(m.adjacent(p[k], p[k + 1]));
        assert(q.last() == p[k]);
        assert(p[k + 1] == p.last());
    }
}

/// Everything reachable from a member of a set closed under adjacency is in
/// the set.
pub proof fn lemma_closed_set_covers_reachable<B>(
    m: GraphModel<B>,
    s: Set<VertexId>,
    a: VertexId,
    b: VertexId,
)
    requires
        s.contains(a),
        forall|v: VertexId, w: VertexId|
            s.contains(v) && #[trigger] m.adjacent(v, w) ==> s.contains(w),
        m.reachable(a, b),
    ensures
        s.contains(b),
{
    let p = choose|p: Seq<VertexId>| m.is_path(p) && p.first() == a && p.last() == b;
    lemma_path_stays_in_closed(m, s, p);
}

/// The magnitude of the difference of two coordinates.
fn abs_diff_i64(a: i64, b: i64) -> (r: u64)
    ensures
        r as int == if a >= b {
            a - b
        } else {
            b - a
        },
{
    if a >= b {
        ((a as i128) - (b as i128)) as u64
    } else {
        ((b as i128) - (a as i128)) as u64
    }
}

/// Floor of the square root, by binary search on the root.
fn isqrt(n: u128) -> (r: u64)
    ensures
        (r as int) * (r as int) <= n < ((r as int) + 1) * ((r as int) + 1),
{
    let mut lo: u128 = 0;
    let mut hi: u128 = 0x1_0000_0000_0000_0000;
    proof {
        assert(n < 0x1_0000_0000_0000_0000 * 0x1_0000_0000_0000_0000);
    }
    while lo + 1 < hi
        invariant
            lo < hi <= 0x1_0000_0000_0000_0000,
            (lo as int) * (lo as int) <= n,
            n < (hi as int) * (hi as int),
        decreases hi - lo,
    {
        let mid = lo + (hi - lo) / 2;
        proof {
            assert(lo < mid < hi);
            assert((mid as int) * (mid as int) <= (0xffff_ffff_ffff_ffffu128 as int) * (
            0xffff_ffff_ffff_ffffu128 as int)) by (nonlinear_arith)
                requires
                    0 <= mid as int <= 0xffff_ffff_ffff_ffffu128 as int,
            ;
        }
        if mid * mid <= n {
            lo = mid;
        } else {
            hi = mid;
        }
    }
    proof {
        assert(hi == lo + 1);
        assert(lo < 0x1_0000_0000_0000_0000);
    }
    lo as u64
}

/// Straight-line distance between two lattice points, rounded down and
/// saturated at the numeric limit.  The value only guides the order in
/// which the search explores; no correctness property depends on it.
fn dist(p: Position, q: Position) -> (r: u64) {
    let dx = abs_diff_i64(p.x, q.x) as u128;
    let dy = abs_diff_i64(p.y, q.y) as u128;
    let dz = abs_diff_i64(p.z, q.z) as u128;
    proof {
        let cap = 0xffff_ffff_ffff_ffffu128 as int;
        assert((dx as int) * (dx as int) <= cap * cap) by (nonlinear_arith)
            requires
                0 <= dx as int <= cap,
        ;
        assert((dy as int) * (dy as int) <= cap * cap) by (nonlinear_arith)
            requires
                0 <= dy as int <= cap,
        ;
        assert((dz as int) * (dz as int) <= cap * cap) by (nonlinear_arith)
            requires
                0 <= dz as int <= cap,
        ;
    }
    let s = (dx * dx).saturating_add(dy * dy).saturating_add(dz * dz);
    isqrt(s)
}

/// Remove and return a frontier entry of minimal priority.
fn pop_min(frontier: &mut Vec<(u64, u64, VertexId)>) -> (r: (u64, u64, VertexId))
    requires
        old(frontier)@.len() > 0,
    ensures
        exists|i: int|
            0 <= i < old(frontier)@.len() && old(frontier)@[i] == r && final(frontier)@ == old(
                frontier,
            )@.update(i, old(frontier)@.last()).drop_last(),
        forall|j: int| 0 <= j < old(frontier)@.len() ==> r.0 <= (#[trigger] old(frontier)@[j]).0,
{
    let n = frontier.len();
    let mut best: usize = 0;
    let mut i: usize = 1;
    while i < n
        invariant
            n == frontier@.len(),
            0 < n,
            i <= n,
            best < n,
            forall|j: int| 0 <= j < i ==> frontier@[best as int].0 <= (#[trigger] frontier@[j]).0,
        decreases n - i,
    {
        if frontier[i].0 < frontier[best].0 {
            best = i;
        }
        i += 1;
    }
    let r = frontier.swap_remove(best);
    proof {
        assert(old(frontier)@[best as int] == r);
    }
    r
}

/// The index of a vertex in the best-known-cost table, if present.
pub(crate) fn find_cost(table: &Vec<(VertexId, u64)>, id: VertexId) -> (r: Option<usize>)
    ensures
        match r {
            Some(i) => i < table@.len() && table@[i as int].0 == id && kv_contains(table@, id),
            None => !kv_contains(table@, id),
        },
{
    let n = table.len();
    let mut i: usize = 0;
    while i < n
        invariant
            n == table@.len(),
            i <= n,
            forall|j: int| 0 <= j < i ==> (#[trigger] table@[j]).0 != id,
        decreases n - i,
    {
        if table[i].0 == id {
            return Some(i);
        }
        i += 1;
    }
    None
}

/// Best-first search from `start` toward `goal` over the graph's beams.
///
/// A min-priority frontier orders exploration by accumulated cost plus the
/// straight-line heuristic to the goal; the best-known-cost table doubles as
/// the visited set, and a popped entry whose vertex is already settled is
/// discarded as stale.  If `r.0` the goal was reached; otherwise the table's
/// keys are exactly the vertices reachable from `start`, the goal not among
/// them.
pub(crate) fn search_component<B>(g: &Graph<B>, start: VertexId, goal: VertexId) -> (r: (
    bool,
    Vec<(VertexId, u64)>,
))
    requires
        g.inv(),
        g@.vertices.dom().contains(start),
        g@.vertices.dom().contains(goal),
    ensures
        r.0 ==> g@.reachable(start, goal),
        !r.0 ==> {
            &&& distinct_keys(r.1@)
            &&& (forall|v: VertexId| kv_contains(r.1@, v) <==> g@.reachable(start, v))
            &&& !g@.reachable(start, goal)
        },
{
    let ghost m = g@;
    let ig = match crate::graph::find_vertex(&g.vertices, goal) {
        Some(i) => i,
        None => {
            proof {
                assert(false);
            }
            0
        },
    };
    let goal_pos = g.vertices[ig].1.position;
    let is = match crate::graph::find_vertex(&g.vertices, start) {
        Some(i) => i,
        None => {
            proof {
                assert(false);
            }
            0
        },
    };
    let start_pos = g.vertices[is].1.position;
    let mut settled: Vec<(VertexId, u64)> = Vec::new();
    let mut frontier: Vec<(u64, u64, VertexId)> = Vec::new();
    frontier.push((dist(start_pos, goal_pos), 0, start));
    proof {
        lemma_reachable_refl(m, start);
        assert(frontier@[0].2 == start);
    }
    while frontier.len() > 0
        invariant
            g.inv(),
            m == g@,
            m.vertices.dom().contains(start),
            m.vertices.dom().contains(goal),
            distinct_keys(settled@),
            forall|k: int|
                0 <= k < settled@.len() ==> m.vertices.dom().contains(
                    (#[trigger] settled@[k]).0,
                ) && m.reachable(start, settled@[k].0),
            forall|k: int|
                0 <= k < frontier@.len() ==> m.vertices.dom().contains(
                    (#[trigger] frontier@[k]).2,
                ) && m.reachable(start, frontier@[k].2),
            forall|k: int, w: VertexId|
                0 <= k < settled@.len() && #[trigger] m.adjacent(settled@[k].0, w)
                    ==> kv_contains(settled@, w) || (exists|f: int|
                    0 <= f < frontier@.len() && (#[trigger] frontier@[f]).2 == w),
            kv_contains(settled@, start) || (exists|f: int|
                0 <= f < frontier@.len() && (#[trigger] frontier@[f]).2 == start),
            !kv_contains(settled@, goal),
            settled@.len() <= g.vertices@.len(),
        decreases g.vertices@.len() - settled@.len(), frontier@.len(),
    {
        let ghost frontier0 = frontier@;
        let entry = pop_min(&mut frontier);
        proof {
            let i = choose|i: int|
                0 <= i < frontier0.len() && frontier0[i] == entry && frontier@ == frontier0.update(
                    i,
                    frontier0.last(),
                ).drop_last();
            // Every surviving frontier entry was a frontier entry before,
            // and every old entry but the popped one survives.
            assert forall|k: int| 0 <= k < frontier@.len() implies m.vertices.dom().contains(
                (#[trigger] frontier@[k]).2,
            ) && m.reachable(start, frontier@[k].2) by {
                if k == i {
                    assert(frontier@[k] == frontier0.last());
                } else {
                    assert(frontier@[k] == frontier0[k]);
                }
            }
            assert forall|f: int| 0 <= f < frontier0.len() && f != i implies (exists|f2: int|
                0 <= f2 < frontier@.len() && (#[trigger] frontier@[f2]).2 == (
                #[trigger] frontier0[f]).2) by {
                if f == frontier0.len() - 1 {
                    assert(i < frontier0.len() - 1);
                    assert(frontier@[i] == frontier0.last());
                } else {
                    assert(frontier@[f] == frontier0[f]);
                }
            }
        }
        let v = entry.2;
        let cost = entry.1;
        if v.0 == goal.0 {
            proof {
                assert(m.reachable(start, goal));
            }
            return (true, settled);
        }
        let already = find_cost(&settled, v);
        if already.is_none() {
            // Settle `v`: push every neighbour onto the frontier, with its
            // accumulated cost and heuristic, then record `v`'s cost.
            let iv = match crate::graph::find_vertex(&g.vertices, v) {
                Some(i) => i,
                None => {
                    proof {
                        assert(false);
                    }
                    0
                },
            };
            proof {
                crate::store::lemma_kv_get_at(vmodels(g.vertices@), iv as int);
                assert(vmodels(g.vertices@)[iv as int].1 == m.vertices[v]);
            }
            let v_pos = g.vertices[iv].1.position;
            let conns_len = g.vertices[iv].1.connections.len();
            let ghost fpre = frontier@;
            let mut ci: usize = 0;
            while ci < conns_len
                invariant
                    g.inv(),
                    m == g@,
                    m.vertices.dom().contains(start),
                    iv < g.vertices@.len(),
                    g.vertices@[iv as int].0 == v,
                    g.vertices@[iv as int].1@ == m.vertices[v],
                    conns_len == m.vertices[v].connections.len(),
                    ci <= conns_len,
                    m.vertices.dom().contains(v),
                    m.reachable(start, v),
                    forall|k: int|
                        0 <= k < frontier@.len() ==> m.vertices.dom().contains(
                            (#[trigger] frontier@[k]).2,
                        ) && m.reachable(start, frontier@[k].2),
                    forall|c: int|
                        0 <= c < ci ==> (exists|f: int|
                            0 <= f < frontier@.len() && (#[trigger] frontier@[f]).2 == (
                            #[trigger] m.vertices[v].connections[c]).spec_opposite()),
                    forall|f0: int|
                        0 <= f0 < fpre.len() ==> (exists|f: int|
                            0 <= f < frontier@.len() && (#[trigger] frontier@[f]).2 == (
                            #[trigger] fpre[f0]).2),
                decreases conns_len - ci,
            {
                let e = g.vertices[iv].1.connections[ci];
                let w = e.opposite();
                proof {
                    assert(m.vertices[v].connections[ci as int] == e);
                    assert(m.adjacent(v, w));
                    lemma_adjacent_in_vertices(m, v, w);
                    lemma_reachable_step(m, start, v, w);
                }
                let iw = match crate::graph::find_vertex(&g.vertices, w) {
                    Some(i) => i,
                    None => {
                        proof {
                            assert(false);
                        }
                        0
                    },
                };
                let w_pos = g.vertices[iw].1.position;
                let edge = dist(v_pos, w_pos);
                let ncost = cost.saturating_add(edge);
                let prio = ncost.saturating_add(dist(w_pos, goal_pos));
                let ghost pre = frontier@;
                frontier.push((prio, ncost, w));
                proof {
                    assert forall|f0: int| 0 <= f0 < pre.len() implies frontier@[f0] == pre[f0] by {}
                    assert(frontier@[pre.len() as int].2 == w);
                }
                ci += 1;
            }
            let ghost settled0 = settled@;
            settled.push((v, cost));
            proof {
                // Freshness keeps the table key-distinct and bounded.
                crate::store::lemma_kv_push_fresh(settled0, v, cost);
                crate::store::lemma_table_members_bound(settled@, vmodels(g.vertices@));
                // Coverage: old settled vertices keep a witness; the new one
                // has every neighbour on the frontier.
                assert forall|k: int, w: VertexId|
                    0 <= k < settled@.len() && #[trigger] m.adjacent(
                        settled@[k].0,
                        w,
                    ) implies kv_contains(settled@, w) || (exists|f: int|
                    0 <= f < frontier@.len() && (#[trigger] frontier@[f]).2 == w) by {
                    if k < settled0.len() {
                        assert(settled@[k] == settled0[k]);
                        if kv_contains(settled0, w) {
                            let j = choose|j: int|
                                0 <= j < settled0.len() && (#[trigger] settled0[j]).0 == w;
                            assert(settled@[j].0 == w);
                        } else if w == v {
                            assert(settled@[settled0.len() as int].0 == v);
                        }
                    } else {
                        assert(settled@[k].0 == v);
                        let c = choose|c: int|
                            0 <= c < m.vertices[v].connections.len()
                                && (#[trigger] m.vertices[v].connections[c]).spec_opposite() == w;
                    }
                }
                assert(kv_contains(settled@, start) || (exists|f: int|
                    0 <= f < frontier@.len() && (#[trigger] frontier@[f]).2 == start)) by {
                    if kv_contains(settled0, start) {
                        let j = choose|j: int|
                            0 <= j < settled0.len() && (#[trigger] settled0[j]).0 == start;
                        assert(settled@[j].0 == start);
                    } else if start == v {
                        assert(settled@[settled0.len() as int].0 == start);
                    }
                }
                assert(!kv_contains(settled@, goal)) by {
                    if kv_contains(settled@, goal) {
                        let j = choose|j: int|
                            0 <= j < settled@.len() && (#[trigger] settled@[j]).0 == goal;
                        assert(j == settled0.len());
                    }
                }
            }
        } else {
            proof {
                // The popped vertex is already settled, so coverage holds
                // without its frontier entry.
                assert(kv_contains(settled@, v));
            }
        }
    }
    proof {
        // The frontier is dry: the settled keys are closed under adjacency
        // and contain the start, so they are exactly the reachable set.
        let s = Set::new(|v: VertexId| kv_contains(settled@, v));
        assert(s.contains(start));
        assert forall|v: VertexId, w: VertexId|
            s.contains(v) && #[trigger] m.adjacent(v, w) implies s.contains(w) by {
            let k = choose|k: int| 0 <= k < settled@.len() && (#[trigger] settled@[k]).0 == v;
            assert(m.adjacent(settled@[k].0, w));
        }
        assert forall|v: VertexId| kv_contains(settled@, v) <==> m.reachable(start, v) by {
            if m.reachable(start, v) {
                lemma_closed_set_covers_reachable(m, s, start, v);
            }
            if kv_contains(settled@, v) {
                let k = choose|k: int| 0 <= k < settled@.len() && (#[trigger] settled@[k]).0 == v;
                assert(m.reachable(start, settled@[k].0));
            }
        }
    }
    (false, settled)
}

} // verus!
