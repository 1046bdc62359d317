//! A verified structural-frame graph: rigid beams connecting anchor vertices.
//!
//! The library keeps a graph of beams and vertices consistent under
//! incremental edits (adding and removing beams), and detects, by a
//! best-first connectivity search, when a removal disconnects the frame.

use vstd::prelude::*;

pub mod client;
pub mod graph;
pub mod messages;
pub mod search;
pub mod server;
pub mod store;

verus! {

/// The direction on a beam.
///
/// Beams are undirected, but the `Down` direction always points to the
/// vertex with the smaller id, so each end of a beam can be addressed
/// unambiguously.
#[derive(Clone, Copy, Debug, Hash, PartialEq, Eq, Structural)]
pub enum BeamDirection {
    Down,
    Up,
}

impl BeamDirection {
    /// The other direction.
    pub open spec fn spec_opposite(self) -> Self {
        match self {
            BeamDirection::Down => BeamDirection::Up,
            BeamDirection::Up => BeamDirection::Down,
        }
    }

    pub fn opposite(self) -> (r: Self)
        ensures
            r == self.spec_opposite(),
    {
        match self {
            BeamDirection::Down => BeamDirection::Up,
            BeamDirection::Up => BeamDirection::Down,
        }
    }
}

/// A vertex id, unique within one graph's id space.
#[derive(Clone, Copy, Debug, Hash, PartialEq, Eq, Structural)]
pub struct VertexId(pub u64);

/// A point on the integer lattice the frame lives on.
///
/// The host application converts its own (typically floating-point)
/// coordinates to and from this fixed-point representation at the boundary.
#[derive(Clone, Copy, Debug, Hash, PartialEq, Eq, Structural)]
pub struct Position {
    pub x: i64,
    pub y: i64,
    pub z: i64,
}

/// How a mutation request can be rejected.
///
/// Every edit operation rejects, rather than heals, an input that would
/// break a graph invariant; the variant names the invariant at stake.
#[derive(Clone, Copy, Debug, Hash, PartialEq, Eq, Structural)]
pub enum GraphError {
    /// The two endpoints of a requested beam are the same vertex.
    SelfLoopBeam,
    /// A vertex creation was requested for an id that is already present.
    DuplicateVertex,
    /// A beam creation was requested for an id that is already present.
    DuplicateBeam,
    /// A referenced vertex id is absent.
    VertexNotFound,
    /// A referenced beam id is absent.
    BeamNotFound,
    /// A join was requested between two vertices that a beam already connects.
    BeamAlreadyExists,
    /// The removal would leave a graph with zero structure.
    EmptyGraphInvariantViolation,
    /// A snapshot is internally inconsistent.
    InvalidSnapshot,
}

/// A beam id made up of two distinct [`VertexId`]s.
///
/// The vertex with the smaller id is the `down` vertex, so the id of a beam
/// between two vertices is the same whichever way round they are given.
#[derive(Clone, Copy, Debug, Hash, PartialEq, Eq, Structural)]
pub struct BeamId {
    pub down_id: u64,
    pub up_id: u64,
}

impl BeamId {
    /// The canonical beam id between `a` and `b`, ignoring argument order.
    /// Only meaningful when `a != b`.
    pub open spec fn spec_from_vertices(a: VertexId, b: VertexId) -> BeamId {
        if a.0 < b.0 {
            BeamId { down_id: a.0, up_id: b.0 }
        } else {
            BeamId { down_id: b.0, up_id: a.0 }
        }
    }

    /// A beam id is canonical: its `down` vertex is strictly the smaller one.
    pub open spec fn canonical(self) -> bool {
        self.down_id < self.up_id
    }

    /// Creates the id of a beam that could exist between two vertices.
    ///
    /// A beam never connects a vertex to itself, so the pair is rejected
    /// when both vertices are the same.
    pub fn from_vertices(a: VertexId, b: VertexId) -> (r: Result<BeamId, GraphError>)
        ensures
            a == b <==> r == Result::<BeamId, GraphError>::Err(GraphError::SelfLoopBeam),
            a != b ==> r == Result::<BeamId, GraphError>::Ok(BeamId::spec_from_vertices(a, b)),
            r is Ok ==> r->Ok_0.canonical(),
    {
        if a.0 == b.0 {
            Err(GraphError::SelfLoopBeam)
        } else if a.0 < b.0 {
            Ok(BeamId { down_id: a.0, up_id: b.0 })
        } else {
            Ok(BeamId { down_id: b.0, up_id: a.0 })
        }
    }

    pub open spec fn spec_down_vertex(self) -> VertexId {
        VertexId(self.down_id)
    }

    pub open spec fn spec_up_vertex(self) -> VertexId {
        VertexId(self.up_id)
    }

    /// The vertex this beam touches in the given direction.
    pub open spec fn spec_vertex(self, direction: BeamDirection) -> VertexId {
        match direction {
            BeamDirection::Down => self.spec_down_vertex(),
            BeamDirection::Up => self.spec_up_vertex(),
        }
    }

    pub fn vertices(self) -> (r: (VertexId, VertexId))
        ensures
            r.0 == self.spec_down_vertex(),
            r.1 == self.spec_up_vertex(),
    {
        (VertexId(self.down_id), VertexId(self.up_id))
    }

    pub fn down_vertex(self) -> (r: VertexId)
        ensures
            r == self.spec_down_vertex(),
    {
        VertexId(self.down_id)
    }

    pub fn up_vertex(self) -> (r: VertexId)
        ensures
            r == self.spec_up_vertex(),
    {
        VertexId(self.up_id)
    }

    pub fn vertex(self, direction: BeamDirection) -> (r: VertexId)
        ensures
            r == self.spec_vertex(direction),
    {
        VertexId(
            match direction {
                BeamDirection::Down => self.down_id,
                BeamDirection::Up => self.up_id,
            },
        )
    }
}

/// Whichever way round two distinct vertices are given, they name the same
/// beam.
pub proof fn lemma_beam_id_symmetric(a: VertexId, b: VertexId)
    requires
        a != b,
    ensures
        BeamId::spec_from_vertices(a, b) == BeamId::spec_from_vertices(b, a),
{
}

/// A (beam, direction) pair identifying which side of a beam touches a
/// given vertex.
#[derive(Clone, Copy, Debug, Hash, PartialEq, Eq, Structural)]
pub struct BeamEnd {
    pub beam_id: BeamId,
    pub beam_end: BeamDirection,
}

impl BeamEnd {
    /// The vertex at the other end of the beam.
    pub open spec fn spec_opposite(self) -> VertexId {
        match self.beam_end {
            BeamDirection::Down => self.beam_id.spec_up_vertex(),
            BeamDirection::Up => self.beam_id.spec_down_vertex(),
        }
    }

    /// The vertex this end itself sits on.
    pub open spec fn spec_here(self) -> VertexId {
        self.beam_id.spec_vertex(self.beam_end)
    }

    pub fn opposite(&self) -> (r: VertexId)
        ensures
            r == self.spec_opposite(),
    {
        match self.beam_end {
            BeamDirection::Down => self.beam_id.up_vertex(),
            BeamDirection::Up => self.beam_id.down_vertex(),
        }
    }
}

} // verus!
