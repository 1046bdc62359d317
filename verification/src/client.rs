//! The mirror side: a client rebuilds its frame from a full snapshot and
//! keeps it consistent by replaying the authority's update messages in
//! order.  A mirror never allocates ids of its own.

use vstd::prelude::*;

use crate::graph::{split_into, Graph};
use crate::messages::{
    graph_from_snapshot, lists_endpoint, position_listed, snapshot_ok, FrameUpdate,
    SerializedGraph,
};
use crate::store::{distinct_keys, kv_map};
use crate::GraphError;

verus! {

/// A mirror's frame, reconstructed from a full snapshot: exactly the
/// snapshot's beams with their payloads, the beams' endpoints as vertices,
/// each at its listed position.
pub fn frame_from_snapshot<B>(serialized: SerializedGraph<B>) -> (r: Result<Graph<B>, GraphError>)
    ensures
        r is Ok <==> snapshot_ok(serialized.vertices@, serialized.beams@),
        r is Err ==> r->Err_0 == GraphError::InvalidSnapshot,
        r is Ok ==> {
            let g = r->Ok_0;
            &&& g.inv()
            &&& g@.beams == kv_map(serialized.beams@)
            &&& distinct_keys(serialized.beams@)
            &&& g.vertices@.len() == serialized.vertices@.len()
            &&& (forall|v: crate::VertexId|
                #[trigger] g@.vertices.dom().contains(v) <==> lists_endpoint(
                    serialized.beams@,
                    v,
                ))
            &&& (forall|v: crate::VertexId|
                #[trigger] g@.vertices.dom().contains(v) ==> position_listed(
                    serialized.vertices@,
                    v,
                    g@.vertices[v].position,
                ))
        },
{
    graph_from_snapshot(serialized)
}

/// Replays one authority update on the mirror: an added beam is added, a
/// removed beam is removed, with the removal's split behaviour passed
/// through — the detached component, if the removal disconnects the frame,
/// is handed back to the caller.
pub fn apply_update<B>(g: &mut Graph<B>, update: FrameUpdate<B>) -> (r: Result<
    Option<Graph<B>>,
    GraphError,
>)
    requires
        old(g).inv(),
    ensures
        final(g).inv(),
        match update {
            FrameUpdate::AddBeam { vertex_a, position_a, vertex_b, position_b, beam_data } => {
                match r {
                    Ok(split) => {
                        &&& split is None
                        &&& old(g)@.add_beam_check(vertex_a, position_a, vertex_b, position_b)
                            is Ok
                        &&& final(g)@ == old(g)@.spec_add_beam(
                            vertex_a,
                            position_a,
                            vertex_b,
                            position_b,
                            beam_data,
                        )
                    },
                    Err(e) => {
                        &&& old(g)@.add_beam_check(vertex_a, position_a, vertex_b, position_b)
                            == Err::<(), GraphError>(e)
                        &&& *final(g) == *old(g)
                    },
                }
            },
            FrameUpdate::RemoveBeam { id } => {
                match r {
                    Ok(split) => {
                        let gr = old(g)@.spec_remove_beam(id);
                        &&& old(g)@.beams.dom().contains(id)
                        &&& old(g)@.beams.dom().len() > 1
                        &&& (split is Some <==> old(g)@.removal_splits(id))
                        &&& match split {
                            None => final(g)@ == gr,
                            Some(part) => part.inv() && split_into(
                                gr,
                                id.spec_up_vertex(),
                                final(g)@,
                                part@,
                            ),
                        }
                    },
                    Err(e) => {
                        &&& *final(g) == *old(g)
                        &&& (e == GraphError::BeamNotFound || e
                            == GraphError::EmptyGraphInvariantViolation)
                        &&& (e == GraphError::BeamNotFound <==> !old(g)@.beams.dom().contains(
                            id,
                        ))
                        &&& (e == GraphError::EmptyGraphInvariantViolation <==> old(g)@.beams.dom().contains(id) && old(g)@.beams.dom().len() == 1)
                    },
                }
            },
        },
{
    match update {
        FrameUpdate::AddBeam { vertex_a, position_a, vertex_b, position_b, beam_data } => {
            match g.add_beam(vertex_a, position_a, vertex_b, position_b, beam_data) {
                Ok(_) => Ok(None),
                Err(e) => Err(e),
            }
        },
        FrameUpdate::RemoveBeam { id } => {
            match g.remove_beam(id) {
                Ok((_, split)) => Ok(split),
                Err(e) => Err(e),
            }
        },
    }
}

} // verus!
