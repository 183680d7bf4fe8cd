//! Flood discovery: starting floods, and taking in the responses that come
//! back, each once.

use vstd::prelude::*;
use crate::error::ProtocolError;
use crate::packet::{
    FloodRequest,
    FloodRequestView,
    FloodResponse,
    FloodResponseView,
    HeaderView,
    NodeFact,
    NodeId,
    NodeType,
    Packet,
    PacketType,
    PacketTypeView,
    PacketView,
    SourceRoutingHeader,
};
use crate::topology::{Topology, TopologyView};

verus! {

/// What became of a flood response.
#[derive(Clone, Copy, Debug, PartialEq, Eq, Structural)]
pub enum FloodOutcome {
    /// The path is new and now part of the topology store.
    Recorded,
    /// The same response was taken in before; nothing changed.
    Duplicate,
}

/// Mathematical model of the engine: who the node is, the floods it has
/// started, and the responses it has taken in.
#[verifier::ext_equal]
pub struct FloodView {
    pub node_id: NodeId,
    pub node_type: NodeType,
    pub initiated: Set<u64>,
    pub seen: Set<(u64, Seq<NodeFact>)>,
}

impl FloodView {
    /// The engine of a node that has started no flood yet.
    pub open spec fn initial(node_id: NodeId, node_type: NodeType) -> FloodView {
        FloodView { node_id, node_type, initiated: Set::empty(), seen: Set::empty() }
    }

    /// The engine after it has started a flood.
    pub open spec fn started(self, flood_id: u64) -> FloodView {
        FloodView { initiated: self.initiated.insert(flood_id), ..self }
    }

    /// The request that a flood sends to one neighbor: addressed to the
    /// neighbor alone, with the node itself as the only entry of the trace.
    pub open spec fn request_packet(self, flood_id: u64, neighbor: NodeId) -> PacketView {
        PacketView {
            pack_type: PacketTypeView::FloodRequest(
                FloodRequestView {
                    flood_id,
                    initiator_id: self.node_id,
                    path_trace: seq![(self.node_id, self.node_type)],
                },
            ),
            routing_header: HeaderView { hop_index: 1, hops: seq![neighbor] },
            session_id: flood_id,
        }
    }

    /// The flood is one that this node started.
    pub open spec fn is_own_flood(self, initiator_id: NodeId, flood_id: u64) -> bool {
        initiator_id == self.node_id && self.initiated.contains(flood_id)
    }

    /// The response is new: no response with this flood identifier and
    /// this trace was recorded before.
    pub open spec fn is_fresh(self, response: FloodResponseView) -> bool {
        !self.seen.contains((response.flood_id, response.path_trace))
    }

    /// What taking in the response gives: a response recorded before is a
    /// duplicate, every other one is offered to the topology store, which
    /// records it or reports a type conflict.
    pub open spec fn response_result(
        self,
        topology: TopologyView,
        response: FloodResponseView,
    ) -> Result<FloodOutcome, ProtocolError> {
        if !self.is_fresh(response) {
            Ok(FloodOutcome::Duplicate)
        } else {
            match topology.record_result(response.path_trace) {
                Ok(_) => Ok(FloodOutcome::Recorded),
                Err(e) => Err(e),
            }
        }
    }

    /// The engine after the response: a recorded response is remembered,
    /// any other leaves the engine as it was.
    pub open spec fn after_response(
        self,
        topology: TopologyView,
        response: FloodResponseView,
    ) -> FloodView {
        if self.is_fresh(response) && topology.consistent(response.path_trace) {
            FloodView {
                seen: self.seen.insert((response.flood_id, response.path_trace)),
                ..self
            }
        } else {
            self
        }
    }

    /// The topology store after the response: a fresh response is offered
    /// to it, which adds the path where the trace is consistent; any other
    /// response leaves it as it was.
    pub open spec fn topology_after_response(
        self,
        topology: TopologyView,
        response: FloodResponseView,
    ) -> TopologyView {
        if self.is_fresh(response) {
            topology.recorded(response.path_trace)
        } else {
            topology
        }
    }
}

/// A response that was recorded.
struct SeenResponse {
    flood_id: u64,
    path_trace: Vec<NodeFact>,
}

/// The discovery state of one node.
pub struct FloodEngine {
    node_id: NodeId,
    node_type: NodeType,
    initiated: Vec<u64>,
    seen: Vec<SeenResponse>,
}

impl View for FloodEngine {
    type V = FloodView;

    closed spec fn view(&self) -> FloodView {
        FloodView {
            node_id: self.node_id,
            node_type: self.node_type,
            initiated: Set::new(|flood_id: u64| self.initiated@.contains(flood_id)),
            seen: Set::new(
                |response: (u64, Seq<NodeFact>)|
                    exists|i: int|
                        0 <= i < self.seen@.len() && (#[trigger] self.seen@[i]).flood_id
                            == response.0 && self.seen@[i].path_trace@ == response.1,
            ),
        }
    }
}

/// Whether two traces are the same.
fn same_trace(a: &[NodeFact], b: &[NodeFact]) -> (same: bool)
    ensures
        same == (a@ == b@),
{
    if a.len() != b.len() {
        return false;
    }
    let mut i: usize = 0;
    while i < a.len()
        invariant
            a@.len() == b@.len(),
            i <= a@.len(),
            forall|j: int| 0 <= j < i ==> a@[j] == b@[j],
        decreases a@.len() - i,
    {
        if a[i].0 != b[i].0 || a[i].1 != b[i].1 {
            return false;
        }
        i = i + 1;
    }
    assert(a@ =~= b@);
    true
}

/// Copies a trace.
fn copy_trace(trace: &[NodeFact]) -> (copy: Vec<NodeFact>)
    ensures
        copy@ == trace@,
{
    let mut copy: Vec<NodeFact> = Vec::new();
    let mut i: usize = 0;
    while i < trace.len()
        invariant
            i <= trace@.len(),
            copy@ == trace@.take(i as int),
        decreases trace@.len() - i,
    {
        copy.push(trace[i]);
        assert(trace@.take(i as int).push(trace@[i as int]) =~= trace@.take(i + 1));
        i = i + 1;
    }
    assert(trace@.take(trace@.len() as int) =~= trace@);
    copy
}

impl FloodEngine {
    /// The engine of a node that has started no flood yet.
    pub fn new(node_id: NodeId, node_type: NodeType) -> (engine: FloodEngine)
        ensures
            engine@ == FloodView::initial(node_id, node_type),
    {
        let engine = FloodEngine { node_id, node_type, initiated: Vec::new(), seen: Vec::new() };
        assert(engine@ =~= FloodView::initial(node_id, node_type));
        engine
    }

    /// The identifier of the node.
    pub fn node_id(&self) -> (id: NodeId)
        ensures
            id == self@.node_id,
    {
        self.node_id
    }

    /// The role of the node.
    pub fn node_type(&self) -> (role: NodeType)
        ensures
            role == self@.node_type,
    {
        self.node_type
    }

    /// Whether this node has started the flood.
    pub fn has_initiated(&self, flood_id: u64) -> (started: bool)
        ensures
            started == self@.initiated.contains(flood_id),
    {
        let mut i: usize = 0;
        while i < self.initiated.len()
            invariant
                i <= self.initiated@.len(),
                forall|j: int| 0 <= j < i ==> self.initiated@[j] != flood_id,
            decreases self.initiated@.len() - i,
        {
            if self.initiated[i] == flood_id {
                return true;
            }
            i = i + 1;
        }
        false
    }

    /// Whether a flood request that arrives is one of this node's own
    /// floods come back. Such a request is never sent on.
    pub fn is_own_flood(&self, request: &FloodRequest) -> (own: bool)
        ensures
            own == self@.is_own_flood(request.initiator_id, request.flood_id),
    {
        request.initiator_id == self.node_id && self.has_initiated(request.flood_id)
    }

    /// Whether the engine has recorded this response before.
    pub fn has_seen(&self, flood_id: u64, path_trace: &[NodeFact]) -> (seen: bool)
        ensures
            seen == self@.seen.contains((flood_id, path_trace@)),
    {
        let mut i: usize = 0;
        while i < self.seen.len()
            invariant
                i <= self.seen@.len(),
                forall|j: int|
                    0 <= j < i ==> !((#[trigger] self.seen@[j]).flood_id == flood_id
                        && self.seen@[j].path_trace@ == path_trace@),
            decreases self.seen@.len() - i,
        {
            if self.seen[i].flood_id == flood_id && same_trace(
                self.seen[i].path_trace.as_slice(),
                path_trace,
            ) {
                return true;
            }
            i = i + 1;
        }
        false
    }

    /// Starts a flood: one request for each neighbor, all with the same
    /// flood identifier, each addressed to its neighbor alone.
    ///
    /// Without neighbors there is nothing to send, and no flood is started.
    pub fn start_flood(&mut self, flood_id: u64, neighbors: &[NodeId]) -> (result: Result<
        Vec<Packet>,
        ProtocolError,
    >)
        ensures
            neighbors@.len() == 0 ==> (result matches Err(e) && e == ProtocolError::NoNeighbors
                && final(self)@ == old(self)@),
            neighbors@.len() > 0 ==> (result matches Ok(packets) && {
                &&& final(self)@ == old(self)@.started(flood_id)
                &&& packets@.len() == neighbors@.len()
                &&& forall|i: int|
                    0 <= i < packets@.len() ==> (#[trigger] packets@[i])@
                        == old(self)@.request_packet(flood_id, neighbors@[i])
            }),
    {
        if neighbors.len() == 0 {
            return Err(ProtocolError::NoNeighbors);
        }
        let mut packets: Vec<Packet> = Vec::new();
        let mut i: usize = 0;
        while i < neighbors.len()
            invariant
                i <= neighbors@.len(),
                *self == *old(self),
                packets@.len() == i,
                forall|j: int|
                    0 <= j < i ==> (#[trigger] packets@[j])@ == self@.request_packet(
                        flood_id,
                        neighbors@[j],
                    ),
            decreases neighbors@.len() - i,
        {
            let mut path_trace: Vec<NodeFact> = Vec::new();
            path_trace.push((self.node_id, self.node_type));
            let mut hops: Vec<NodeId> = Vec::new();
            hops.push(neighbors[i]);
            let packet = Packet {
                pack_type: PacketType::FloodRequest(
                    FloodRequest { flood_id, initiator_id: self.node_id, path_trace },
                ),
                routing_header: SourceRoutingHeader { hop_index: 1, hops },
                session_id: flood_id,
            };
            assert(packet@ =~~= self@.request_packet(flood_id, neighbors@[i as int]));
            packets.push(packet);
            i = i + 1;
        }
        if !self.has_initiated(flood_id) {
            self.initiated.push(flood_id);
            assert forall|id: u64|
                self.initiated@.contains(id) <==> old(self).initiated@.contains(id) || id
                    == flood_id by {
                if old(self).initiated@.contains(id) {
                    let at = choose|at: int|
                        0 <= at < old(self).initiated@.len() && old(self).initiated@[at] == id;
                    assert(self.initiated@[at] == id);
                }
                if id == flood_id {
                    assert(self.initiated@[old(self).initiated@.len() as int] == id);
                }
            }
        }
        assert(self@.initiated =~= old(self)@.started(flood_id).initiated);
        assert(self@.seen =~= old(self)@.seen);
        Ok(packets)
    }

    /// Takes in a flood response.
    ///
    /// A response that was recorded before, with the same flood identifier
    /// and the same trace, changes nothing. Every other one is handed to the
    /// topology store, whichever flood it names and in whichever direction
    /// its trace runs; where the store refuses it, nothing changes either,
    /// and the store's error is the result.
    pub fn on_flood_response(
        &mut self,
        topology: &mut Topology,
        response: &FloodResponse,
    ) -> (result: Result<FloodOutcome, ProtocolError>)
        ensures
            result == old(self)@.response_result(old(topology)@, response@),
            final(self)@ == old(self)@.after_response(old(topology)@, response@),
            final(topology)@ == old(self)@.topology_after_response(old(topology)@, response@),
    {
        let trace = response.path_trace.as_slice();
        if self.has_seen(response.flood_id, trace) {
            return Ok(FloodOutcome::Duplicate);
        }
        match topology.record_path(trace) {
            Err(e) => Err(e),
            Ok(_) => {
                let entry = SeenResponse {
                    flood_id: response.flood_id,
                    path_trace: copy_trace(trace),
                };
                let ghost key = (response.flood_id, trace@);
                self.seen.push(entry);
                assert forall|r: (u64, Seq<NodeFact>)|
                    self@.seen.contains(r) <==> old(self)@.seen.contains(r) || r == key by {
                    if old(self)@.seen.contains(r) {
                        let at = choose|at: int|
                            0 <= at < old(self).seen@.len() && (#[trigger] old(
                                self,
                            ).seen@[at]).flood_id == r.0 && old(self).seen@[at].path_trace@ == r.1;
                        assert(self.seen@[at].flood_id == r.0);
                    }
                    if r == key {
                        assert(self.seen@[old(self).seen@.len() as int].flood_id == r.0);
                    }
                }
                assert(self@.seen =~= old(self)@.seen.insert(key));
                assert(self@.initiated =~= old(self)@.initiated);
                Ok(FloodOutcome::Recorded)
            },
        }
    }
}

/// A response taken in a second time changes nothing: after the first time
/// it is a duplicate, or it was refused and is refused again.
pub proof fn lemma_response_idempotent(
    engine: FloodView,
    topology: TopologyView,
    response: FloodResponseView,
)
    ensures
        ({
            let engine_once = engine.after_response(topology, response);
            let topology_once = engine.topology_after_response(topology, response);
            &&& engine_once.after_response(topology_once, response) == engine_once
            &&& engine_once.topology_after_response(topology_once, response) == topology_once
        }),
{
    crate::topology::lemma_record_path_idempotent(topology, response.path_trace);
}

/// A node never takes a flood of another node for its own, whatever flood
/// identifier that flood carries, and takes every flood that it started for
/// its own.
pub proof fn lemma_own_flood(engine: FloodView, initiator_id: NodeId, flood_id: u64)
    ensures
        initiator_id != engine.node_id ==> !engine.is_own_flood(initiator_id, flood_id),
        engine.started(flood_id).is_own_flood(engine.node_id, flood_id),
        engine.is_own_flood(initiator_id, flood_id) ==> engine.started(flood_id).is_own_flood(
            initiator_id,
            flood_id,
        ),
{
}

/// After a response was recorded, the topology store holds its path: every
/// node of the trace with the role that the trace gives it, and a link
/// between every two consecutive nodes. A response that was not recorded
/// leaves the store as it was.
pub proof fn lemma_recorded_response_is_held(
    engine: FloodView,
    topology: TopologyView,
    response: FloodResponseView,
)
    ensures
        engine.response_result(topology, response) == Ok::<FloodOutcome, ProtocolError>(
            FloodOutcome::Recorded,
        ) ==> {
            let after = engine.topology_after_response(topology, response);
            &&& forall|i: int|
                0 <= i < response.path_trace.len() ==> after.knows(
                    (#[trigger] response.path_trace[i]).0,
                ) && after.nodes[response.path_trace[i].0] == response.path_trace[i].1
            &&& forall|i: int|
                0 <= i < response.path_trace.len() - 1 ==> after.linked(
                    (#[trigger] response.path_trace[i]).0,
                    response.path_trace[i + 1].0,
                )
        },
        engine.response_result(topology, response) != Ok::<FloodOutcome, ProtocolError>(
            FloodOutcome::Recorded,
        ) ==> engine.topology_after_response(topology, response) == topology,
{
    if engine.is_fresh(response) && topology.consistent(response.path_trace) {
        crate::topology::lemma_with_path_holds_trace(topology, response.path_trace);
    }
}

} // verus!
