//! Node control: the client that owns the identity of the node, its topology
//! store, its floods and its deliveries, and hands every packet that comes
//! in to the part that deals with it.

use vstd::prelude::*;
use crate::delivery::{
    acked,
    fresh_session,
    is_complete,
    nacked,
    state_of,
    DeliveryTracker,
    DeliveryView,
    FragmentState,
};
use crate::error::ProtocolError;
use crate::flood::{FloodEngine, FloodOutcome, FloodView};
use crate::fragmenter::{fragment, fragment_count, is_fragment_of, is_fragmentation};
use crate::packet::{
    copy_hops,
    FloodResponse,
    FloodResponseView,
    Fragment,
    HeaderView,
    NodeId,
    NodeType,
    Packet,
    PacketType,
    PacketTypeView,
    PacketView,
    SourceRoutingHeader,
};
use crate::router::{compute_route, has_route, is_route, is_route_answer};
use crate::transport::transmit;
use crossbeam::channel::Sender;
use crate::topology::{Topology, TopologyView};

verus! {

/// What the client did with a packet that came in.
#[derive(Clone, Copy, Debug, PartialEq, Eq)]
pub enum Handled {
    /// An ack or a nack was taken in. Holds the state that the fragment is in
    /// now, or nothing where the client never sent that fragment.
    Delivery(Option<FragmentState>),
    /// A flood response was taken in.
    Flood(FloodOutcome),
    /// A flood request was seen and not sent on. `own` tells whether it was
    /// a flood of this node come back.
    FloodRequest { own: bool },
    /// A message fragment, for the application to collect.
    Fragment(Fragment),
}

/// What the client has to hand to the transport for one payload.
#[derive(Clone, Debug, PartialEq, Eq)]
pub struct Outbound {
    /// The session that the fragments belong to.
    pub session_id: u64,
    /// Number of fragments of the session.
    pub fragment_count: u64,
    /// The route that every packet takes.
    pub route: Vec<NodeId>,
    /// One packet for each fragment, by fragment index.
    pub packets: Vec<Packet>,
}

/// Mathematical model of the client.
#[verifier::ext_equal]
pub struct ClientView {
    /// The direct neighbors that the client was made with.
    pub neighbors: Seq<NodeId>,
    pub topology: TopologyView,
    pub floods: FloodView,
    pub deliveries: DeliveryView,
}

impl ClientView {
    /// The identifier of the node.
    pub open spec fn id(self) -> NodeId {
        self.floods.node_id
    }

    /// The client as it is made: nothing discovered, nothing started,
    /// nothing sent.
    pub open spec fn initial(id: NodeId, neighbors: Seq<NodeId>) -> ClientView {
        ClientView {
            neighbors,
            topology: TopologyView::empty(),
            floods: FloodView::initial(id, NodeType::Client),
            deliveries: Seq::empty(),
        }
    }

    /// The client after it has started a flood.
    pub open spec fn after_flood_start(self, flood_id: u64) -> ClientView {
        ClientView { floods: self.floods.started(flood_id), ..self }
    }

    /// The client after a flood response has come in: the response goes to
    /// the flood engine and, where it is new, to the topology store.
    pub open spec fn after_response(self, response: FloodResponseView) -> ClientView {
        ClientView {
            topology: self.floods.topology_after_response(self.topology, response),
            floods: self.floods.after_response(self.topology, response),
            ..self
        }
    }

    /// The client after a packet has come in: an ack or nack moves the
    /// fragment it names, a flood response goes to the flood engine and the
    /// topology store, anything else changes nothing.
    pub open spec fn after_packet(self, packet: PacketView) -> ClientView {
        match packet.pack_type {
            PacketTypeView::Ack(ack) => ClientView {
                deliveries: acked(self.deliveries, packet.session_id, ack.fragment_index),
                ..self
            },
            PacketTypeView::Nack(nack) => ClientView {
                deliveries: nacked(
                    self.deliveries,
                    packet.session_id,
                    nack.fragment_index,
                    nack.nack_type,
                ),
                ..self
            },
            PacketTypeView::FloodResponse(response) => self.after_response(response),
            PacketTypeView::FloodRequest(_) => self,
            PacketTypeView::MsgFragment(_) => self,
        }
    }

    /// What handling the packet gives.
    pub open spec fn packet_result(self, packet: PacketView) -> Result<Handled, ProtocolError> {
        match packet.pack_type {
            PacketTypeView::Ack(ack) => Ok(
                Handled::Delivery(
                    state_of(
                        acked(self.deliveries, packet.session_id, ack.fragment_index),
                        packet.session_id,
                        ack.fragment_index,
                    ),
                ),
            ),
            PacketTypeView::Nack(nack) => Ok(
                Handled::Delivery(
                    state_of(
                        nacked(
                            self.deliveries,
                            packet.session_id,
                            nack.fragment_index,
                            nack.nack_type,
                        ),
                        packet.session_id,
                        nack.fragment_index,
                    ),
                ),
            ),
            PacketTypeView::FloodResponse(response) => match self.floods.response_result(
                self.topology,
                response,
            ) {
                Ok(outcome) => Ok(Handled::Flood(outcome)),
                Err(e) => Err(e),
            },
            PacketTypeView::FloodRequest(request) => Ok(
                Handled::FloodRequest {
                    own: self.floods.is_own_flood(request.initiator_id, request.flood_id),
                },
            ),
            PacketTypeView::MsgFragment(fragment) => Ok(Handled::Fragment(fragment)),
        }
    }

    /// The client after it has sent a payload of `len` bytes: one more
    /// session, all of its fragments just sent.
    pub open spec fn after_send(self, len: nat) -> ClientView {
        ClientView { deliveries: self.deliveries.push(fresh_session(fragment_count(len))), ..self }
    }
}

/// The packet carries piece `i` of the payload along the route, for the
/// session, with the cursor at the first hop behind the sender.
pub open spec fn is_data_packet(
    packet: PacketView,
    route: Seq<NodeId>,
    session_id: u64,
    payload: Seq<u8>,
    i: int,
) -> bool {
    &&& packet.routing_header == HeaderView { hop_index: 1, hops: route }
    &&& packet.session_id == session_id
    &&& packet.pack_type matches PacketTypeView::MsgFragment(fragment)
    &&& is_fragment_of(fragment, payload, i)
}

/// A client node of the network.
pub struct Client {
    connected_drones: Vec<NodeId>,
    network_topology: Topology,
    floods: FloodEngine,
    deliveries: DeliveryTracker,
}

impl View for Client {
    type V = ClientView;

    closed spec fn view(&self) -> ClientView {
        ClientView {
            neighbors: self.connected_drones@,
            topology: self.network_topology@,
            floods: self.floods@,
            deliveries: self.deliveries@,
        }
    }
}

impl Client {
    /// A client with its identifier and its direct neighbors, which is all
    /// that it knows of the network before it floods.
    pub fn new(id: NodeId, connected_drones: Vec<NodeId>) -> (client: Client)
        ensures
            client@ == ClientView::initial(id, connected_drones@),
    {
        Client {
            connected_drones,
            network_topology: Topology::new(),
            floods: FloodEngine::new(id, NodeType::Client),
            deliveries: DeliveryTracker::new(),
        }
    }

    /// The identifier of the node.
    pub fn id(&self) -> (id: NodeId)
        ensures
            id == self@.id(),
    {
        self.floods.node_id()
    }

    /// The direct neighbors that the client was made with.
    pub fn neighbors(&self) -> (neighbors: &[NodeId])
        ensures
            neighbors@ == self@.neighbors,
    {
        self.connected_drones.as_slice()
    }

    /// The topology store, to read.
    pub fn topology(&self) -> (topology: &Topology)
        ensures
            topology@ == self@.topology,
    {
        &self.network_topology
    }

    /// The flood engine, to read.
    pub fn floods(&self) -> (floods: &FloodEngine)
        ensures
            floods@ == self@.floods,
    {
        &self.floods
    }

    /// The delivery tracker, to read.
    pub fn deliveries(&self) -> (deliveries: &DeliveryTracker)
        ensures
            deliveries@ == self@.deliveries,
    {
        &self.deliveries
    }

    /// Whether the client has started the flood.
    pub fn has_initiated(&self, flood_id: u64) -> (started: bool)
        ensures
            started == self@.floods.initiated.contains(flood_id),
    {
        self.floods.has_initiated(flood_id)
    }

    /// The state of a fragment, if the client has sent it.
    pub fn fragment_state(&self, session_id: u64, fragment_index: u64) -> (state: Option<
        FragmentState,
    >)
        ensures
            state == state_of(self@.deliveries, session_id, fragment_index),
    {
        self.deliveries.fragment_state(session_id, fragment_index)
    }

    /// Whether the session exists and every fragment of it is acknowledged.
    pub fn is_session_complete(&self, session_id: u64) -> (complete: bool)
        ensures
            complete == is_complete(self@.deliveries, session_id),
    {
        self.deliveries.is_session_complete(session_id)
    }

    /// Hands a packet that came in to the part of the client that deals
    /// with its kind.
    pub fn handle_packet(&mut self, packet: Packet) -> (result: Result<Handled, ProtocolError>)
        ensures
            final(self)@ == old(self)@.after_packet(packet@),
            result == old(self)@.packet_result(packet@),
    {
        let session_id = packet.session_id;
        match packet.pack_type {
            PacketType::Ack(ack) => {
                let state = self.deliveries.on_ack(session_id, ack.fragment_index);
                Ok(Handled::Delivery(state))
            },
            PacketType::Nack(nack) => {
                let state = self.deliveries.on_nack(
                    session_id,
                    nack.fragment_index,
                    nack.nack_type,
                );
                Ok(Handled::Delivery(state))
            },
            PacketType::FloodResponse(response) => {
                match self.floods.on_flood_response(&mut self.network_topology, &response) {
                    Ok(outcome) => Ok(Handled::Flood(outcome)),
                    Err(e) => Err(e),
                }
            },
            PacketType::FloodRequest(request) => {
                Ok(Handled::FloodRequest { own: self.floods.is_own_flood(&request) })
            },
            PacketType::MsgFragment(fragment) => Ok(Handled::Fragment(fragment)),
        }
    }

    /// Starts a flood: one request for each direct neighbor, for the
    /// transport to send.
    ///
    /// A client without neighbors has nobody to ask.
    pub fn start_flood(&mut self, flood_id: u64) -> (result: Result<Vec<Packet>, ProtocolError>)
        ensures
            old(self)@.neighbors.len() == 0 ==> (result matches Err(e) && e
                == ProtocolError::NoNeighbors && final(self)@ == old(self)@),
            old(self)@.neighbors.len() > 0 ==> (result matches Ok(packets) && {
                &&& final(self)@ == old(self)@.after_flood_start(flood_id)
                &&& packets@.len() == old(self)@.neighbors.len()
                &&& forall|i: int|
                    0 <= i < packets@.len() ==> (#[trigger] packets@[i])@
                        == old(self)@.floods.request_packet(flood_id, old(self)@.neighbors[i])
            }),
    {
        self.floods.start_flood(flood_id, self.connected_drones.as_slice())
    }

    /// Starts a flood and hands its requests to the transport.
    ///
    /// A client without neighbors has nobody to ask, and starts nothing.
    /// Otherwise the flood is started, whatever the transport does; where
    /// the transport does not take a request, that is the result.
    pub fn flood_request(&mut self, flood_id: u64, sender: &Sender<Packet>) -> (result: Result<
        (),
        ProtocolError,
    >)
        ensures
            old(self)@.neighbors.len() == 0 ==> result == Err::<(), ProtocolError>(
                ProtocolError::NoNeighbors,
            ) && final(self)@ == old(self)@,
            old(self)@.neighbors.len() > 0 ==> final(self)@ == old(self)@.after_flood_start(
                flood_id,
            ) && (result == Ok::<(), ProtocolError>(()) || result == Err::<(), ProtocolError>(
                ProtocolError::TransportUnavailable,
            )),
    {
        match self.start_flood(flood_id) {
            Ok(requests) => match transmit(sender, requests) {
                Ok(_) => Ok(()),
                Err(e) => Err(e),
            },
            Err(e) => Err(e),
        }
    }

    /// Takes in a flood response: a path that was not recorded before goes
    /// into the topology store.
    pub fn handle_flood_response(&mut self, response: FloodResponse) -> (result: Result<
        FloodOutcome,
        ProtocolError,
    >)
        ensures
            result == old(self)@.floods.response_result(old(self)@.topology, response@),
            final(self)@ == old(self)@.after_response(response@),
    {
        self.floods.on_flood_response(&mut self.network_topology, &response)
    }

    /// The route from this node to a destination, through what the client
    /// has discovered.
    pub fn compute_route(&self, destination: NodeId) -> (result: Result<Vec<NodeId>, ProtocolError>)
        ensures
            match result {
                Ok(route) => is_route_answer(
                    self@.topology,
                    self@.id(),
                    destination,
                    Ok::<Seq<NodeId>, ProtocolError>(route@),
                ),
                Err(e) => is_route_answer(
                    self@.topology,
                    self@.id(),
                    destination,
                    Err::<Seq<NodeId>, ProtocolError>(e),
                ),
            },
    {
        compute_route(&self.network_topology, self.floods.node_id(), destination)
    }

    /// Splits a message into fragments.
    pub fn fragment_message(&self, data: Vec<u8>) -> (fragments: Vec<Fragment>)
        ensures
            is_fragmentation(fragments@, data@),
            forall|i: int| 0 <= i < fragments@.len() ==> (#[trigger] fragments@[i]).well_formed(),
    {
        fragment(data.as_slice())
    }

    /// Prepares a payload for sending: computes the route, splits the
    /// payload, opens a session, and registers every fragment as sent.
    ///
    /// The result holds one packet for each fragment, all on the same route
    /// and of the same session, for the transport to send. Without a route
    /// nothing is opened and nothing changes.
    pub fn send_payload(&mut self, destination: NodeId, payload: &[u8]) -> (result: Result<
        Outbound,
        ProtocolError,
    >)
        ensures
            match result {
                Ok(outbound) => {
                    &&& is_route_answer(
                        old(self)@.topology,
                        old(self)@.id(),
                        destination,
                        Ok::<Seq<NodeId>, ProtocolError>(outbound.route@),
                    )
                    &&& final(self)@ == old(self)@.after_send(payload@.len())
                    &&& outbound.session_id == old(self)@.deliveries.len()
                    &&& outbound.fragment_count == fragment_count(payload@.len())
                    &&& outbound.packets@.len() == fragment_count(payload@.len())
                    &&& forall|i: int|
                        0 <= i < outbound.packets@.len() ==> is_data_packet(
                            (#[trigger] outbound.packets@[i])@,
                            outbound.route@,
                            outbound.session_id,
                            payload@,
                            i,
                        )
                },
                Err(e) => {
                    &&& is_route_answer(
                        old(self)@.topology,
                        old(self)@.id(),
                        destination,
                        Err::<Seq<NodeId>, ProtocolError>(e),
                    )
                    &&& final(self)@ == old(self)@
                },
            },
    {
        let route = match self.compute_route(destination) {
            Ok(route) => route,
            Err(e) => {
                return Err(e);
            },
        };
        let fragments = fragment(payload);
        let session_id = self.deliveries.register(fragments.len());
        let mut packets: Vec<Packet> = Vec::new();
        let mut i: usize = 0;
        while i < fragments.len()
            invariant
                i <= fragments@.len(),
                is_fragmentation(fragments@, payload@),
                packets@.len() == i,
                forall|j: int|
                    0 <= j < i ==> is_data_packet(
                        (#[trigger] packets@[j])@,
                        route@,
                        session_id,
                        payload@,
                        j,
                    ),
            decreases fragments@.len() - i,
        {
            let packet = Packet {
                pack_type: PacketType::MsgFragment(fragments[i]),
                routing_header: SourceRoutingHeader { hop_index: 1, hops: copy_hops(&route) },
                session_id,
            };
            assert(packet@.routing_header =~= HeaderView { hop_index: 1, hops: route@ });
            packets.push(packet);
            i = i + 1;
        }
        Ok(Outbound { session_id, fragment_count: fragments.len() as u64, route, packets })
    }

    /// Sends a payload to a destination: prepares it as `send_payload` does
    /// and hands the packets to the transport. Returns the session and the
    /// number of its fragments.
    ///
    /// Without a route nothing changes. With a route the session is opened
    /// and every fragment registered as sent, whatever the transport does;
    /// where the transport does not take a packet, that is the result.
    pub fn send_packet(
        &mut self,
        destination: NodeId,
        data: Vec<u8>,
        sender: &Sender<Packet>,
    ) -> (result: Result<(u64, u64), ProtocolError>)
        ensures
            !has_route(old(self)@.topology, old(self)@.id(), destination) ==> result == Err::<
                (u64, u64),
                ProtocolError,
            >(ProtocolError::NoRouteFound) && final(self)@ == old(self)@,
            has_route(old(self)@.topology, old(self)@.id(), destination) ==> final(self)@ == old(
                self,
            )@.after_send(data@.len()) && match result {
                Ok(pair) => pair.0 == old(self)@.deliveries.len() && pair.1 == fragment_count(
                    data@.len(),
                ),
                Err(e) => e == ProtocolError::TransportUnavailable,
            },
    {
        match self.send_payload(destination, data.as_slice()) {
            Err(e) => Err(e),
            Ok(outbound) => {
                assert(is_route(
                    old(self)@.topology,
                    old(self)@.id(),
                    destination,
                    outbound.route@,
                ));
                match transmit(sender, outbound.packets) {
                    Ok(_) => Ok((outbound.session_id, outbound.fragment_count)),
                    Err(e) => Err(e),
                }
            },
        }
    }
}

/// A flood request carries a header that is in order: its neighbor is the
/// only hop, and the cursor stands just behind it.
pub proof fn lemma_request_header_well_formed(floods: FloodView, flood_id: u64, neighbor: NodeId)
    ensures
        floods.request_packet(flood_id, neighbor).routing_header.well_formed(),
        floods.request_packet(flood_id, neighbor).routing_header.hops == seq![neighbor],
{
}

/// A data packet on an admissible route carries a header that is in order:
/// the hop list is not empty, starts at the sender and ends at the
/// destination, and the cursor lies within it or just behind it.
pub proof fn lemma_data_header_well_formed(
    topology: TopologyView,
    source: NodeId,
    destination: NodeId,
    packet: PacketView,
    route: Seq<NodeId>,
    session_id: u64,
    payload: Seq<u8>,
    i: int,
)
    requires
        is_route(topology, source, destination, route),
        is_data_packet(packet, route, session_id, payload, i),
    ensures
        packet.routing_header.well_formed(),
        packet.routing_header.hops.len() >= 1,
        packet.routing_header.hops[0] == source,
        packet.routing_header.hops.last() == destination,
{
}

} // verus!
