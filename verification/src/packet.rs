//! The wire-level data model: the packet envelope, its five kinds, and the
//! source-routing header, with the two constructors that check framing.

use vstd::prelude::*;
use crate::error::ProtocolError;

verus! {

/// Identifier of a node, unique within the network.
pub type NodeId = u8;

/// Number of bytes in the buffer of one fragment.
pub const FRAGMENT_CAPACITY: usize = 128;

/// The role of a node. Only drones relay traffic.
#[derive(Clone, Copy, Debug, PartialEq, Eq, Structural)]
pub enum NodeType {
    Client,
    Drone,
    Server,
}

/// One discovered fact: a node and its role.
pub type NodeFact = (NodeId, NodeType);

/// The hop list of a packet and the cursor into it.
#[derive(Clone, Debug, PartialEq, Eq)]
pub struct SourceRoutingHeader {
    /// Position of the next hop to process.
    pub hop_index: usize,
    /// The whole route, originator first.
    pub hops: Vec<NodeId>,
}

/// Mathematical model of a routing header.
#[verifier::ext_equal]
pub struct HeaderView {
    pub hop_index: int,
    pub hops: Seq<NodeId>,
}

impl View for SourceRoutingHeader {
    type V = HeaderView;

    open spec fn view(&self) -> HeaderView {
        HeaderView { hop_index: self.hop_index as int, hops: self.hops@ }
    }
}

impl HeaderView {
    /// The cursor lies within the hop list or just behind it.
    pub open spec fn well_formed(self) -> bool {
        0 <= self.hop_index <= self.hops.len()
    }

    /// The cursor can move one hop further and still name a hop.
    pub open spec fn can_advance(self) -> bool {
        0 <= self.hop_index && self.hop_index + 1 < self.hops.len()
    }

    /// The same route with the cursor one hop further.
    pub open spec fn advanced(self) -> HeaderView {
        HeaderView { hop_index: self.hop_index + 1, hops: self.hops }
    }
}

/// One piece of a payload.
#[derive(Clone, Copy, Debug, PartialEq, Eq)]
pub struct Fragment {
    pub fragment_index: u64,
    pub total_n_fragments: u64,
    /// Number of leading bytes of `data` that are payload.
    pub length: u8,
    pub data: [u8; 128],
}

impl Fragment {
    /// The index lies within the session and the length within the buffer.
    pub open spec fn well_formed(self) -> bool {
        &&& self.fragment_index < self.total_n_fragments
        &&& self.length <= FRAGMENT_CAPACITY
    }

    /// The payload bytes; what follows them in the buffer is padding.
    pub open spec fn payload(self) -> Seq<u8> {
        self.data@.take(self.length as int)
    }
}

/// A payload chunk laid out in a fragment buffer: the chunk, then zeros.
pub open spec fn padded(chunk: Seq<u8>) -> Seq<u8> {
    Seq::new(FRAGMENT_CAPACITY as nat, |i: int| if i < chunk.len() { chunk[i] } else { 0u8 })
}

/// Acknowledges the delivery of exactly one fragment.
#[derive(Clone, Copy, Debug, PartialEq, Eq, Structural)]
pub struct Ack {
    pub fragment_index: u64,
}

/// Why a fragment was not delivered.
#[derive(Clone, Copy, Debug, PartialEq, Eq, Structural)]
pub enum NackType {
    /// The named hop could not forward.
    ErrorInRouting(NodeId),
    /// The route ends at a drone.
    DestinationIsDrone,
    /// Transient loss on a link.
    Dropped,
    /// The packet arrived at the named node, which the route did not expect.
    UnexpectedRecipient(NodeId),
}

/// Reports that one fragment was not delivered.
#[derive(Clone, Copy, Debug, PartialEq, Eq, Structural)]
pub struct Nack {
    pub fragment_index: u64,
    pub nack_type: NackType,
}

/// A discovery broadcast on its way through the network.
#[derive(Clone, Debug, PartialEq, Eq)]
pub struct FloodRequest {
    pub flood_id: u64,
    pub initiator_id: NodeId,
    /// The nodes visited so far, in order of visit.
    pub path_trace: Vec<NodeFact>,
}

/// Mathematical model of a flood request.
#[verifier::ext_equal]
pub struct FloodRequestView {
    pub flood_id: u64,
    pub initiator_id: NodeId,
    pub path_trace: Seq<NodeFact>,
}

impl View for FloodRequest {
    type V = FloodRequestView;

    open spec fn view(&self) -> FloodRequestView {
        FloodRequestView {
            flood_id: self.flood_id,
            initiator_id: self.initiator_id,
            path_trace: self.path_trace@,
        }
    }
}

/// The path that one flood traversal found, returned to the initiator.
#[derive(Clone, Debug, PartialEq, Eq)]
pub struct FloodResponse {
    pub flood_id: u64,
    pub path_trace: Vec<NodeFact>,
}

/// Mathematical model of a flood response.
#[verifier::ext_equal]
pub struct FloodResponseView {
    pub flood_id: u64,
    pub path_trace: Seq<NodeFact>,
}

impl View for FloodResponse {
    type V = FloodResponseView;

    open spec fn view(&self) -> FloodResponseView {
        FloodResponseView { flood_id: self.flood_id, path_trace: self.path_trace@ }
    }
}

/// What a packet carries.
#[derive(Clone, Debug, PartialEq, Eq)]
pub enum PacketType {
    MsgFragment(Fragment),
    Ack(Ack),
    Nack(Nack),
    FloodRequest(FloodRequest),
    FloodResponse(FloodResponse),
}

/// Mathematical model of a packet's content.
#[verifier::ext_equal]
pub enum PacketTypeView {
    MsgFragment(Fragment),
    Ack(Ack),
    Nack(Nack),
    FloodRequest(FloodRequestView),
    FloodResponse(FloodResponseView),
}

impl View for PacketType {
    type V = PacketTypeView;

    open spec fn view(&self) -> PacketTypeView {
        match *self {
            PacketType::MsgFragment(f) => PacketTypeView::MsgFragment(f),
            PacketType::Ack(a) => PacketTypeView::Ack(a),
            PacketType::Nack(n) => PacketTypeView::Nack(n),
            PacketType::FloodRequest(r) => PacketTypeView::FloodRequest(r@),
            PacketType::FloodResponse(r) => PacketTypeView::FloodResponse(r@),
        }
    }
}

/// The envelope that travels between nodes.
#[derive(Clone, Debug, PartialEq, Eq)]
pub struct Packet {
    pub pack_type: PacketType,
    pub routing_header: SourceRoutingHeader,
    /// The transfer, or the flood, that the packet belongs to.
    pub session_id: u64,
}

/// Mathematical model of a packet.
#[verifier::ext_equal]
pub struct PacketView {
    pub pack_type: PacketTypeView,
    pub routing_header: HeaderView,
    pub session_id: u64,
}

impl View for Packet {
    type V = PacketView;

    open spec fn view(&self) -> PacketView {
        PacketView {
            pack_type: self.pack_type@,
            routing_header: self.routing_header@,
            session_id: self.session_id,
        }
    }
}

/// Frames a chunk that fits the fragment buffer.
pub(crate) fn frame(index: u64, total: u64, chunk: &[u8]) -> (fragment: Fragment)
    requires
        chunk@.len() <= FRAGMENT_CAPACITY,
    ensures
        fragment.fragment_index == index,
        fragment.total_n_fragments == total,
        fragment.length == chunk@.len(),
        fragment.data@ == padded(chunk@),
        fragment.payload() == chunk@,
{
    let n: usize = chunk.len();
    let mut data: [u8; 128] = [0u8; 128];
    let mut i: usize = 0;
    while i < n
        invariant
            n == chunk@.len(),
            n <= FRAGMENT_CAPACITY,
            i <= n,
            forall|j: int| 0 <= j < i ==> data@[j] == chunk@[j],
            forall|j: int| i <= j < FRAGMENT_CAPACITY ==> data@[j] == 0u8,
        decreases n - i,
    {
        data[i] = chunk[i];
        i = i + 1;
    }
    let fragment = Fragment {
        fragment_index: index,
        total_n_fragments: total,
        length: n as u8,
        data,
    };
    assert(fragment.data@ =~= padded(chunk@));
    assert(fragment.payload() =~= chunk@);
    fragment
}

/// Frames one chunk of payload as a fragment.
///
/// The chunk is refused when it is longer than the fragment buffer. Otherwise
/// the fragment holds the chunk at the start of its buffer, followed by zeros.
pub fn build_fragment(index: u64, total: u64, payload_slice: &[u8]) -> (result: Result<
    Fragment,
    ProtocolError,
>)
    ensures
        payload_slice@.len() > FRAGMENT_CAPACITY ==> result == Err::<Fragment, ProtocolError>(
            ProtocolError::FragmentTooLarge,
        ),
        payload_slice@.len() <= FRAGMENT_CAPACITY ==> (result matches Ok(f) && {
            &&& f.fragment_index == index
            &&& f.total_n_fragments == total
            &&& f.length == payload_slice@.len()
            &&& f.data@ == padded(payload_slice@)
            &&& f.payload() == payload_slice@
        }),
{
    if payload_slice.len() > FRAGMENT_CAPACITY {
        Err(ProtocolError::FragmentTooLarge)
    } else {
        Ok(frame(index, total, payload_slice))
    }
}

/// Copies a hop list.
pub(crate) fn copy_hops(hops: &Vec<NodeId>) -> (copy: Vec<NodeId>)
    ensures
        copy@ == hops@,
{
    let mut copy: Vec<NodeId> = Vec::new();
    let mut i: usize = 0;
    while i < hops.len()
        invariant
            i <= hops.len(),
            copy@ == hops@.take(i as int),
        decreases hops.len() - i,
    {
        copy.push(hops[i]);
        assert(hops@.take(i as int).push(hops@[i as int]) =~= hops@.take(i + 1));
        i = i + 1;
    }
    assert(hops@.take(hops.len() as int) =~= hops@);
    copy
}

/// Moves the cursor of a routing header one hop further.
///
/// A header whose cursor already stands at the last hop, or behind it, is
/// exhausted.
pub fn advance_header(header: &SourceRoutingHeader) -> (result: Result<
    SourceRoutingHeader,
    ProtocolError,
>)
    ensures
        header@.can_advance() ==> (result matches Ok(h) && h@ == header@.advanced()
            && h@.well_formed()),
        !header@.can_advance() ==> result == Err::<SourceRoutingHeader, ProtocolError>(
            ProtocolError::RouteExhausted,
        ),
{
    let len: usize = header.hops.len();
    if len == 0 || header.hop_index >= len - 1 {
        return Err(ProtocolError::RouteExhausted);
    }
    Ok(SourceRoutingHeader { hop_index: header.hop_index + 1, hops: copy_hops(&header.hops) })
}

} // verus!
