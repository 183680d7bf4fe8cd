use crossbeam::channel::{bounded, unbounded};
use dronenet::delivery::FragmentState;
use dronenet::error::ProtocolError;
use dronenet::flood::FloodOutcome;
use dronenet::fragmenter::{fragment, reassemble};
use dronenet::node::Client;
use dronenet::packet::NodeType::{Client as ClientNode, Drone, Server};
use dronenet::packet::{
    Ack, FloodRequest, FloodResponse, Fragment, Packet, PacketType, SourceRoutingHeader,
};
use dronenet::transport::{hand_over, transmit};

fn ack(index: u64, session_id: u64) -> Packet {
    Packet {
        pack_type: PacketType::Ack(Ack { fragment_index: index }),
        routing_header: SourceRoutingHeader { hop_index: 1, hops: vec![5, 2, 1] },
        session_id,
    }
}

fn client_with_route() -> Client {
    let mut client = Client::new(1, vec![2, 3]);
    client.start_flood(7).unwrap();
    let found = FloodResponse {
        flood_id: 7,
        path_trace: vec![(1, ClientNode), (2, Drone), (5, Server)],
    };
    assert_eq!(client.handle_flood_response(found), Ok(FloodOutcome::Recorded));
    client
}

#[test]
fn handed_over_packet_arrives() {
    let (sender, receiver) = unbounded();
    assert_eq!(hand_over(&sender, ack(3, 9)), Ok(()));
    assert_eq!(receiver.try_recv(), Ok(ack(3, 9)));
    assert!(receiver.try_recv().is_err());
}

#[test]
fn transmitted_packets_arrive_in_order() {
    let (sender, receiver) = unbounded();
    let packets = vec![ack(0, 1), ack(1, 1), ack(2, 1)];
    assert_eq!(transmit(&sender, packets.clone()), Ok(()));
    let arrived: Vec<Packet> = receiver.try_iter().collect();
    assert_eq!(arrived, packets);
}

#[test]
fn transmitting_nothing_succeeds_even_on_a_closed_channel() {
    let (sender, receiver) = unbounded::<Packet>();
    drop(receiver);
    assert_eq!(transmit(&sender, vec![]), Ok(()));
}

#[test]
fn closed_channel_is_transport_unavailable() {
    let (sender, receiver) = unbounded();
    drop(receiver);
    assert_eq!(hand_over(&sender, ack(0, 0)), Err(ProtocolError::TransportUnavailable));
    assert_eq!(
        transmit(&sender, vec![ack(0, 0), ack(1, 0)]),
        Err(ProtocolError::TransportUnavailable)
    );
}

#[test]
fn full_channel_is_transport_unavailable() {
    let (sender, receiver) = bounded(2);
    let packets = vec![ack(0, 1), ack(1, 1), ack(2, 1), ack(3, 1)];
    assert_eq!(transmit(&sender, packets), Err(ProtocolError::TransportUnavailable));
    let arrived: Vec<Packet> = receiver.try_iter().collect();
    assert_eq!(arrived, vec![ack(0, 1), ack(1, 1)]);
    assert_eq!(hand_over(&sender, ack(4, 1)), Ok(()));
}

#[test]
fn flood_requests_go_out_to_every_neighbor() {
    let (sender, receiver) = unbounded();
    let mut client = Client::new(1, vec![2, 3]);
    assert_eq!(client.flood_request(7, &sender), Ok(()));
    let arrived: Vec<Packet> = receiver.try_iter().collect();
    let expected: Vec<Packet> = [2u8, 3u8]
        .iter()
        .map(|neighbor| Packet {
            pack_type: PacketType::FloodRequest(FloodRequest {
                flood_id: 7,
                initiator_id: 1,
                path_trace: vec![(1, ClientNode)],
            }),
            routing_header: SourceRoutingHeader { hop_index: 1, hops: vec![*neighbor] },
            session_id: 7,
        })
        .collect();
    assert_eq!(arrived, expected);
    assert!(client.has_initiated(7));
}

#[test]
fn flood_without_neighbors_sends_nothing() {
    let (sender, receiver) = unbounded();
    let mut client = Client::new(1, vec![]);
    assert_eq!(client.flood_request(7, &sender), Err(ProtocolError::NoNeighbors));
    assert!(receiver.try_recv().is_err());
    assert!(!client.has_initiated(7));
}

#[test]
fn flood_on_a_closed_transport_is_reported() {
    let (sender, receiver) = unbounded();
    drop(receiver);
    let mut client = Client::new(1, vec![2, 3]);
    assert_eq!(client.flood_request(7, &sender), Err(ProtocolError::TransportUnavailable));
    assert!(client.has_initiated(7));
}

#[test]
fn sent_payload_arrives_as_fragments_on_the_route() {
    let (sender, receiver) = unbounded();
    let mut client = client_with_route();
    let data: Vec<u8> = (0..300u32).map(|i| (i % 251) as u8).collect();
    assert_eq!(client.send_packet(5, data.clone(), &sender), Ok((0, 3)));
    let arrived: Vec<Packet> = receiver.try_iter().collect();
    assert_eq!(arrived.len(), 3);
    let mut fragments: Vec<Fragment> = Vec::new();
    for packet in &arrived {
        assert_eq!(packet.session_id, 0);
        assert_eq!(
            packet.routing_header,
            SourceRoutingHeader { hop_index: 1, hops: vec![1, 2, 5] }
        );
        match &packet.pack_type {
            PacketType::MsgFragment(f) => fragments.push(*f),
            other => panic!("not a fragment: {:?}", other),
        }
    }
    assert_eq!(fragments, fragment(&data));
    assert_eq!(reassemble(&fragments), Ok(data));
    for index in 0..3 {
        assert_eq!(client.fragment_state(0, index), Some(FragmentState::Sent));
    }
    assert_eq!(client.send_packet(5, vec![1], &sender), Ok((1, 1)));
}

#[test]
fn payload_without_route_is_not_sent() {
    let (sender, receiver) = unbounded();
    let mut client = client_with_route();
    assert_eq!(client.send_packet(9, vec![1, 2, 3], &sender), Err(ProtocolError::NoRouteFound));
    assert!(receiver.try_recv().is_err());
    assert_eq!(client.fragment_state(0, 0), None);
}

#[test]
fn payload_on_a_closed_transport_is_reported() {
    let (sender, receiver) = unbounded();
    drop(receiver);
    let mut client = client_with_route();
    assert_eq!(
        client.send_packet(5, vec![1, 2, 3], &sender),
        Err(ProtocolError::TransportUnavailable)
    );
    assert_eq!(client.fragment_state(0, 0), Some(FragmentState::Sent));
    assert_eq!(client.deliveries().session_count(), 1);
}

#[test]
fn acknowledged_payload_completes_its_session() {
    let (sender, receiver) = unbounded();
    let mut client = client_with_route();
    let (session_id, count) = client.send_packet(5, vec![0u8; 300], &sender).unwrap();
    assert_eq!(count, 3);
    let sent: Vec<Packet> = receiver.try_iter().collect();
    for packet in sent {
        assert!(!client.is_session_complete(session_id));
        let index = match packet.pack_type {
            PacketType::MsgFragment(f) => f.fragment_index,
            other => panic!("not a fragment: {:?}", other),
        };
        client.handle_packet(ack(index, session_id)).unwrap();
    }
    assert!(client.is_session_complete(session_id));
}
