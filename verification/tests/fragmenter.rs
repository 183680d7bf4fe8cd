use dronenet::error::ProtocolError;
use dronenet::fragmenter::{fragment, reassemble};
use dronenet::packet::{advance_header, build_fragment, Fragment, SourceRoutingHeader};

fn payload_of(len: usize) -> Vec<u8> {
    let mut bytes = Vec::new();
    for i in 0..len {
        bytes.push(((i * 7 + 3) % 251) as u8);
    }
    bytes
}

#[test]
fn three_hundred_bytes_give_three_fragments() {
    let payload = payload_of(300);
    let fragments = fragment(&payload);
    assert_eq!(fragments.len(), 3);
    let lengths: Vec<u8> = fragments.iter().map(|f| f.length).collect();
    assert_eq!(lengths, vec![128, 128, 44]);
    let indices: Vec<u64> = fragments.iter().map(|f| f.fragment_index).collect();
    assert_eq!(indices, vec![0, 1, 2]);
    for f in &fragments {
        assert_eq!(f.total_n_fragments, 3);
    }
    assert_eq!(&fragments[0].data[..], &payload[0..128]);
    assert_eq!(&fragments[1].data[..], &payload[128..256]);
    assert_eq!(&fragments[2].data[..44], &payload[256..300]);
}

#[test]
fn padding_of_last_fragment_is_zero() {
    let payload = payload_of(300);
    let fragments = fragment(&payload);
    for b in &fragments[2].data[44..] {
        assert_eq!(*b, 0);
    }
}

#[test]
fn empty_payload_gives_one_empty_fragment() {
    let fragments = fragment(&[]);
    assert_eq!(fragments.len(), 1);
    assert_eq!(fragments[0].fragment_index, 0);
    assert_eq!(fragments[0].total_n_fragments, 1);
    assert_eq!(fragments[0].length, 0);
    assert_eq!(fragments[0].data, [0u8; 128]);
    assert_eq!(reassemble(&fragments), Ok(Vec::new()));
}

#[test]
fn fragment_count_is_the_ceiling() {
    let cases: [(usize, usize); 8] =
        [(0, 1), (1, 1), (127, 1), (128, 1), (129, 2), (256, 2), (257, 3), (4096, 32)];
    for (len, expected) in cases {
        let fragments = fragment(&payload_of(len));
        assert_eq!(fragments.len(), expected);
        for (i, f) in fragments.iter().enumerate() {
            assert_eq!(f.fragment_index, i as u64);
            assert_eq!(f.total_n_fragments, expected as u64);
            assert!(f.length as usize <= 128);
            assert!(f.fragment_index < f.total_n_fragments);
        }
        let carried: usize = fragments.iter().map(|f| f.length as usize).sum();
        assert_eq!(carried, len);
    }
}

#[test]
fn round_trip_gives_the_payload_back() {
    for len in [0usize, 1, 5, 127, 128, 129, 255, 256, 300, 1000, 5000] {
        let payload = payload_of(len);
        let fragments = fragment(&payload);
        assert_eq!(reassemble(&fragments), Ok(payload));
    }
}

#[test]
fn reassembly_does_not_depend_on_arrival_order() {
    let payload = payload_of(700);
    let mut fragments = fragment(&payload);
    fragments.reverse();
    assert_eq!(reassemble(&fragments), Ok(payload.clone()));
    fragments.swap(0, 3);
    fragments.swap(1, 4);
    assert_eq!(reassemble(&fragments), Ok(payload));
}

#[test]
fn repeated_fragment_with_same_content_counts_once() {
    let payload = payload_of(300);
    let mut fragments = fragment(&payload);
    let again = fragments[1];
    fragments.push(again);
    assert_eq!(reassemble(&fragments), Ok(payload));
}

#[test]
fn repeated_fragment_may_differ_in_padding() {
    let payload = payload_of(300);
    let mut fragments = fragment(&payload);
    let mut again = fragments[2];
    again.data[100] = 9;
    fragments.push(again);
    assert_eq!(reassemble(&fragments), Ok(payload));
}

#[test]
fn missing_index_is_incomplete() {
    let mut fragments = fragment(&payload_of(300));
    fragments.remove(1);
    assert_eq!(reassemble(&fragments), Err(ProtocolError::IncompleteSession));
}

#[test]
fn no_fragment_is_incomplete() {
    assert_eq!(reassemble(&[]), Err(ProtocolError::IncompleteSession));
}

#[test]
fn fragment_of_another_session_size_is_incomplete() {
    let mut fragments = fragment(&payload_of(300));
    fragments[2].total_n_fragments = 4;
    assert_eq!(reassemble(&fragments), Err(ProtocolError::IncompleteSession));
}

#[test]
fn index_outside_the_session_is_incomplete() {
    let mut fragments = fragment(&payload_of(300));
    let mut stray = fragments[0];
    stray.fragment_index = 3;
    fragments.push(stray);
    assert_eq!(reassemble(&fragments), Err(ProtocolError::IncompleteSession));
}

#[test]
fn same_index_with_other_content_is_duplicate() {
    let mut fragments = fragment(&payload_of(300));
    let mut other = fragments[1];
    other.data[5] = other.data[5].wrapping_add(1);
    fragments.push(other);
    assert_eq!(reassemble(&fragments), Err(ProtocolError::DuplicateFragment));
}

#[test]
fn same_index_with_other_length_is_duplicate() {
    let mut fragments = fragment(&payload_of(300));
    let mut other = fragments[2];
    other.length = 43;
    fragments.insert(0, other);
    assert_eq!(reassemble(&fragments), Err(ProtocolError::DuplicateFragment));
}

#[test]
fn duplicate_is_reported_before_incomplete() {
    let mut fragments = fragment(&payload_of(300));
    let mut other = fragments[2];
    other.data[0] = other.data[0].wrapping_add(1);
    fragments.push(other);
    fragments.remove(0);
    assert_eq!(reassemble(&fragments), Err(ProtocolError::DuplicateFragment));
}

#[test]
fn oversized_length_is_a_framing_error() {
    let mut fragments = fragment(&payload_of(300));
    fragments[0].length = 129;
    assert_eq!(reassemble(&fragments), Err(ProtocolError::FragmentTooLarge));
    fragments.remove(1);
    assert_eq!(reassemble(&fragments), Err(ProtocolError::FragmentTooLarge));
}

#[test]
fn build_fragment_frames_a_chunk() {
    let f = build_fragment(2, 5, &[10, 20, 30]).unwrap();
    let mut data = [0u8; 128];
    data[0] = 10;
    data[1] = 20;
    data[2] = 30;
    assert_eq!(f, Fragment { fragment_index: 2, total_n_fragments: 5, length: 3, data });
}

#[test]
fn build_fragment_takes_a_full_buffer() {
    let chunk = payload_of(128);
    let f = build_fragment(0, 1, &chunk).unwrap();
    assert_eq!(f.length, 128);
    assert_eq!(&f.data[..], &chunk[..]);
}

#[test]
fn build_fragment_refuses_more_than_a_buffer() {
    let chunk = payload_of(129);
    assert_eq!(build_fragment(0, 2, &chunk), Err(ProtocolError::FragmentTooLarge));
}

#[test]
fn advance_header_moves_the_cursor() {
    let header = SourceRoutingHeader { hop_index: 1, hops: vec![1, 2, 5] };
    let next = advance_header(&header).unwrap();
    assert_eq!(next, SourceRoutingHeader { hop_index: 2, hops: vec![1, 2, 5] });
    assert_eq!(header.hop_index, 1);
}

#[test]
fn advance_header_stops_at_the_last_hop() {
    let header = SourceRoutingHeader { hop_index: 2, hops: vec![1, 2, 5] };
    assert_eq!(advance_header(&header), Err(ProtocolError::RouteExhausted));
}

#[test]
fn advance_header_refuses_a_spent_or_empty_header() {
    let spent = SourceRoutingHeader { hop_index: 1, hops: vec![2] };
    assert_eq!(advance_header(&spent), Err(ProtocolError::RouteExhausted));
    let behind = SourceRoutingHeader { hop_index: 3, hops: vec![1, 2, 5] };
    assert_eq!(advance_header(&behind), Err(ProtocolError::RouteExhausted));
    let empty = SourceRoutingHeader { hop_index: 0, hops: vec![] };
    assert_eq!(advance_header(&empty), Err(ProtocolError::RouteExhausted));
    let huge = SourceRoutingHeader { hop_index: usize::MAX, hops: vec![1, 2] };
    assert_eq!(advance_header(&huge), Err(ProtocolError::RouteExhausted));
}

#[test]
fn advance_header_walks_a_whole_route() {
    let mut header = SourceRoutingHeader { hop_index: 0, hops: vec![1, 2, 3, 4] };
    let mut steps = 0;
    while let Ok(next) = advance_header(&header) {
        header = next;
        steps += 1;
    }
    assert_eq!(steps, 3);
    assert_eq!(header.hop_index, 3);
}
