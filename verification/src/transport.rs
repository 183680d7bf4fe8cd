//! The transport boundary: handing packets to the channel that carries them
//! to the next node.

use vstd::prelude::*;
use crossbeam::channel::{Sender, TrySendError};
use crate::error::ProtocolError;
use crate::packet::Packet;

verus! {

/// How the transport answered when a packet was handed to it.
#[derive(Clone, Copy, Debug, PartialEq, Eq, Structural)]
pub enum Handoff {
    /// The packet is on its way.
    Accepted,
    /// The channel has no room for the packet.
    Full,
    /// The channel has no receiving end any more.
    Closed,
}

/// Turns the transport's answer into the result that the caller sees: a
/// packet that was not taken is reported, never dropped in silence.
pub fn handoff_outcome(answer: Handoff) -> (result: Result<(), ProtocolError>)
    ensures
        answer == Handoff::Accepted ==> result == Ok::<(), ProtocolError>(()),
        answer != Handoff::Accepted ==> result == Err::<(), ProtocolError>(
            ProtocolError::TransportUnavailable,
        ),
{
    match answer {
        Handoff::Accepted => Ok(()),
        Handoff::Full => Err(ProtocolError::TransportUnavailable),
        Handoff::Closed => Err(ProtocolError::TransportUnavailable),
    }
}

/// The sending end of a crossbeam channel, `crossbeam::channel::Sender`.
/// Nothing inside it is visible to the proofs; the library only passes it
/// on to `try_send`.
#[verifier::external_type_specification]
#[verifier::external_body]
#[verifier::reject_recursive_types(T)]
pub struct ExSender<T>(crossbeam::channel::Sender<T>);

/// Calls `crossbeam::channel::Sender::try_send`, which offers the packet to
/// the channel without waiting, and reports its answer. Nothing is claimed
/// of the answer: it depends on what the channel holds and on whether its
/// receiving end still exists.
#[verifier::external_body]
fn try_hand_over(sender: &Sender<Packet>, packet: Packet) -> (answer: Handoff) {
    match sender.try_send(packet) {
        Ok(()) => Handoff::Accepted,
        Err(TrySendError::Full(_)) => Handoff::Full,
        Err(TrySendError::Disconnected(_)) => Handoff::Closed,
    }
}

/// Hands one packet to the transport, without waiting for room. A packet
/// that the transport does not take is reported as `TransportUnavailable`.
pub fn hand_over(sender: &Sender<Packet>, packet: Packet) -> (result: Result<(), ProtocolError>)
    ensures
        result matches Err(e) ==> e == ProtocolError::TransportUnavailable,
{
    handoff_outcome(try_hand_over(sender, packet))
}

/// Hands packets to the transport in their order, and stops at the first
/// one that the transport does not take. With nothing to hand over there
/// is nothing to fail.
pub fn transmit(sender: &Sender<Packet>, packets: Vec<Packet>) -> (result: Result<
    (),
    ProtocolError,
>)
    ensures
        packets@.len() == 0 ==> result is Ok,
        result matches Err(e) ==> e == ProtocolError::TransportUnavailable,
{
    for packet in batch: packets.into_iter() {
        match hand_over(sender, packet) {
            Ok(_) => {},
            Err(e) => {
                return Err(e);
            },
        }
    }
    Ok(())
}

} // verus!
