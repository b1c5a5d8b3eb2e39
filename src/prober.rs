//! The offline probe of a server: the ping that is sent and the reading of the reply.
use vstd::prelude::*;

use crate::haproxy::{header_addresses_of, header_bytes, proxy_header};
use crate::message::{message_of, MessageError, MessageUnconnectedPing, MessageUnconnectedPong, RaknetMessage};
use crate::motd::{decodes_to, split_fields, Motd};
use crate::wire::{BufError, ReadBuf, SockAddr, WriteBuf};

verus! {

/// Deadline of a probe, in seconds.
pub const PROBE_TIMEOUT_SECS: u64 = 5;

/// Interval between two sends of the same probe, in milliseconds.
pub const PROBE_RESEND_MILLIS: u64 = 750;

/// Failure of a probe's reply.
#[derive(Clone, Copy, Debug, PartialEq, Eq, Structural)]
pub enum PingError {
    /// The reply is not an unconnected pong.
    NotPong,
    /// The pong could not be read.
    Message(MessageError),
    /// The pong's payload has an empty first field.
    EmptyPayload,
}

/// The probe packet: an unconnected ping whose client identifier and timestamp are both `now`,
/// after a PROXY header that gives `local` as both ends when the server asks for one.
pub fn ping_packet(now: i64, proxy_local: Option<SockAddr>) -> (r: Vec<u8>)
    ensures
        r@ == (match proxy_local {
            Some(l) => header_bytes(header_addresses_of(l, l)),
            None => Seq::<u8>::empty(),
        }) + (MessageUnconnectedPing { client_uuid: now, forward_timestamp: now }).spec_bytes(),
{
    let ping = MessageUnconnectedPing { client_uuid: now, forward_timestamp: now };
    let mut buf = match proxy_local {
        Some(l) => WriteBuf(proxy_header(l, l)),
        None => WriteBuf::new(),
    };
    let _ = ping.serialize(&mut buf);
    buf.into_bytes()
}

/// Reads the reply to a probe: an unconnected pong whose payload decodes to a MOTD.
pub fn parse_ping_reply(data: &Vec<u8>) -> (r: Result<Motd, PingError>)
    ensures
        data@.len() == 0 ==> r == Err::<Motd, PingError>(
            PingError::Message(MessageError::BufError(BufError::NotEnoughData)),
        ),
        data@.len() > 0 && message_of(data@[0]) != Some(RaknetMessage::UnconnectedPong) ==> r
            == Err::<Motd, PingError>(PingError::NotPong),
        data@.len() > 0 && message_of(data@[0]) == Some(RaknetMessage::UnconnectedPong) ==> match MessageUnconnectedPong::parse(data@.drop_first()) {
            Err(e) => r == Err::<Motd, PingError>(PingError::Message(e)),
            Ok((text, _, _, _)) => match r {
                Ok(m) => decodes_to(split_fields(text), m),
                Err(e) => e == PingError::EmptyPayload && split_fields(text)[0].len() == 0,
            },
        },
{
    let mut buf = ReadBuf::new(data.clone());
    let id = match buf.read_u8() {
        Ok(b) => b,
        Err(e) => {
            return Err(PingError::Message(MessageError::BufError(e)));
        },
    };
    if RaknetMessage::from_u8(id) != Some(RaknetMessage::UnconnectedPong) {
        return Err(PingError::NotPong);
    }
    assert(buf@ =~= data@.drop_first());
    let pong = match MessageUnconnectedPong::deserialize(&mut buf) {
        Ok(p) => p,
        Err(e) => {
            return Err(PingError::Message(e));
        },
    };
    match Motd::decode_payload(pong.motd.as_str()) {
        Some(m) => Ok(m),
        None => Err(PingError::EmptyPayload),
    }
}

} // verus!
