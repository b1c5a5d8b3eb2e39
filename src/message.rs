//! RakNet message identifiers and the offline messages.
use vstd::prelude::*;
use vstd::arithmetic::power2::lemma2_to64;
use vstd::utf8::{encode_utf8, encode_utf8_decode_utf8, encode_utf8_valid_utf8};

use crate::wire::{
    address_bytes, address_parse, be_bytes, be_value, lemma_address_round_trip, lemma_be_round_trip,
    magic, pow256,
    signed_of, str_bytes, str_parse, unsigned_of, BufError, ReadBuf, SockAddr, WriteBuf,
};

verus! {

/// Failure to read or write a message.
#[derive(Clone, Copy, Debug, PartialEq, Eq, Structural)]
pub enum MessageError {
    /// The padding that tells the MTU size could not be read.
    MTUInvalidPadding,
    /// A datatype could not be read.
    BufError(BufError),
    /// The frame is invalid.
    InvalidFrame,
    /// Unknown reliability identifier.
    UnknownRealibility(u8),
    /// The frame has an empty body.
    ZeroSize,
    /// A string is too long for its `u16` length prefix.
    StringTooLong,
}

/// Lifts a datatype error into a message error.
pub fn lift<T>(r: Result<T, BufError>) -> (o: Result<T, MessageError>)
    ensures
        match r {
            Ok(v) => o == Ok::<T, MessageError>(v),
            Err(e) => o == Err::<T, MessageError>(MessageError::BufError(e)),
        },
{
    match r {
        Ok(v) => Ok(v),
        Err(e) => Err(MessageError::BufError(e)),
    }
}

/// RakNet message identifiers, as they stand in the first byte of a packet.
#[derive(Clone, Copy, Debug, PartialEq, Eq, Structural)]
pub enum RaknetMessage {
    ConnectedPing,
    UnconnectedPing,
    UnconnectedPingOpenConnections,
    ConnectedPong,
    DetectLostConnection,
    OpenConnectionRequest1,
    OpenConnectionReply1,
    OpenConnectionRequest2,
    OpenConnectionReply2,
    ConnectionRequest,
    ConnectionRequestAccepted,
    ConnectionRequestFailed,
    AlreadyConnected,
    NewIncomingConnection,
    NoFreeIncomingConnection,
    DisconnectNotification,
    ConnectionLost,
    ConnectionBanned,
    IncompatibleProtocolVersion,
    UnconnectedPong,
}

pub open spec fn message_of(value: u8) -> Option<RaknetMessage> {
    match value {
        0x00 => Some(RaknetMessage::ConnectedPing),
        0x01 => Some(RaknetMessage::UnconnectedPing),
        0x02 => Some(RaknetMessage::UnconnectedPingOpenConnections),
        0x03 => Some(RaknetMessage::ConnectedPong),
        0x04 => Some(RaknetMessage::DetectLostConnection),
        0x05 => Some(RaknetMessage::OpenConnectionRequest1),
        0x06 => Some(RaknetMessage::OpenConnectionReply1),
        0x07 => Some(RaknetMessage::OpenConnectionRequest2),
        0x08 => Some(RaknetMessage::OpenConnectionReply2),
        0x09 => Some(RaknetMessage::ConnectionRequest),
        0x10 => Some(RaknetMessage::ConnectionRequestAccepted),
        0x11 => Some(RaknetMessage::ConnectionRequestFailed),
        0x12 => Some(RaknetMessage::AlreadyConnected),
        0x13 => Some(RaknetMessage::NewIncomingConnection),
        0x14 => Some(RaknetMessage::NoFreeIncomingConnection),
        0x15 => Some(RaknetMessage::DisconnectNotification),
        0x16 => Some(RaknetMessage::ConnectionLost),
        0x17 => Some(RaknetMessage::ConnectionBanned),
        0x19 => Some(RaknetMessage::IncompatibleProtocolVersion),
        0x1c => Some(RaknetMessage::UnconnectedPong),
        _ => None,
    }
}

impl RaknetMessage {
    pub open spec fn spec_to_u8(&self) -> u8 {
        match *self {
            RaknetMessage::ConnectedPing => 0x00,
            RaknetMessage::UnconnectedPing => 0x01,
            RaknetMessage::UnconnectedPingOpenConnections => 0x02,
            RaknetMessage::ConnectedPong => 0x03,
            RaknetMessage::DetectLostConnection => 0x04,
            RaknetMessage::OpenConnectionRequest1 => 0x05,
            RaknetMessage::OpenConnectionReply1 => 0x06,
            RaknetMessage::OpenConnectionRequest2 => 0x07,
            RaknetMessage::OpenConnectionReply2 => 0x08,
            RaknetMessage::ConnectionRequest => 0x09,
            RaknetMessage::ConnectionRequestAccepted => 0x10,
            RaknetMessage::ConnectionRequestFailed => 0x11,
            RaknetMessage::AlreadyConnected => 0x12,
            RaknetMessage::NewIncomingConnection => 0x13,
            RaknetMessage::NoFreeIncomingConnection => 0x14,
            RaknetMessage::DisconnectNotification => 0x15,
            RaknetMessage::ConnectionLost => 0x16,
            RaknetMessage::ConnectionBanned => 0x17,
            RaknetMessage::IncompatibleProtocolVersion => 0x19,
            RaknetMessage::UnconnectedPong => 0x1c,
        }
    }

    /// The message identified by a byte, if any.
    pub fn from_u8(value: u8) -> (r: Option<Self>)
        ensures
            r == message_of(value),
    {
        match value {
            0x00 => Some(Self::ConnectedPing),
            0x01 => Some(Self::UnconnectedPing),
            0x02 => Some(Self::UnconnectedPingOpenConnections),
            0x03 => Some(Self::ConnectedPong),
            0x04 => Some(Self::DetectLostConnection),
            0x05 => Some(Self::OpenConnectionRequest1),
            0x06 => Some(Self::OpenConnectionReply1),
            0x07 => Some(Self::OpenConnectionRequest2),
            0x08 => Some(Self::OpenConnectionReply2),
            0x09 => Some(Self::ConnectionRequest),
            0x10 => Some(Self::ConnectionRequestAccepted),
            0x11 => Some(Self::ConnectionRequestFailed),
            0x12 => Some(Self::AlreadyConnected),
            0x13 => Some(Self::NewIncomingConnection),
            0x14 => Some(Self::NoFreeIncomingConnection),
            0x15 => Some(Self::DisconnectNotification),
            0x16 => Some(Self::ConnectionLost),
            0x17 => Some(Self::ConnectionBanned),
            0x19 => Some(Self::IncompatibleProtocolVersion),
            0x1c => Some(Self::UnconnectedPong),
            _ => None,
        }
    }

    /// The identifying byte of the message.
    pub fn to_u8(&self) -> (r: u8)
        ensures
            r == self.spec_to_u8(),
    {
        match *self {
            Self::ConnectedPing => 0x00,
            Self::UnconnectedPing => 0x01,
            Self::UnconnectedPingOpenConnections => 0x02,
            Self::ConnectedPong => 0x03,
            Self::DetectLostConnection => 0x04,
            Self::OpenConnectionRequest1 => 0x05,
            Self::OpenConnectionReply1 => 0x06,
            Self::OpenConnectionRequest2 => 0x07,
            Self::OpenConnectionReply2 => 0x08,
            Self::ConnectionRequest => 0x09,
            Self::ConnectionRequestAccepted => 0x10,
            Self::ConnectionRequestFailed => 0x11,
            Self::AlreadyConnected => 0x12,
            Self::NewIncomingConnection => 0x13,
            Self::NoFreeIncomingConnection => 0x14,
            Self::DisconnectNotification => 0x15,
            Self::ConnectionLost => 0x16,
            Self::ConnectionBanned => 0x17,
            Self::IncompatibleProtocolVersion => 0x19,
            Self::UnconnectedPong => 0x1c,
        }
    }
}

/// Every message's byte identifies it again.
pub proof fn lemma_message_byte_round_trip(m: RaknetMessage)
    ensures
        message_of(m.spec_to_u8()) == Some(m),
{
}

/// RakNet protocol versions.
#[derive(Clone, Copy, Debug, PartialEq, Eq, Structural)]
pub enum ProtocolVersion {
    Unsupported(u8),
    V10,
    V11,
}

pub open spec fn protocol_of(version: u8) -> ProtocolVersion {
    if version == 10 {
        ProtocolVersion::V10
    } else if version == 11 {
        ProtocolVersion::V11
    } else {
        ProtocolVersion::Unsupported(version)
    }
}

impl ProtocolVersion {
    pub open spec fn spec_to_u8(&self) -> u8 {
        match *self {
            ProtocolVersion::Unsupported(v) => v,
            ProtocolVersion::V10 => 10,
            ProtocolVersion::V11 => 11,
        }
    }

    /// Well formed: an unsupported version holds neither 10 nor 11.
    pub open spec fn wf(&self) -> bool {
        match *self {
            ProtocolVersion::Unsupported(v) => v != 10 && v != 11,
            _ => true,
        }
    }

    pub fn from_u8(version: u8) -> (r: Self)
        ensures
            r == protocol_of(version),
            r.wf(),
    {
        match version {
            10 => Self::V10,
            11 => Self::V11,
            v => Self::Unsupported(v),
        }
    }

    pub fn to_u8(&self) -> (r: u8)
        ensures
            r == self.spec_to_u8(),
    {
        match *self {
            Self::Unsupported(v) => v,
            Self::V10 => 10,
            Self::V11 => 11,
        }
    }
}

/// A well formed protocol version survives the trip through its byte.
pub proof fn lemma_protocol_round_trip(p: ProtocolVersion)
    requires
        p.wf(),
    ensures
        protocol_of(p.spec_to_u8()) == p,
{
}

/// Big-endian bytes of a signed 64-bit integer.
pub open spec fn i64_bytes(x: i64) -> Seq<u8> {
    be_bytes(unsigned_of(x as int, 64), 8)
}

/// The signed 64-bit integer at offset `k` of `s`.
pub open spec fn i64_at(s: Seq<u8>, k: int) -> i64 {
    signed_of(be_value(s.subrange(k, k + 8)), 64) as i64
}

pub proof fn lemma_i64_round_trip(x: i64, rest: Seq<u8>)
    ensures
        i64_bytes(x).len() == 8,
        i64_at(i64_bytes(x) + rest, 0) == x,
{
    lemma2_to64();
    reveal_with_fuel(pow256, 9);
    lemma_be_round_trip(unsigned_of(x as int, 64), 8);
    assert((i64_bytes(x) + rest).subrange(0, 8) =~= i64_bytes(x));
}

/// Unconnected ping: asks a server for its MOTD.
#[derive(Clone, Copy, Debug, PartialEq, Eq, Structural)]
pub struct MessageUnconnectedPing {
    pub client_uuid: i64,
    pub forward_timestamp: i64,
}

/// Unconnected pong: a server's MOTD reply.
#[derive(Clone, Debug)]
pub struct MessageUnconnectedPong {
    pub timestamp: i64,
    pub server_uuid: i64,
    pub motd: String,
}

pub open spec fn not_enough<T>() -> Result<T, MessageError> {
    Err(MessageError::BufError(BufError::NotEnoughData))
}

pub open spec fn bad_magic<T>() -> Result<T, MessageError> {
    Err(MessageError::BufError(BufError::InvalidMagic))
}

impl MessageUnconnectedPing {
    /// The encoding, identifier byte first.
    pub open spec fn spec_bytes(&self) -> Seq<u8> {
        seq![0x01u8] + i64_bytes(self.forward_timestamp) + magic() + i64_bytes(self.client_uuid)
    }

    /// Reading the message from `s`, which follows the identifier byte.
    pub open spec fn parse(s: Seq<u8>) -> Result<(MessageUnconnectedPing, nat), MessageError> {
        if s.len() < 24 {
            not_enough()
        } else if s.subrange(8, 24) != magic() {
            bad_magic()
        } else if s.len() < 32 {
            not_enough()
        } else {
            Ok(
                (
                    MessageUnconnectedPing {
                        forward_timestamp: i64_at(s, 0),
                        client_uuid: i64_at(s, 24),
                    },
                    32,
                ),
            )
        }
    }

    pub fn serialize(&self, buf: &mut WriteBuf) -> (r: Result<(), MessageError>)
        ensures
            r is Ok,
            final(buf)@ == old(buf)@ + self.spec_bytes(),
    {
        let _ = buf.write_u8(0x01);
        let _ = buf.write_i64(self.forward_timestamp);
        let _ = buf.write_magic();
        let _ = buf.write_i64(self.client_uuid);
        assert(final(buf)@ =~= old(buf)@ + self.spec_bytes());
        Ok(())
    }

    pub fn deserialize(buf: &mut ReadBuf) -> (r: Result<Self, MessageError>)
        ensures
            match Self::parse(old(buf)@) {
                Ok((m, n)) => r == Ok::<Self, MessageError>(m) && final(buf)@ == old(buf)@.skip(
                    n as int,
                ),
                Err(e) => r == Err::<Self, MessageError>(e),
            },
    {
        let ghost s = old(buf)@;
        proof {
            if s.len() >= 24 {
                assert(s.take(8) =~= s.subrange(0, 8));
                assert(s.skip(8).take(16) =~= s.subrange(8, 24));
            }
            if s.len() >= 32 {
                assert(s.skip(8).skip(16).take(8) =~= s.subrange(24, 32));
                assert(s.skip(8).skip(16).skip(8) =~= s.skip(32));
            }
        }
        let timestamp = lift(buf.read_i64())?;
        lift(buf.read_magic())?;
        let client_uuid = lift(buf.read_i64())?;
        Ok(Self { forward_timestamp: timestamp, client_uuid })
    }

    pub fn to_bytes(&self) -> (r: Result<Vec<u8>, MessageError>)
        ensures
            r matches Ok(v) && v@ == self.spec_bytes(),
    {
        let mut buf = WriteBuf::new();
        self.serialize(&mut buf)?;
        Ok(buf.into_bytes())
    }
}

/// A ping read back from its encoding is the same ping.
pub proof fn lemma_ping_round_trip(m: MessageUnconnectedPing, rest: Seq<u8>)
    ensures
        MessageUnconnectedPing::parse(m.spec_bytes().skip(1) + rest) == Ok::<
            (MessageUnconnectedPing, nat),
            MessageError,
        >((m, 32)),
{
    let s = m.spec_bytes().skip(1) + rest;
    lemma_i64_round_trip(m.forward_timestamp, s.skip(8));
    lemma_i64_round_trip(m.client_uuid, rest);
    assert(s =~= i64_bytes(m.forward_timestamp) + s.skip(8));
    assert(s.skip(24) =~= i64_bytes(m.client_uuid) + rest);
    assert(s.subrange(8, 24) =~= magic());
    assert(s.subrange(24, 32) =~= (i64_bytes(m.client_uuid) + rest).subrange(0, 8));
}

impl MessageUnconnectedPong {
    pub open spec fn spec_bytes(&self) -> Seq<u8> {
        seq![0x1cu8] + i64_bytes(self.timestamp) + i64_bytes(self.server_uuid) + magic()
            + str_bytes(self.motd@)
    }

    /// Reading the message from `s`, which follows the identifier byte.
    pub open spec fn parse(s: Seq<u8>) -> Result<(Seq<char>, i64, i64, nat), MessageError> {
        if s.len() < 32 {
            not_enough()
        } else if s.subrange(16, 32) != magic() {
            bad_magic()
        } else {
            match str_parse(s.skip(32)) {
                Ok((motd, n)) => Ok((motd, i64_at(s, 0), i64_at(s, 8), 32 + n)),
                Err(e) => Err(MessageError::BufError(e)),
            }
        }
    }

    pub fn serialize(&self, buf: &mut WriteBuf) -> (r: Result<(), MessageError>)
        requires
            encode_utf8(self.motd@).len() <= 0xFFFF,
        ensures
            r is Ok,
            final(buf)@ == old(buf)@ + self.spec_bytes(),
    {
        let _ = buf.write_u8(0x1c);
        let _ = buf.write_i64(self.timestamp);
        let _ = buf.write_i64(self.server_uuid);
        let _ = buf.write_magic();
        let _ = buf.write_str(self.motd.as_str());
        assert(final(buf)@ =~= old(buf)@ + self.spec_bytes());
        Ok(())
    }

    pub fn deserialize(buf: &mut ReadBuf) -> (r: Result<Self, MessageError>)
        ensures
            match Self::parse(old(buf)@) {
                Ok((motd, timestamp, server_uuid, n)) => r matches Ok(m) && m.motd@ == motd
                    && m.timestamp == timestamp && m.server_uuid == server_uuid && final(buf)@
                    == old(buf)@.skip(n as int),
                Err(e) => r matches Err(f) && f == e,
            },
    {
        let ghost s = old(buf)@;
        if buf.remaining() < 32 {
            return Err(MessageError::BufError(BufError::NotEnoughData));
        }
        proof {
            assert(s.take(8) =~= s.subrange(0, 8));
            assert(s.skip(8).take(8) =~= s.subrange(8, 16));
            assert(s.skip(8).skip(8).take(16) =~= s.subrange(16, 32));
            assert(s.skip(8).skip(8).skip(16) =~= s.skip(32));
        }
        let timestamp = lift(buf.read_i64())?;
        let server_uuid = lift(buf.read_i64())?;
        lift(buf.read_magic())?;
        let motd = lift(buf.read_str())?;
        proof {
            if let Ok((_, n)) = str_parse(s.skip(32)) {
                assert(s.skip(32).skip(n as int) =~= s.skip(32 + n as int));
            }
        }
        Ok(Self { timestamp, server_uuid, motd })
    }

    pub fn to_bytes(&self) -> (r: Result<Vec<u8>, MessageError>)
        requires
            encode_utf8(self.motd@).len() <= 0xFFFF,
        ensures
            r matches Ok(v) && v@ == self.spec_bytes(),
    {
        let mut buf = WriteBuf::new();
        self.serialize(&mut buf)?;
        Ok(buf.into_bytes())
    }
}

/// A pong read back from its encoding has the same fields.
pub proof fn lemma_pong_round_trip(m: MessageUnconnectedPong, rest: Seq<u8>)
    requires
        encode_utf8(m.motd@).len() <= 0xFFFF,
    ensures
        MessageUnconnectedPong::parse(m.spec_bytes().skip(1) + rest) == Ok::<
            (Seq<char>, i64, i64, nat),
            MessageError,
        >((m.motd@, m.timestamp, m.server_uuid, 32 + str_bytes(m.motd@).len())),
{
    let s = m.spec_bytes().skip(1) + rest;
    lemma_i64_round_trip(m.timestamp, s.skip(8));
    lemma_i64_round_trip(m.server_uuid, s.skip(16));
    assert(s =~= i64_bytes(m.timestamp) + s.skip(8));
    assert(s.skip(8) =~= i64_bytes(m.server_uuid) + s.skip(16));
    assert(s.subrange(8, 16) =~= (i64_bytes(m.server_uuid) + s.skip(16)).subrange(0, 8));
    assert(s.subrange(16, 32) =~= magic());
    assert(s.skip(32) =~= str_bytes(m.motd@) + rest);
    lemma_str_round_trip(m.motd@, rest);
}

/// A string read back from its encoding is the same string.
pub proof fn lemma_str_round_trip(c: Seq<char>, rest: Seq<u8>)
    requires
        encode_utf8(c).len() <= 0xFFFF,
    ensures
        str_parse(str_bytes(c) + rest) == Ok::<(Seq<char>, nat), BufError>(
            (c, 2 + encode_utf8(c).len()),
        ),
        str_bytes(c).len() == 2 + encode_utf8(c).len(),
{
    let b = encode_utf8(c);
    let n = b.len();
    reveal_with_fuel(pow256, 3);
    lemma_be_round_trip(n, 2);
    let s = str_bytes(c) + rest;
    assert(s.subrange(0, 2) =~= be_bytes(n, 2));
    assert(s.subrange(2, 2 + n as int) =~= b);
    encode_utf8_valid_utf8(c);
    encode_utf8_decode_utf8(c);
}

/// The big-endian `u16` at offset `k` of `s`.
pub open spec fn u16_at(s: Seq<u8>, k: int) -> u16 {
    be_value(s.subrange(k, k + 2)) as u16
}

/// Open connection request 1: starts the RakNet handshake; its padding tells the MTU size.
#[derive(Clone, Copy, Debug, PartialEq, Eq, Structural)]
pub struct MessageOpenConnectionRequest1 {
    pub raknet_protocol: ProtocolVersion,
    pub mtu_size: u16,
}

/// Open connection reply 1.
#[derive(Clone, Copy, Debug, PartialEq, Eq, Structural)]
pub struct MessageOpenConnectionReply1 {
    pub server_uuid: i64,
    pub use_encryption: bool,
    pub preferred_mtu_size: u16,
}

/// Open connection request 2.
#[derive(Clone, Copy, Debug, PartialEq, Eq, Structural)]
pub struct MessageOpenConnectionRequest2 {
    pub client_uuid: i64,
    pub server_address: SockAddr,
    pub preferred_mtu_size: u16,
}

/// Open connection reply 2: ends the RakNet handshake.
#[derive(Clone, Copy, Debug, PartialEq, Eq, Structural)]
pub struct MessageOpenConnectionReply2 {
    pub server_uuid: i64,
    pub client_address: SockAddr,
    pub use_encryption: bool,
    pub mtu_size: u16,
}

/// The client is already connected.
#[derive(Clone, Copy, Debug, PartialEq, Eq, Structural)]
pub struct MessageAlreadyConnected {
    pub server_uuid: i64,
}

/// The client speaks a protocol version that the server does not.
#[derive(Clone, Copy, Debug, PartialEq, Eq, Structural)]
pub struct MessageIncompatibleProtocolVersion {
    pub server_uuid: i64,
    pub preferred_protocol: ProtocolVersion,
}

impl MessageOpenConnectionRequest1 {
    /// Length of the zero padding: the packet and the 28 bytes of IP and UDP headers make up
    /// the MTU size.
    pub open spec fn padding(&self) -> nat {
        if self.mtu_size >= 46 {
            (self.mtu_size - 46) as nat
        } else {
            0
        }
    }

    /// The encoding: identifier, marker, protocol version, then zeros up to the MTU size.
    pub open spec fn spec_bytes(&self) -> Seq<u8> {
        seq![0x05u8] + magic() + seq![self.raknet_protocol.spec_to_u8()] + Seq::new(
            self.padding(),
            |i: int| 0u8,
        )
    }

    pub open spec fn parse(s: Seq<u8>) -> Result<(MessageOpenConnectionRequest1, nat), MessageError> {
        if s.len() < 16 {
            not_enough()
        } else if s.subrange(0, 16) != magic() {
            bad_magic()
        } else if s.len() < 17 {
            not_enough()
        } else if s.len() + 29 > 0xFFFF {
            Err(MessageError::MTUInvalidPadding)
        } else {
            Ok(
                (
                    MessageOpenConnectionRequest1 {
                        raknet_protocol: protocol_of(s[16]),
                        mtu_size: (s.len() + 29) as u16,
                    },
                    17,
                ),
            )
        }
    }

    pub fn serialize(&self, buf: &mut WriteBuf) -> (r: Result<(), MessageError>)
        ensures
            r is Ok,
            final(buf)@ == old(buf)@ + self.spec_bytes(),
    {
        let _ = buf.write_u8(0x05);
        let _ = buf.write_magic();
        let _ = buf.write_u8(self.raknet_protocol.to_u8());
        let pad: usize = if self.mtu_size >= 46 {
            (self.mtu_size - 46) as usize
        } else {
            0
        };
        let zeros: Vec<u8> = vec![0u8; pad];
        let _ = buf.write_bytes(&zeros);
        assert(final(buf)@ =~= old(buf)@ + self.spec_bytes());
        Ok(())
    }

    pub fn to_bytes(&self) -> (r: Result<Vec<u8>, MessageError>)
        ensures
            r matches Ok(v) && v@ == self.spec_bytes(),
    {
        let mut buf = WriteBuf::new();
        self.serialize(&mut buf)?;
        Ok(buf.into_bytes())
    }

    pub fn deserialize(buf: &mut ReadBuf) -> (r: Result<Self, MessageError>)
        ensures
            match Self::parse(old(buf)@) {
                Ok((m, n)) => r == Ok::<Self, MessageError>(m) && final(buf)@ == old(buf)@.skip(
                    n as int,
                ),
                Err(e) => r == Err::<Self, MessageError>(e),
            },
    {
        let ghost s = old(buf)@;
        let rest = buf.remaining();
        proof {
            if s.len() >= 16 {
                assert(s.take(16) =~= s.subrange(0, 16));
            }
            if s.len() >= 17 {
                assert(s.skip(16).skip(1) =~= s.skip(17));
            }
        }
        lift(buf.read_magic())?;
        let protocol = lift(buf.read_u8())?;
        // the identifier byte was read before, and 28 bytes of IP and UDP headers precede it
        if rest > 0xFFFF - 29 {
            return Err(MessageError::MTUInvalidPadding);
        }
        Ok(
            Self {
                raknet_protocol: ProtocolVersion::from_u8(protocol),
                mtu_size: (rest + 29) as u16,
            },
        )
    }
}

impl MessageOpenConnectionReply1 {
    pub open spec fn spec_bytes(&self) -> Seq<u8> {
        seq![0x06u8] + magic() + i64_bytes(self.server_uuid) + seq![
            if self.use_encryption {
                1u8
            } else {
                0u8
            },
        ] + be_bytes(self.preferred_mtu_size as nat, 2)
    }

    pub open spec fn parse(s: Seq<u8>) -> Result<(MessageOpenConnectionReply1, nat), MessageError> {
        if s.len() < 16 {
            not_enough()
        } else if s.subrange(0, 16) != magic() {
            bad_magic()
        } else if s.len() < 27 {
            not_enough()
        } else {
            Ok(
                (
                    MessageOpenConnectionReply1 {
                        server_uuid: i64_at(s, 16),
                        use_encryption: s[24] == 1,
                        preferred_mtu_size: u16_at(s, 25),
                    },
                    27,
                ),
            )
        }
    }

    pub fn serialize(&self, buf: &mut WriteBuf) -> (r: Result<(), MessageError>)
        ensures
            r is Ok,
            final(buf)@ == old(buf)@ + self.spec_bytes(),
    {
        let _ = buf.write_u8(0x06);
        let _ = buf.write_magic();
        let _ = buf.write_i64(self.server_uuid);
        let _ = buf.write_bool(self.use_encryption);
        let _ = buf.write_u16(self.preferred_mtu_size);
        assert(final(buf)@ =~= old(buf)@ + self.spec_bytes());
        Ok(())
    }

    pub fn deserialize(buf: &mut ReadBuf) -> (r: Result<Self, MessageError>)
        ensures
            match Self::parse(old(buf)@) {
                Ok((m, n)) => r == Ok::<Self, MessageError>(m) && final(buf)@ == old(buf)@.skip(
                    n as int,
                ),
                Err(e) => r == Err::<Self, MessageError>(e),
            },
    {
        let ghost s = old(buf)@;
        proof {
            if s.len() >= 16 {
                assert(s.take(16) =~= s.subrange(0, 16));
            }
            if s.len() >= 27 {
                assert(s.skip(16).take(8) =~= s.subrange(16, 24));
                assert(s.skip(16).skip(8).skip(1).take(2) =~= s.subrange(25, 27));
                assert(s.skip(16).skip(8).skip(1).skip(2) =~= s.skip(27));
            }
        }
        if buf.remaining() >= 16 && buf.remaining() < 27 {
            lift(buf.read_magic())?;
            return Err(MessageError::BufError(BufError::NotEnoughData));
        }
        lift(buf.read_magic())?;
        let server_uuid = lift(buf.read_i64())?;
        let use_encryption = lift(buf.read_bool())?;
        let preferred_mtu_size = lift(buf.read_u16())?;
        Ok(Self { server_uuid, use_encryption, preferred_mtu_size })
    }
}

impl MessageAlreadyConnected {
    pub open spec fn spec_bytes(&self) -> Seq<u8> {
        seq![0x12u8] + magic() + i64_bytes(self.server_uuid)
    }

    pub open spec fn parse(s: Seq<u8>) -> Result<(MessageAlreadyConnected, nat), MessageError> {
        if s.len() < 16 {
            not_enough()
        } else if s.subrange(0, 16) != magic() {
            bad_magic()
        } else if s.len() < 24 {
            not_enough()
        } else {
            Ok((MessageAlreadyConnected { server_uuid: i64_at(s, 16) }, 24))
        }
    }

    pub fn serialize(&self, buf: &mut WriteBuf) -> (r: Result<(), MessageError>)
        ensures
            r is Ok,
            final(buf)@ == old(buf)@ + self.spec_bytes(),
    {
        let _ = buf.write_u8(0x12);
        let _ = buf.write_magic();
        let _ = buf.write_i64(self.server_uuid);
        assert(final(buf)@ =~= old(buf)@ + self.spec_bytes());
        Ok(())
    }

    pub fn deserialize(buf: &mut ReadBuf) -> (r: Result<Self, MessageError>)
        ensures
            match Self::parse(old(buf)@) {
                Ok((m, n)) => r == Ok::<Self, MessageError>(m) && final(buf)@ == old(buf)@.skip(
                    n as int,
                ),
                Err(e) => r == Err::<Self, MessageError>(e),
            },
    {
        let ghost s = old(buf)@;
        proof {
            if s.len() >= 16 {
                assert(s.take(16) =~= s.subrange(0, 16));
            }
            if s.len() >= 24 {
                assert(s.skip(16).take(8) =~= s.subrange(16, 24));
                assert(s.skip(16).skip(8) =~= s.skip(24));
            }
        }
        lift(buf.read_magic())?;
        let server_uuid = lift(buf.read_i64())?;
        Ok(Self { server_uuid })
    }
}

impl MessageIncompatibleProtocolVersion {
    pub open spec fn spec_bytes(&self) -> Seq<u8> {
        seq![0x19u8, self.preferred_protocol.spec_to_u8()] + magic() + i64_bytes(self.server_uuid)
    }

    pub open spec fn parse(s: Seq<u8>) -> Result<(MessageIncompatibleProtocolVersion, nat), MessageError> {
        if s.len() < 17 {
            not_enough()
        } else if s.subrange(1, 17) != magic() {
            bad_magic()
        } else if s.len() < 25 {
            not_enough()
        } else {
            Ok(
                (
                    MessageIncompatibleProtocolVersion {
                        preferred_protocol: protocol_of(s[0]),
                        server_uuid: i64_at(s, 17),
                    },
                    25,
                ),
            )
        }
    }

    pub fn serialize(&self, buf: &mut WriteBuf) -> (r: Result<(), MessageError>)
        ensures
            r is Ok,
            final(buf)@ == old(buf)@ + self.spec_bytes(),
    {
        let _ = buf.write_u8(0x19);
        let _ = buf.write_u8(self.preferred_protocol.to_u8());
        let _ = buf.write_magic();
        let _ = buf.write_i64(self.server_uuid);
        assert(final(buf)@ =~= old(buf)@ + self.spec_bytes());
        Ok(())
    }

    pub fn deserialize(buf: &mut ReadBuf) -> (r: Result<Self, MessageError>)
        ensures
            match Self::parse(old(buf)@) {
                Ok((m, n)) => r == Ok::<Self, MessageError>(m) && final(buf)@ == old(buf)@.skip(
                    n as int,
                ),
                Err(e) => r == Err::<Self, MessageError>(e),
            },
    {
        let ghost s = old(buf)@;
        proof {
            if s.len() >= 17 {
                assert(s.skip(1).take(16) =~= s.subrange(1, 17));
            }
            if s.len() >= 25 {
                assert(s.skip(1).skip(16).take(8) =~= s.subrange(17, 25));
                assert(s.skip(1).skip(16).skip(8) =~= s.skip(25));
            }
        }
        if buf.remaining() < 17 {
            return Err(MessageError::BufError(BufError::NotEnoughData));
        }
        let protocol = lift(buf.read_u8())?;
        lift(buf.read_magic())?;
        let server_uuid = lift(buf.read_i64())?;
        Ok(Self { server_uuid, preferred_protocol: ProtocolVersion::from_u8(protocol) })
    }
}

impl MessageOpenConnectionRequest2 {
    pub open spec fn spec_bytes(&self) -> Seq<u8> {
        seq![0x07u8] + magic() + address_bytes(self.server_address) + be_bytes(
            self.preferred_mtu_size as nat,
            2,
        ) + i64_bytes(self.client_uuid)
    }

    pub open spec fn parse(s: Seq<u8>) -> Result<(MessageOpenConnectionRequest2, nat), MessageError> {
        if s.len() < 16 {
            not_enough()
        } else if s.subrange(0, 16) != magic() {
            bad_magic()
        } else {
            match address_parse(s.skip(16)) {
                Err(e) => Err(MessageError::BufError(e)),
                Ok((a, n)) => if s.len() < 16 + n + 10 {
                    not_enough()
                } else {
                    Ok(
                        (
                            MessageOpenConnectionRequest2 {
                                server_address: a,
                                preferred_mtu_size: u16_at(s, 16 + n as int),
                                client_uuid: i64_at(s, 18 + n as int),
                            },
                            26 + n,
                        ),
                    )
                },
            }
        }
    }

    pub fn serialize(&self, buf: &mut WriteBuf) -> (r: Result<(), MessageError>)
        ensures
            r is Ok,
            final(buf)@ == old(buf)@ + self.spec_bytes(),
    {
        let _ = buf.write_u8(0x07);
        let _ = buf.write_magic();
        let _ = buf.write_address(self.server_address);
        let _ = buf.write_u16(self.preferred_mtu_size);
        let _ = buf.write_i64(self.client_uuid);
        assert(final(buf)@ =~= old(buf)@ + self.spec_bytes());
        Ok(())
    }

    pub fn deserialize(buf: &mut ReadBuf) -> (r: Result<Self, MessageError>)
        ensures
            match Self::parse(old(buf)@) {
                Ok((m, n)) => r == Ok::<Self, MessageError>(m) && final(buf)@ == old(buf)@.skip(
                    n as int,
                ),
                Err(e) => r == Err::<Self, MessageError>(e),
            },
    {
        let ghost s = old(buf)@;
        proof {
            if s.len() >= 16 {
                assert(s.take(16) =~= s.subrange(0, 16));
            }
        }
        lift(buf.read_magic())?;
        let server_address = lift(buf.read_address())?;
        let ghost n = match address_parse(s.skip(16)) {
            Ok((_, n)) => n,
            Err(_) => 0,
        };
        proof {
            assert(buf@ =~= s.skip(16 + n as int));
            if s.len() >= 16 + n + 10 {
                assert(s.skip(16 + n as int).take(2) =~= s.subrange(16 + n as int, 18 + n as int));
                assert(s.skip(16 + n as int).skip(2).take(8) =~= s.subrange(18 + n as int, 26 + n as int));
                assert(s.skip(16 + n as int).skip(2).skip(8) =~= s.skip(26 + n as int));
            }
        }
        if buf.remaining() < 10 {
            return Err(MessageError::BufError(BufError::NotEnoughData));
        }
        let preferred_mtu_size = lift(buf.read_u16())?;
        let client_uuid = lift(buf.read_i64())?;
        Ok(Self { client_uuid, server_address, preferred_mtu_size })
    }
}

impl MessageOpenConnectionReply2 {
    pub open spec fn spec_bytes(&self) -> Seq<u8> {
        seq![0x08u8] + magic() + i64_bytes(self.server_uuid) + address_bytes(self.client_address)
            + be_bytes(self.mtu_size as nat, 2) + seq![
            if self.use_encryption {
                1u8
            } else {
                0u8
            },
        ]
    }

    pub open spec fn parse(s: Seq<u8>) -> Result<(MessageOpenConnectionReply2, nat), MessageError> {
        if s.len() < 16 {
            not_enough()
        } else if s.subrange(0, 16) != magic() {
            bad_magic()
        } else if s.len() < 24 {
            not_enough()
        } else {
            match address_parse(s.skip(24)) {
                Err(e) => Err(MessageError::BufError(e)),
                Ok((a, n)) => if s.len() < 24 + n + 3 {
                    not_enough()
                } else {
                    Ok(
                        (
                            MessageOpenConnectionReply2 {
                                server_uuid: i64_at(s, 16),
                                client_address: a,
                                mtu_size: u16_at(s, 24 + n as int),
                                use_encryption: s[26 + n as int] == 1,
                            },
                            27 + n,
                        ),
                    )
                },
            }
        }
    }

    pub fn serialize(&self, buf: &mut WriteBuf) -> (r: Result<(), MessageError>)
        ensures
            r is Ok,
            final(buf)@ == old(buf)@ + self.spec_bytes(),
    {
        let _ = buf.write_u8(0x08);
        let _ = buf.write_magic();
        let _ = buf.write_i64(self.server_uuid);
        let _ = buf.write_address(self.client_address);
        let _ = buf.write_u16(self.mtu_size);
        let _ = buf.write_bool(self.use_encryption);
        assert(final(buf)@ =~= old(buf)@ + self.spec_bytes());
        Ok(())
    }

    pub fn deserialize(buf: &mut ReadBuf) -> (r: Result<Self, MessageError>)
        ensures
            match Self::parse(old(buf)@) {
                Ok((m, n)) => r == Ok::<Self, MessageError>(m) && final(buf)@ == old(buf)@.skip(
                    n as int,
                ),
                Err(e) => r == Err::<Self, MessageError>(e),
            },
    {
        let ghost s = old(buf)@;
        proof {
            if s.len() >= 16 {
                assert(s.take(16) =~= s.subrange(0, 16));
            }
            if s.len() >= 24 {
                assert(s.skip(16).take(8) =~= s.subrange(16, 24));
                assert(s.skip(16).skip(8) =~= s.skip(24));
            }
        }
        if buf.remaining() >= 16 && buf.remaining() < 24 {
            lift(buf.read_magic())?;
            return Err(MessageError::BufError(BufError::NotEnoughData));
        }
        lift(buf.read_magic())?;
        let server_uuid = lift(buf.read_i64())?;
        let client_address = lift(buf.read_address())?;
        let ghost n = match address_parse(s.skip(24)) {
            Ok((_, n)) => n,
            Err(_) => 0,
        };
        proof {
            assert(buf@ =~= s.skip(24 + n as int));
            if s.len() >= 24 + n + 3 {
                assert(s.skip(24 + n as int).take(2) =~= s.subrange(24 + n as int, 26 + n as int));
                assert(s.skip(24 + n as int).skip(2)[0] == s[26 + n as int]);
                assert(s.skip(24 + n as int).skip(2).skip(1) =~= s.skip(27 + n as int));
            }
        }
        if buf.remaining() < 3 {
            return Err(MessageError::BufError(BufError::NotEnoughData));
        }
        let mtu_size = lift(buf.read_u16())?;
        let use_encryption = lift(buf.read_bool())?;
        Ok(Self { server_uuid, client_address, use_encryption, mtu_size })
    }
}

proof fn lemma_u16_round_trip(x: u16, rest: Seq<u8>)
    ensures
        be_bytes(x as nat, 2).len() == 2,
        u16_at(be_bytes(x as nat, 2) + rest, 0) == x,
{
    reveal_with_fuel(pow256, 3);
    lemma_be_round_trip(x as nat, 2);
    assert((be_bytes(x as nat, 2) + rest).subrange(0, 2) =~= be_bytes(x as nat, 2));
}

/// An open connection reply 1 read back from its encoding is the same message.
pub proof fn lemma_reply1_round_trip(m: MessageOpenConnectionReply1, rest: Seq<u8>)
    ensures
        MessageOpenConnectionReply1::parse(m.spec_bytes().skip(1) + rest) == Ok::<
            (MessageOpenConnectionReply1, nat),
            MessageError,
        >((m, 27)),
{
    let s = m.spec_bytes().skip(1) + rest;
    lemma_i64_round_trip(m.server_uuid, s.skip(24));
    lemma_u16_round_trip(m.preferred_mtu_size, rest);
    assert(s.subrange(0, 16) =~= magic());
    assert(s.subrange(16, 24) =~= (i64_bytes(m.server_uuid) + s.skip(24)).subrange(0, 8));
    assert(s.subrange(25, 27) =~= (be_bytes(m.preferred_mtu_size as nat, 2) + rest).subrange(0, 2));
}

/// An already-connected message read back from its encoding is the same message.
pub proof fn lemma_already_connected_round_trip(m: MessageAlreadyConnected, rest: Seq<u8>)
    ensures
        MessageAlreadyConnected::parse(m.spec_bytes().skip(1) + rest) == Ok::<
            (MessageAlreadyConnected, nat),
            MessageError,
        >((m, 24)),
{
    let s = m.spec_bytes().skip(1) + rest;
    lemma_i64_round_trip(m.server_uuid, rest);
    assert(s.subrange(0, 16) =~= magic());
    assert(s.subrange(16, 24) =~= (i64_bytes(m.server_uuid) + rest).subrange(0, 8));
}

/// An incompatible protocol version message read back from its encoding is the same message.
pub proof fn lemma_incompatible_round_trip(m: MessageIncompatibleProtocolVersion, rest: Seq<u8>)
    requires
        m.preferred_protocol.wf(),
    ensures
        MessageIncompatibleProtocolVersion::parse(m.spec_bytes().skip(1) + rest) == Ok::<
            (MessageIncompatibleProtocolVersion, nat),
            MessageError,
        >((m, 25)),
{
    let s = m.spec_bytes().skip(1) + rest;
    lemma_i64_round_trip(m.server_uuid, rest);
    assert(s.subrange(1, 17) =~= magic());
    assert(s.subrange(17, 25) =~= (i64_bytes(m.server_uuid) + rest).subrange(0, 8));
}

/// An open connection request 2 read back from its encoding is the same message.
pub proof fn lemma_request2_round_trip(m: MessageOpenConnectionRequest2, rest: Seq<u8>)
    ensures
        MessageOpenConnectionRequest2::parse(m.spec_bytes().skip(1) + rest) == Ok::<
            (MessageOpenConnectionRequest2, nat),
            MessageError,
        >((m, 26 + address_bytes(m.server_address).len())),
{
    let s = m.spec_bytes().skip(1) + rest;
    let ab = address_bytes(m.server_address);
    lemma_u16_round_trip(m.preferred_mtu_size, i64_bytes(m.client_uuid) + rest);
    lemma_i64_round_trip(m.client_uuid, rest);
    let tail = be_bytes(m.preferred_mtu_size as nat, 2) + i64_bytes(m.client_uuid) + rest;
    assert(tail =~= be_bytes(m.preferred_mtu_size as nat, 2) + (i64_bytes(m.client_uuid) + rest));
    assert(s.skip(16) =~= ab + tail);
    lemma_address_round_trip(m.server_address, tail);
    let n = ab.len();
    assert(s.len() == 16 + n + 10 + rest.len());
    assert(u16_at(s, 16 + n as int) == u16_at(tail, 0)) by {
        assert(s.subrange(16 + n as int, 18 + n as int) =~= tail.subrange(0, 2));
    }
    assert(s.subrange(0, 16) =~= magic());
    assert(s.subrange(16 + n as int, 18 + n as int) =~= tail.subrange(0, 2));
    assert(s.subrange(18 + n as int, 26 + n as int) =~= (i64_bytes(m.client_uuid) + rest).subrange(0, 8));
    assert(address_parse(s.skip(16)) == Ok::<(SockAddr, nat), BufError>((m.server_address, n)));
    assert(u16_at(s, 16 + n as int) == m.preferred_mtu_size);
    assert(i64_at(s, 18 + n as int) == m.client_uuid);
    assert(s.len() >= 16 + n + 10);
}

/// An open connection reply 2 read back from its encoding is the same message.
#[verifier::rlimit(80)]
pub proof fn lemma_reply2_round_trip(m: MessageOpenConnectionReply2, rest: Seq<u8>)
    ensures
        MessageOpenConnectionReply2::parse(m.spec_bytes().skip(1) + rest) == Ok::<
            (MessageOpenConnectionReply2, nat),
            MessageError,
        >((m, 27 + address_bytes(m.client_address).len())),
{
    let s = m.spec_bytes().skip(1) + rest;
    let ab = address_bytes(m.client_address);
    let flag: u8 = if m.use_encryption { 1 } else { 0 };
    lemma_u16_round_trip(m.mtu_size, seq![flag] + rest);
    lemma_i64_round_trip(m.server_uuid, s.skip(24));
    let tail = be_bytes(m.mtu_size as nat, 2) + seq![flag] + rest;
    assert(tail =~= be_bytes(m.mtu_size as nat, 2) + (seq![flag] + rest));
    assert(s.skip(24) =~= ab + tail);
    lemma_address_round_trip(m.client_address, tail);
    let n = ab.len();
    assert(s.len() == 24 + n + 3 + rest.len());
    assert(u16_at(s, 24 + n as int) == u16_at(tail, 0)) by {
        assert(s.subrange(24 + n as int, 26 + n as int) =~= tail.subrange(0, 2));
    }
    assert(s.subrange(0, 16) =~= magic());
    assert(s.subrange(16, 24) =~= (i64_bytes(m.server_uuid) + s.skip(24)).subrange(0, 8));
    assert(s.subrange(24 + n as int, 26 + n as int) =~= tail.subrange(0, 2));
    assert(s[26 + n as int] == flag);
    assert(address_parse(s.skip(24)) == Ok::<(SockAddr, nat), BufError>((m.client_address, n)));
    assert(u16_at(s, 24 + n as int) == m.mtu_size);
    assert(i64_at(s, 16) == m.server_uuid);
    assert((s[26 + n as int] == 1) == m.use_encryption);
}

/// An open connection request 1 read back from its encoding is the same message, when its MTU
/// size leaves room for the 46 bytes that precede the padding and the IP and UDP headers.
pub proof fn lemma_request1_round_trip(m: MessageOpenConnectionRequest1)
    requires
        m.raknet_protocol.wf(),
        m.mtu_size >= 46,
    ensures
        MessageOpenConnectionRequest1::parse(m.spec_bytes().skip(1)) == Ok::<
            (MessageOpenConnectionRequest1, nat),
            MessageError,
        >((m, 17)),
{
    let s = m.spec_bytes().skip(1);
    assert(s.subrange(0, 16) =~= magic());
    assert(s[16] == m.raknet_protocol.spec_to_u8());
    assert(s.len() + 29 == m.mtu_size);
}

} // verus!
