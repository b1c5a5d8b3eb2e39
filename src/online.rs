//! RakNet messages exchanged once a connection is established.
use vstd::prelude::*;

use crate::message::{i64_at, i64_bytes, lift, MessageError};
use crate::wire::{address_bytes, address_parse, BufError, ReadBuf, SockAddr, WriteBuf};

verus! {

/// Connected ping.
#[derive(Clone, Copy, Debug, PartialEq, Eq, Structural)]
pub struct MessageConnectedPing {
    pub timestamp: i64,
}

/// Connected pong.
#[derive(Clone, Copy, Debug, PartialEq, Eq, Structural)]
pub struct MessageConnectedPong {
    pub ping_timestamp: i64,
    pub pong_timestamp: i64,
}

/// Connection request.
#[derive(Clone, Copy, Debug, PartialEq, Eq, Structural)]
pub struct MessageConnectionRequest {
    pub client_uuid: i64,
    pub forward_timestamp: i64,
    pub use_encryption: bool,
}

/// Connection request accepted.
#[derive(Clone, Copy, Debug, PartialEq, Eq, Structural)]
pub struct MessageConnectionRequestAccepted {
    pub client_address: SockAddr,
    pub request_timestamp: i64,
    pub accept_timestamp: i64,
}

/// New incoming connection.
#[derive(Clone, Copy, Debug, PartialEq, Eq, Structural)]
pub struct MessageNewIncomingConnection {
    pub server_address: SockAddr,
    pub request_timestamp: i64,
    pub accept_timestamp: i64,
}

/// The placeholder system address written ten times in the handshake messages.
pub open spec fn bogus_address() -> SockAddr {
    SockAddr::V4 { ip: 0xFFFFFFFF, port: 19132 }
}

pub fn get_bogus_system_address() -> (r: SockAddr)
    ensures
        r == bogus_address(),
{
    SockAddr::V4 { ip: 0xFFFFFFFF, port: 19132 }
}

/// The system addresses: `n` copies of the placeholder.
pub open spec fn bogus_addresses(n: nat) -> Seq<u8>
    decreases n,
{
    if n == 0 {
        Seq::empty()
    } else {
        bogus_addresses((n - 1) as nat) + address_bytes(bogus_address())
    }
}

/// Reading system addresses from `s` until exactly 16 bytes are left: the number of bytes
/// they take.
pub open spec fn system_addresses_parse(s: Seq<u8>) -> Result<nat, BufError>
    decreases s.len(),
{
    match address_parse(s) {
        Err(e) => Err(e),
        Ok((_, n)) => if s.len() - n == 16 {
            Ok(n)
        } else if s.len() - n < 16 {
            Err(BufError::InvalidAddress)
        } else if 0 < n {
            match system_addresses_parse(s.skip(n as int)) {
                Ok(m) => Ok(n + m),
                Err(e) => Err(e),
            }
        } else {
            Err(BufError::InvalidAddress)
        },
    }
}

proof fn lemma_system_addresses_length(s: Seq<u8>)
    ensures
        system_addresses_parse(s) matches Ok(m) ==> m + 16 == s.len(),
    decreases s.len(),
{
    if let Ok((_, n)) = address_parse(s) {
        if s.len() - n > 16 && 0 < n {
            lemma_system_addresses_length(s.skip(n as int));
        }
    }
}

fn write_bogus_addresses(buf: &mut WriteBuf)
    ensures
        final(buf)@ == old(buf)@ + bogus_addresses(10),
{
    let a = get_bogus_system_address();
    let mut i: usize = 0;
    while i < 10
        invariant
            i <= 10,
            a == bogus_address(),
            buf@ == old(buf)@ + bogus_addresses(i as nat),
        decreases 10 - i,
    {
        let _ = buf.write_address(a);
        assert(bogus_addresses((i + 1) as nat) == bogus_addresses(i as nat) + address_bytes(
            bogus_address(),
        ));
        i = i + 1;
        assert(buf@ =~= old(buf)@ + bogus_addresses(i as nat));
    }
}

/// Skips system addresses until exactly 16 bytes are left.
fn read_system_addresses(buf: &mut ReadBuf) -> (r: Result<(), BufError>)
    ensures
        match system_addresses_parse(old(buf)@) {
            Ok(n) => r is Ok && final(buf)@ == old(buf)@.skip(n as int),
            Err(e) => r == Err::<(), BufError>(e),
        },
{
    let ghost s = old(buf)@;
    let ghost mut taken: nat = 0;
    loop
        invariant
            s == old(buf)@,
            taken <= s.len(),
            buf@ == s.skip(taken as int),
            system_addresses_parse(s) == match system_addresses_parse(buf@) {
                Ok(m) => Ok(taken + m),
                Err(e) => Err::<nat, BufError>(e),
            },
        decreases buf@.len(),
    {
        let ghost before = buf@;
        match buf.read_address() {
            Ok(_) => {},
            Err(e) => {
                assert(system_addresses_parse(before) == Err::<nat, BufError>(e));
                return Err(e);
            },
        }
        let ghost n = address_parse(before)->Ok_0.1;
        proof {
            assert(s.skip(taken as int).skip(n as int) =~= s.skip((taken + n) as int));
        }
        let rest = buf.remaining();
        if rest == 16 {
            assert(system_addresses_parse(before) == Ok::<nat, BufError>(n));
            assert(buf@ == s.skip((taken + n) as int));
            return Ok(());
        } else if rest < 16 {
            return Err(BufError::InvalidAddress);
        }
        proof {
            taken = taken + n;
        }
    }
}

impl MessageConnectedPing {
    pub open spec fn spec_bytes(&self) -> Seq<u8> {
        seq![0x00u8] + i64_bytes(self.timestamp)
    }

    pub fn serialize(&self, buf: &mut WriteBuf) -> (r: Result<(), MessageError>)
        ensures
            r is Ok,
            final(buf)@ == old(buf)@ + self.spec_bytes(),
    {
        let _ = buf.write_u8(0x00);
        let _ = buf.write_i64(self.timestamp);
        assert(final(buf)@ =~= old(buf)@ + self.spec_bytes());
        Ok(())
    }

    pub fn deserialize(buf: &mut ReadBuf) -> (r: Result<Self, MessageError>)
        ensures
            old(buf)@.len() < 8 ==> r == Err::<Self, MessageError>(MessageError::BufError(BufError::NotEnoughData)),
            old(buf)@.len() >= 8 ==> r == Ok::<Self, MessageError>(Self { timestamp: i64_at(old(buf)@, 0) })
                && final(buf)@ == old(buf)@.skip(8),
    {
        assert(old(buf)@.take(8) =~= old(buf)@.subrange(0, 8));
        let timestamp = lift(buf.read_i64())?;
        Ok(Self { timestamp })
    }
}

impl MessageConnectedPong {
    pub open spec fn spec_bytes(&self) -> Seq<u8> {
        seq![0x03u8] + i64_bytes(self.ping_timestamp) + i64_bytes(self.pong_timestamp)
    }

    pub fn serialize(&self, buf: &mut WriteBuf) -> (r: Result<(), MessageError>)
        ensures
            r is Ok,
            final(buf)@ == old(buf)@ + self.spec_bytes(),
    {
        let _ = buf.write_u8(0x03);
        let _ = buf.write_i64(self.ping_timestamp);
        let _ = buf.write_i64(self.pong_timestamp);
        assert(final(buf)@ =~= old(buf)@ + self.spec_bytes());
        Ok(())
    }

    pub fn deserialize(buf: &mut ReadBuf) -> (r: Result<Self, MessageError>)
        ensures
            old(buf)@.len() < 16 ==> r == Err::<Self, MessageError>(MessageError::BufError(BufError::NotEnoughData)),
            old(buf)@.len() >= 16 ==> r == Ok::<Self, MessageError>(
                Self { ping_timestamp: i64_at(old(buf)@, 0), pong_timestamp: i64_at(old(buf)@, 8) },
            ) && final(buf)@ == old(buf)@.skip(16),
    {
        let ghost s = old(buf)@;
        if buf.remaining() < 16 {
            return Err(MessageError::BufError(BufError::NotEnoughData));
        }
        assert(s.take(8) =~= s.subrange(0, 8));
        assert(s.skip(8).take(8) =~= s.subrange(8, 16));
        assert(s.skip(8).skip(8) =~= s.skip(16));
        let ping_timestamp = lift(buf.read_i64())?;
        let pong_timestamp = lift(buf.read_i64())?;
        Ok(Self { ping_timestamp, pong_timestamp })
    }
}

impl MessageConnectionRequest {
    pub open spec fn spec_bytes(&self) -> Seq<u8> {
        seq![0x09u8] + i64_bytes(self.client_uuid) + i64_bytes(self.forward_timestamp) + seq![
            if self.use_encryption {
                1u8
            } else {
                0u8
            },
        ]
    }

    pub fn serialize(&self, buf: &mut WriteBuf) -> (r: Result<(), MessageError>)
        ensures
            r is Ok,
            final(buf)@ == old(buf)@ + self.spec_bytes(),
    {
        let _ = buf.write_u8(0x09);
        let _ = buf.write_i64(self.client_uuid);
        let _ = buf.write_i64(self.forward_timestamp);
        let _ = buf.write_bool(self.use_encryption);
        assert(final(buf)@ =~= old(buf)@ + self.spec_bytes());
        Ok(())
    }

    pub fn deserialize(buf: &mut ReadBuf) -> (r: Result<Self, MessageError>)
        ensures
            old(buf)@.len() < 17 ==> r == Err::<Self, MessageError>(MessageError::BufError(BufError::NotEnoughData)),
            old(buf)@.len() >= 17 ==> r == Ok::<Self, MessageError>(
                Self {
                    client_uuid: i64_at(old(buf)@, 0),
                    forward_timestamp: i64_at(old(buf)@, 8),
                    use_encryption: old(buf)@[16] == 1,
                },
            ) && final(buf)@ == old(buf)@.skip(17),
    {
        let ghost s = old(buf)@;
        if buf.remaining() < 17 {
            return Err(MessageError::BufError(BufError::NotEnoughData));
        }
        assert(s.take(8) =~= s.subrange(0, 8));
        assert(s.skip(8).take(8) =~= s.subrange(8, 16));
        assert(s.skip(8).skip(8)[0] == s[16]);
        assert(s.skip(8).skip(8).skip(1) =~= s.skip(17));
        let client_uuid = lift(buf.read_i64())?;
        let forward_timestamp = lift(buf.read_i64())?;
        let use_encryption = lift(buf.read_bool())?;
        Ok(Self { client_uuid, forward_timestamp, use_encryption })
    }
}

/// Reading an accepted connection or a new incoming connection: an address, `skip` bytes,
/// system addresses until 16 bytes are left, then two timestamps.
pub open spec fn handshake_parse(s: Seq<u8>, skip: nat) -> Result<(SockAddr, i64, i64), MessageError> {
    match address_parse(s) {
        Err(e) => Err(MessageError::BufError(e)),
        Ok((a, n)) => if s.len() < n + skip {
            Err(MessageError::BufError(BufError::NotEnoughData))
        } else {
            match system_addresses_parse(s.skip((n + skip) as int)) {
                Err(e) => Err(MessageError::BufError(e)),
                Ok(m) => {
                    let k: int = (n + skip + m) as int;
                    Ok((a, i64_at(s, k), i64_at(s, k + 8)))
                },
            }
        },
    }
}

fn read_handshake(buf: &mut ReadBuf, skip: usize) -> (r: Result<(SockAddr, i64, i64), MessageError>)
    ensures
        r == handshake_parse(old(buf)@, skip as nat),
{
    let ghost s = old(buf)@;
    let addr = lift(buf.read_address())?;
    let ghost n = address_parse(s)->Ok_0.1;
    lift(buf.advance(skip))?;
    proof {
        assert(s.skip(n as int).skip(skip as int) =~= s.skip((n + skip) as int));
    }
    lift(read_system_addresses(buf))?;
    let ghost m = system_addresses_parse(s.skip((n + skip) as int))->Ok_0;
    proof {
        lemma_system_addresses_length(s.skip((n + skip) as int));
    }
    let ghost k: int = (n + skip + m) as int;
    proof {
        assert(s.skip((n + skip) as int).skip(m as int) =~= s.skip(k));
        assert(buf@.len() == 16);
        assert(s.skip(k).take(8) =~= s.subrange(k, k + 8));
        assert(s.skip(k).skip(8).take(8) =~= s.subrange(k + 8, k + 16));
    }
    let request_timestamp = lift(buf.read_i64())?;
    let accept_timestamp = lift(buf.read_i64())?;
    Ok((addr, request_timestamp, accept_timestamp))
}

impl MessageConnectionRequestAccepted {
    pub open spec fn spec_bytes(&self) -> Seq<u8> {
        seq![0x10u8] + address_bytes(self.client_address) + seq![0u8, 0u8] + bogus_addresses(10)
            + i64_bytes(self.request_timestamp) + i64_bytes(self.accept_timestamp)
    }

    pub fn serialize(&self, buf: &mut WriteBuf) -> (r: Result<(), MessageError>)
        ensures
            r is Ok,
            final(buf)@ == old(buf)@ + self.spec_bytes(),
    {
        let _ = buf.write_u8(0x10);
        let _ = buf.write_address(self.client_address);
        // system index
        let _ = buf.write_u16(0);
        proof {
            reveal_with_fuel(crate::wire::be_bytes, 3);
            assert(crate::wire::be_bytes(0, 2) =~= seq![0u8, 0u8]);
        }
        write_bogus_addresses(buf);
        let _ = buf.write_i64(self.request_timestamp);
        let _ = buf.write_i64(self.accept_timestamp);
        assert(final(buf)@ =~= old(buf)@ + self.spec_bytes());
        Ok(())
    }

    /// Reads the message; the system index (two bytes) and the system addresses are skipped.
    pub fn deserialize(buf: &mut ReadBuf) -> (r: Result<Self, MessageError>)
        ensures
            match handshake_parse(old(buf)@, 2) {
                Ok((a, t1, t2)) => r == Ok::<Self, MessageError>(
                    Self { client_address: a, request_timestamp: t1, accept_timestamp: t2 },
                ),
                Err(e) => r == Err::<Self, MessageError>(e),
            },
    {
        let (client_address, request_timestamp, accept_timestamp) = read_handshake(buf, 2)?;
        Ok(Self { client_address, request_timestamp, accept_timestamp })
    }
}

impl MessageNewIncomingConnection {
    pub open spec fn spec_bytes(&self) -> Seq<u8> {
        seq![0x13u8] + address_bytes(self.server_address) + bogus_addresses(10) + i64_bytes(
            self.request_timestamp,
        ) + i64_bytes(self.accept_timestamp)
    }

    pub fn serialize(&self, buf: &mut WriteBuf) -> (r: Result<(), MessageError>)
        ensures
            r is Ok,
            final(buf)@ == old(buf)@ + self.spec_bytes(),
    {
        let _ = buf.write_u8(0x13);
        let _ = buf.write_address(self.server_address);
        write_bogus_addresses(buf);
        let _ = buf.write_i64(self.request_timestamp);
        let _ = buf.write_i64(self.accept_timestamp);
        assert(final(buf)@ =~= old(buf)@ + self.spec_bytes());
        Ok(())
    }

    /// Reads the message; the system addresses are skipped.
    pub fn deserialize(buf: &mut ReadBuf) -> (r: Result<Self, MessageError>)
        ensures
            match handshake_parse(old(buf)@, 0) {
                Ok((a, t1, t2)) => r == Ok::<Self, MessageError>(
                    Self { server_address: a, request_timestamp: t1, accept_timestamp: t2 },
                ),
                Err(e) => r == Err::<Self, MessageError>(e),
            },
    {
        let (server_address, request_timestamp, accept_timestamp) = read_handshake(buf, 0)?;
        Ok(Self { server_address, request_timestamp, accept_timestamp })
    }
}

} // verus!
