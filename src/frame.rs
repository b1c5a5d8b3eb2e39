//! RakNet frames, as they stand inside a datagram.
use vstd::prelude::*;

use crate::message::{lift, MessageError};
use crate::wire::{
    be_bytes, be_value, lemma_be_bytes_len, lemma_be_round_trip, lemma_le24_round_trip, le24_bytes, le24_value, pow256,
    BufError, ReadBuf, WriteBuf,
};

verus! {

/// Reliability of a frame, from the top three bits of its header byte.
#[derive(Clone, Copy, Debug, PartialEq, Eq, Structural)]
pub enum Reliability {
    Unreliable,
    UnreliableSequenced,
    Reliable,
    ReliableOrdered,
    ReliableSequenced,
}

pub open spec fn reliability_of(value: u8) -> Option<Reliability> {
    match value {
        0 => Some(Reliability::Unreliable),
        1 => Some(Reliability::UnreliableSequenced),
        2 => Some(Reliability::Reliable),
        3 => Some(Reliability::ReliableOrdered),
        4 => Some(Reliability::ReliableSequenced),
        _ => None,
    }
}

impl Reliability {
    pub open spec fn spec_is_reliable(&self) -> bool {
        *self == Reliability::Reliable || *self == Reliability::ReliableOrdered || *self
            == Reliability::ReliableSequenced
    }

    pub open spec fn spec_is_ordered(&self) -> bool {
        *self == Reliability::UnreliableSequenced || *self == Reliability::ReliableOrdered
            || *self == Reliability::ReliableSequenced
    }

    pub open spec fn spec_is_sequenced(&self) -> bool {
        *self == Reliability::UnreliableSequenced || *self == Reliability::ReliableSequenced
    }

    pub open spec fn spec_to_u8(&self) -> u8 {
        match *self {
            Reliability::Unreliable => 0,
            Reliability::UnreliableSequenced => 1,
            Reliability::Reliable => 2,
            Reliability::ReliableOrdered => 3,
            Reliability::ReliableSequenced => 4,
        }
    }

    /// Whether a frame of this reliability carries a frame index.
    pub fn is_reliable(&self) -> (r: bool)
        ensures
            r == self.spec_is_reliable(),
    {
        matches!(*self, Self::Reliable | Self::ReliableOrdered | Self::ReliableSequenced)
    }

    /// Whether a frame of this reliability carries an order index and channel.
    pub fn is_ordered(&self) -> (r: bool)
        ensures
            r == self.spec_is_ordered(),
    {
        matches!(*self, Self::UnreliableSequenced | Self::ReliableOrdered | Self::ReliableSequenced)
    }

    /// Whether a frame of this reliability carries a sequence index.
    pub fn is_sequenced(&self) -> (r: bool)
        ensures
            r == self.spec_is_sequenced(),
    {
        matches!(*self, Self::UnreliableSequenced | Self::ReliableSequenced)
    }

    pub fn from_u8(value: u8) -> (r: Option<Self>)
        ensures
            r == reliability_of(value),
    {
        match value {
            0 => Some(Self::Unreliable),
            1 => Some(Self::UnreliableSequenced),
            2 => Some(Self::Reliable),
            3 => Some(Self::ReliableOrdered),
            4 => Some(Self::ReliableSequenced),
            _ => None,
        }
    }

    pub fn to_u8(&self) -> (r: u8)
        ensures
            r == self.spec_to_u8(),
    {
        match *self {
            Self::Unreliable => 0,
            Self::UnreliableSequenced => 1,
            Self::Reliable => 2,
            Self::ReliableOrdered => 3,
            Self::ReliableSequenced => 4,
        }
    }
}

/// Fragment information of a frame.
#[derive(Clone, Copy, Debug, PartialEq, Eq, Structural)]
pub struct FrameFragment {
    pub count: u32,
    pub index: u32,
    pub id: u16,
}

/// A frame: a header, the indices that its reliability asks for, and a body.
#[derive(Clone, Debug)]
pub struct Frame {
    pub reliability: Reliability,
    /// Only if reliable.
    pub frame_idx: u32,
    /// Only if sequenced.
    pub seq: u32,
    /// Only if ordered.
    pub order_idx: u32,
    pub fragment: Option<FrameFragment>,
    pub body: Vec<u8>,
}

/// The mathematical value of a frame.
#[verifier::ext_equal]
pub struct FrameV {
    pub reliability: Reliability,
    pub frame_idx: u32,
    pub seq: u32,
    pub order_idx: u32,
    pub fragment: Option<FrameFragment>,
    pub body: Seq<u8>,
}

impl View for Frame {
    type V = FrameV;

    open spec fn view(&self) -> FrameV {
        FrameV {
            reliability: self.reliability,
            frame_idx: self.frame_idx,
            seq: self.seq,
            order_idx: self.order_idx,
            fragment: self.fragment,
            body: self.body@,
        }
    }
}

/// Bytes of an index field: present only when `present` holds.
pub open spec fn opt_u24(present: bool, v: u32) -> Seq<u8> {
    if present {
        le24_bytes(v as nat)
    } else {
        Seq::empty()
    }
}

/// A frame is well formed when its body is not empty, its length in bits fits a `u16`, its
/// indices fit 24 bits, and the indices that its reliability leaves out are 0.
pub open spec fn frame_wf(f: FrameV) -> bool {
    &&& 0 < f.body.len() && f.body.len() * 8 <= 0xFFFF
    &&& f.frame_idx < 0x1000000 && f.seq < 0x1000000 && f.order_idx < 0x1000000
    &&& (!f.reliability.spec_is_reliable() ==> f.frame_idx == 0)
    &&& (!f.reliability.spec_is_sequenced() ==> f.seq == 0)
    &&& (!f.reliability.spec_is_ordered() ==> f.order_idx == 0)
}

/// Header byte and body length in bits.
pub open spec fn frame_head(f: FrameV) -> Seq<u8> {
    seq![(f.reliability.spec_to_u8() * 32 + if f.fragment is Some { 16u8 } else { 0u8 }) as u8]
        + be_bytes((f.body.len() * 8) % 0x10000, 2)
}

/// The index fields that the reliability asks for.
pub open spec fn frame_indices(f: FrameV) -> Seq<u8> {
    opt_u24(f.reliability.spec_is_reliable(), f.frame_idx) + opt_u24(
        f.reliability.spec_is_sequenced(),
        f.seq,
    ) + if f.reliability.spec_is_ordered() {
        le24_bytes(f.order_idx as nat).push(0)
    } else {
        Seq::empty()
    }
}

/// Fragment count, id and index, if the frame is a fragment.
pub open spec fn frame_fragment_bytes(f: FrameV) -> Seq<u8> {
    match f.fragment {
        Some(fr) => be_bytes(fr.count as nat, 4) + be_bytes(fr.id as nat, 2) + be_bytes(
            fr.index as nat,
            4,
        ),
        None => Seq::empty(),
    }
}

/// Encoding of a frame.
pub open spec fn frame_bytes(f: FrameV) -> Seq<u8> {
    frame_head(f) + frame_indices(f) + frame_fragment_bytes(f) + f.body
}

pub open spec fn nenough<T>() -> Result<T, MessageError> {
    Err(MessageError::BufError(BufError::NotEnoughData))
}

/// Reading one frame from `s`, with the number of bytes it takes.
pub open spec fn frame_parse(s: Seq<u8>) -> Result<(FrameV, nat), MessageError> {
    if s.len() < 1 {
        nenough()
    } else {
        let header = s[0];
        let rid = (header / 32) as u8;
        let fragmented = (header / 16) % 2 == 1;
        match reliability_of(rid) {
            None => Err(MessageError::UnknownRealibility(rid)),
            Some(rel) => if s.len() < 3 {
                nenough()
            } else {
                let body_len = be_value(s.subrange(1, 3)) / 8;
                if body_len == 0 {
                    Err(MessageError::ZeroSize)
                } else {
                    let k1: int = 3;
                    let k2: int = if rel.spec_is_reliable() { k1 + 3 } else { k1 };
                    let k3: int = if rel.spec_is_sequenced() { k2 + 3 } else { k2 };
                    let k4: int = if rel.spec_is_ordered() { k3 + 4 } else { k3 };
                    let k5: int = if fragmented { k4 + 10 } else { k4 };
                    if s.len() < k2 || s.len() < k3 || (rel.spec_is_ordered() && s.len() < k3 + 3) {
                        nenough()
                    } else if s.len() < k4 || s.len() < k5 || s.len() < k5 + body_len {
                        nenough()
                    } else {
                        Ok(
                            (
                                FrameV {
                                    reliability: rel,
                                    frame_idx: if rel.spec_is_reliable() {
                                        le24_value(s.skip(k1)) as u32
                                    } else {
                                        0
                                    },
                                    seq: if rel.spec_is_sequenced() {
                                        le24_value(s.skip(k2)) as u32
                                    } else {
                                        0
                                    },
                                    order_idx: if rel.spec_is_ordered() {
                                        le24_value(s.skip(k3)) as u32
                                    } else {
                                        0
                                    },
                                    fragment: if fragmented {
                                        Some(
                                            FrameFragment {
                                                count: be_value(s.subrange(k4, k4 + 4)) as u32,
                                                id: be_value(s.subrange(k4 + 4, k4 + 6)) as u16,
                                                index: be_value(s.subrange(k4 + 6, k4 + 10)) as u32,
                                            },
                                        )
                                    } else {
                                        None
                                    },
                                    body: s.subrange(k5, k5 + body_len),
                                },
                                (k5 + body_len) as nat,
                            ),
                        )
                    }
                }
            },
        }
    }
}

proof fn lemma_skip_skip(s: Seq<u8>, a: int, b: int)
    requires
        0 <= a,
        0 <= b,
        a + b <= s.len(),
    ensures
        s.skip(a).skip(b) == s.skip(a + b),
{
    assert(s.skip(a).skip(b) =~= s.skip(a + b));
}

proof fn lemma_skip_take(s: Seq<u8>, a: int, b: int)
    requires
        0 <= a,
        0 <= b,
        a + b <= s.len(),
    ensures
        s.skip(a).take(b) == s.subrange(a, a + b),
{
    assert(s.skip(a).take(b) =~= s.subrange(a, a + b));
}

proof fn lemma_bits(n: nat)
    ensures
        (n % 8192) * 8 == (n * 8) % 0x10000,
{
    assert((n % 8192) * 8 == (n * 8) % 0x10000) by (nonlinear_arith);
}

impl Frame {
    fn write_head(&self, buf: &mut WriteBuf)
        ensures
            final(buf)@ == old(buf)@ + frame_head(self@),
    {
        let mut header: u8 = self.reliability.to_u8() * 32;
        if self.fragment.is_some() {
            header = header + 16;
        }
        let _ = buf.write_u8(header);
        let n = self.body.len();
        let bits = ((n % 8192) * 8) as u16;
        proof {
            lemma_bits(n as nat);
        }
        let _ = buf.write_u16(bits);
        assert(final(buf)@ =~= old(buf)@ + frame_head(self@));
    }

    fn write_indices(&self, buf: &mut WriteBuf)
        ensures
            final(buf)@ == old(buf)@ + frame_indices(self@),
    {
        let ghost f = self@;
        if self.reliability.is_reliable() {
            let _ = buf.write_u24(self.frame_idx);
        }
        let ghost p2 = buf@;
        if self.reliability.is_sequenced() {
            let _ = buf.write_u24(self.seq);
        }
        assert(buf@ =~= p2 + opt_u24(f.reliability.spec_is_sequenced(), f.seq));
        if self.reliability.is_ordered() {
            let _ = buf.write_u24(self.order_idx);
            // order channel
            let _ = buf.write_u8(0);
        }
        assert(final(buf)@ =~= old(buf)@ + frame_indices(self@));
    }

    fn write_fragment(&self, buf: &mut WriteBuf)
        ensures
            final(buf)@ == old(buf)@ + frame_fragment_bytes(self@),
    {
        if let Some(fragment) = self.fragment {
            let _ = buf.write_u32(fragment.count);
            let _ = buf.write_u16(fragment.id);
            let _ = buf.write_u32(fragment.index);
        }
        assert(final(buf)@ =~= old(buf)@ + frame_fragment_bytes(self@));
    }

    pub fn serialize(&self, buf: &mut WriteBuf) -> (r: Result<(), MessageError>)
        ensures
            r is Ok,
            final(buf)@ == old(buf)@ + frame_bytes(self@),
    {
        self.write_head(buf);
        self.write_indices(buf);
        self.write_fragment(buf);
        let _ = buf.write_bytes(&self.body);
        assert(final(buf)@ =~= old(buf)@ + frame_bytes(self@));
        Ok(())
    }

    pub fn deserialize(buf: &mut ReadBuf) -> (r: Result<Self, MessageError>)
        ensures
            match frame_parse(old(buf)@) {
                Ok((f, n)) => r matches Ok(g) && g@ == f && final(buf)@ == old(buf)@.skip(n as int),
                Err(e) => r matches Err(e2) && e2 == e,
            },
    {
        let ghost s = old(buf)@;
        let header = lift(buf.read_u8())?;
        let fragmented = (header / 16) % 2 == 1;
        let rid = header / 32;
        let reliability = match Reliability::from_u8(rid) {
            Some(rel) => rel,
            None => {
                return Err(MessageError::UnknownRealibility(rid));
            },
        };
        let bits = lift(buf.read_u16())?;
        proof {
            lemma_skip_skip(s, 1, 2);
            lemma_skip_take(s, 1, 2);
        }
        let body_len = (bits / 8) as usize;
        if body_len == 0 {
            return Err(MessageError::ZeroSize);
        }
        let ghost mut k: int = 3;
        let frame_idx = if reliability.is_reliable() {
            let v = lift(buf.read_u24())?;
            proof {
                lemma_skip_skip(s, k, 3);
                k = k + 3;
            }
            v
        } else {
            0
        };
        let ghost k2 = k;
        let seq = if reliability.is_sequenced() {
            let v = lift(buf.read_u24())?;
            proof {
                lemma_skip_skip(s, k, 3);
                k = k + 3;
            }
            v
        } else {
            0
        };
        let ghost k3 = k;
        let order_idx = if reliability.is_ordered() {
            let v = lift(buf.read_u24())?;
            proof {
                lemma_skip_skip(s, k, 3);
            }
            lift(buf.advance(1))?;
            proof {
                lemma_skip_skip(s, k + 3, 1);
                k = k + 4;
            }
            v
        } else {
            0
        };
        let ghost k4 = k;
        let fragment = if fragmented {
            let count = lift(buf.read_u32())?;
            proof {
                lemma_skip_take(s, k, 4);
                lemma_skip_skip(s, k, 4);
            }
            let id = lift(buf.read_u16())?;
            proof {
                lemma_skip_take(s, k + 4, 2);
                lemma_skip_skip(s, k + 4, 2);
            }
            let index = lift(buf.read_u32())?;
            proof {
                lemma_skip_take(s, k + 6, 4);
                lemma_skip_skip(s, k + 6, 4);
                k = k + 10;
            }
            Some(FrameFragment { count, id, index })
        } else {
            None
        };
        let body = lift(buf.read_bytes(body_len))?;
        proof {
            lemma_skip_take(s, k, body_len as int);
            lemma_skip_skip(s, k, body_len as int);
        }
        Ok(Self { reliability, frame_idx, seq, order_idx, fragment, body })
    }
}

proof fn lemma_header_byte(rel: Reliability, fragmented: bool)
    ensures
        ({
            let header = (rel.spec_to_u8() * 32 + if fragmented { 16u8 } else { 0u8 }) as u8;
            &&& (header / 32) as u8 == rel.spec_to_u8()
            &&& ((header / 16) % 2 == 1) == fragmented
            &&& reliability_of(rel.spec_to_u8()) == Some(rel)
        }),
{
}

proof fn lemma_index_field(s: Seq<u8>, k: int, v: u32)
    requires
        0 <= k,
        k + 3 <= s.len(),
        s.subrange(k, k + 3) == le24_bytes(v as nat),
        v < 0x1000000,
    ensures
        le24_value(s.skip(k)) as u32 == v,
{
    lemma_le24_round_trip(v as nat);
    let t = s.skip(k);
    assert(t[0] == s.subrange(k, k + 3)[0]);
    assert(t[1] == s.subrange(k, k + 3)[1]);
    assert(t[2] == s.subrange(k, k + 3)[2]);
}

proof fn lemma_bits_length(s: Seq<u8>, len: nat)
    requires
        len * 8 <= 0xFFFF,
        s =~= be_bytes(len * 8, 2),
    ensures
        be_value(s) / 8 == len,
{
    reveal_with_fuel(pow256, 3);
    lemma_be_round_trip(len * 8, 2);
    assert(be_value(s) / 8 == len) by (nonlinear_arith)
        requires
            be_value(s) == len * 8,
    ;
}

/// A well formed frame read back from its encoding is the same frame, and takes exactly its
/// encoding.
#[verifier::rlimit(100)]
pub proof fn lemma_frame_round_trip(f: FrameV, rest: Seq<u8>)
    requires
        frame_wf(f),
    ensures
        frame_parse(frame_bytes(f) + rest) == Ok::<(FrameV, nat), MessageError>(
            (f, frame_bytes(f).len()),
        ),
{
    let rel = f.reliability;
    let len = f.body.len();
    let a = opt_u24(rel.spec_is_reliable(), f.frame_idx);
    let b = opt_u24(rel.spec_is_sequenced(), f.seq);
    let c = if rel.spec_is_ordered() {
        le24_bytes(f.order_idx as nat).push(0)
    } else {
        Seq::empty()
    };
    let fb = frame_fragment_bytes(f);
    let hb = frame_head(f);
    let s = frame_bytes(f) + rest;
    assert(frame_indices(f) == a + b + c);
    assert(s =~= hb + a + b + c + fb + f.body + rest);
    lemma_header_byte(rel, f.fragment is Some);
    assert((len * 8) % 0x10000 == len * 8);
    lemma_be_bytes_len(len * 8, 2);
    assert(hb.subrange(1, 3) =~= be_bytes(len * 8, 2));
    assert(s.subrange(1, 3) =~= hb.subrange(1, 3));
    lemma_bits_length(s.subrange(1, 3), len);
    let k1: int = 3;
    let k2: int = k1 + a.len();
    let k3: int = k2 + b.len();
    let k4: int = k3 + c.len();
    let k5: int = k4 + fb.len();
    if rel.spec_is_reliable() {
        assert(s.subrange(k1, k1 + 3) =~= le24_bytes(f.frame_idx as nat));
        lemma_index_field(s, k1, f.frame_idx);
    }
    if rel.spec_is_sequenced() {
        assert(s.subrange(k2, k2 + 3) =~= le24_bytes(f.seq as nat));
        lemma_index_field(s, k2, f.seq);
    }
    if rel.spec_is_ordered() {
        assert(s.subrange(k3, k3 + 3) =~= le24_bytes(f.order_idx as nat));
        lemma_index_field(s, k3, f.order_idx);
    }
    if let Some(fr) = f.fragment {
        reveal_with_fuel(pow256, 5);
        lemma_be_round_trip(fr.count as nat, 4);
        lemma_be_round_trip(fr.id as nat, 2);
        lemma_be_round_trip(fr.index as nat, 4);
        assert(s.subrange(k4, k4 + 4) =~= be_bytes(fr.count as nat, 4));
        assert(s.subrange(k4 + 4, k4 + 6) =~= be_bytes(fr.id as nat, 2));
        assert(s.subrange(k4 + 6, k4 + 10) =~= be_bytes(fr.index as nat, 4));
    }
    assert(s.subrange(k5, k5 + len) =~= f.body);
    assert(frame_bytes(f).len() == k5 + len);
}

} // verus!
