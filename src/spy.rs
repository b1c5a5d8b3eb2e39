//! Looking into datagrams for a disconnect notification.
use vstd::prelude::*;

use crate::frame::{frame_bytes, frame_parse, frame_wf, lemma_frame_round_trip, Frame, FrameV};
use crate::message::{lift, MessageError};
use crate::wire::{BufError, ReadBuf};

verus! {

/// Identifier of a game packet, which stays opaque.
pub const GAME_PACKET_HEADER: u8 = 0xFE;

/// Identifier of a disconnect notification.
pub const DISCONNECT_NOTIFICATION: u8 = 0x15;

/// Result of spying into a datagram.
#[derive(Clone, Copy, Debug, PartialEq, Eq, Structural)]
pub enum SpyDatagramResult {
    /// Nothing that needs attention.
    Ignore,
    /// The datagram holds a disconnect notification.
    Disconnect,
}

/// Scanning the frames of `s`, first to last, for a disconnect notification.
pub open spec fn spy_frames(s: Seq<u8>) -> Result<SpyDatagramResult, MessageError>
    decreases s.len(),
{
    if s.len() == 0 {
        Ok(SpyDatagramResult::Ignore)
    } else {
        match frame_parse(s) {
            Err(e) => Err(e),
            Ok((f, n)) => if f.fragment is None && f.body.len() > 0 && f.body[0]
                != GAME_PACKET_HEADER && f.body[0] == DISCONNECT_NOTIFICATION {
                Ok(SpyDatagramResult::Disconnect)
            } else if 0 < n <= s.len() {
                spy_frames(s.skip(n as int))
            } else {
                Ok(SpyDatagramResult::Ignore)
            },
        }
    }
}

/// Spying into a datagram: a flags byte, a three-byte sequence number, then frames.
pub open spec fn spy_spec(s: Seq<u8>) -> Result<SpyDatagramResult, MessageError> {
    if s.len() < 4 {
        Err(MessageError::BufError(BufError::NotEnoughData))
    } else {
        spy_frames(s.skip(4))
    }
}

/// Looks for a disconnect notification among the frames of a datagram.
///
/// Only non-fragmented frames are read, as a disconnect notification is never split; game
/// packets are skipped. A frame that cannot be read ends the scan with its error.
pub fn spy_datagram(data: &Vec<u8>) -> (r: Result<SpyDatagramResult, MessageError>)
    ensures
        r == spy_spec(data@),
{
    let mut buf = ReadBuf::new(data.clone());
    // header flags
    let _ = lift(buf.read_u8())?;
    // sequence number
    let _ = lift(buf.read_u24())?;
    assert(buf@ =~= data@.skip(4));
    while buf.has_remaining()
        invariant
            spy_spec(data@) == spy_frames(buf@),
        decreases buf@.len(),
    {
        let ghost before = buf@;
        let frame = Frame::deserialize(&mut buf)?;
        if frame.fragment.is_some() || frame.body.len() == 0 {
            continue;
        }
        if frame.body[0] == GAME_PACKET_HEADER {
            continue;
        }
        if frame.body[0] == DISCONNECT_NOTIFICATION {
            return Ok(SpyDatagramResult::Disconnect);
        }
    }
    Ok(SpyDatagramResult::Ignore)
}

/// Whether a frame is one that the spy skips: a fragment, or a game packet.
pub open spec fn skipped(f: FrameV) -> bool {
    f.fragment is Some || (f.body.len() > 0 && f.body[0] == GAME_PACKET_HEADER)
}

/// Whether `s` reads as a run of frames that the spy skips, to its end.
pub open spec fn only_skipped_frames(s: Seq<u8>) -> bool
    decreases s.len(),
{
    if s.len() == 0 {
        true
    } else {
        match frame_parse(s) {
            Ok((f, n)) => 0 < n <= s.len() && skipped(f) && only_skipped_frames(s.skip(n as int)),
            Err(_) => false,
        }
    }
}

/// A datagram whose frames are a single non-fragmented frame with a body that starts with a
/// disconnect notification is reported as a disconnect.
pub proof fn lemma_single_disconnect_frame(header: Seq<u8>, s: Seq<u8>, f: FrameV)
    requires
        header.len() == 4,
        frame_parse(s) == Ok::<(FrameV, nat), MessageError>((f, s.len())),
        f.fragment is None,
        f.body.len() > 0,
        f.body[0] == DISCONNECT_NOTIFICATION,
    ensures
        spy_spec(header + s) == Ok::<SpyDatagramResult, MessageError>(SpyDatagramResult::Disconnect),
{
    assert((header + s).skip(4) =~= s);
    assert(s.len() > 0);
}

/// A datagram whose only frames are fragments or game packets is ignored.
pub proof fn lemma_only_skipped_frames(header: Seq<u8>, s: Seq<u8>)
    requires
        header.len() == 4,
        only_skipped_frames(s),
    ensures
        spy_spec(header + s) == Ok::<SpyDatagramResult, MessageError>(SpyDatagramResult::Ignore),
{
    assert((header + s).skip(4) =~= s);
    lemma_skipped_frames_ignored(s);
}

proof fn lemma_skipped_frames_ignored(s: Seq<u8>)
    requires
        only_skipped_frames(s),
    ensures
        spy_frames(s) == Ok::<SpyDatagramResult, MessageError>(SpyDatagramResult::Ignore),
    decreases s.len(),
{
    if s.len() > 0 {
        let (f, n) = frame_parse(s)->Ok_0;
        lemma_skipped_frames_ignored(s.skip(n as int));
    }
}

/// A malformed datagram, one whose frames cannot all be read, is reported as an error.
pub proof fn lemma_malformed_is_error(header: Seq<u8>, s: Seq<u8>)
    requires
        header.len() == 4,
        s.len() > 0,
        frame_parse(s) is Err,
    ensures
        spy_spec(header + s) is Err,
{
    assert((header + s).skip(4) =~= s);
}

/// Encoding of frames, one after the other.
pub open spec fn frames_bytes(fs: Seq<FrameV>) -> Seq<u8>
    decreases fs.len(),
{
    if fs.len() == 0 {
        Seq::empty()
    } else {
        frame_bytes(fs[0]) + frames_bytes(fs.drop_first())
    }
}

/// A datagram made of one well formed non-fragmented frame whose body starts with a disconnect
/// notification is reported as a disconnect.
pub proof fn lemma_disconnect_frame_detected(header: Seq<u8>, f: FrameV)
    requires
        header.len() == 4,
        frame_wf(f),
        f.fragment is None,
        f.body[0] == DISCONNECT_NOTIFICATION,
    ensures
        spy_spec(header + frame_bytes(f)) == Ok::<SpyDatagramResult, MessageError>(
            SpyDatagramResult::Disconnect,
        ),
{
    lemma_frame_round_trip(f, Seq::empty());
    assert(frame_bytes(f) + Seq::<u8>::empty() =~= frame_bytes(f));
    lemma_single_disconnect_frame(header, frame_bytes(f), f);
}

/// A datagram made of well formed frames that are all fragments or game packets is ignored.
pub proof fn lemma_skipped_frames_detected(header: Seq<u8>, fs: Seq<FrameV>)
    requires
        header.len() == 4,
        forall|i: int| 0 <= i < fs.len() ==> frame_wf(#[trigger] fs[i]) && skipped(fs[i]),
    ensures
        spy_spec(header + frames_bytes(fs)) == Ok::<SpyDatagramResult, MessageError>(
            SpyDatagramResult::Ignore,
        ),
{
    lemma_frames_only_skipped(fs);
    lemma_only_skipped_frames(header, frames_bytes(fs));
}

proof fn lemma_frames_only_skipped(fs: Seq<FrameV>)
    requires
        forall|i: int| 0 <= i < fs.len() ==> frame_wf(#[trigger] fs[i]) && skipped(fs[i]),
    ensures
        only_skipped_frames(frames_bytes(fs)),
    decreases fs.len(),
{
    if fs.len() > 0 {
        let rest = fs.drop_first();
        assert forall|i: int| 0 <= i < rest.len() implies frame_wf(#[trigger] rest[i]) && skipped(rest[i]) by {
            assert(rest[i] == fs[i + 1]);
        }
        lemma_frames_only_skipped(rest);
        let f = fs[0];
        assert(frame_wf(f) && skipped(f));
        lemma_frame_round_trip(f, frames_bytes(rest));
        let s = frames_bytes(fs);
        let n = frame_bytes(f).len();
        assert(s.skip(n as int) =~= frames_bytes(rest));
        assert(n >= 3);
    }
}

} // verus!
