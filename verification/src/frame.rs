//! The frame model: the tagged-union value type carried across the wire.
//!
//! Every frame on the wire starts with exactly one tag byte; the body layout
//! is uniquely determined by the tag.  Tag values 0, 10 and 13 are reserved
//! so that a peer accidentally sending line-terminated text can be told apart
//! from a valid frame.

use vstd::prelude::*;

verus! {

/// Identity of a peer, 128 bits.
pub type Pid = u128;

/// Identity of a logical substream multiplexed over one connection.
pub type Sid = u64;

/// Identity of one logical application message sent over a stream.
pub type Mid = u64;

/// Tag byte of a `Handshake` frame.
pub const FRAME_HANDSHAKE: u8 = 1;

/// Tag byte of a `ParticipantId` frame.
pub const FRAME_PARTICIPANT_ID: u8 = 2;

/// Tag byte of a `Shutdown` frame.
pub const FRAME_SHUTDOWN: u8 = 3;

/// Tag byte of an `OpenStream` frame.
pub const FRAME_OPEN_STREAM: u8 = 4;

/// Tag byte of a `CloseStream` frame.
pub const FRAME_CLOSE_STREAM: u8 = 5;

/// Tag byte of a `DataHeader` frame.
pub const FRAME_DATA_HEADER: u8 = 6;

/// Tag byte of a `Data` frame.
pub const FRAME_DATA: u8 = 7;

/// Tag byte of a `Raw` frame.
pub const FRAME_RAW: u8 = 8;

/// Longest payload a `Data` or `Raw` frame can carry: the on-wire length
/// prefix is a `u16`.
pub const MAX_PAYLOAD: usize = 65535;

/// The smallest self-describing unit on the wire: a tag plus a
/// variant-determined body.
///
/// All multi-byte integer fields are little-endian on the wire; the single
/// tag byte precedes the body.
#[derive(Clone, Debug, PartialEq, Eq)]
pub enum Frame {
    /// Connection opener: 7 opaque magic bytes and a three-part version.
    Handshake { magic_number: [u8; 7], version: [u32; 3] },
    /// Announces the 128-bit identity of the sending peer.
    ParticipantId { pid: Pid },
    /// Orderly close of the connection.
    Shutdown,
    /// Opens the substream `sid` with a priority hint and a bit set of
    /// negotiated guarantees; both are opaque to the codec.
    OpenStream { sid: Sid, prio: u8, promises: u8 },
    /// Closes the substream `sid`.
    CloseStream { sid: Sid },
    /// Announces a logical message of `length` payload bytes on stream
    /// `sid`; the following `Data` frames with the same `mid` carry it.
    DataHeader { mid: Mid, sid: Sid, length: u64 },
    /// One fragment of the message `mid`, starting at byte offset `start`.
    Data { mid: Mid, start: u64, data: Vec<u8> },
    /// Escape hatch: a pass-through payload, or malformed input surfaced by
    /// the decoder.
    Raw(Vec<u8>),
}

/// The mathematical shape of a [`Frame`]: the same variants with sequences
/// in place of vectors and arrays.  Contracts and lemmas speak of this type.
#[verifier::ext_equal]
pub enum FrameModel {
    Handshake { magic_number: Seq<u8>, version: Seq<u32> },
    ParticipantId { pid: Pid },
    Shutdown,
    OpenStream { sid: Sid, prio: u8, promises: u8 },
    CloseStream { sid: Sid },
    DataHeader { mid: Mid, sid: Sid, length: u64 },
    Data { mid: Mid, start: u64, data: Seq<u8> },
    Raw(Seq<u8>),
}

impl View for Frame {
    type V = FrameModel;

    open spec fn view(&self) -> FrameModel {
        match self {
            Frame::Handshake { magic_number, version } => FrameModel::Handshake {
                magic_number: magic_number@,
                version: version@,
            },
            Frame::ParticipantId { pid } => FrameModel::ParticipantId { pid: *pid },
            Frame::Shutdown => FrameModel::Shutdown,
            Frame::OpenStream { sid, prio, promises } => FrameModel::OpenStream {
                sid: *sid,
                prio: *prio,
                promises: *promises,
            },
            Frame::CloseStream { sid } => FrameModel::CloseStream { sid: *sid },
            Frame::DataHeader { mid, sid, length } => FrameModel::DataHeader {
                mid: *mid,
                sid: *sid,
                length: *length,
            },
            Frame::Data { mid, start, data } => FrameModel::Data {
                mid: *mid,
                start: *start,
                data: data@,
            },
            Frame::Raw(data) => FrameModel::Raw(data@),
        }
    }
}

impl FrameModel {
    /// A frame that can stand on the wire: fixed-size fields have their
    /// declared sizes and a variable payload fits its `u16` length prefix.
    pub open spec fn wf(self) -> bool {
        match self {
            FrameModel::Handshake { magic_number, version } => {
                magic_number.len() == 7 && version.len() == 3
            },
            FrameModel::Data { mid, start, data } => data.len() <= MAX_PAYLOAD,
            FrameModel::Raw(data) => data.len() <= MAX_PAYLOAD,
            _ => true,
        }
    }
}

impl Frame {
    /// Whether this frame can be encoded: a variable payload no longer than
    /// [`MAX_PAYLOAD`] bytes.  Fixed-size fields always fit.
    pub fn is_wf(&self) -> (r: bool)
        ensures
            r == self@.wf(),
    {
        match self {
            Frame::Data { mid: _, start: _, data } => data.len() <= MAX_PAYLOAD,
            Frame::Raw(data) => data.len() <= MAX_PAYLOAD,
            _ => true,
        }
    }
}

} // verus!
