//! The frame codec: pure functions that turn one [`Frame`] into bytes and
//! bytes back into one frame, for both transport disciplines.
//!
//! The stream codec works on a growing byte buffer with an offset: a frame is
//! decoded once all of its bytes have arrived, and the caller keeps reading
//! until the peer closes.  The datagram codec works one datagram at a time:
//! one datagram carries exactly one frame, and a malformed datagram is
//! surfaced whole as a [`Frame::Raw`] so that the reader never crashes.

use vstd::prelude::*;
use vstd::bytes::*;
use vstd::slice::{slice_subrange, slice_to_vec};

use crate::frame::{
    Frame, FrameModel, FRAME_CLOSE_STREAM, FRAME_DATA, FRAME_DATA_HEADER, FRAME_HANDSHAKE,
    FRAME_OPEN_STREAM, FRAME_PARTICIPANT_ID, FRAME_RAW, FRAME_SHUTDOWN,
};

verus! {

/// The bytes of one frame on the wire: the tag byte, then the body fields in
/// declared order, multi-byte integers little-endian, variable payloads
/// preceded by their `u16` length.
pub open spec fn frame_bytes(f: FrameModel) -> Seq<u8> {
    match f {
        FrameModel::Handshake { magic_number, version } => seq![FRAME_HANDSHAKE] + magic_number
            + spec_u32_to_le_bytes(version[0]) + spec_u32_to_le_bytes(version[1])
            + spec_u32_to_le_bytes(version[2]),
        FrameModel::ParticipantId { pid } => seq![FRAME_PARTICIPANT_ID]
            + spec_u128_to_le_bytes(pid),
        FrameModel::Shutdown => seq![FRAME_SHUTDOWN],
        FrameModel::OpenStream { sid, prio, promises } => seq![FRAME_OPEN_STREAM]
            + spec_u64_to_le_bytes(sid) + seq![prio, promises],
        FrameModel::CloseStream { sid } => seq![FRAME_CLOSE_STREAM] + spec_u64_to_le_bytes(sid),
        FrameModel::DataHeader { mid, sid, length } => seq![FRAME_DATA_HEADER]
            + spec_u64_to_le_bytes(mid) + spec_u64_to_le_bytes(sid) + spec_u64_to_le_bytes(length),
        FrameModel::Data { mid, start, data } => seq![FRAME_DATA] + spec_u64_to_le_bytes(mid)
            + spec_u64_to_le_bytes(start) + spec_u16_to_le_bytes(data.len() as u16) + data,
        FrameModel::Raw(data) => seq![FRAME_RAW] + spec_u16_to_le_bytes(data.len() as u16) + data,
    }
}

/// Encodes one frame for the stream transport, returning exactly the bytes
/// that belong on the wire.
pub fn encode_frame(frame: &Frame) -> (out: Vec<u8>)
    requires
        frame@.wf(),
    ensures
        out@ == frame_bytes(frame@),
{
    proof {
        lemma_auto_spec_u16_to_from_le_bytes();
        lemma_auto_spec_u32_to_from_le_bytes();
        lemma_auto_spec_u64_to_from_le_bytes();
        lemma_auto_spec_u128_to_from_le_bytes();
    }
    let mut out: Vec<u8> = Vec::new();
    match frame {
        Frame::Handshake { magic_number, version } => {
            out.push(FRAME_HANDSHAKE);
            let mut i: usize = 0;
            while i < 7
                invariant
                    i <= 7,
                    magic_number@.len() == 7,
                    out@ == seq![FRAME_HANDSHAKE] + magic_number@.take(i as int),
                decreases 7 - i,
            {
                out.push(magic_number[i]);
                i = i + 1;
                proof {
                    assert(out@ == seq![FRAME_HANDSHAKE] + magic_number@.take(i as int));
                }
            }
            let mut v0 = u32_to_le_bytes(version[0]);
            out.append(&mut v0);
            let mut v1 = u32_to_le_bytes(version[1]);
            out.append(&mut v1);
            let mut v2 = u32_to_le_bytes(version[2]);
            out.append(&mut v2);
            proof {
                assert(magic_number@.take(7) == magic_number@);
                assert(out@ == frame_bytes(frame@));
            }
        },
        Frame::ParticipantId { pid } => {
            out.push(FRAME_PARTICIPANT_ID);
            let mut b = u128_to_le_bytes(*pid);
            out.append(&mut b);
            proof {
                assert(out@ == frame_bytes(frame@));
            }
        },
        Frame::Shutdown => {
            out.push(FRAME_SHUTDOWN);
            proof {
                assert(out@ == frame_bytes(frame@));
            }
        },
        Frame::OpenStream { sid, prio, promises } => {
            out.push(FRAME_OPEN_STREAM);
            let mut b = u64_to_le_bytes(*sid);
            out.append(&mut b);
            out.push(*prio);
            out.push(*promises);
            proof {
                assert(out@ == frame_bytes(frame@));
            }
        },
        Frame::CloseStream { sid } => {
            out.push(FRAME_CLOSE_STREAM);
            let mut b = u64_to_le_bytes(*sid);
            out.append(&mut b);
            proof {
                assert(out@ == frame_bytes(frame@));
            }
        },
        Frame::DataHeader { mid, sid, length } => {
            out.push(FRAME_DATA_HEADER);
            let mut b = u64_to_le_bytes(*mid);
            out.append(&mut b);
            let mut b = u64_to_le_bytes(*sid);
            out.append(&mut b);
            let mut b = u64_to_le_bytes(*length);
            out.append(&mut b);
            proof {
                assert(out@ == frame_bytes(frame@));
            }
        },
        Frame::Data { mid, start, data } => {
            out.push(FRAME_DATA);
            let mut b = u64_to_le_bytes(*mid);
            out.append(&mut b);
            let mut b = u64_to_le_bytes(*start);
            out.append(&mut b);
            let mut b = u16_to_le_bytes(data.len() as u16);
            out.append(&mut b);
            let ghost header = out@;
            let mut k: usize = 0;
            while k < data.len()
                invariant
                    k <= data@.len(),
                    out@ == header + data@.take(k as int),
                decreases data@.len() - k,
            {
                out.push(data[k]);
                k = k + 1;
                proof {
                    assert(out@ == header + data@.take(k as int));
                }
            }
            proof {
                assert(data@.take(data@.len() as int) == data@);
                assert(out@ == frame_bytes(frame@));
            }
        },
        Frame::Raw(data) => {
            out.push(FRAME_RAW);
            let mut b = u16_to_le_bytes(data.len() as u16);
            out.append(&mut b);
            let ghost header = out@;
            let mut k: usize = 0;
            while k < data.len()
                invariant
                    k <= data@.len(),
                    out@ == header + data@.take(k as int),
                decreases data@.len() - k,
            {
                out.push(data[k]);
                k = k + 1;
                proof {
                    assert(out@ == header + data@.take(k as int));
                }
            }
            proof {
                assert(data@.take(data@.len() as int) == data@);
                assert(out@ == frame_bytes(frame@));
            }
        },
    }
    out
}

/// What one attempt to take a frame off the front of a byte sequence yields,
/// at the mathematical level.
#[verifier::ext_equal]
pub enum DecodeStep {
    /// A whole frame stood at the front; it consumed this many bytes.
    Decoded(FrameModel, int),
    /// The sequence is empty: the clean boundary between frames at which a
    /// peer may close the stream.
    Closed,
    /// A tag has arrived but its body has not: more bytes are needed.  At
    /// end of input this is a truncated frame, fatal to the channel.
    Incomplete,
}

/// The sequence of zero bytes that pads a diagnostic blob.
pub open spec fn zero_bytes(n: nat) -> Seq<u8> {
    Seq::new(n, |i: int| 0u8)
}

/// How many bytes of diagnostic payload follow an unknown tag when `avail`
/// bytes are on hand: up to 256.
pub open spec fn diag_take(avail: int) -> int {
    if avail >= 256 {
        256
    } else {
        avail
    }
}

/// Takes one frame off the front of `bytes`, as the stream reader does.
///
/// The first byte is the tag; the body layout follows from it.  A known tag
/// whose body has not fully arrived yields [`DecodeStep::Incomplete`].  An
/// unknown tag yields one `Raw` frame carrying a 256-byte diagnostic blob:
/// the next `diag_take` bytes, padded with zeroes.  After an unknown tag the
/// stream offset is lost; the blob is a hint to the upper layer, not a
/// resynchronisation.
pub open spec fn spec_decode(bytes: Seq<u8>) -> DecodeStep {
    if bytes.len() == 0 {
        DecodeStep::Closed
    } else {
        let tag = bytes[0];
        if tag == FRAME_HANDSHAKE {
            if bytes.len() >= 20 {
                DecodeStep::Decoded(
                    FrameModel::Handshake {
                        magic_number: bytes.subrange(1, 8),
                        version: seq![
                            spec_u32_from_le_bytes(bytes.subrange(8, 12)),
                            spec_u32_from_le_bytes(bytes.subrange(12, 16)),
                            spec_u32_from_le_bytes(bytes.subrange(16, 20)),
                        ],
                    },
                    20,
                )
            } else {
                DecodeStep::Incomplete
            }
        } else if tag == FRAME_PARTICIPANT_ID {
            if bytes.len() >= 17 {
                DecodeStep::Decoded(
                    FrameModel::ParticipantId {
                        pid: spec_u128_from_le_bytes(bytes.subrange(1, 17)),
                    },
                    17,
                )
            } else {
                DecodeStep::Incomplete
            }
        } else if tag == FRAME_SHUTDOWN {
            DecodeStep::Decoded(FrameModel::Shutdown, 1)
        } else if tag == FRAME_OPEN_STREAM {
            if bytes.len() >= 11 {
                DecodeStep::Decoded(
                    FrameModel::OpenStream {
                        sid: spec_u64_from_le_bytes(bytes.subrange(1, 9)),
                        prio: bytes[9],
                        promises: bytes[10],
                    },
                    11,
                )
            } else {
                DecodeStep::Incomplete
            }
        } else if tag == FRAME_CLOSE_STREAM {
            if bytes.len() >= 9 {
                DecodeStep::Decoded(
                    FrameModel::CloseStream { sid: spec_u64_from_le_bytes(bytes.subrange(1, 9)) },
                    9,
                )
            } else {
                DecodeStep::Incomplete
            }
        } else if tag == FRAME_DATA_HEADER {
            if bytes.len() >= 25 {
                DecodeStep::Decoded(
                    FrameModel::DataHeader {
                        mid: spec_u64_from_le_bytes(bytes.subrange(1, 9)),
                        sid: spec_u64_from_le_bytes(bytes.subrange(9, 17)),
                        length: spec_u64_from_le_bytes(bytes.subrange(17, 25)),
                    },
                    25,
                )
            } else {
                DecodeStep::Incomplete
            }
        } else if tag == FRAME_DATA {
            if bytes.len() >= 19 {
                let length = spec_u16_from_le_bytes(bytes.subrange(17, 19)) as int;
                if bytes.len() >= 19 + length {
                    DecodeStep::Decoded(
                        FrameModel::Data {
                            mid: spec_u64_from_le_bytes(bytes.subrange(1, 9)),
                            start: spec_u64_from_le_bytes(bytes.subrange(9, 17)),
                            data: bytes.subrange(19, 19 + length),
                        },
                        19 + length,
                    )
                } else {
                    DecodeStep::Incomplete
                }
            } else {
                DecodeStep::Incomplete
            }
        } else if tag == FRAME_RAW {
            if bytes.len() >= 3 {
                let length = spec_u16_from_le_bytes(bytes.subrange(1, 3)) as int;
                if bytes.len() >= 3 + length {
                    DecodeStep::Decoded(FrameModel::Raw(bytes.subrange(3, 3 + length)), 3 + length)
                } else {
                    DecodeStep::Incomplete
                }
            } else {
                DecodeStep::Incomplete
            }
        } else {
            let k = diag_take(bytes.len() - 1);
            DecodeStep::Decoded(
                FrameModel::Raw(bytes.subrange(1, 1 + k) + zero_bytes((256 - k) as nat)),
                1 + k,
            )
        }
    }
}

/// What the stream decoder hands back to its caller.
pub enum StreamDecode {
    /// One whole frame stood at offset `start`; the next frame begins at
    /// `next`.
    Decoded { frame: Frame, next: usize },
    /// `start` is the end of the buffer: a clean frame boundary.
    Closed,
    /// A frame has begun but not all of its bytes are in the buffer yet.
    Incomplete,
}

/// Decodes one frame from `buf` at offset `start`, exactly as
/// [`spec_decode`] reads the byte sequence `buf[start..]`.
pub fn decode_stream(buf: &Vec<u8>, start: usize) -> (r: StreamDecode)
    requires
        start <= buf@.len(),
    ensures
        match r {
            StreamDecode::Decoded { frame, next } => {
                &&& start < next <= buf@.len()
                &&& spec_decode(buf@.skip(start as int)) == DecodeStep::Decoded(
                    frame@,
                    next - start,
                )
            },
            StreamDecode::Closed => spec_decode(buf@.skip(start as int)) == DecodeStep::Closed,
            StreamDecode::Incomplete => spec_decode(buf@.skip(start as int))
                == DecodeStep::Incomplete,
        },
{
    let ghost bytes = buf@.skip(start as int);
    let rem = buf.len() - start;
    if rem == 0 {
        return StreamDecode::Closed;
    }
    let tag = buf[start];
    assert(tag == bytes[0]);
    if tag == FRAME_HANDSHAKE {
        if rem >= 20 {
            let magic_number: [u8; 7] = [
                buf[start + 1],
                buf[start + 2],
                buf[start + 3],
                buf[start + 4],
                buf[start + 5],
                buf[start + 6],
                buf[start + 7],
            ];
            let version: [u32; 3] = [
                u32_from_le_bytes(slice_subrange(buf.as_slice(), start + 8, start + 12)),
                u32_from_le_bytes(slice_subrange(buf.as_slice(), start + 12, start + 16)),
                u32_from_le_bytes(slice_subrange(buf.as_slice(), start + 16, start + 20)),
            ];
            let frame = Frame::Handshake { magic_number, version };
            proof {
                assert(magic_number@ =~= bytes.subrange(1, 8));
                assert(buf@.subrange(start + 8, start + 12) =~= bytes.subrange(8, 12));
                assert(buf@.subrange(start + 12, start + 16) =~= bytes.subrange(12, 16));
                assert(buf@.subrange(start + 16, start + 20) =~= bytes.subrange(16, 20));
                assert(version@ =~= seq![
                    spec_u32_from_le_bytes(bytes.subrange(8, 12)),
                    spec_u32_from_le_bytes(bytes.subrange(12, 16)),
                    spec_u32_from_le_bytes(bytes.subrange(16, 20)),
                ]);
            }
            StreamDecode::Decoded { frame, next: start + 20 }
        } else {
            StreamDecode::Incomplete
        }
    } else if tag == FRAME_PARTICIPANT_ID {
        if rem >= 17 {
            let pid = u128_from_le_bytes(slice_subrange(buf.as_slice(), start + 1, start + 17));
            proof {
                assert(buf@.subrange(start + 1, start + 17) =~= bytes.subrange(1, 17));
            }
            StreamDecode::Decoded { frame: Frame::ParticipantId { pid }, next: start + 17 }
        } else {
            StreamDecode::Incomplete
        }
    } else if tag == FRAME_SHUTDOWN {
        StreamDecode::Decoded { frame: Frame::Shutdown, next: start + 1 }
    } else if tag == FRAME_OPEN_STREAM {
        if rem >= 11 {
            let sid = u64_from_le_bytes(slice_subrange(buf.as_slice(), start + 1, start + 9));
            let prio = buf[start + 9];
            let promises = buf[start + 10];
            proof {
                assert(buf@.subrange(start + 1, start + 9) =~= bytes.subrange(1, 9));
                assert(prio == bytes[9] && promises == bytes[10]);
            }
            StreamDecode::Decoded {
                frame: Frame::OpenStream { sid, prio, promises },
                next: start + 11,
            }
        } else {
            StreamDecode::Incomplete
        }
    } else if tag == FRAME_CLOSE_STREAM {
        if rem >= 9 {
            let sid = u64_from_le_bytes(slice_subrange(buf.as_slice(), start + 1, start + 9));
            proof {
                assert(buf@.subrange(start + 1, start + 9) =~= bytes.subrange(1, 9));
            }
            StreamDecode::Decoded { frame: Frame::CloseStream { sid }, next: start + 9 }
        } else {
            StreamDecode::Incomplete
        }
    } else if tag == FRAME_DATA_HEADER {
        if rem >= 25 {
            let mid = u64_from_le_bytes(slice_subrange(buf.as_slice(), start + 1, start + 9));
            let sid = u64_from_le_bytes(slice_subrange(buf.as_slice(), start + 9, start + 17));
            let length = u64_from_le_bytes(slice_subrange(buf.as_slice(), start + 17, start + 25));
            proof {
                assert(buf@.subrange(start + 1, start + 9) =~= bytes.subrange(1, 9));
                assert(buf@.subrange(start + 9, start + 17) =~= bytes.subrange(9, 17));
                assert(buf@.subrange(start + 17, start + 25) =~= bytes.subrange(17, 25));
            }
            StreamDecode::Decoded {
                frame: Frame::DataHeader { mid, sid, length },
                next: start + 25,
            }
        } else {
            StreamDecode::Incomplete
        }
    } else if tag == FRAME_DATA {
        if rem >= 19 {
            let length = u16_from_le_bytes(
                slice_subrange(buf.as_slice(), start + 17, start + 19),
            ) as usize;
            proof {
                assert(buf@.subrange(start + 17, start + 19) =~= bytes.subrange(17, 19));
            }
            if rem >= 19 + length {
                let mid = u64_from_le_bytes(slice_subrange(buf.as_slice(), start + 1, start + 9));
                let start_field = u64_from_le_bytes(
                    slice_subrange(buf.as_slice(), start + 9, start + 17),
                );
                let data = slice_to_vec(
                    slice_subrange(buf.as_slice(), start + 19, start + 19 + length),
                );
                proof {
                    assert(buf@.subrange(start + 1, start + 9) =~= bytes.subrange(1, 9));
                    assert(buf@.subrange(start + 9, start + 17) =~= bytes.subrange(9, 17));
                    assert(buf@.subrange(start + 19, start + 19 + length) =~= bytes.subrange(
                        19,
                        19 + length,
                    ));
                }
                StreamDecode::Decoded {
                    frame: Frame::Data { mid, start: start_field, data },
                    next: start + 19 + length,
                }
            } else {
                StreamDecode::Incomplete
            }
        } else {
            StreamDecode::Incomplete
        }
    } else if tag == FRAME_RAW {
        if rem >= 3 {
            let length = u16_from_le_bytes(
                slice_subrange(buf.as_slice(), start + 1, start + 3),
            ) as usize;
            proof {
                assert(buf@.subrange(start + 1, start + 3) =~= bytes.subrange(1, 3));
            }
            if rem >= 3 + length {
                let data = slice_to_vec(
                    slice_subrange(buf.as_slice(), start + 3, start + 3 + length),
                );
                proof {
                    assert(buf@.subrange(start + 3, start + 3 + length) =~= bytes.subrange(
                        3,
                        3 + length,
                    ));
                }
                StreamDecode::Decoded { frame: Frame::Raw(data), next: start + 3 + length }
            } else {
                StreamDecode::Incomplete
            }
        } else {
            StreamDecode::Incomplete
        }
    } else {
        let avail = rem - 1;
        let k = if avail >= 256 {
            256
        } else {
            avail
        };
        let mut data = slice_to_vec(slice_subrange(buf.as_slice(), start + 1, start + 1 + k));
        proof {
            assert(buf@.subrange(start + 1, start + 1 + k) =~= bytes.subrange(1, 1 + k));
        }
        let ghost blob = data@;
        while data.len() < 256
            invariant
                blob.len() == k <= 256,
                blob.len() <= data@.len() <= 256,
                data@ == blob + zero_bytes((data@.len() - blob.len()) as nat),
            decreases 256 - data@.len(),
        {
            data.push(0u8);
            proof {
                assert(data@ =~= blob + zero_bytes((data@.len() - blob.len()) as nat));
            }
        }
        proof {
            assert(data@ == bytes.subrange(1, 1 + diag_take(bytes.len() - 1)) + zero_bytes(
                (256 - diag_take(bytes.len() - 1)) as nat,
            ));
        }
        StreamDecode::Decoded { frame: Frame::Raw(data), next: start + 1 + k }
    }
}

/// Reads the one frame that a whole datagram carries.
///
/// One datagram holds exactly one frame; there is no continuation across
/// datagrams.  The tag is byte 0.  A fixed-size body is sliced out exactly,
/// and trailing slack is dropped.  A `Data` or `Raw` body must fill the rest
/// of the datagram exactly: its length prefix must equal the remaining byte
/// count.  Any datagram that fails its tag's shape — too short, a mismatched
/// length prefix, an unknown tag, or no bytes at all — comes back whole as a
/// `Raw` frame, the corrupt-frame signal that lets the reader continue.
pub open spec fn spec_decode_datagram(bytes: Seq<u8>) -> FrameModel {
    if bytes.len() == 0 {
        FrameModel::Raw(bytes)
    } else {
        let tag = bytes[0];
        if tag == FRAME_HANDSHAKE {
            if bytes.len() >= 20 {
                FrameModel::Handshake {
                    magic_number: bytes.subrange(1, 8),
                    version: seq![
                        spec_u32_from_le_bytes(bytes.subrange(8, 12)),
                        spec_u32_from_le_bytes(bytes.subrange(12, 16)),
                        spec_u32_from_le_bytes(bytes.subrange(16, 20)),
                    ],
                }
            } else {
                FrameModel::Raw(bytes)
            }
        } else if tag == FRAME_PARTICIPANT_ID {
            if bytes.len() >= 17 {
                FrameModel::ParticipantId { pid: spec_u128_from_le_bytes(bytes.subrange(1, 17)) }
            } else {
                FrameModel::Raw(bytes)
            }
        } else if tag == FRAME_SHUTDOWN {
            FrameModel::Shutdown
        } else if tag == FRAME_OPEN_STREAM {
            if bytes.len() >= 11 {
                FrameModel::OpenStream {
                    sid: spec_u64_from_le_bytes(bytes.subrange(1, 9)),
                    prio: bytes[9],
                    promises: bytes[10],
                }
            } else {
                FrameModel::Raw(bytes)
            }
        } else if tag == FRAME_CLOSE_STREAM {
            if bytes.len() >= 9 {
                FrameModel::CloseStream { sid: spec_u64_from_le_bytes(bytes.subrange(1, 9)) }
            } else {
                FrameModel::Raw(bytes)
            }
        } else if tag == FRAME_DATA_HEADER {
            if bytes.len() >= 25 {
                FrameModel::DataHeader {
                    mid: spec_u64_from_le_bytes(bytes.subrange(1, 9)),
                    sid: spec_u64_from_le_bytes(bytes.subrange(9, 17)),
                    length: spec_u64_from_le_bytes(bytes.subrange(17, 25)),
                }
            } else {
                FrameModel::Raw(bytes)
            }
        } else if tag == FRAME_DATA {
            if bytes.len() >= 19 && spec_u16_from_le_bytes(bytes.subrange(17, 19)) == bytes.len()
                - 19 {
                FrameModel::Data {
                    mid: spec_u64_from_le_bytes(bytes.subrange(1, 9)),
                    start: spec_u64_from_le_bytes(bytes.subrange(9, 17)),
                    data: bytes.skip(19),
                }
            } else {
                FrameModel::Raw(bytes)
            }
        } else if tag == FRAME_RAW {
            if bytes.len() >= 3 && spec_u16_from_le_bytes(bytes.subrange(1, 3)) == bytes.len()
                - 3 {
                FrameModel::Raw(bytes.skip(3))
            } else {
                FrameModel::Raw(bytes)
            }
        } else {
            FrameModel::Raw(bytes)
        }
    }
}

/// Decodes the one frame carried by a whole datagram, exactly as
/// [`spec_decode_datagram`] reads it.  Never fails: a malformed datagram
/// comes back whole as a `Raw` frame.
pub fn decode_datagram(datagram: &Vec<u8>) -> (frame: Frame)
    ensures
        frame@ == spec_decode_datagram(datagram@),
{
    let ghost bytes = datagram@;
    let n = datagram.len();
    if n == 0 {
        return Frame::Raw(Vec::new());
    }
    let tag = datagram[0];
    if tag == FRAME_HANDSHAKE && n >= 20 {
        let magic_number: [u8; 7] = [
            datagram[1],
            datagram[2],
            datagram[3],
            datagram[4],
            datagram[5],
            datagram[6],
            datagram[7],
        ];
        let version: [u32; 3] = [
            u32_from_le_bytes(slice_subrange(datagram.as_slice(), 8, 12)),
            u32_from_le_bytes(slice_subrange(datagram.as_slice(), 12, 16)),
            u32_from_le_bytes(slice_subrange(datagram.as_slice(), 16, 20)),
        ];
        proof {
            assert(magic_number@ =~= bytes.subrange(1, 8));
            assert(version@ =~= seq![
                spec_u32_from_le_bytes(bytes.subrange(8, 12)),
                spec_u32_from_le_bytes(bytes.subrange(12, 16)),
                spec_u32_from_le_bytes(bytes.subrange(16, 20)),
            ]);
        }
        Frame::Handshake { magic_number, version }
    } else if tag == FRAME_PARTICIPANT_ID && n >= 17 {
        let pid = u128_from_le_bytes(slice_subrange(datagram.as_slice(), 1, 17));
        Frame::ParticipantId { pid }
    } else if tag == FRAME_SHUTDOWN {
        Frame::Shutdown
    } else if tag == FRAME_OPEN_STREAM && n >= 11 {
        let sid = u64_from_le_bytes(slice_subrange(datagram.as_slice(), 1, 9));
        Frame::OpenStream { sid, prio: datagram[9], promises: datagram[10] }
    } else if tag == FRAME_CLOSE_STREAM && n >= 9 {
        let sid = u64_from_le_bytes(slice_subrange(datagram.as_slice(), 1, 9));
        Frame::CloseStream { sid }
    } else if tag == FRAME_DATA_HEADER && n >= 25 {
        let mid = u64_from_le_bytes(slice_subrange(datagram.as_slice(), 1, 9));
        let sid = u64_from_le_bytes(slice_subrange(datagram.as_slice(), 9, 17));
        let length = u64_from_le_bytes(slice_subrange(datagram.as_slice(), 17, 25));
        Frame::DataHeader { mid, sid, length }
    } else if tag == FRAME_DATA && n >= 19 && u16_from_le_bytes(
        slice_subrange(datagram.as_slice(), 17, 19),
    ) as usize == n - 19 {
        let mid = u64_from_le_bytes(slice_subrange(datagram.as_slice(), 1, 9));
        let start = u64_from_le_bytes(slice_subrange(datagram.as_slice(), 9, 17));
        let data = slice_to_vec(slice_subrange(datagram.as_slice(), 19, n));
        proof {
            assert(data@ =~= bytes.skip(19));
        }
        Frame::Data { mid, start, data }
    } else if tag == FRAME_RAW && n >= 3 && u16_from_le_bytes(
        slice_subrange(datagram.as_slice(), 1, 3),
    ) as usize == n - 3 {
        let data = slice_to_vec(slice_subrange(datagram.as_slice(), 3, n));
        proof {
            assert(data@ =~= bytes.skip(3));
        }
        Frame::Raw(data)
    } else {
        let data = slice_to_vec(datagram.as_slice());
        Frame::Raw(data)
    }
}

/// Encodes one frame into the reusable scratch buffer of the datagram
/// writer and returns the exact number of bytes produced, or `None` when the
/// encoded frame would not fit the buffer.  An oversized frame is refused at
/// this boundary — never sent truncated — because the receiving side assumes
/// one whole frame per datagram.  The buffer keeps its length; bytes past
/// the encoded frame keep their old values.
pub fn encode_datagram(frame: &Frame, buffer: &mut Vec<u8>) -> (r: Option<usize>)
    requires
        frame@.wf(),
    ensures
        final(buffer)@.len() == old(buffer)@.len(),
        match r {
            Some(len) => {
                &&& len == frame_bytes(frame@).len()
                &&& len <= old(buffer)@.len()
                &&& final(buffer)@.subrange(0, len as int) == frame_bytes(frame@)
                &&& final(buffer)@.skip(len as int) == old(buffer)@.skip(len as int)
            },
            None => {
                &&& frame_bytes(frame@).len() > old(buffer)@.len()
                &&& final(buffer)@ == old(buffer)@
            },
        },
{
    let enc = encode_frame(frame);
    let len = enc.len();
    if len > buffer.len() {
        return None;
    }
    let ghost buf0 = buffer@;
    let mut i: usize = 0;
    while i < len
        invariant
            i <= len == enc@.len() <= buf0.len(),
            buffer@.len() == buf0.len(),
            buffer@ == enc@.take(i as int) + buf0.skip(i as int),
        decreases len - i,
    {
        buffer[i] = enc[i];
        i = i + 1;
        proof {
            assert(buffer@ =~= enc@.take(i as int) + buf0.skip(i as int));
        }
    }
    proof {
        assert(buffer@.subrange(0, len as int) =~= enc@);
        assert(buffer@.skip(len as int) =~= buf0.skip(len as int));
    }
    Some(len)
}

/// Serialises a sequence of frames back to back, as the stream writer
/// puts its emission order on the wire.
pub fn encode_frames(frames: &Vec<Frame>) -> (out: Vec<u8>)
    requires
        forall|i: int| 0 <= i < frames@.len() ==> (#[trigger] frames@[i])@.wf(),
    ensures
        out@ == frames_bytes(frames@.map_values(|f: Frame| f@)),
{
    let ghost models = frames@.map_values(|f: Frame| f@);
    let mut out: Vec<u8> = Vec::new();
    let mut i: usize = 0;
    proof {
        assert(models.skip(0) =~= models);
        assert(Seq::<u8>::empty() + frames_bytes(models) =~= frames_bytes(models));
    }
    while i < frames.len()
        invariant
            i <= frames@.len(),
            models == frames@.map_values(|f: Frame| f@),
            forall|j: int| 0 <= j < frames@.len() ==> (#[trigger] frames@[j])@.wf(),
            out@ + frames_bytes(models.skip(i as int)) == frames_bytes(models),
        decreases frames@.len() - i,
    {
        let mut enc = encode_frame(&frames[i]);
        proof {
            let tail = models.skip(i as int);
            assert(tail.first() == models[i as int]);
            assert(tail.drop_first() =~= models.skip(i + 1));
            assert(frames_bytes(tail) == frame_bytes(models[i as int]) + frames_bytes(
                models.skip(i + 1),
            ));
            assert((out@ + enc@) + frames_bytes(models.skip(i + 1)) =~= out@ + (enc@
                + frames_bytes(models.skip(i + 1))));
        }
        out.append(&mut enc);
        i = i + 1;
    }
    proof {
        assert(frames_bytes(models.skip(frames@.len() as int)) =~= Seq::<u8>::empty());
        assert(out@ + Seq::<u8>::empty() =~= out@);
    }
    out
}

/// A decoded frame consumes at least one byte and never more than the bytes
/// on hand.
pub proof fn lemma_decode_consumes(bytes: Seq<u8>)
    ensures
        forall|f: FrameModel, n: int|
            spec_decode(bytes) == DecodeStep::Decoded(f, n) ==> 1 <= n <= bytes.len(),
{
}

/// Every frame of the byte sequence, front to back: the frames the stream
/// reader emits when these bytes arrive and the peer then closes.
pub open spec fn spec_decode_all(bytes: Seq<u8>) -> Seq<FrameModel>
    decreases bytes.len(),
{
    match spec_decode(bytes) {
        DecodeStep::Decoded(f, n) => if 1 <= n <= bytes.len() {
            seq![f] + spec_decode_all(bytes.skip(n))
        } else {
            seq![f]
        },
        _ => seq![],
    }
}

/// Whether the byte sequence ends exactly on a frame boundary, so that the
/// stream reader, after emitting every frame, sees a clean close rather
/// than a truncated frame.
pub open spec fn spec_decodes_cleanly(bytes: Seq<u8>) -> bool
    decreases bytes.len(),
{
    match spec_decode(bytes) {
        DecodeStep::Closed => true,
        DecodeStep::Incomplete => false,
        DecodeStep::Decoded(f, n) => if 1 <= n <= bytes.len() {
            spec_decodes_cleanly(bytes.skip(n))
        } else {
            false
        },
    }
}

/// Decodes every frame of a fully received byte history, as the stream read
/// task does, and reports whether the history ended cleanly on a frame
/// boundary.  A `false` flag means the peer broke off inside a frame — a
/// protocol violation that the read task treats as fatal, emitting nothing
/// for the partial tail.
pub fn decode_frames(buf: &Vec<u8>) -> (r: (Vec<Frame>, bool))
    ensures
        r.0@.map_values(|f: Frame| f@) == spec_decode_all(buf@),
        r.1 == spec_decodes_cleanly(buf@),
{
    let mut frames: Vec<Frame> = Vec::new();
    let mut pos: usize = 0;
    proof {
        assert(buf@.skip(0) =~= buf@);
        assert(frames@.map_values(|f: Frame| f@) =~= Seq::<FrameModel>::empty());
        assert(Seq::<FrameModel>::empty() + spec_decode_all(buf@) =~= spec_decode_all(buf@));
    }
    loop
        invariant
            pos <= buf@.len(),
            spec_decode_all(buf@) == frames@.map_values(|f: Frame| f@) + spec_decode_all(
                buf@.skip(pos as int),
            ),
            spec_decodes_cleanly(buf@) == spec_decodes_cleanly(buf@.skip(pos as int)),
        decreases buf@.len() - pos,
    {
        let ghost rest = buf@.skip(pos as int);
        match decode_stream(buf, pos) {
            StreamDecode::Decoded { frame, next } => {
                proof {
                    let n = next - pos;
                    assert(rest.skip(n) =~= buf@.skip(next as int));
                    assert(spec_decode_all(rest) == seq![frame@] + spec_decode_all(
                        buf@.skip(next as int),
                    ));
                    assert(frames@.push(frame).map_values(|f: Frame| f@) =~= frames@.map_values(
                        |f: Frame| f@,
                    ).push(frame@));
                    assert(frames@.map_values(|f: Frame| f@) + seq![frame@] + spec_decode_all(
                        buf@.skip(next as int),
                    ) =~= frames@.map_values(|f: Frame| f@) + (seq![frame@] + spec_decode_all(
                        buf@.skip(next as int),
                    )));
                }
                frames.push(frame);
                pos = next;
            },
            StreamDecode::Closed => {
                proof {
                    assert(spec_decode_all(rest) =~= Seq::<FrameModel>::empty());
                    assert(frames@.map_values(|f: Frame| f@) + Seq::<FrameModel>::empty()
                        =~= frames@.map_values(|f: Frame| f@));
                }
                return (frames, true);
            },
            StreamDecode::Incomplete => {
                proof {
                    assert(spec_decode_all(rest) =~= Seq::<FrameModel>::empty());
                    assert(frames@.map_values(|f: Frame| f@) + Seq::<FrameModel>::empty()
                        =~= frames@.map_values(|f: Frame| f@));
                }
                return (frames, false);
            },
        }
    }
}

/// The number of bytes one frame occupies on the wire: one tag byte plus
/// the fixed body size of its variant, plus the payload for the two
/// length-prefixed variants.
pub open spec fn frame_len(f: FrameModel) -> int {
    match f {
        FrameModel::Handshake { magic_number, version } => 13 + magic_number.len() as int,
        FrameModel::ParticipantId { pid } => 17,
        FrameModel::Shutdown => 1,
        FrameModel::OpenStream { sid, prio, promises } => 11,
        FrameModel::CloseStream { sid } => 9,
        FrameModel::DataHeader { mid, sid, length } => 25,
        FrameModel::Data { mid, start, data } => 19 + data.len() as int,
        FrameModel::Raw(data) => 3 + data.len() as int,
    }
}

/// `frame_bytes` produces exactly `frame_len` bytes, never fewer than one.
pub proof fn lemma_frame_bytes_len(f: FrameModel)
    ensures
        frame_bytes(f).len() == frame_len(f),
        1 <= frame_bytes(f).len(),
{
    lemma_auto_spec_u16_to_from_le_bytes();
    lemma_auto_spec_u32_to_from_le_bytes();
    lemma_auto_spec_u64_to_from_le_bytes();
    lemma_auto_spec_u128_to_from_le_bytes();
}

/// No encoded frame begins with a reserved tag: the wire only ever
/// carries the eight assigned tag bytes, so the reserved values 0, 10 and
/// 13 never appear at a frame boundary.
pub proof fn lemma_no_reserved_tag(f: FrameModel)
    ensures
        FRAME_HANDSHAKE <= frame_bytes(f)[0] <= FRAME_RAW,
{
    lemma_frame_bytes_len(f);
}

/// Round trip on the stream: a frame's own bytes, whatever follows them,
/// decode to exactly that frame and consume exactly its bytes.
pub proof fn lemma_stream_round_trip(f: FrameModel, tail: Seq<u8>)
    requires
        f.wf(),
    ensures
        spec_decode(frame_bytes(f) + tail) == DecodeStep::Decoded(f, frame_bytes(f).len() as int),
{
    lemma_auto_spec_u16_to_from_le_bytes();
    lemma_auto_spec_u32_to_from_le_bytes();
    lemma_auto_spec_u64_to_from_le_bytes();
    lemma_auto_spec_u128_to_from_le_bytes();
    let enc = frame_bytes(f);
    let bytes = enc + tail;
    match f {
        FrameModel::Handshake { magic_number, version } => {
            assert(enc.len() == 20);
            assert(bytes[0] == FRAME_HANDSHAKE);
            assert(bytes.subrange(1, 8) =~= magic_number);
            assert(bytes.subrange(8, 12) =~= spec_u32_to_le_bytes(version[0]));
            assert(bytes.subrange(12, 16) =~= spec_u32_to_le_bytes(version[1]));
            assert(bytes.subrange(16, 20) =~= spec_u32_to_le_bytes(version[2]));
            assert(seq![
                spec_u32_from_le_bytes(bytes.subrange(8, 12)),
                spec_u32_from_le_bytes(bytes.subrange(12, 16)),
                spec_u32_from_le_bytes(bytes.subrange(16, 20)),
            ] =~= version);
        },
        FrameModel::ParticipantId { pid } => {
            assert(enc.len() == 17);
            assert(bytes[0] == FRAME_PARTICIPANT_ID);
            assert(bytes.subrange(1, 17) =~= spec_u128_to_le_bytes(pid));
        },
        FrameModel::Shutdown => {
            assert(bytes[0] == FRAME_SHUTDOWN);
        },
        FrameModel::OpenStream { sid, prio, promises } => {
            assert(enc.len() == 11);
            assert(bytes[0] == FRAME_OPEN_STREAM);
            assert(bytes.subrange(1, 9) =~= spec_u64_to_le_bytes(sid));
            assert(bytes[9] == prio);
            assert(bytes[10] == promises);
        },
        FrameModel::CloseStream { sid } => {
            assert(enc.len() == 9);
            assert(bytes[0] == FRAME_CLOSE_STREAM);
            assert(bytes.subrange(1, 9) =~= spec_u64_to_le_bytes(sid));
        },
        FrameModel::DataHeader { mid, sid, length } => {
            assert(enc.len() == 25);
            assert(bytes[0] == FRAME_DATA_HEADER);
            assert(bytes.subrange(1, 9) =~= spec_u64_to_le_bytes(mid));
            assert(bytes.subrange(9, 17) =~= spec_u64_to_le_bytes(sid));
            assert(bytes.subrange(17, 25) =~= spec_u64_to_le_bytes(length));
        },
        FrameModel::Data { mid, start, data } => {
            assert(enc.len() == 19 + data.len());
            assert(bytes[0] == FRAME_DATA);
            assert(bytes.subrange(1, 9) =~= spec_u64_to_le_bytes(mid));
            assert(bytes.subrange(9, 17) =~= spec_u64_to_le_bytes(start));
            assert(bytes.subrange(17, 19) =~= spec_u16_to_le_bytes(data.len() as u16));
            assert(spec_u16_from_le_bytes(bytes.subrange(17, 19)) == data.len() as u16);
            assert((data.len() as u16) as int == data.len());
            assert(bytes.subrange(19, 19 + data.len() as int) =~= data);
        },
        FrameModel::Raw(data) => {
            assert(enc.len() == 3 + data.len());
            assert(bytes[0] == FRAME_RAW);
            assert(bytes.subrange(1, 3) =~= spec_u16_to_le_bytes(data.len() as u16));
            assert(spec_u16_from_le_bytes(bytes.subrange(1, 3)) == data.len() as u16);
            assert((data.len() as u16) as int == data.len());
            assert(bytes.subrange(3, 3 + data.len() as int) =~= data);
        },
    }
}

/// Round trip on the datagram socket: a frame's own bytes, sent as one
/// datagram, decode back to exactly that frame.
pub proof fn lemma_datagram_round_trip(f: FrameModel)
    requires
        f.wf(),
    ensures
        spec_decode_datagram(frame_bytes(f)) == f,
{
    lemma_auto_spec_u16_to_from_le_bytes();
    lemma_auto_spec_u32_to_from_le_bytes();
    lemma_auto_spec_u64_to_from_le_bytes();
    lemma_auto_spec_u128_to_from_le_bytes();
    let bytes = frame_bytes(f);
    match f {
        FrameModel::Handshake { magic_number, version } => {
            assert(bytes.len() == 20);
            assert(bytes[0] == FRAME_HANDSHAKE);
            assert(bytes.subrange(1, 8) =~= magic_number);
            assert(bytes.subrange(8, 12) =~= spec_u32_to_le_bytes(version[0]));
            assert(bytes.subrange(12, 16) =~= spec_u32_to_le_bytes(version[1]));
            assert(bytes.subrange(16, 20) =~= spec_u32_to_le_bytes(version[2]));
            assert(seq![
                spec_u32_from_le_bytes(bytes.subrange(8, 12)),
                spec_u32_from_le_bytes(bytes.subrange(12, 16)),
                spec_u32_from_le_bytes(bytes.subrange(16, 20)),
            ] =~= version);
        },
        FrameModel::ParticipantId { pid } => {
            assert(bytes.len() == 17);
            assert(bytes[0] == FRAME_PARTICIPANT_ID);
            assert(bytes.subrange(1, 17) =~= spec_u128_to_le_bytes(pid));
        },
        FrameModel::Shutdown => {
            assert(bytes[0] == FRAME_SHUTDOWN);
        },
        FrameModel::OpenStream { sid, prio, promises } => {
            assert(bytes.len() == 11);
            assert(bytes[0] == FRAME_OPEN_STREAM);
            assert(bytes.subrange(1, 9) =~= spec_u64_to_le_bytes(sid));
            assert(bytes[9] == prio);
            assert(bytes[10] == promises);
        },
        FrameModel::CloseStream { sid } => {
            assert(bytes.len() == 9);
            assert(bytes[0] == FRAME_CLOSE_STREAM);
            assert(bytes.subrange(1, 9) =~= spec_u64_to_le_bytes(sid));
        },
        FrameModel::DataHeader { mid, sid, length } => {
            assert(bytes.len() == 25);
            assert(bytes[0] == FRAME_DATA_HEADER);
            assert(bytes.subrange(1, 9) =~= spec_u64_to_le_bytes(mid));
            assert(bytes.subrange(9, 17) =~= spec_u64_to_le_bytes(sid));
            assert(bytes.subrange(17, 25) =~= spec_u64_to_le_bytes(length));
        },
        FrameModel::Data { mid, start, data } => {
            assert(bytes.len() == 19 + data.len());
            assert(bytes[0] == FRAME_DATA);
            assert(bytes.subrange(1, 9) =~= spec_u64_to_le_bytes(mid));
            assert(bytes.subrange(9, 17) =~= spec_u64_to_le_bytes(start));
            assert(bytes.subrange(17, 19) =~= spec_u16_to_le_bytes(data.len() as u16));
            assert(spec_u16_from_le_bytes(bytes.subrange(17, 19)) == data.len() as u16);
            assert((data.len() as u16) as int == data.len());
            assert(bytes.skip(19) =~= data);
        },
        FrameModel::Raw(data) => {
            assert(bytes.len() == 3 + data.len());
            assert(bytes[0] == FRAME_RAW);
            assert(bytes.subrange(1, 3) =~= spec_u16_to_le_bytes(data.len() as u16));
            assert(spec_u16_from_le_bytes(bytes.subrange(1, 3)) == data.len() as u16);
            assert((data.len() as u16) as int == data.len());
            assert(bytes.skip(3) =~= data);
        },
    }
}

/// Encoding is deterministic: any two byte sequences that encode the same
/// frame are equal bit for bit.
pub proof fn lemma_encode_deterministic(f: FrameModel, b1: Seq<u8>, b2: Seq<u8>)
    requires
        b1 == frame_bytes(f),
        b2 == frame_bytes(f),
    ensures
        b1 == b2,
{
}

/// The byte stream that a sequence of frames produces: their encodings,
/// concatenated.
pub open spec fn frames_bytes(fs: Seq<FrameModel>) -> Seq<u8>
    decreases fs.len(),
{
    if fs.len() == 0 {
        Seq::empty()
    } else {
        frame_bytes(fs.first()) + frames_bytes(fs.drop_first())
    }
}

/// A byte stream made by concatenating encoded frames decodes to exactly
/// that sequence of frames, and ends cleanly on a frame boundary.
pub proof fn lemma_stream_decode_concat(fs: Seq<FrameModel>)
    requires
        forall|i: int| 0 <= i < fs.len() ==> #[trigger] fs[i].wf(),
    ensures
        spec_decode_all(frames_bytes(fs)) == fs,
        spec_decodes_cleanly(frames_bytes(fs)),
    decreases fs.len(),
{
    if fs.len() == 0 {
        assert(spec_decode_all(frames_bytes(fs)) =~= fs);
    } else {
        let f = fs.first();
        let rest = fs.drop_first();
        let enc = frame_bytes(f);
        let bytes = frames_bytes(fs);
        lemma_frame_bytes_len(f);
        lemma_stream_round_trip(f, frames_bytes(rest));
        let n = enc.len() as int;
        assert(spec_decode(bytes) == DecodeStep::Decoded(f, n));
        assert(bytes.skip(n) =~= frames_bytes(rest));
        assert(forall|i: int| 0 <= i < rest.len() ==> #[trigger] rest[i].wf());
        lemma_stream_decode_concat(rest);
        assert(spec_decode_all(bytes) == seq![f] + spec_decode_all(bytes.skip(n)));
        assert(seq![f] + rest =~= fs);
    }
}

/// Truncation inside a frame is caught: cutting a valid encoded frame after
/// its tag but before the end of its body leaves bytes from which the
/// stream decoder yields no frame at all.
pub proof fn lemma_truncated_frame(f: FrameModel, n: int)
    requires
        f.wf(),
        1 <= n < frame_bytes(f).len(),
    ensures
        spec_decode(frame_bytes(f).take(n)) == DecodeStep::Incomplete,
{
    lemma_auto_spec_u16_to_from_le_bytes();
    lemma_auto_spec_u32_to_from_le_bytes();
    lemma_auto_spec_u64_to_from_le_bytes();
    lemma_auto_spec_u128_to_from_le_bytes();
    let enc = frame_bytes(f);
    let pre = enc.take(n);
    assert(pre[0] == enc[0]);
    match f {
        FrameModel::Handshake { magic_number, version } => {
            assert(enc.len() == 20);
            assert(pre[0] == FRAME_HANDSHAKE);
        },
        FrameModel::ParticipantId { pid } => {
            assert(enc.len() == 17);
            assert(pre[0] == FRAME_PARTICIPANT_ID);
        },
        FrameModel::Shutdown => {
            assert(enc.len() == 1);
        },
        FrameModel::OpenStream { sid, prio, promises } => {
            assert(enc.len() == 11);
            assert(pre[0] == FRAME_OPEN_STREAM);
        },
        FrameModel::CloseStream { sid } => {
            assert(enc.len() == 9);
            assert(pre[0] == FRAME_CLOSE_STREAM);
        },
        FrameModel::DataHeader { mid, sid, length } => {
            assert(enc.len() == 25);
            assert(pre[0] == FRAME_DATA_HEADER);
        },
        FrameModel::Data { mid, start, data } => {
            assert(enc.len() == 19 + data.len());
            assert(pre[0] == FRAME_DATA);
            if n >= 19 {
                assert(pre.subrange(17, 19) =~= spec_u16_to_le_bytes(data.len() as u16));
                assert(spec_u16_from_le_bytes(pre.subrange(17, 19)) == data.len() as u16);
                assert((data.len() as u16) as int == data.len());
                assert(pre.len() < 19 + data.len());
            }
        },
        FrameModel::Raw(data) => {
            assert(enc.len() == 3 + data.len());
            assert(pre[0] == FRAME_RAW);
            if n >= 3 {
                assert(pre.subrange(1, 3) =~= spec_u16_to_le_bytes(data.len() as u16));
                assert(spec_u16_from_le_bytes(pre.subrange(1, 3)) == data.len() as u16);
                assert((data.len() as u16) as int == data.len());
                assert(pre.len() < 3 + data.len());
            }
        },
    }
}

/// An unknown tag byte on the stream — the reserved values 0, 10 and 13
/// among them — yields exactly one `Raw` frame with a 256-byte diagnostic
/// payload, and consumes at least the tag, so the reader continues.  The
/// stream is misaligned from here on; the frame is a hint to the upper
/// layer, not a recovery.
pub proof fn lemma_unknown_tag_raw(bytes: Seq<u8>)
    requires
        bytes.len() >= 1,
        bytes[0] < FRAME_HANDSHAKE || bytes[0] > FRAME_RAW,
    ensures
        ({
            let k = diag_take(bytes.len() - 1);
            let blob = bytes.subrange(1, 1 + k) + zero_bytes((256 - k) as nat);
            &&& spec_decode(bytes) == DecodeStep::Decoded(FrameModel::Raw(blob), 1 + k)
            &&& blob.len() == 256
            &&& 1 <= 1 + k <= bytes.len()
        }),
{
}

/// The stream reader takes finitely many steps on any byte history: it
/// emits at most one frame per byte and then stops, whether the history
/// ends on a frame boundary or inside a frame.
pub proof fn lemma_reader_steps_bounded(bytes: Seq<u8>)
    ensures
        spec_decode_all(bytes).len() <= bytes.len(),
    decreases bytes.len(),
{
    match spec_decode(bytes) {
        DecodeStep::Decoded(f, n) => {
            if 1 <= n <= bytes.len() {
                lemma_reader_steps_bounded(bytes.skip(n));
            }
        },
        _ => {},
    }
}

} // verus!
