//! Radio frame format:
//!
//! | magic | src | dst | msg_type | payload_len | payload  | CRC |
//! |   2   |  6  |  6  |    1     |      1      | 0..=200  |  2  |
//!
//! The CRC is CRC-16/XMODEM of everything before it, stored little-endian.
use vstd::prelude::*;
use vstd::slice::slice_subrange;

use crate::crc::{crc16_spec, crc16_xmodem, lemma_crc_detects_byte_change};
use crate::{Message, MessageModel, MsgType, TimeOfDay, MAX_PAYLOAD_LEN};

pub mod msg_type;

use self::msg_type::{ACK, MESSAGE, NAV_DATA, NONE, PING, PONG};

verus! {

/// First byte of every frame.
pub const MAGIC_FIRST: u8 = 0xA5;

/// Second byte of every frame.
pub const MAGIC_SECOND: u8 = 0x5A;

/// Bytes before the payload: magic, source, destination, type, payload length.
pub const HEADER_LEN: usize = 16;

/// Bytes of the checksum after the payload.
pub const CRC_LEN: usize = 2;

/// Why a frame was refused.
#[derive(Clone, Copy, Debug, PartialEq, Eq, Structural)]
pub enum DecodeError {
    TooShort,
    BadMagic,
    PayloadTooLong,
    CrcMismatch,
}

/// A frame ready to be sent: addresses, type code and the first `payload_len`
/// bytes of `payload` as its body.
#[derive(Clone, Copy, Debug, PartialEq, Eq)]
pub struct Packet {
    pub src: [u8; 6],
    pub dst: [u8; 6],
    pub msg_type: u8,
    pub payload_len: usize,
    pub payload: [u8; MAX_PAYLOAD_LEN],
}

/// Mathematical model of a [`Packet`].
pub struct PacketModel {
    pub src: Seq<u8>,
    pub dst: Seq<u8>,
    pub msg_type: u8,
    pub payload_len: usize,
    pub payload: Seq<u8>,
}

impl View for Packet {
    type V = PacketModel;

    open spec fn view(&self) -> PacketModel {
        PacketModel {
            src: self.src@,
            dst: self.dst@,
            msg_type: self.msg_type,
            payload_len: self.payload_len,
            payload: self.payload@,
        }
    }
}

impl PacketModel {
    /// The shape of a packet whose payload length fits the payload buffer.
    pub open spec fn wf(self) -> bool {
        &&& self.src.len() == 6
        &&& self.dst.len() == 6
        &&& self.payload.len() == MAX_PAYLOAD_LEN
        &&& self.payload_len <= MAX_PAYLOAD_LEN
    }
}

/// Wire code of a message kind.
pub open spec fn msg_type_code(t: MsgType) -> u8 {
    match t {
        MsgType::NoType => NONE,
        MsgType::NavData => NAV_DATA,
        MsgType::Message => MESSAGE,
        MsgType::Ack => ACK,
        MsgType::Ping => PING,
        MsgType::Pong => PONG,
    }
}

/// Message kind of a wire code; unknown codes read as `MsgType::NoType`.
pub open spec fn msg_type_of_code(b: u8) -> MsgType {
    if b == NAV_DATA {
        MsgType::NavData
    } else if b == MESSAGE {
        MsgType::Message
    } else if b == ACK {
        MsgType::Ack
    } else if b == PING {
        MsgType::Ping
    } else if b == PONG {
        MsgType::Pong
    } else {
        MsgType::NoType
    }
}

/// The packet that carries a message: its whole payload buffer is sent.
pub open spec fn packet_of_message(m: MessageModel) -> PacketModel {
    PacketModel {
        src: m.source,
        dst: m.destination,
        msg_type: msg_type_code(m.msg_type),
        payload_len: MAX_PAYLOAD_LEN,
        payload: m.message,
    }
}

/// Everything the checksum covers: header and payload.
pub open spec fn frame_body(p: PacketModel) -> Seq<u8> {
    seq![MAGIC_FIRST, MAGIC_SECOND] + p.src + p.dst + seq![p.msg_type, p.payload_len as u8]
        + p.payload.take(p.payload_len as int)
}

/// A 16-bit value as two bytes, least significant first.
pub open spec fn u16_le_bytes(v: u16) -> Seq<u8> {
    seq![(v & 0xffu16) as u8, (v >> 8u16) as u8]
}

/// The 16-bit value whose little-endian bytes are `lo`, `hi`.
pub open spec fn u16_from_le(lo: u8, hi: u8) -> u16 {
    (lo as u16) | ((hi as u16) << 8u16)
}

/// The bytes of the frame that carries `p`.
pub open spec fn encode_spec(p: PacketModel) -> Seq<u8> {
    frame_body(p) + u16_le_bytes(crc16_spec(frame_body(p)))
}

/// Length of the frame that carries a payload of `payload_len` bytes.
pub open spec fn frame_len(payload_len: int) -> int {
    HEADER_LEN + payload_len + CRC_LEN
}

/// Result of decoding the bytes `data`.
pub open spec fn decode_spec(data: Seq<u8>) -> Result<MessageModel, DecodeError> {
    if data.len() < HEADER_LEN + CRC_LEN {
        Err(DecodeError::TooShort)
    } else if data[0] != MAGIC_FIRST || data[1] != MAGIC_SECOND {
        Err(DecodeError::BadMagic)
    } else if data[15] > MAX_PAYLOAD_LEN {
        Err(DecodeError::PayloadTooLong)
    } else if data.len() < frame_len(data[15] as int) {
        Err(DecodeError::TooShort)
    } else if u16_from_le(data[HEADER_LEN + data[15]], data[HEADER_LEN + data[15] + 1])
        != crc16_spec(data.take(HEADER_LEN + data[15])) {
        Err(DecodeError::CrcMismatch)
    } else {
        Ok(
            MessageModel {
                source: data.subrange(2, 8),
                destination: data.subrange(8, 14),
                msg_type: msg_type_of_code(data[14]),
                message_len: data[15],
                message: data.subrange(HEADER_LEN as int, HEADER_LEN + data[15])
                    + Seq::new((MAX_PAYLOAD_LEN - data[15]) as nat, |i: int| 0u8),
                time_stamp: TimeOfDay::spec_midnight(),
            },
        )
    }
}

/// The message that the frame of a well-formed packet decodes to.
pub open spec fn message_of_packet(p: PacketModel) -> MessageModel {
    MessageModel {
        source: p.src,
        destination: p.dst,
        msg_type: msg_type_of_code(p.msg_type),
        message_len: p.payload_len as u8,
        message: p.payload.take(p.payload_len as int) + Seq::new(
            (MAX_PAYLOAD_LEN - p.payload_len) as nat,
            |i: int| 0u8,
        ),
        time_stamp: TimeOfDay::spec_midnight(),
    }
}

proof fn lemma_u16_le_round_trip(v: u16)
    ensures
        u16_from_le(u16_le_bytes(v)[0], u16_le_bytes(v)[1]) == v,
{
    assert(((v & 0xffu16) as u8 as u16) | (((v >> 8u16) as u8 as u16) << 8u16) == v)
        by (bit_vector);
}

proof fn lemma_u16_from_le_injective(lo1: u8, hi1: u8, lo2: u8, hi2: u8)
    requires
        lo1 != lo2 || hi1 != hi2,
    ensures
        u16_from_le(lo1, hi1) != u16_from_le(lo2, hi2),
{
    assert(lo1 != lo2 || hi1 != hi2 ==> (lo1 as u16) | ((hi1 as u16) << 8u16) != (lo2 as u16) | ((
    hi2 as u16) << 8u16)) by (bit_vector);
}

/// Length and layout of the frame of a well-formed packet.
pub proof fn lemma_frame_layout(p: PacketModel)
    requires
        p.wf(),
    ensures
        frame_body(p).len() == HEADER_LEN + p.payload_len,
        encode_spec(p).len() == frame_len(p.payload_len as int),
        encode_spec(p).take(HEADER_LEN + p.payload_len) == frame_body(p),
        encode_spec(p)[0] == MAGIC_FIRST,
        encode_spec(p)[1] == MAGIC_SECOND,
        encode_spec(p)[15] == p.payload_len,
        encode_spec(p).subrange(2, 8) == p.src,
        encode_spec(p).subrange(8, 14) == p.dst,
        encode_spec(p)[14] == p.msg_type,
        encode_spec(p).subrange(HEADER_LEN as int, HEADER_LEN + p.payload_len) == p.payload.take(
            p.payload_len as int,
        ),
{
    let body = frame_body(p);
    let f = encode_spec(p);
    assert(f.take(HEADER_LEN + p.payload_len) =~= body);
    assert(f.subrange(2, 8) =~= p.src);
    assert(f.subrange(8, 14) =~= p.dst);
    assert(f.subrange(HEADER_LEN as int, HEADER_LEN + p.payload_len) =~= p.payload.take(
        p.payload_len as int,
    ));
}

/// Decoding the frame of a well-formed packet, whatever bytes follow it, gives
/// back its addresses, type, payload length and payload (zero-filled after the
/// payload), at midnight.
pub proof fn lemma_decode_encode(p: PacketModel, tail: Seq<u8>)
    requires
        p.wf(),
    ensures
        decode_spec(encode_spec(p) + tail) == Ok::<MessageModel, DecodeError>(message_of_packet(p)),
{
    lemma_frame_layout(p);
    let f = encode_spec(p);
    let g = f + tail;
    let l = p.payload_len as int;
    let n = HEADER_LEN + l;
    let crc = crc16_spec(frame_body(p));
    lemma_u16_le_round_trip(crc);
    assert(g[n] == u16_le_bytes(crc)[0]);
    assert(g[n + 1] == u16_le_bytes(crc)[1]);
    assert(g.take(n) =~= f.take(n));
    assert(g.subrange(2, 8) =~= f.subrange(2, 8));
    assert(g.subrange(8, 14) =~= f.subrange(8, 14));
    assert(g.subrange(HEADER_LEN as int, n) =~= f.subrange(HEADER_LEN as int, n));
    assert(decode_spec(g) matches Ok(m) && m =~= message_of_packet(p));
}

/// A message whose payload length field is the full buffer and whose time stamp
/// is midnight survives `Packet::new`, `encode` and `decode` unchanged, whatever
/// bytes follow the frame.
pub proof fn lemma_message_round_trip(m: MessageModel, tail: Seq<u8>)
    requires
        m.source.len() == 6,
        m.destination.len() == 6,
        m.message.len() == MAX_PAYLOAD_LEN,
        m.message_len == MAX_PAYLOAD_LEN,
        m.time_stamp == TimeOfDay::spec_midnight(),
    ensures
        decode_spec(encode_spec(packet_of_message(m)) + tail) == Ok::<MessageModel, DecodeError>(m),
{
    let p = packet_of_message(m);
    lemma_decode_encode(p, tail);
    assert(p.payload.take(p.payload_len as int) + Seq::new(0, |i: int| 0u8) =~= m.message);
    assert(msg_type_of_code(msg_type_code(m.msg_type)) == m.msg_type);
    assert(message_of_packet(p) =~= m);
}

/// A frame of which one byte other than the payload length has been changed is
/// refused, whatever bytes follow it: a changed magic byte as `BadMagic`, any
/// other byte as `CrcMismatch`.
pub proof fn lemma_corrupted_frame_rejected(p: PacketModel, tail: Seq<u8>, i: int, v: u8)
    requires
        p.wf(),
        0 <= i < encode_spec(p).len(),
        i != 15,
        v != encode_spec(p)[i],
    ensures
        decode_spec((encode_spec(p) + tail).update(i, v)) is Err,
        i < 2 ==> decode_spec((encode_spec(p) + tail).update(i, v)) == Err::<
            MessageModel,
            DecodeError,
        >(DecodeError::BadMagic),
        i >= 2 ==> decode_spec((encode_spec(p) + tail).update(i, v)) == Err::<
            MessageModel,
            DecodeError,
        >(DecodeError::CrcMismatch),
{
    lemma_frame_layout(p);
    let f = encode_spec(p);
    let g = (f + tail).update(i, v);
    let l = p.payload_len as int;
    let n = HEADER_LEN + l;
    let body = frame_body(p);
    let crc = crc16_spec(body);
    lemma_u16_le_round_trip(crc);
    assert(f[n] == u16_le_bytes(crc)[0]);
    assert(f[n + 1] == u16_le_bytes(crc)[1]);
    if i >= 2 {
        assert(g[15] == f[15]);
        if i < n {
            assert(g.take(n) =~= body.update(i, v));
            lemma_crc_detects_byte_change(0, body, i, v);
            assert(g[n] == f[n] && g[n + 1] == f[n + 1]);
        } else {
            assert(g.take(n) =~= body);
            lemma_u16_from_le_injective(g[n], g[n + 1], f[n], f[n + 1]);
        }
    }
}

/// The last two bytes of every frame are the CRC-16/XMODEM of all bytes before
/// them, from the first magic byte on, least significant byte first.
pub proof fn lemma_frame_ends_with_crc_of_all_before(p: PacketModel)
    requires
        p.wf(),
    ensures
        encode_spec(p).len() == HEADER_LEN + p.payload_len + CRC_LEN,
        encode_spec(p)[HEADER_LEN + p.payload_len] == (crc16_spec(
            encode_spec(p).take(HEADER_LEN + p.payload_len),
        ) & 0xffu16) as u8,
        encode_spec(p)[HEADER_LEN + p.payload_len + 1] == (crc16_spec(
            encode_spec(p).take(HEADER_LEN + p.payload_len),
        ) >> 8u16) as u8,
{
    lemma_frame_layout(p);
}

/// A frame whose magic, payload length and size are right is accepted exactly
/// when its two bytes after the payload, least significant first, equal the
/// CRC-16/XMODEM of all bytes before them from the first magic byte on.
pub proof fn lemma_decode_checks_crc_of_all_before(data: Seq<u8>)
    requires
        data.len() >= HEADER_LEN + CRC_LEN,
        data[0] == 0xA5u8,
        data[1] == 0x5Au8,
        data[15] <= MAX_PAYLOAD_LEN,
        data.len() >= HEADER_LEN + data[15] + CRC_LEN,
    ensures
        decode_spec(data) is Ok <==> ((data[HEADER_LEN + data[15]] as u16) | ((data[HEADER_LEN
            + data[15] + 1] as u16) << 8u16)) == crc16_spec(data.take(HEADER_LEN + data[15])),
        decode_spec(data) is Err ==> decode_spec(data) == Err::<MessageModel, DecodeError>(
            DecodeError::CrcMismatch,
        ),
{
}

/// Byte `k` of the checksummed part of the frame of `p`.
fn body_byte(p: &Packet, k: usize) -> (b: u8)
    requires
        p@.wf(),
        k < HEADER_LEN + p.payload_len,
    ensures
        b == frame_body(p@)[k as int],
{
    let ghost body = frame_body(p@);
    assert(body.len() == HEADER_LEN + p.payload_len);
    if k == 0 {
        MAGIC_FIRST
    } else if k == 1 {
        MAGIC_SECOND
    } else if k < 8 {
        p.src[k - 2]
    } else if k < 14 {
        p.dst[k - 8]
    } else if k == 14 {
        p.msg_type
    } else if k == 15 {
        p.payload_len as u8
    } else {
        p.payload[k - HEADER_LEN]
    }
}

impl Packet {
    /// The packet that carries `message`, with its whole payload buffer as body.
    pub fn new(message: Message) -> (p: Packet)
        ensures
            p@ == packet_of_message(message@),
    {
        let msg_type: u8 = match message.msg_type {
            MsgType::NoType => NONE,
            MsgType::NavData => NAV_DATA,
            MsgType::Message => MESSAGE,
            MsgType::Ack => ACK,
            MsgType::Ping => PING,
            MsgType::Pong => PONG,
        };
        Packet {
            src: message.source,
            dst: message.destination,
            msg_type,
            payload_len: MAX_PAYLOAD_LEN,
            payload: message.message,
        }
    }

    /// Writes the frame of this packet at the start of `buf` and returns its length;
    /// the bytes of `buf` after the frame are left as they were. A buffer shorter
    /// than the frame is refused with `TooShort` and left untouched, whatever the
    /// payload length; a payload length beyond the payload buffer is only
    /// accepted with such a short buffer.
    pub fn encode(&self, buf: &mut [u8]) -> (r: Result<usize, DecodeError>)
        requires
            self.payload_len <= usize::MAX - HEADER_LEN - CRC_LEN,
            self.payload_len <= MAX_PAYLOAD_LEN || old(buf)@.len() < frame_len(
                self.payload_len as int,
            ),
        ensures
            self.payload_len <= MAX_PAYLOAD_LEN ==> encode_spec(self@).len() == frame_len(
                self.payload_len as int,
            ),
            match r {
                Ok(n) => {
                    &&& self.payload_len <= MAX_PAYLOAD_LEN
                    &&& n == frame_len(self.payload_len as int)
                    &&& old(buf)@.len() >= n
                    &&& final(buf)@ == encode_spec(self@) + old(buf)@.skip(n as int)
                },
                Err(e) => {
                    &&& e == DecodeError::TooShort
                    &&& old(buf)@.len() < frame_len(self.payload_len as int)
                    &&& final(buf)@ == old(buf)@
                },
            },
    {
        let ghost body = frame_body(self@);
        if self.payload_len <= MAX_PAYLOAD_LEN {
            assert(body.len() == HEADER_LEN + self.payload_len);
        }
        let total: usize = HEADER_LEN + self.payload_len + CRC_LEN;
        if buf.len() < total {
            return Err(DecodeError::TooShort);
        }
        let n: usize = HEADER_LEN + self.payload_len;
        let mut k: usize = 0;
        while k < n
            invariant
                self@.wf(),
                n == HEADER_LEN + self.payload_len,
                body == frame_body(self@),
                body.len() == n,
                k <= n,
                n + CRC_LEN <= old(buf)@.len(),
                buf@.len() == old(buf)@.len(),
                forall|j: int| 0 <= j < k ==> buf@[j] == body[j],
                forall|j: int| k <= j < buf@.len() ==> buf@[j] == old(buf)@[j],
            decreases n - k,
        {
            let b: u8 = body_byte(self, k);
            buf[k] = b;
            k += 1;
        }
        assert(buf@.subrange(0, n as int) =~= body);
        let crc: u16 = crc16_xmodem(slice_subrange(buf, 0, n));
        buf[n] = (crc & 0xffu16) as u8;
        buf[n + 1] = (crc >> 8u16) as u8;
        assert(buf@ =~= encode_spec(self@) + old(buf)@.skip(total as int));
        Ok(total)
    }
}

/// Reads a frame from the start of `data` (bytes after the frame are ignored)
/// and returns the message it carries; the payload buffer is filled with zeros
/// after the payload, and the time stamp is midnight.
pub fn decode(data: &[u8]) -> (r: Result<Message, DecodeError>)
    ensures
        match r {
            Ok(m) => decode_spec(data@) == Ok::<MessageModel, DecodeError>(m@),
            Err(e) => decode_spec(data@) == Err::<MessageModel, DecodeError>(e),
        },
{
    if data.len() < HEADER_LEN + CRC_LEN {
        return Err(DecodeError::TooShort);
    }
    if data[0] != MAGIC_FIRST || data[1] != MAGIC_SECOND {
        return Err(DecodeError::BadMagic);
    }
    let src: [u8; 6] = [data[2], data[3], data[4], data[5], data[6], data[7]];
    let dst: [u8; 6] = [data[8], data[9], data[10], data[11], data[12], data[13]];
    let msg_type: u8 = data[14];
    let payload_len: usize = data[15] as usize;
    if payload_len > MAX_PAYLOAD_LEN {
        return Err(DecodeError::PayloadTooLong);
    }
    let total: usize = HEADER_LEN + payload_len + CRC_LEN;
    if data.len() < total {
        return Err(DecodeError::TooShort);
    }
    let n: usize = HEADER_LEN + payload_len;
    let received_crc: u16 = (data[n] as u16) | ((data[n + 1] as u16) << 8u16);
    let computed_crc: u16 = crc16_xmodem(slice_subrange(data, 0, n));
    if received_crc != computed_crc {
        return Err(DecodeError::CrcMismatch);
    }
    let mut payload: [u8; MAX_PAYLOAD_LEN] = [0u8; MAX_PAYLOAD_LEN];
    let mut k: usize = 0;
    while k < payload_len
        invariant
            k <= payload_len <= MAX_PAYLOAD_LEN,
            n == HEADER_LEN + payload_len,
            n + CRC_LEN <= data@.len(),
            forall|j: int| 0 <= j < k ==> payload@[j] == data@[HEADER_LEN + j],
            forall|j: int| k <= j < MAX_PAYLOAD_LEN ==> payload@[j] == 0u8,
        decreases payload_len - k,
    {
        payload[k] = data[HEADER_LEN + k];
        k += 1;
    }
    let msg_t: MsgType = if msg_type == NAV_DATA {
        MsgType::NavData
    } else if msg_type == MESSAGE {
        MsgType::Message
    } else if msg_type == ACK {
        MsgType::Ack
    } else if msg_type == PING {
        MsgType::Ping
    } else if msg_type == PONG {
        MsgType::Pong
    } else {
        MsgType::NoType
    };
    let m = Message {
        source: src,
        destination: dst,
        msg_type: msg_t,
        message_len: payload_len as u8,
        message: payload,
        time_stamp: TimeOfDay::midnight(),
    };
    assert(m@.source =~= data@.subrange(2, 8));
    assert(m@.destination =~= data@.subrange(8, 14));
    assert(m@.message =~= data@.subrange(HEADER_LEN as int, n as int) + Seq::new(
        (MAX_PAYLOAD_LEN - payload_len) as nat,
        |i: int| 0u8,
    ));
    Ok(m)
}

} // verus!
