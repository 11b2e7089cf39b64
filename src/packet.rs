//! Control-packet payloads and their little-endian wire layouts.
use vstd::prelude::*;

use crate::bytes::{byte_of, get_u32_le, le_word, lemma_word_at, put_words, words_le};

verus! {

/// Protocol version carried in the first byte of a handshake payload.
pub const UDT_VERSION: u8 = 4;

/// Size of a handshake payload.
pub const HANDSHAKE_SIZE: usize = 48;

/// Size of an ACK payload that carries the acknowledged sequence number only.
pub const ACK_SMALL_SIZE: usize = 4;

/// Size of an ACK payload that adds RTT, RTT variance and buffer size.
pub const ACK_MEDIUM_SIZE: usize = 16;

/// Size of an ACK payload that adds receive speed and bandwidth too.
pub const ACK_BIG_SIZE: usize = 24;

/// Size of a NAK payload reporting one lost packet.
pub const NAK_SMALL_SIZE: usize = 4;

/// Size of a NAK payload carrying a compressed loss range.
pub const NAK_BIG_SIZE: usize = 8;

/// Size of a message-drop-request payload.
pub const MDR_SIZE: usize = 8;

/// Fields carried by the header of every packet.
#[derive(Debug, Clone, Copy, PartialEq, Eq, Structural)]
pub struct PacketHeader {
    /// Packet sequence number
    pub seq_no: u32,
    /// Message number
    pub msg_no: u32,
    /// Packet timestamp
    pub timestamp: u32,
    /// Socket ID
    pub id: u32,
}

/// What `serialize` leaves in a buffer of `len` bytes holding `before`:
/// `Some` with the encoding written at the front exactly when it fits,
/// otherwise `None` with the buffer untouched.
pub open spec fn serialized(
    wire: Seq<u8>,
    before: Seq<u8>,
    after: Seq<u8>,
    r: Option<Seq<u8>>,
) -> bool {
    if wire.len() <= before.len() {
        &&& r == Some(wire)
        &&& after == wire + before.subrange(wire.len() as int, before.len() as int)
    } else {
        &&& r.is_none()
        &&& after == before
    }
}

/// The view of an optional written prefix.
pub open spec fn prefix_view(r: Option<&[u8]>) -> Option<Seq<u8>> {
    match r {
        Some(s) => Some(s@),
        None => None,
    }
}

/// Writes `ws` at the front of `buffer` when they fit and hands back the written prefix.
fn emit<'a>(ws: &[u32], buffer: &'a mut [u8]) -> (r: Option<&'a [u8]>)
    requires
        ws@.len() <= 16,
    ensures
        serialized(words_le(ws@), old(buffer)@, final(buffer)@, prefix_view(r)),
{
    if buffer.len() < 4 * ws.len() {
        return None;
    }
    put_words(buffer, ws);
    let n = 4 * ws.len();
    assert(buffer@.subrange(0, n as int) =~= words_le(ws@));
    Some(buffer.split_at(n).0)
}

/// Message Drop Request packet control info
#[derive(Debug, Clone, Copy, PartialEq, Eq, Structural)]
pub struct MessageDropRequestControlInfo {
    /// First sequence number in the message
    pub first_seq_no: u32,
    /// Last sequence number in the message
    pub last_seq_no: u32,
}

impl MessageDropRequestControlInfo {
    /// The words of the payload, in wire order.
    pub open spec fn words(&self) -> Seq<u32> {
        seq![self.first_seq_no, self.last_seq_no]
    }

    /// The payload bytes.
    pub open spec fn wire(&self) -> Seq<u8> {
        words_le(self.words())
    }

    /// The value a payload decodes to, if any.
    pub open spec fn parse(b: Seq<u8>) -> Option<Self> {
        if b.len() == MDR_SIZE {
            Some(MessageDropRequestControlInfo { first_seq_no: le_word(b, 0), last_seq_no: le_word(b, 4) })
        } else {
            None
        }
    }

    pub fn serialize<'a>(&self, buffer: &'a mut [u8]) -> (r: Option<&'a [u8]>)
        ensures
            serialized(self.wire(), old(buffer)@, final(buffer)@, prefix_view(r)),
    {
        let ws: [u32; 2] = [self.first_seq_no, self.last_seq_no];
        assert(ws@ =~= self.words());
        emit(&ws, buffer)
    }

    pub fn deserialize(buffer: &[u8]) -> (r: Option<Self>)
        ensures
            r == Self::parse(buffer@),
    {
        if buffer.len() != MDR_SIZE {
            return None;
        }
        Some(Self { first_seq_no: get_u32_le(buffer, 0), last_seq_no: get_u32_le(buffer, 4) })
    }
}

/// Decoding the encoding of a message-drop request gives it back.
pub proof fn lemma_mdr_round_trip(x: MessageDropRequestControlInfo)
    ensures
        MessageDropRequestControlInfo::parse(x.wire()) == Some(x),
{
    lemma_word_at(x.words(), 0);
    lemma_word_at(x.words(), 1);
}

/// Negative-acknowledgment packet control info
#[derive(Debug, Clone, Copy, PartialEq, Eq)]
pub enum NakControlInfo {
    Single {
        /// Lost packet seqno
        seq_no: u32,
    },
    Multiple {
        /// Compressed loss information
        loss_data: [u32; 2],
    },
}

impl NakControlInfo {
    /// The words of the payload, in wire order.
    pub open spec fn words(&self) -> Seq<u32> {
        match self {
            NakControlInfo::Single { seq_no } => seq![*seq_no],
            NakControlInfo::Multiple { loss_data } => seq![loss_data[0], loss_data[1]],
        }
    }

    /// The payload bytes.
    pub open spec fn wire(&self) -> Seq<u8> {
        words_le(self.words())
    }

    /// The value a payload decodes to, if any: the variant follows from the length alone.
    pub open spec fn parse(b: Seq<u8>) -> Option<Self> {
        if b.len() == NAK_BIG_SIZE {
            Some(NakControlInfo::Multiple { loss_data: [le_word(b, 0), le_word(b, 4)] })
        } else if b.len() == NAK_SMALL_SIZE {
            Some(NakControlInfo::Single { seq_no: le_word(b, 0) })
        } else {
            None
        }
    }

    pub fn serialize<'a>(&self, buffer: &'a mut [u8]) -> (r: Option<&'a [u8]>)
        ensures
            serialized(self.wire(), old(buffer)@, final(buffer)@, prefix_view(r)),
    {
        match self {
            NakControlInfo::Single { seq_no } => {
                let ws: [u32; 1] = [*seq_no];
                assert(ws@ =~= self.words());
                emit(&ws, buffer)
            },
            NakControlInfo::Multiple { loss_data } => {
                let ws: [u32; 2] = [loss_data[0], loss_data[1]];
                assert(ws@ =~= self.words());
                emit(&ws, buffer)
            },
        }
    }

    pub fn deserialize(buffer: &mut [u8]) -> (r: Option<Self>)
        ensures
            final(buffer)@ == old(buffer)@,
            r == Self::parse(old(buffer)@),
    {
        if buffer.len() == NAK_BIG_SIZE {
            let a = get_u32_le(buffer, 0);
            let b = get_u32_le(buffer, 4);
            Some(NakControlInfo::Multiple { loss_data: [a, b] })
        } else if buffer.len() == NAK_SMALL_SIZE {
            Some(NakControlInfo::Single { seq_no: get_u32_le(buffer, 0) })
        } else {
            None
        }
    }
}

/// Decoding the encoding of a NAK gives it back, in either variant.
pub proof fn lemma_nak_round_trip(x: NakControlInfo)
    ensures
        NakControlInfo::parse(x.wire()) == Some(x),
{
    lemma_word_at(x.words(), 0);
    match x {
        NakControlInfo::Single { .. } => {},
        NakControlInfo::Multiple { loss_data } => {
            lemma_word_at(x.words(), 1);
            assert([loss_data[0], loss_data[1]] =~= loss_data);
        },
    }
}

/// A NAK payload whose length is neither 4 nor 8 bytes is rejected.
pub proof fn lemma_nak_rejects_length(b: Seq<u8>)
    requires
        b.len() != NAK_SMALL_SIZE,
        b.len() != NAK_BIG_SIZE,
    ensures
        NakControlInfo::parse(b).is_none(),
{
}

/// Acknowledgement packet control info
#[derive(Debug, Clone, Copy, PartialEq, Eq)]
pub struct AckControlInfo {
    /// The packet sequence number to which all the
    /// previous packets have been received (excluding)
    pub received_last_ack: u32,
    /// Optional additional info
    pub info: Option<AckAdditionalInfo>,
}

#[derive(Debug, Clone, Copy, PartialEq, Eq)]
pub struct AckAdditionalInfo {
    /// RTT (in microseconds)
    pub rtt: u32,
    /// RTT variance
    pub rtt_var: u32,
    /// Available buffer size (in bytes)
    pub buffer_size: u32,
    /// An optional tuple of:
    /// - packets receiving rate (in number of packets per second)
    /// - estimated link capacity (in number of packets per second)
    pub speed_and_bandwidth: Option<(u32, u32)>,
}

impl AckControlInfo {
    /// The words of the payload, in wire order: the smallest tier that holds every
    /// field present.
    pub open spec fn words(&self) -> Seq<u32> {
        match self.info {
            None => seq![self.received_last_ack],
            Some(info) => match info.speed_and_bandwidth {
                None => seq![self.received_last_ack, info.rtt, info.rtt_var, info.buffer_size],
                Some((speed, bandwidth)) => seq![
                    self.received_last_ack,
                    info.rtt,
                    info.rtt_var,
                    info.buffer_size,
                    speed,
                    bandwidth,
                ],
            },
        }
    }

    /// The payload bytes.
    pub open spec fn wire(&self) -> Seq<u8> {
        words_le(self.words())
    }

    /// The value a payload decodes to, if any: the tier follows from the length alone.
    pub open spec fn parse(b: Seq<u8>) -> Option<Self> {
        if b.len() == ACK_SMALL_SIZE {
            Some(AckControlInfo { received_last_ack: le_word(b, 0), info: None })
        } else if b.len() == ACK_MEDIUM_SIZE || b.len() == ACK_BIG_SIZE {
            Some(
                AckControlInfo {
                    received_last_ack: le_word(b, 0),
                    info: Some(
                        AckAdditionalInfo {
                            rtt: le_word(b, 4),
                            rtt_var: le_word(b, 8),
                            buffer_size: le_word(b, 12),
                            speed_and_bandwidth: if b.len() == ACK_BIG_SIZE {
                                Some((le_word(b, 16), le_word(b, 20)))
                            } else {
                                None
                            },
                        },
                    ),
                },
            )
        } else {
            None
        }
    }

    pub fn serialize<'a>(&self, buffer: &'a mut [u8]) -> (r: Option<&'a [u8]>)
        ensures
            serialized(self.wire(), old(buffer)@, final(buffer)@, prefix_view(r)),
    {
        match self.info {
            None => {
                let ws: [u32; 1] = [self.received_last_ack];
                assert(ws@ =~= self.words());
                emit(&ws, buffer)
            },
            Some(info) => match info.speed_and_bandwidth {
                None => {
                    let ws: [u32; 4] = [
                        self.received_last_ack,
                        info.rtt,
                        info.rtt_var,
                        info.buffer_size,
                    ];
                    assert(ws@ =~= self.words());
                    emit(&ws, buffer)
                },
                Some((speed, bandwidth)) => {
                    let ws: [u32; 6] = [
                        self.received_last_ack,
                        info.rtt,
                        info.rtt_var,
                        info.buffer_size,
                        speed,
                        bandwidth,
                    ];
                    assert(ws@ =~= self.words());
                    emit(&ws, buffer)
                },
            },
        }
    }

    pub fn deserialize(buffer: &[u8]) -> (r: Option<Self>)
        ensures
            r == Self::parse(buffer@),
    {
        let len = buffer.len();
        if len == ACK_SMALL_SIZE {
            return Some(AckControlInfo { received_last_ack: get_u32_le(buffer, 0), info: None });
        }
        if len != ACK_MEDIUM_SIZE && len != ACK_BIG_SIZE {
            return None;
        }
        let speed_and_bandwidth = if len == ACK_BIG_SIZE {
            Some((get_u32_le(buffer, 16), get_u32_le(buffer, 20)))
        } else {
            None
        };
        let info = AckAdditionalInfo {
            rtt: get_u32_le(buffer, 4),
            rtt_var: get_u32_le(buffer, 8),
            buffer_size: get_u32_le(buffer, 12),
            speed_and_bandwidth,
        };
        Some(AckControlInfo { received_last_ack: get_u32_le(buffer, 0), info: Some(info) })
    }
}

/// Decoding the encoding of an ACK gives it back, in each of the three tiers.
pub proof fn lemma_ack_round_trip(x: AckControlInfo)
    ensures
        AckControlInfo::parse(x.wire()) == Some(x),
{
    let ws = x.words();
    lemma_word_at(ws, 0);
    if ws.len() > 1 {
        lemma_word_at(ws, 1);
        lemma_word_at(ws, 2);
        lemma_word_at(ws, 3);
    }
    if ws.len() > 4 {
        lemma_word_at(ws, 4);
        lemma_word_at(ws, 5);
    }
}

/// An ACK payload whose length is not 4, 16 or 24 bytes is rejected.
pub proof fn lemma_ack_rejects_length(b: Seq<u8>)
    requires
        b.len() != ACK_SMALL_SIZE,
        b.len() != ACK_MEDIUM_SIZE,
        b.len() != ACK_BIG_SIZE,
    ensures
        AckControlInfo::parse(b).is_none(),
{
}

/// Handshake packet control info
#[derive(Debug, Clone, Copy, PartialEq, Eq)]
pub struct HandshakeControlInfo {
    /// UDT socket type
    pub socket_type: SocketType,
    /// Random initial sequence number
    pub isn: u32,
    /// Maximum segment size
    pub mss: u32,
    /// Flow control window size
    pub flight_flag_size: u32,
    /// Connection request type
    pub request_type: i32,
    /// Socket ID
    pub id: u32,
    /// SYN cookie
    pub cookie: u32,
    /// The IP address that the peer's UDP port is bound to
    pub ip: [u32; 4],
}

#[derive(Debug, Clone, Copy, PartialEq, Eq, Structural)]
pub enum SocketType {
    Stream,
    Datagram,
}

impl SocketType {
    /// The byte that stands for the socket type on the wire.
    pub open spec fn code(self) -> u8 {
        match self {
            SocketType::Stream => 1,
            SocketType::Datagram => 2,
        }
    }
}

/// The low byte of a word below 256 is the word itself.
proof fn lemma_small_word_byte(x: u32)
    requires
        x < 256,
    ensures
        byte_of(x, 0) == x as u8,
{
    assert(((x >> 0u32) & 0xff) as u8 == x as u8) by (bit_vector)
        requires
            x < 256,
    ;
}

impl HandshakeControlInfo {
    /// The words of the payload, in wire order.
    pub open spec fn words(&self) -> Seq<u32> {
        seq![
            UDT_VERSION as u32,
            self.socket_type.code() as u32,
            self.isn,
            self.mss,
            self.flight_flag_size,
            self.request_type as u32,
            self.id,
            self.cookie,
            self.ip[0],
            self.ip[1],
            self.ip[2],
            self.ip[3],
        ]
    }

    /// The payload bytes.
    pub open spec fn wire(&self) -> Seq<u8> {
        words_le(self.words())
    }

    /// The value a payload decodes to, if any: it must be 48 bytes long, start with the
    /// protocol version and name a known socket type in byte 4.
    pub open spec fn parse(b: Seq<u8>) -> Option<Self> {
        if b.len() == HANDSHAKE_SIZE && b[0] == UDT_VERSION && (b[4] == 1 || b[4] == 2) {
            Some(
                HandshakeControlInfo {
                    socket_type: if b[4] == 1 {
                        SocketType::Stream
                    } else {
                        SocketType::Datagram
                    },
                    isn: le_word(b, 8),
                    mss: le_word(b, 12),
                    flight_flag_size: le_word(b, 16),
                    request_type: le_word(b, 20) as i32,
                    id: le_word(b, 24),
                    cookie: le_word(b, 28),
                    ip: [le_word(b, 32), le_word(b, 36), le_word(b, 40), le_word(b, 44)],
                },
            )
        } else {
            None
        }
    }

    pub fn serialize<'a>(&self, buffer: &'a mut [u8]) -> (r: Option<&'a [u8]>)
        ensures
            serialized(self.wire(), old(buffer)@, final(buffer)@, prefix_view(r)),
    {
        let socket_type: u32 = match self.socket_type {
            SocketType::Stream => 1,
            SocketType::Datagram => 2,
        };
        let ws: [u32; 12] = [
            UDT_VERSION as u32,
            socket_type,
            self.isn,
            self.mss,
            self.flight_flag_size,
            self.request_type as u32,
            self.id,
            self.cookie,
            self.ip[0],
            self.ip[1],
            self.ip[2],
            self.ip[3],
        ];
        assert(ws@ =~= self.words());
        emit(&ws, buffer)
    }

    pub fn deserialize(buffer: &[u8]) -> (r: Option<Self>)
        ensures
            r == Self::parse(buffer@),
    {
        if buffer.len() != HANDSHAKE_SIZE {
            return None;
        }
        if buffer[0] != UDT_VERSION {
            return None;
        }
        let socket_type = if buffer[4] == 1 {
            SocketType::Stream
        } else if buffer[4] == 2 {
            SocketType::Datagram
        } else {
            return None;
        };
        let ip: [u32; 4] = [
            get_u32_le(buffer, 32),
            get_u32_le(buffer, 36),
            get_u32_le(buffer, 40),
            get_u32_le(buffer, 44),
        ];
        Some(
            HandshakeControlInfo {
                socket_type,
                isn: get_u32_le(buffer, 8),
                mss: get_u32_le(buffer, 12),
                flight_flag_size: get_u32_le(buffer, 16),
                request_type: get_u32_le(buffer, 20) as i32,
                id: get_u32_le(buffer, 24),
                cookie: get_u32_le(buffer, 28),
                ip,
            },
        )
    }
}

/// Decoding the encoding of a handshake gives it back.
pub proof fn lemma_handshake_round_trip(x: HandshakeControlInfo)
    ensures
        HandshakeControlInfo::parse(x.wire()) == Some(x),
{
    let ws = x.words();
    let b = x.wire();
    lemma_word_at(ws, 0);
    lemma_word_at(ws, 1);
    lemma_word_at(ws, 2);
    lemma_word_at(ws, 3);
    lemma_word_at(ws, 4);
    lemma_word_at(ws, 5);
    lemma_word_at(ws, 6);
    lemma_word_at(ws, 7);
    lemma_word_at(ws, 8);
    lemma_word_at(ws, 9);
    lemma_word_at(ws, 10);
    lemma_word_at(ws, 11);
    lemma_small_word_byte(UDT_VERSION as u32);
    lemma_small_word_byte(x.socket_type.code() as u32);
    assert(b[0] == byte_of(ws[0], 0));
    assert(b[4] == byte_of(ws[1], 0));
    let r = x.request_type;
    assert((r as u32) as i32 == r) by (bit_vector);
    assert([ws[8], ws[9], ws[10], ws[11]] =~= x.ip);
}

/// A handshake payload with the wrong length, a version byte other than 4, or a
/// socket-type byte other than 1 or 2 is rejected.
pub proof fn lemma_handshake_rejects(b: Seq<u8>)
    requires
        b.len() != HANDSHAKE_SIZE || b[0] != UDT_VERSION || (b[4] != 1 && b[4] != 2),
    ensures
        HandshakeControlInfo::parse(b).is_none(),
{
}

} // verus!
