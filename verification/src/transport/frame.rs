//! The WebSocket frame codec (RFC 6455, section 5): unmasked server frames out,
//! masked client frames in.
use crate::transport::buffer::Buffer;
use vstd::prelude::*;

verus! {

/// The frame types of RFC 6455.
#[derive(Debug, Clone, Copy, PartialEq, Eq, Structural)]
pub enum OpCode {
    Continuation,
    Text,
    Binary,
    Close,
    Ping,
    Pong,
}

impl OpCode {
    /// The four-bit code on the wire.
    pub open spec fn code(self) -> u8 {
        match self {
            OpCode::Continuation => 0,
            OpCode::Text => 1,
            OpCode::Binary => 2,
            OpCode::Close => 8,
            OpCode::Ping => 9,
            OpCode::Pong => 10,
        }
    }

    /// The frame type with the given code, if there is one.
    pub open spec fn of_code(code: u8) -> Option<OpCode> {
        if code == 0 {
            Some(OpCode::Continuation)
        } else if code == 1 {
            Some(OpCode::Text)
        } else if code == 2 {
            Some(OpCode::Binary)
        } else if code == 8 {
            Some(OpCode::Close)
        } else if code == 9 {
            Some(OpCode::Ping)
        } else if code == 10 {
            Some(OpCode::Pong)
        } else {
            None
        }
    }

    /// Close, ping and pong.
    pub open spec fn control(self) -> bool {
        self.code() >= 8
    }

    pub fn to_u8(self) -> (c: u8)
        ensures
            c == self.code(),
    {
        match self {
            OpCode::Continuation => 0,
            OpCode::Text => 1,
            OpCode::Binary => 2,
            OpCode::Close => 8,
            OpCode::Ping => 9,
            OpCode::Pong => 10,
        }
    }

    pub fn from_u8(code: u8) -> (op: Option<OpCode>)
        ensures
            op == OpCode::of_code(code),
    {
        if code == 0 {
            Some(OpCode::Continuation)
        } else if code == 1 {
            Some(OpCode::Text)
        } else if code == 2 {
            Some(OpCode::Binary)
        } else if code == 8 {
            Some(OpCode::Close)
        } else if code == 9 {
            Some(OpCode::Ping)
        } else if code == 10 {
            Some(OpCode::Pong)
        } else {
            None
        }
    }
}

/// One parsed frame, its payload unmasked.
#[derive(Debug, PartialEq, Eq)]
pub struct Frame {
    pub fin: bool,
    pub opcode: OpCode,
    pub payload: Vec<u8>,
}

/// A frame as contracts see it.
pub struct FrameModel {
    pub fin: bool,
    pub opcode: OpCode,
    pub payload: Seq<u8>,
}

impl View for Frame {
    type V = FrameModel;

    open spec fn view(&self) -> FrameModel {
        FrameModel { fin: self.fin, opcode: self.opcode, payload: self.payload@ }
    }
}

/// Why no frame could be parsed.
#[derive(Debug, PartialEq, Eq)]
pub enum ParseError {
    /// More bytes are needed.
    Incomplete,
    /// The peer broke the protocol.
    Protocol(&'static str),
    /// The payload is longer than the caller allows.
    TooLarge,
}

/// The length octets of a frame with a payload of `n` bytes; `mask_bit` is 128
/// for a masked frame and 0 otherwise.
pub open spec fn length_octets(n: nat, mask_bit: u8) -> Seq<u8> {
    if n < 126 {
        seq![(mask_bit + n) as u8]
    } else if n < 65536 {
        seq![(mask_bit + 126) as u8, (n / 256) as u8, (n % 256) as u8]
    } else {
        seq![
            (mask_bit + 127) as u8,
            (n / 0x100_0000_0000_0000 % 256) as u8,
            (n / 0x1_0000_0000_0000 % 256) as u8,
            (n / 0x100_0000_0000 % 256) as u8,
            (n / 0x1_0000_0000 % 256) as u8,
            (n / 0x100_0000 % 256) as u8,
            (n / 0x1_0000 % 256) as u8,
            (n / 0x100 % 256) as u8,
            (n % 256) as u8,
        ]
    }
}

/// The first octet of a frame.
pub open spec fn first_octet(fin: bool, opcode: OpCode) -> u8 {
    if fin {
        (128 + opcode.code()) as u8
    } else {
        opcode.code()
    }
}

/// An unmasked frame on the wire.
pub open spec fn server_frame(fin: bool, opcode: OpCode, payload: Seq<u8>) -> Seq<u8> {
    seq![first_octet(fin, opcode)] + length_octets(payload.len(), 0) + payload
}

/// `payload` with its bytes combined with the four mask octets in turn.
pub open spec fn masked(payload: Seq<u8>, mask: Seq<u8>) -> Seq<u8> {
    Seq::new(payload.len(), |i: int| payload[i] ^ mask[i % 4])
}

/// A masked frame on the wire.
pub open spec fn client_frame(fin: bool, opcode: OpCode, payload: Seq<u8>, mask: Seq<u8>) -> Seq<
    u8,
> {
    seq![first_octet(fin, opcode)] + length_octets(payload.len(), 128) + mask + masked(
        payload,
        mask,
    )
}

/// What the front of a receive buffer holds.
pub enum Parsed {
    /// A whole frame that takes up the first `used` bytes.
    Whole { frame: FrameModel, used: nat },
    Incomplete,
    Protocol(&'static str),
    TooLarge,
}

/// How many octets follow the first two before the mask, by the 7-bit length.
pub open spec fn extra_octets(len7: int) -> int {
    if len7 == 126 {
        2
    } else if len7 == 127 {
        8
    } else {
        0
    }
}

/// The value of four big-endian octets from `i` on.
pub open spec fn be32(buf: Seq<u8>, i: int) -> int {
    buf[i] * 0x100_0000 + buf[i + 1] * 0x1_0000 + buf[i + 2] * 0x100 + buf[i + 3]
}

/// The payload length that a frame header declares.
pub open spec fn declared_len(buf: Seq<u8>) -> int {
    let len7 = buf[1] % 128;
    if len7 == 126 {
        buf[2] * 256 + buf[3]
    } else if len7 == 127 {
        be32(buf, 2) * 0x1_0000_0000 + be32(buf, 6)
    } else {
        len7 as int
    }
}

/// What the front of `buf` holds. The header is judged octet by octet, so a
/// violation or an oversized declaration is reported before the rest arrives.
pub open spec fn parsed(buf: Seq<u8>, max_payload: nat) -> Parsed {
    if buf.len() < 2 {
        Parsed::Incomplete
    } else {
        let fin = buf[0] >= 128;
        let len7 = (buf[1] % 128) as int;
        match OpCode::of_code((buf[0] % 16) as u8) {
            None => if buf[0] / 16 % 8 != 0 {
                Parsed::Protocol("reserved bits set")
            } else {
                Parsed::Protocol("unknown opcode")
            },
            Some(opcode) => if buf[0] / 16 % 8 != 0 {
                Parsed::Protocol("reserved bits set")
            } else if buf[1] < 128 {
                Parsed::Protocol("unmasked client frame")
            } else if opcode.control() && !fin {
                Parsed::Protocol("fragmented control frame")
            } else if opcode.control() && len7 > 125 {
                Parsed::Protocol("oversized control frame")
            } else if buf.len() < 2 + extra_octets(len7) {
                Parsed::Incomplete
            } else if declared_len(buf) > max_payload {
                Parsed::TooLarge
            } else {
                let body = 2 + extra_octets(len7) + 4;
                let n = declared_len(buf);
                if buf.len() < body + n {
                    Parsed::Incomplete
                } else {
                    Parsed::Whole {
                        frame: FrameModel {
                            fin,
                            opcode,
                            payload: masked(
                                buf.subrange(body, body + n),
                                buf.subrange(body - 4, body),
                            ),
                        },
                        used: (body + n) as nat,
                    }
                }
            },
        }
    }
}

/// Appends an unmasked frame to `out`.
pub fn encode(out: &mut Buffer, fin: bool, opcode: OpCode, payload: &[u8])
    ensures
        final(out)@ == old(out)@ + server_frame(fin, opcode, payload@),
        ({
            let wire = final(out)@.skip(old(out)@.len() as int);
            let head = 2 + extra_octets(wire[1] as int);
            &&& final(out)@.take(old(out)@.len() as int) == old(out)@
            &&& wire.len() == head + payload@.len()
            &&& (wire[0] >= 128) == fin
            &&& OpCode::of_code((wire[0] % 128) as u8) == Some(opcode)
            &&& wire[1] < 128
            &&& declared_len(wire) == payload@.len()
            &&& wire.skip(head) == payload@
        }),
{
    let n: usize = payload.len();
    let code: u8 = opcode.to_u8();
    let mut head: Vec<u8> = Vec::new();
    head.push(if fin { 128 + code } else { code });
    if n < 126 {
        head.push(n as u8);
    } else if n < 65536 {
        head.push(126);
        head.push((n / 256) as u8);
        head.push((n % 256) as u8);
    } else {
        let m: u64 = n as u64;
        head.push(127);
        head.push((m / 0x100_0000_0000_0000 % 256) as u8);
        head.push((m / 0x1_0000_0000_0000 % 256) as u8);
        head.push((m / 0x100_0000_0000 % 256) as u8);
        head.push((m / 0x1_0000_0000 % 256) as u8);
        head.push((m / 0x100_0000 % 256) as u8);
        head.push((m / 0x1_0000 % 256) as u8);
        head.push((m / 0x100 % 256) as u8);
        head.push((m % 256) as u8);
    }
    assert(head@ =~= seq![first_octet(fin, opcode)] + length_octets(payload@.len(), 0));
    let ghost before = out@;
    out.extend_from_slice(head.as_slice());
    out.extend_from_slice(payload);
    assert(out@ =~= before + server_frame(fin, opcode, payload@));
    proof {
        let wire = server_frame(fin, opcode, payload@);
        server_frames_read_back(fin, opcode, payload@, Seq::empty());
        assert(wire + Seq::<u8>::empty() =~= wire);
        assert(out@.skip(before.len() as int) =~= wire);
        assert(out@.take(before.len() as int) =~= before);
        assert(wire.skip(2 + extra_octets(wire[1] as int)) =~= payload@);
    }
}

/// Appends a final unmasked text frame to `out`.
pub fn encode_text(out: &mut Buffer, payload: &[u8])
    ensures
        final(out)@ == old(out)@ + server_frame(true, OpCode::Text, payload@),
{
    encode(out, true, OpCode::Text, payload);
}

/// Parses one frame off the front of `buf` and removes its bytes; on any error
/// the buffer is left alone.
pub fn parse(buf: &mut Buffer, max_payload: usize) -> (r: Result<Frame, ParseError>)
    ensures
        match parsed(old(buf)@, max_payload as nat) {
            Parsed::Whole { frame, used } => {
                &&& r matches Ok(f) && f@ == frame
                &&& final(buf)@ == old(buf)@.skip(used as int)
                &&& 2 <= used <= old(buf)@.len()
            },
            Parsed::Incomplete => r == Err::<Frame, _>(ParseError::Incomplete) && final(buf)@ == old(
                buf,
            )@,
            Parsed::Protocol(m) => r == Err::<Frame, _>(ParseError::Protocol(m)) && final(buf)@
                == old(buf)@,
            Parsed::TooLarge => r == Err::<Frame, _>(ParseError::TooLarge) && final(buf)@ == old(
                buf,
            )@,
        },
{
    let ghost b = buf@;
    let bytes: &[u8] = buf.as_slice();
    if bytes.len() < 2 {
        return Err(ParseError::Incomplete);
    }
    let b0: u8 = bytes[0];
    let b1: u8 = bytes[1];
    let fin: bool = b0 >= 128;
    if b0 / 16 % 8 != 0 {
        return Err(ParseError::Protocol("reserved bits set"));
    }
    let opcode: OpCode = match OpCode::from_u8(b0 % 16) {
        Some(op) => op,
        None => return Err(ParseError::Protocol("unknown opcode")),
    };
    if b1 < 128 {
        return Err(ParseError::Protocol("unmasked client frame"));
    }
    let len7: u8 = b1 % 128;
    let control: bool = opcode.to_u8() >= 8;
    if control && !fin {
        return Err(ParseError::Protocol("fragmented control frame"));
    }
    if control && len7 > 125 {
        return Err(ParseError::Protocol("oversized control frame"));
    }
    let extra: usize = if len7 == 126 { 2 } else if len7 == 127 { 8 } else { 0 };
    if bytes.len() < 2 + extra {
        return Err(ParseError::Incomplete);
    }
    let declared: u64 = if len7 == 126 {
        bytes[2] as u64 * 256 + bytes[3] as u64
    } else if len7 == 127 {
        read_be32(bytes, 2) * 0x1_0000_0000 + read_be32(bytes, 6)
    } else {
        len7 as u64
    };
    if declared > max_payload as u64 {
        return Err(ParseError::TooLarge);
    }
    let n: usize = declared as usize;
    let body: usize = 2 + extra + 4;
    if bytes.len() < body || bytes.len() - body < n {
        return Err(ParseError::Incomplete);
    }
    let mut payload: Vec<u8> = Vec::new();
    let mut i: usize = 0;
    while i < n
        invariant
            bytes@ == b,
            i <= n,
            4 <= body,
            body + n <= bytes.len(),
            payload@ =~= masked(b.subrange(body as int, body + n), b.subrange(body - 4, body as int)).take(
                i as int,
            ),
        decreases n - i,
    {
        payload.push(bytes[body + i] ^ bytes[body - 4 + i % 4]);
        i = i + 1;
    }
    buf.advance(body + n);
    assert(payload@ =~= masked(
        b.subrange(body as int, body + n),
        b.subrange(body - 4, body as int),
    ));
    Ok(Frame { fin, opcode, payload })
}

/// Four big-endian octets of `buf` from `i` on.
fn read_be32(buf: &[u8], i: usize) -> (v: u64)
    requires
        i + 4 <= buf@.len(),
    ensures
        v == be32(buf@, i as int),
        v < 0x1_0000_0000,
{
    buf[i] as u64 * 0x100_0000 + buf[i + 1] as u64 * 0x1_0000 + buf[i + 2] as u64 * 0x100 + buf[i
        + 3] as u64
}

proof fn lemma_unmask(payload: Seq<u8>, mask: Seq<u8>)
    ensures
        masked(masked(payload, mask), mask) =~= payload,
{
    assert forall|i: int| 0 <= i < payload.len() implies #[trigger] masked(
        masked(payload, mask),
        mask,
    )[i] == payload[i] by {
        let a = payload[i];
        let m = mask[i % 4];
        assert((a ^ m) ^ m == a) by (bit_vector);
    }
}

/// Whether RFC 6455 lets a frame of this kind carry this payload.
pub open spec fn well_formed_frame(fin: bool, opcode: OpCode, payload: Seq<u8>) -> bool {
    opcode.control() ==> fin && payload.len() <= 125
}

proof fn lemma_octets(n: u64)
    by (bit_vector)
    ensures
        (n / 0x100_0000_0000_0000u64 % 256u64) * 0x100_0000_0000_0000u64 + (
        n / 0x1_0000_0000_0000u64 % 256u64) * 0x1_0000_0000_0000u64 + (n / 0x100_0000_0000u64
            % 256u64) * 0x100_0000_0000u64 + (n / 0x1_0000_0000u64 % 256u64) * 0x1_0000_0000u64 + (
        n / 0x100_0000u64 % 256u64) * 0x100_0000u64 + (n / 0x1_0000u64 % 256u64) * 0x1_0000u64 + (n
            / 0x100u64 % 256u64) * 0x100u64 + n % 256u64 == n,
{
}

proof fn lemma_header(fin: bool, opcode: OpCode, payload: Seq<u8>, mask: Seq<u8>, buf: Seq<u8>)
    requires
        mask.len() == 4,
        payload.len() <= u64::MAX,
        well_formed_frame(fin, opcode, payload),
        buf.len() >= 2,
        buf[0] == first_octet(fin, opcode),
        buf.len() >= 1 + length_octets(payload.len(), 128).len() ==> buf.subrange(
            1,
            1 + length_octets(payload.len(), 128).len() as int,
        ) == length_octets(payload.len(), 128),
        buf[1] == length_octets(payload.len(), 128)[0],
    ensures
        buf[0] / 16 % 8 == 0,
        OpCode::of_code((buf[0] % 16) as u8) == Some(opcode),
        (buf[0] >= 128) == fin,
        buf[1] >= 128,
        opcode.control() ==> buf[1] % 128 <= 125,
        length_octets(payload.len(), 128).len() == 1 + extra_octets((buf[1] % 128) as int),
        buf.len() >= 1 + length_octets(payload.len(), 128).len() ==> declared_len(buf)
            == payload.len(),
{
    let lo = length_octets(payload.len(), 128);
    if buf.len() >= 1 + lo.len() {
        assert forall|i: int| 0 <= i < lo.len() implies #[trigger] lo[i] == buf[i + 1] by {
            assert(buf.subrange(1, 1 + lo.len() as int)[i] == buf[i + 1]);
        }
        if payload.len() >= 65536 {
            lemma_octets(payload.len() as u64);
            assert(lo[1] == buf[2] && lo[2] == buf[3] && lo[3] == buf[4] && lo[4] == buf[5]);
            assert(lo[5] == buf[6] && lo[6] == buf[7] && lo[7] == buf[8] && lo[8] == buf[9]);
        } else if payload.len() >= 126 {
            assert(lo[1] == buf[2] && lo[2] == buf[3]);
        }
    }
}

/// The codes on the wire are those of RFC 6455, section 11.8, and reading a code
/// is the inverse of writing it: no two frame types share one, and no other code
/// is read as a frame type.
pub proof fn opcodes_are_registered(opcode: OpCode, code: u8)
    ensures
        opcode.code() == (match opcode {
            OpCode::Continuation => 0x0u8,
            OpCode::Text => 0x1u8,
            OpCode::Binary => 0x2u8,
            OpCode::Close => 0x8u8,
            OpCode::Ping => 0x9u8,
            OpCode::Pong => 0xau8,
        }),
        OpCode::of_code(opcode.code()) == Some(opcode),
        OpCode::of_code(code) == Some(opcode) <==> opcode.code() == code,
        OpCode::of_code(code) is None <==> 3 <= code <= 7 || code >= 11,
        opcode.control() <==> opcode == OpCode::Close || opcode == OpCode::Ping || opcode
            == OpCode::Pong,
{
}

/// Reading a server frame back by RFC 6455, section 5.2, finds what was encoded,
/// whatever follows it on the wire: the final bit and the opcode in the first
/// octet with the reserved bits clear, the mask bit clear, the length of the
/// payload in its shortest form and big-endian, and then the payload.
pub proof fn server_frames_read_back(fin: bool, opcode: OpCode, payload: Seq<u8>, tail: Seq<u8>)
    requires
        payload.len() <= u64::MAX,
    ensures
        ({
            let wire = server_frame(fin, opcode, payload) + tail;
            let head: int = 2 + extra_octets(wire[1] as int);
            &&& wire[0] >= 128 <==> fin
            &&& OpCode::of_code((wire[0] % 128) as u8) == Some(opcode)
            &&& wire[0] / 16 % 8 == 0
            &&& wire[1] < 128
            &&& declared_len(wire) == payload.len()
            &&& head == (if wire[1] <= 125 {
                2int
            } else if wire[1] == 126 {
                4
            } else {
                10
            })
            &&& wire[1] <= 125 ==> payload.len() == wire[1]
            &&& wire[1] == 126 ==> payload.len() >= 126 && payload.len() == wire[2] * 256 + wire[3]
            &&& wire[1] == 127 ==> payload.len() >= 65536 && payload.len() == wire[2]
                * 0x100_0000_0000_0000 + wire[3] * 0x1_0000_0000_0000 + wire[4] * 0x100_0000_0000
                + wire[5] * 0x1_0000_0000 + wire[6] * 0x100_0000 + wire[7] * 0x1_0000 + wire[8]
                * 0x100 + wire[9]
            &&& server_frame(fin, opcode, payload).len() == head + payload.len()
            &&& wire.subrange(head, head + payload.len()) == payload
            &&& wire.skip(head + payload.len()) == tail
        }),
{
    let frame = server_frame(fin, opcode, payload);
    let wire = frame + tail;
    let lo = length_octets(payload.len(), 0);
    assert forall|i: int| 0 <= i < lo.len() implies #[trigger] lo[i] == wire[i + 1] by {}
    if payload.len() >= 65536 {
        lemma_octets(payload.len() as u64);
        assert(lo[0] == wire[1] && lo[1] == wire[2] && lo[2] == wire[3] && lo[3] == wire[4]);
        assert(lo[4] == wire[5] && lo[5] == wire[6] && lo[6] == wire[7] && lo[7] == wire[8]);
        assert(lo[8] == wire[9]);
    } else if payload.len() >= 126 {
        assert(lo[0] == wire[1] && lo[1] == wire[2] && lo[2] == wire[3]);
    } else {
        assert(lo[0] == wire[1]);
    }
    let head: int = 2 + extra_octets(wire[1] as int);
    assert(head == 1 + lo.len());
    assert(wire.subrange(head, head + payload.len()) =~= payload);
    assert(wire.skip(head + payload.len()) =~= tail);
}

/// A frame that is parsed is what its octets say by RFC 6455, section 5.2: the
/// final bit and the opcode of the first, the length in the shortest or a longer
/// form, four mask octets, and a payload of which octet `i` is combined with mask
/// octet `i` modulo four.
pub proof fn parsing_reads_the_octets(buf: Seq<u8>, max_payload: nat, i: int)
    requires
        parsed(buf, max_payload) is Whole,
    ensures
        ({
            let f = parsed(buf, max_payload)->frame;
            let n = f.payload.len();
            let head: int = if buf[1] == 254 {
                4
            } else if buf[1] == 255 {
                10
            } else {
                2
            };
            &&& f.fin == (buf[0] >= 128)
            &&& f.opcode.code() == buf[0] % 128
            &&& buf[1] >= 128
            &&& buf[1] <= 253 ==> n == buf[1] - 128
            &&& buf[1] == 254 ==> n == buf[2] * 256 + buf[3]
            &&& buf[1] == 255 ==> n == buf[2] * 0x100_0000_0000_0000 + buf[3] * 0x1_0000_0000_0000
                + buf[4] * 0x100_0000_0000 + buf[5] * 0x1_0000_0000 + buf[6] * 0x100_0000 + buf[7]
                * 0x1_0000 + buf[8] * 0x100 + buf[9]
            &&& parsed(buf, max_payload)->used == head + 4 + n
            &&& 0 <= i < n ==> f.payload[i] == buf[head + 4 + i] ^ buf[head + i % 4]
        }),
{
}

/// Which buffers hold no frame, and why. A reserved bit, an unknown opcode, a
/// clear mask bit and a control frame that is fragmented or longer than 125 bytes
/// are violations, told in that order and from the first two octets alone; a
/// declared length over the limit is refused as soon as its octets are there, and
/// never one at or under it; else the parser waits exactly while octets are
/// missing.
pub proof fn what_the_parser_refuses(buf: Seq<u8>, max_payload: nat)
    requires
        buf.len() >= 2,
    ensures
        ({
            let reserved = buf[0] % 128 >= 16;
            let code = buf[0] % 16;
            let unknown = 3 <= code <= 7 || code >= 11;
            let control = code >= 8;
            let broken = reserved || unknown || buf[1] < 128 || (control && (buf[0] < 128 || buf[1]
                > 253));
            let head: int = if buf[1] == 254 {
                4
            } else if buf[1] == 255 {
                10
            } else {
                2
            };
            &&& parsed(buf, max_payload) is Protocol <==> broken
            &&& reserved ==> parsed(buf, max_payload) == Parsed::Protocol("reserved bits set")
            &&& !reserved && unknown ==> parsed(buf, max_payload) == Parsed::Protocol(
                "unknown opcode",
            )
            &&& !reserved && !unknown && buf[1] < 128 ==> parsed(buf, max_payload)
                == Parsed::Protocol("unmasked client frame")
            &&& !reserved && !unknown && buf[1] >= 128 && control && buf[0] < 128 ==> parsed(
                buf,
                max_payload,
            ) == Parsed::Protocol("fragmented control frame")
            &&& !reserved && !unknown && control && buf[0] >= 128 && buf[1] > 253 ==> parsed(
                buf,
                max_payload,
            ) == Parsed::Protocol("oversized control frame")
            &&& !broken ==> (parsed(buf, max_payload) is TooLarge <==> buf.len() >= head
                && declared_len(buf) > max_payload)
            &&& !broken && buf.len() >= head && declared_len(buf) <= max_payload ==> (parsed(
                buf,
                max_payload,
            ) is Whole <==> buf.len() >= head + 4 + declared_len(buf))
            &&& !broken && buf.len() < head ==> parsed(buf, max_payload) is Incomplete
        }),
{
}

/// Parsing a client frame gives back exactly what was encoded, whatever bytes
/// follow it in the buffer, and takes exactly its own bytes.
pub proof fn parse_inverts_client_encoding(
    fin: bool,
    opcode: OpCode,
    payload: Seq<u8>,
    mask: Seq<u8>,
    tail: Seq<u8>,
    max_payload: nat,
)
    requires
        mask.len() == 4,
        payload.len() <= max_payload,
        payload.len() <= u64::MAX,
        well_formed_frame(fin, opcode, payload),
    ensures
        parsed(client_frame(fin, opcode, payload, mask) + tail, max_payload) == (Parsed::Whole {
            frame: FrameModel { fin, opcode, payload },
            used: client_frame(fin, opcode, payload, mask).len(),
        }),
{
    let wire = client_frame(fin, opcode, payload, mask);
    let buf = wire + tail;
    let lo = length_octets(payload.len(), 128);
    assert(buf.subrange(1, 1 + lo.len() as int) =~= lo);
    lemma_header(fin, opcode, payload, mask, buf);
    let body: int = 5 + lo.len() as int;
    assert(buf.subrange(body - 4, body) =~= mask);
    assert(buf.subrange(body, body + payload.len()) =~= masked(payload, mask));
    lemma_unmask(payload, mask);
}

/// A proper prefix of a client frame is never mistaken for a frame or for an
/// error: the parser waits for the rest.
pub proof fn parse_waits_for_the_rest(
    fin: bool,
    opcode: OpCode,
    payload: Seq<u8>,
    mask: Seq<u8>,
    n: nat,
    max_payload: nat,
)
    requires
        mask.len() == 4,
        payload.len() <= max_payload,
        payload.len() <= u64::MAX,
        well_formed_frame(fin, opcode, payload),
        n < client_frame(fin, opcode, payload, mask).len(),
    ensures
        parsed(client_frame(fin, opcode, payload, mask).take(n as int), max_payload) == (
            Parsed::Incomplete),
{
    let buf = client_frame(fin, opcode, payload, mask).take(n as int);
    let lo = length_octets(payload.len(), 128);
    if n >= 2 {
        if n >= 1 + lo.len() {
            assert(buf.subrange(1, 1 + lo.len() as int) =~= lo);
        }
        lemma_header(fin, opcode, payload, mask, buf);
    }
}

/// Whether a whole frame is at the front of the buffer does not depend on what
/// follows it.
pub proof fn parse_ignores_what_follows(buf: Seq<u8>, more: Seq<u8>, max_payload: nat)
    requires
        parsed(buf, max_payload) is Whole,
    ensures
        parsed(buf + more, max_payload) == parsed(buf, max_payload),
{
    let all = buf + more;
    let body = 2 + extra_octets((buf[1] % 128) as int) + 4;
    let n = declared_len(buf);
    assert(declared_len(all) == n);
    assert(all.subrange(body, body + n) =~= buf.subrange(body, body + n));
    assert(all.subrange(body - 4, body) =~= buf.subrange(body - 4, body));
}

/// Every frame that is parsed is one that some client encoding produces: parsing
/// accepts nothing beyond the well-formed frames within the size limit.
pub proof fn parsed_frames_are_well_formed(buf: Seq<u8>, max_payload: nat)
    requires
        parsed(buf, max_payload) is Whole,
    ensures
        ({
            let f = parsed(buf, max_payload)->frame;
            &&& well_formed_frame(f.fin, f.opcode, f.payload)
            &&& f.payload.len() <= max_payload
            &&& 6 <= parsed(buf, max_payload)->used <= buf.len()
        }),
{
}

} // verus!
