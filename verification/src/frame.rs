//! WebSocket frame codec for single, unfragmented, unextended text frames.
//!
//! A frame starts with a two-byte header: FIN flag, three reserved bits, a
//! four-bit opcode, a MASK flag and a seven-bit length field.  Length values
//! 126 and 127 announce a 16-bit or 64-bit big-endian extended length.  A
//! masked frame carries a four-byte key, and its payload is recovered by
//! XORing each payload byte with the key cycled every four bytes.

use vstd::prelude::*;
use vstd::pervasive::VecAdditionalExecFns;

verus! {

/// The 16-bit frame header with the FIN bit set.
pub const FIN_MASK: u16 = 0x8000;
/// The three reserved bits of the 16-bit frame header.
pub const RSV_MASK: u16 = 0x7000;
/// The opcode bits of the 16-bit frame header.
pub const OPCODE_MASK: u16 = 0x0F00;
/// The MASK bit of the 16-bit frame header.
pub const MASK_MASK: u16 = 0x0080;
/// The seven-bit payload length field of the 16-bit frame header.
pub const PAYLOAD_LEN_MASK: u16 = 0x007F;

/// The value of two bytes read as a big-endian 16-bit integer.
pub open spec fn be16(b0: u8, b1: u8) -> u16 {
    (b0 * 256 + b1) as u16
}

/// The big-endian bytes of a 16-bit integer.
pub open spec fn be16_bytes(n: u16) -> Seq<u8> {
    seq![(n / 256) as u8, (n % 256) as u8]
}

/// The value of eight bytes read as a big-endian 64-bit integer.
pub open spec fn be64(b: Seq<u8>) -> int
    recommends
        b.len() == 8,
{
    b[0] * 0x100000000000000 + b[1] * 0x1000000000000 + b[2] * 0x10000000000
        + b[3] * 0x100000000 + b[4] * 0x1000000 + b[5] * 0x10000 + b[6] * 0x100 + b[7]
}

/// The big-endian bytes of a 64-bit integer.
pub open spec fn be64_bytes(n: u64) -> Seq<u8> {
    seq![
        (n / 0x100000000000000) as u8,
        ((n / 0x1000000000000) % 256) as u8,
        ((n / 0x10000000000) % 256) as u8,
        ((n / 0x100000000) % 256) as u8,
        ((n / 0x1000000) % 256) as u8,
        ((n / 0x10000) % 256) as u8,
        ((n / 0x100) % 256) as u8,
        (n % 256) as u8,
    ]
}

/// Reading back the big-endian bytes of a 16-bit integer yields the integer.
pub proof fn lemma_be16_roundtrip(n: u16)
    ensures
        be16(be16_bytes(n)[0], be16_bytes(n)[1]) == n,
{
}

/// Reading back the big-endian bytes of a 64-bit integer yields the integer.
pub proof fn lemma_be64_roundtrip(n: u64)
    ensures
        be64(be64_bytes(n)) == n,
{
    assert(be64(be64_bytes(n)) == n) by (bit_vector)
        requires
            be64_bytes(n) =~= seq![
                (n / 0x100000000000000) as u8,
                ((n / 0x1000000000000) % 256) as u8,
                ((n / 0x10000000000) % 256) as u8,
                ((n / 0x100000000) % 256) as u8,
                ((n / 0x1000000) % 256) as u8,
                ((n / 0x10000) % 256) as u8,
                ((n / 0x100) % 256) as u8,
                (n % 256) as u8,
            ],
    ;
}

/// Combines two bytes into the big-endian 16-bit integer they encode.
pub fn be_u16(b0: u8, b1: u8) -> (r: u16)
    ensures
        r == be16(b0, b1),
{
    (b0 as u16) * 256 + (b1 as u16)
}

/// Combines eight bytes into the big-endian 64-bit integer they encode.
pub fn be_u64(b: &[u8; 8]) -> (r: u64)
    ensures
        r == be64(b@),
{
    (b[0] as u64) * 0x100000000000000 + (b[1] as u64) * 0x1000000000000
        + (b[2] as u64) * 0x10000000000 + (b[3] as u64) * 0x100000000
        + (b[4] as u64) * 0x1000000 + (b[5] as u64) * 0x10000 + (b[6] as u64) * 0x100
        + (b[7] as u64)
}

/// The payload XORed with a four-byte masking key cycled every four bytes.
pub open spec fn mask_seq(p: Seq<u8>, key: Seq<u8>) -> Seq<u8>
    recommends
        key.len() == 4,
{
    Seq::new(p.len(), |i: int| p[i] ^ key[i % 4])
}

proof fn lemma_xor_involutive(x: u8, y: u8)
    ensures
        (x ^ y) ^ y == x,
{
    assert((x ^ y) ^ y == x) by (bit_vector);
}

/// Masking is an involution: applying the same key twice restores the payload.
pub proof fn lemma_mask_involutive(p: Seq<u8>, key: Seq<u8>)
    requires
        key.len() == 4,
    ensures
        mask_seq(mask_seq(p, key), key) == p,
{
    let m = mask_seq(mask_seq(p, key), key);
    assert forall|i: int| 0 <= i < p.len() implies m[i] == p[i] by {
        lemma_xor_involutive(p[i], key[i % 4]);
    }
    assert(m =~= p);
}

/// XORs the payload in place with the key cycled every four bytes.
pub fn apply_mask(data: &mut Vec<u8>, key: &[u8; 4])
    ensures
        final(data)@ == mask_seq(old(data)@, key@),
{
    let n = data.len();
    let mut i: usize = 0;
    while i < n
        invariant
            n == data.len(),
            i <= n,
            data@.len() == old(data)@.len(),
            forall|j: int| 0 <= j < i ==> data@[j] == mask_seq(old(data)@, key@)[j],
            forall|j: int| i <= j < n ==> data@[j] == old(data)@[j],
        decreases n - i,
    {
        let b = data[i] ^ key[i % 4];
        data.set(i, b);
        i += 1;
    }
    assert(data@ =~= mask_seq(old(data)@, key@));
}

/// Whether the FIN bit of a 16-bit frame header is set.
pub open spec fn hdr_fin(h: u16) -> bool {
    h & FIN_MASK != 0
}

/// The three reserved bits of a 16-bit frame header.
pub open spec fn hdr_rsv(h: u16) -> u8 {
    ((h & RSV_MASK) >> 12) as u8
}

/// The four-bit opcode of a 16-bit frame header.
pub open spec fn hdr_opcode(h: u16) -> u8 {
    ((h & OPCODE_MASK) >> 8) as u8
}

/// Whether the MASK bit of a 16-bit frame header is set.
pub open spec fn hdr_masked(h: u16) -> bool {
    h & MASK_MASK != 0
}

/// The seven-bit payload length field of a 16-bit frame header.
pub open spec fn hdr_len7(h: u16) -> u8 {
    (h & PAYLOAD_LEN_MASK) as u8
}

/// The fixed fields of a frame header, before any extended length is read.
pub struct FrameHeader {
    /// Whether the frame is marked final.
    pub fin: bool,
    /// The three reserved bits.
    pub rsv: u8,
    /// The four-bit opcode.
    pub opcode: u8,
    /// Whether the payload is masked.
    pub masked: bool,
    /// The seven-bit length field: a length up to 125, or 126 or 127 to
    /// announce an extended length.
    pub len7: u8,
}

/// Splits the first two bytes of a frame into the header fields.
pub fn parse_header(b0: u8, b1: u8) -> (r: FrameHeader)
    ensures
        r.fin == hdr_fin(be16(b0, b1)),
        r.rsv == hdr_rsv(be16(b0, b1)),
        r.opcode == hdr_opcode(be16(b0, b1)),
        r.masked == hdr_masked(be16(b0, b1)),
        r.len7 == hdr_len7(be16(b0, b1)),
{
    let h = be_u16(b0, b1);
    let r = FrameHeader {
        fin: (h & FIN_MASK) != 0,
        rsv: ((h & RSV_MASK) >> 12) as u8,
        opcode: ((h & OPCODE_MASK) >> 8) as u8,
        masked: (h & MASK_MASK) != 0,
        len7: (h & PAYLOAD_LEN_MASK) as u8,
    };
    r
}

/// A decoded frame: the mathematical value of a [`Frame`].
#[verifier::ext_equal]
pub struct FrameSpec {
    /// Whether the frame is marked final.
    pub fin: bool,
    /// The three reserved bits.
    pub rsv: u8,
    /// The four-bit opcode.
    pub opcode: u8,
    /// Whether the payload arrived masked.
    pub masked: bool,
    /// The masking key, all zeroes for an unmasked frame.
    pub mask_key: Seq<u8>,
    /// The payload bytes, already unmasked.
    pub payload: Seq<u8>,
}

/// One complete frame read from a byte stream, with its payload unmasked.
#[derive(Debug, PartialEq, Eq)]
pub struct Frame {
    /// Whether the frame is marked final.
    pub fin: bool,
    /// The three reserved bits.
    pub rsv: u8,
    /// The four-bit opcode.
    pub opcode: u8,
    /// Whether the payload arrived masked.
    pub masked: bool,
    /// The masking key, all zeroes for an unmasked frame.
    pub mask_key: [u8; 4],
    /// The payload bytes, already unmasked.
    pub payload: Vec<u8>,
}

impl View for Frame {
    type V = FrameSpec;

    open spec fn view(&self) -> FrameSpec {
        FrameSpec {
            fin: self.fin,
            rsv: self.rsv,
            opcode: self.opcode,
            masked: self.masked,
            mask_key: self.mask_key@,
            payload: self.payload@,
        }
    }
}

/// Why a frame could not be decoded: the bytes end before the header, the
/// extended length, the masking key or the payload is complete.
#[derive(Clone, Copy, Debug, PartialEq, Eq, Structural)]
pub enum DecodeError {
    /// The input holds fewer bytes than the frame announces.
    Truncated,
}

/// Parses the key and payload of a frame whose header `h` stands at the
/// start of `b` and whose payload length `plen` begins at offset `off`.
pub open spec fn parse_payload_at(b: Seq<u8>, h: u16, off: int, plen: int) -> Option<
    (FrameSpec, int),
> {
    let koff = if hdr_masked(h) {
        off + 4
    } else {
        off
    };
    if b.len() < koff + plen {
        None
    } else {
        let key = if hdr_masked(h) {
            b.subrange(off, off + 4)
        } else {
            seq![0u8, 0u8, 0u8, 0u8]
        };
        let raw = b.subrange(koff, koff + plen);
        Some(
            (
                FrameSpec {
                    fin: hdr_fin(h),
                    rsv: hdr_rsv(h),
                    opcode: hdr_opcode(h),
                    masked: hdr_masked(h),
                    mask_key: key,
                    payload: if hdr_masked(h) {
                        mask_seq(raw, key)
                    } else {
                        raw
                    },
                },
                koff + plen,
            ),
        )
    }
}

/// Parses one frame from the start of `b`: the frame and the number of bytes
/// it occupies, or `None` when `b` is too short.  The length field is fully
/// resolved before any payload byte is taken, and a masked payload comes out
/// unmasked.
pub open spec fn parse_frame_spec(b: Seq<u8>) -> Option<(FrameSpec, int)> {
    if b.len() < 2 {
        None
    } else {
        let h = be16(b[0], b[1]);
        if hdr_len7(h) == 126 {
            if b.len() < 4 {
                None
            } else {
                parse_payload_at(b, h, 4, be16(b[2], b[3]) as int)
            }
        } else if hdr_len7(h) == 127 {
            if b.len() < 10 {
                None
            } else {
                parse_payload_at(b, h, 10, be64(b.subrange(2, 10)))
            }
        } else {
            parse_payload_at(b, h, 2, hdr_len7(h) as int)
        }
    }
}

/// Decodes one complete frame from the start of `buf`, returning it with the
/// number of bytes it occupies.  No frame is partially observable: the result
/// is either a complete, correctly unmasked frame or an error.
pub fn decode_frame(buf: &[u8]) -> (r: Result<(Frame, usize), DecodeError>)
    ensures
        match r {
            Ok(p) => parse_frame_spec(buf@) == Some((p.0@, p.1 as int)),
            Err(e) => parse_frame_spec(buf@) is None && e == DecodeError::Truncated,
        },
{
    if buf.len() < 2 {
        return Err(DecodeError::Truncated);
    }
    let hdr = parse_header(buf[0], buf[1]);
    let ghost h = be16(buf@[0], buf@[1]);
    let plen: u64;
    let off: usize;
    if hdr.len7 == 126 {
        if buf.len() < 4 {
            return Err(DecodeError::Truncated);
        }
        plen = be_u16(buf[2], buf[3]) as u64;
        off = 4;
    } else if hdr.len7 == 127 {
        if buf.len() < 10 {
            return Err(DecodeError::Truncated);
        }
        let ext: [u8; 8] = [buf[2], buf[3], buf[4], buf[5], buf[6], buf[7], buf[8], buf[9]];
        assert(ext@ =~= buf@.subrange(2, 10));
        plen = be_u64(&ext);
        off = 10;
    } else {
        plen = hdr.len7 as u64;
        off = 2;
    }
    let koff: usize = if hdr.masked {
        off + 4
    } else {
        off
    };
    if buf.len() < koff {
        return Err(DecodeError::Truncated);
    }
    if plen > (buf.len() - koff) as u64 {
        return Err(DecodeError::Truncated);
    }
    let plen_us: usize = plen as usize;
    let key: [u8; 4] = if hdr.masked {
        [buf[off], buf[off + 1], buf[off + 2], buf[off + 3]]
    } else {
        [0u8, 0u8, 0u8, 0u8]
    };
    let n: usize = buf.len();
    let mut payload: Vec<u8> = Vec::new();
    let mut i: usize = 0;
    while i < plen_us
        invariant
            n == buf@.len(),
            koff + plen_us <= n,
            i <= plen_us,
            payload@ =~= buf@.subrange(koff as int, koff + i),
        decreases plen_us - i,
    {
        payload.push(buf[koff + i]);
        assert(payload@ =~= buf@.subrange(koff as int, koff + i + 1));
        i += 1;
    }
    assert(payload@ =~= buf@.subrange(koff as int, koff + plen as int));
    if hdr.masked {
        apply_mask(&mut payload, &key);
        assert(key@ =~= buf@.subrange(off as int, off + 4));
    }
    let frame = Frame {
        fin: hdr.fin,
        rsv: hdr.rsv,
        opcode: hdr.opcode,
        masked: hdr.masked,
        mask_key: key,
        payload,
    };
    proof {
        if !hdr.masked {
            assert(key@ =~= seq![0u8, 0u8, 0u8, 0u8]);
        }
        let p = parse_payload_at(buf@, h, off as int, plen as int);
        assert(p matches Some(q) && q.0 =~~= frame@ && q.1 == koff + plen_us);
    }
    Ok((frame, koff + plen_us))
}

/// The bytes of a final text frame (opcode 0x1) carrying payload `p`,
/// masked with `key` when `masked` is set.  The length encoding is the
/// minimal correct one: the seven-bit field up to 125, the 16-bit extended
/// length from 126 to 65535, and the 64-bit extended length above that.
pub open spec fn frame_bytes(p: Seq<u8>, masked: bool, key: Seq<u8>) -> Seq<u8>
    recommends
        masked ==> key.len() == 4,
        p.len() < 0x10000000000000000,
{
    let flag: u8 = if masked {
        128u8
    } else {
        0u8
    };
    let len_part = if p.len() <= 125 {
        seq![(p.len() + flag) as u8]
    } else if p.len() <= 0xFFFF {
        seq![(126 + flag) as u8] + be16_bytes(p.len() as u16)
    } else {
        seq![(127 + flag) as u8] + be64_bytes(p.len() as u64)
    };
    let body = if masked {
        key + mask_seq(p, key)
    } else {
        p
    };
    seq![0x81u8] + len_part + body
}

/// Encodes a server-to-client text frame: final, opcode 0x1, unmasked, with
/// the minimal correct length encoding for the payload.
pub fn encode_frame(payload: &[u8]) -> (r: Vec<u8>)
    ensures
        r@ == frame_bytes(payload@, false, Seq::<u8>::empty()),
{
    let mut out: Vec<u8> = Vec::new();
    out.push(0x81);
    let n: usize = payload.len();
    if n <= 125 {
        out.push(n as u8);
    } else if n <= 0xFFFF {
        out.push(126);
        out.push((n / 256) as u8);
        out.push((n % 256) as u8);
        assert(out@ =~= seq![0x81u8] + (seq![126u8] + be16_bytes(payload@.len() as u16)));
    } else {
        out.push(127);
        let n64: u64 = n as u64;
        out.push((n64 / 0x100000000000000) as u8);
        out.push(((n64 / 0x1000000000000) % 256) as u8);
        out.push(((n64 / 0x10000000000) % 256) as u8);
        out.push(((n64 / 0x100000000) % 256) as u8);
        out.push(((n64 / 0x1000000) % 256) as u8);
        out.push(((n64 / 0x10000) % 256) as u8);
        out.push(((n64 / 0x100) % 256) as u8);
        out.push((n64 % 256) as u8);
        assert(out@ =~= seq![0x81u8] + (seq![127u8] + be64_bytes(payload@.len() as u64)));
    }
    let ghost prefix = out@;
    let mut i: usize = 0;
    while i < n
        invariant
            n == payload@.len(),
            i <= n,
            out@ =~= prefix + payload@.subrange(0, i as int),
        decreases n - i,
    {
        out.push(payload[i]);
        assert(out@ =~= prefix + payload@.subrange(0, i + 1));
        i += 1;
    }
    assert(payload@.subrange(0, n as int) =~= payload@);
    assert(out@ =~= frame_bytes(payload@, false, Seq::<u8>::empty()));
    out
}

proof fn lemma_hdr_bits(l: u8)
    ensures
        hdr_fin((0x8100 + l) as u16),
        hdr_rsv((0x8100 + l) as u16) == 0,
        hdr_opcode((0x8100 + l) as u16) == 1,
        hdr_masked((0x8100 + l) as u16) == (l >= 128),
        hdr_len7((0x8100 + l) as u16) == l % 128,
{
    assert((0x8100 + l) as u16 & 0x8000 != 0 && ((0x8100 + l) as u16 & 0x7000) >> 12 == 0
        && ((0x8100 + l) as u16 & 0x0F00) >> 8 == 1 && ((0x8100 + l) as u16 & 0x0080 != 0) == (l
        >= 128) && ((0x8100 + l) as u16 & 0x007F) == l % 128) by (bit_vector);
}

/// Decoding a frame built by [`frame_bytes`] recovers exactly the original
/// payload, whether or not a masking key was applied, and consumes the whole
/// encoding: the codec is lossless for every payload length that the 64-bit
/// extended length field can carry.
#[verifier::rlimit(100)]
pub proof fn lemma_frame_roundtrip(p: Seq<u8>, masked: bool, key: Seq<u8>)
    requires
        masked ==> key.len() == 4,
        p.len() < 0x10000000000000000,
    ensures
        parse_frame_spec(frame_bytes(p, masked, key)) == Some(
            (
                FrameSpec {
                    fin: true,
                    rsv: 0,
                    opcode: 1,
                    masked: masked,
                    mask_key: if masked {
                        key
                    } else {
                        seq![0u8, 0u8, 0u8, 0u8]
                    },
                    payload: p,
                },
                frame_bytes(p, masked, key).len() as int,
            ),
        ),
{
    let b = frame_bytes(p, masked, key);
    let flag: u8 = if masked {
        128u8
    } else {
        0u8
    };
    let body = if masked {
        key + mask_seq(p, key)
    } else {
        p
    };
    if masked {
        lemma_mask_involutive(p, key);
    }
    let expected = FrameSpec {
        fin: true,
        rsv: 0,
        opcode: 1,
        masked: masked,
        mask_key: if masked {
            key
        } else {
            seq![0u8, 0u8, 0u8, 0u8]
        },
        payload: p,
    };
    if p.len() <= 125 {
        let l = (p.len() + flag) as u8;
        assert(b =~= seq![0x81u8, l] + body);
        lemma_hdr_bits(l);
        let h = be16(b[0], b[1]);
        assert(h == (0x8100 + l) as u16);
        assert(l % 128 == p.len()) by {
            assert(l == p.len() + flag);
        }
        assert(hdr_len7(h) != 126 && hdr_len7(h) != 127);
        let off = 2int;
        let koff = if masked {
            6int
        } else {
            2int
        };
        assert(b.len() == koff + p.len());
        if masked {
            assert(b.subrange(2, 6) =~= key);
            assert(b.subrange(koff, koff + p.len()) =~= mask_seq(p, key));
        } else {
            assert(b.subrange(koff, koff + p.len()) =~= p);
        }
        let r = parse_payload_at(b, h, off, p.len() as int);
        assert(r matches Some(q) && q.0 =~~= expected && q.1 == b.len());
    } else if p.len() <= 0xFFFF {
        let l = (126 + flag) as u8;
        assert(b =~= seq![0x81u8, l] + be16_bytes(p.len() as u16) + body);
        lemma_hdr_bits(l);
        let h = be16(b[0], b[1]);
        assert(h == (0x8100 + l) as u16);
        assert(hdr_len7(h) == 126);
        lemma_be16_roundtrip(p.len() as u16);
        assert(b[2] == be16_bytes(p.len() as u16)[0] && b[3] == be16_bytes(p.len() as u16)[1]);
        assert(be16(b[2], b[3]) == p.len());
        let off = 4int;
        let koff = if masked {
            8int
        } else {
            4int
        };
        assert(b.len() == koff + p.len());
        if masked {
            assert(b.subrange(4, 8) =~= key);
            assert(b.subrange(koff, koff + p.len()) =~= mask_seq(p, key));
        } else {
            assert(b.subrange(koff, koff + p.len()) =~= p);
        }
        let r = parse_payload_at(b, h, off, p.len() as int);
        assert(r matches Some(q) && q.0 =~~= expected && q.1 == b.len());
    } else {
        let l = (127 + flag) as u8;
        assert(b =~= seq![0x81u8, l] + be64_bytes(p.len() as u64) + body);
        lemma_hdr_bits(l);
        let h = be16(b[0], b[1]);
        assert(h == (0x8100 + l) as u16);
        assert(hdr_len7(h) == 127);
        lemma_be64_roundtrip(p.len() as u64);
        assert(b.subrange(2, 10) =~= be64_bytes(p.len() as u64));
        assert(be64(b.subrange(2, 10)) == p.len());
        let off = 10int;
        let koff = if masked {
            14int
        } else {
            10int
        };
        assert(b.len() == koff + p.len());
        if masked {
            assert(b.subrange(10, 14) =~= key);
            assert(b.subrange(koff, koff + p.len()) =~= mask_seq(p, key));
        } else {
            assert(b.subrange(koff, koff + p.len()) =~= p);
        }
        let r = parse_payload_at(b, h, off, p.len() as int);
        assert(r matches Some(q) && q.0 =~~= expected && q.1 == b.len());
    }
}

} // verus!
