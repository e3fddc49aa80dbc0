//! The fixed twelve-byte header that opens every DNS message.

use vstd::prelude::*;

verus! {

/// Number of bytes a header takes on the wire.
pub const HEADER_LEN: usize = 12;

/// The header of a DNS message.
#[derive(Clone, Copy, Debug, PartialEq, Eq, Structural)]
pub struct Header {
    /// Transaction id.
    pub id: u16,
    /// `false` for a query, `true` for a response.
    pub qr: bool,
    /// Kind of query, four bits.
    pub opcode: u8,
    /// Authoritative answer.
    pub aa: bool,
    /// The message was truncated.
    pub tc: bool,
    /// Recursion desired.
    pub rd: bool,
    /// Recursion available.
    pub ra: bool,
    /// Reserved, three bits, zero in every message.
    pub z: u8,
    /// Response code, four bits.
    pub rcode: u8,
    /// Number of entries in the question section.
    pub qdcount: u16,
    /// Number of entries in the answer section.
    pub ancount: u16,
    /// Number of entries in the authority section.
    pub nscount: u16,
    /// Number of entries in the additional section.
    pub arcount: u16,
}

/// A flag as a single bit.
pub open spec fn bit(b: bool) -> u8 {
    if b {
        1u8
    } else {
        0u8
    }
}

/// The two bytes of a 16-bit value, most significant first.
pub open spec fn be16(v: u16) -> Seq<u8> {
    seq![(v / 256) as u8, (v % 256) as u8]
}

/// The 16-bit value that two bytes spell, most significant first.
pub open spec fn from_be16(hi: u8, lo: u8) -> u16 {
    (hi * 256 + lo) as u16
}

/// First flags byte: qr, opcode, aa, tc, rd, from the top bit down.
pub open spec fn flags_high(h: Header) -> u8 {
    (bit(h.qr) << 7) | (h.opcode << 3) | (bit(h.aa) << 2) | (bit(h.tc) << 1) | bit(h.rd)
}

/// Second flags byte: ra, the reserved bits, rcode, from the top bit down.
pub open spec fn flags_low(h: Header) -> u8 {
    (bit(h.ra) << 7) | (h.z << 4) | h.rcode
}

/// The wire form of a header: twelve bytes, every multi-byte field big-endian.
pub open spec fn encode_header(h: Header) -> Seq<u8> {
    be16(h.id) + seq![flags_high(h), flags_low(h)] + be16(h.qdcount) + be16(h.ancount) + be16(
        h.nscount,
    ) + be16(h.arcount)
}

/// The header that the first twelve bytes of `bytes` spell. The reserved bits
/// are not read: a decoded header always has them zero.
pub open spec fn decode_header(bytes: Seq<u8>) -> Header
    recommends
        bytes.len() >= 12,
{
    Header {
        id: from_be16(bytes[0], bytes[1]),
        qr: bytes[2] & 0x80 != 0,
        opcode: (bytes[2] & 0x78) >> 3,
        aa: bytes[2] & 0x04 != 0,
        tc: bytes[2] & 0x02 != 0,
        rd: bytes[2] & 0x01 != 0,
        ra: bytes[3] & 0x80 != 0,
        z: 0,
        rcode: bytes[3] & 0x0F,
        qdcount: from_be16(bytes[4], bytes[5]),
        ancount: from_be16(bytes[6], bytes[7]),
        nscount: from_be16(bytes[8], bytes[9]),
        arcount: from_be16(bytes[10], bytes[11]),
    }
}

/// The header of a standard query that asks for recursion.
pub open spec fn query_header(id: u16, qdcount: u16) -> Header {
    Header {
        id,
        qr: false,
        opcode: 0,
        aa: false,
        tc: false,
        rd: true,
        ra: false,
        z: 0,
        rcode: 0,
        qdcount,
        ancount: 0,
        nscount: 0,
        arcount: 0,
    }
}

impl Header {
    /// Every field fits the bits that the wire format gives it.
    pub open spec fn wf(&self) -> bool {
        &&& self.opcode < 16
        &&& self.rcode < 16
        &&& self.z == 0
    }

    /// A header with the given fields and the reserved bits zero. It is well
    /// formed where `opcode` and `rcode` fit their four bits.
    pub fn new(
        id: u16,
        qr: bool,
        opcode: u8,
        aa: bool,
        tc: bool,
        rd: bool,
        ra: bool,
        rcode: u8,
        qdcount: u16,
        ancount: u16,
        nscount: u16,
        arcount: u16,
    ) -> (h: Header)
        ensures
            h == (Header {
                id,
                qr,
                opcode,
                aa,
                tc,
                rd,
                ra,
                z: 0,
                rcode,
                qdcount,
                ancount,
                nscount,
                arcount,
            }),
            h.wf() <==> opcode < 16 && rcode < 16,
    {
        Header { id, qr, opcode, aa, tc, rd, ra, z: 0, rcode, qdcount, ancount, nscount, arcount }
    }

    /// The header of a standard query for `qdcount` questions, recursion desired.
    pub fn new_query(id: u16, qdcount: u16) -> (h: Header)
        ensures
            h == query_header(id, qdcount),
            h.wf(),
    {
        Header::new(id, false, 0, false, false, true, false, 0, qdcount, 0, 0, 0)
    }

    /// Serializes the header to its twelve bytes.
    pub fn to_bytes(&self) -> (out: Vec<u8>)
        ensures
            out@ == encode_header(*self),
            out@.len() == 12,
    {
        let mut out: Vec<u8> = Vec::new();
        push_be16(&mut out, self.id);
        let qr: u8 = flag_bit(self.qr);
        let aa: u8 = flag_bit(self.aa);
        let tc: u8 = flag_bit(self.tc);
        let rd: u8 = flag_bit(self.rd);
        let ra: u8 = flag_bit(self.ra);
        out.push((qr << 7) | (self.opcode << 3) | (aa << 2) | (tc << 1) | rd);
        out.push((ra << 7) | (self.z << 4) | self.rcode);
        push_be16(&mut out, self.qdcount);
        push_be16(&mut out, self.ancount);
        push_be16(&mut out, self.nscount);
        push_be16(&mut out, self.arcount);
        assert(out@ =~= encode_header(*self));
        out
    }

    /// Reads a header from the first twelve bytes of a message.
    pub fn from_bytes(bytes: &[u8; 512]) -> (h: Header)
        ensures
            h == decode_header(bytes@),
            h.wf(),
    {
        let h = Header::new(
            read_be16(bytes[0], bytes[1]),
            (bytes[2] & 0x80) != 0,
            (bytes[2] & 0x78) >> 3,
            (bytes[2] & 0x04) != 0,
            (bytes[2] & 0x02) != 0,
            (bytes[2] & 0x01) != 0,
            (bytes[3] & 0x80) != 0,
            bytes[3] & 0x0F,
            read_be16(bytes[4], bytes[5]),
            read_be16(bytes[6], bytes[7]),
            read_be16(bytes[8], bytes[9]),
            read_be16(bytes[10], bytes[11]),
        );
        proof {
            lemma_decoded_header_wf(bytes@);
        }
        h
    }
}

/// A flag as the byte 0 or 1.
fn flag_bit(b: bool) -> (r: u8)
    ensures
        r == bit(b),
{
    if b {
        1
    } else {
        0
    }
}

/// Appends the two bytes of `v`, most significant first.
pub fn push_be16(out: &mut Vec<u8>, v: u16)
    ensures
        final(out)@ == old(out)@ + be16(v),
{
    out.push((v / 256) as u8);
    out.push((v % 256) as u8);
    assert(out@ =~= old(out)@ + be16(v));
}

/// The 16-bit value of two bytes, most significant first.
pub fn read_be16(hi: u8, lo: u8) -> (v: u16)
    ensures
        v == from_be16(hi, lo),
{
    let h: u16 = hi as u16;
    let l: u16 = lo as u16;
    h * 256 + l
}

/// Whatever the bytes, the header read from them fits the wire format's bit widths.
pub proof fn lemma_decoded_header_wf(bytes: Seq<u8>)
    ensures
        decode_header(bytes).wf(),
{
    let b2 = bytes[2];
    let b3 = bytes[3];
    assert((b2 & 0x78) >> 3 < 16) by (bit_vector);
    assert(b3 & 0x0F < 16) by (bit_vector);
}

/// Reading back the two bytes of a 16-bit value gives the value.
pub proof fn lemma_be16_round_trip(v: u16)
    ensures
        be16(v).len() == 2,
        from_be16(be16(v)[0], be16(v)[1]) == v,
{
}

/// Unpacking the two flag bytes of a well-formed header gives its flags back.
pub proof fn lemma_flags_round_trip(h: Header)
    requires
        h.wf(),
    ensures
        (flags_high(h) & 0x80 != 0) == h.qr,
        (flags_high(h) & 0x78) >> 3 == h.opcode,
        (flags_high(h) & 0x04 != 0) == h.aa,
        (flags_high(h) & 0x02 != 0) == h.tc,
        (flags_high(h) & 0x01 != 0) == h.rd,
        (flags_low(h) & 0x80 != 0) == h.ra,
        flags_low(h) & 0x0F == h.rcode,
{
    let qr = bit(h.qr);
    let aa = bit(h.aa);
    let tc = bit(h.tc);
    let rd = bit(h.rd);
    let ra = bit(h.ra);
    let op = h.opcode;
    let rc = h.rcode;
    let z = h.z;
    let hi = (qr << 7) | (op << 3) | (aa << 2) | (tc << 1) | rd;
    let lo = (ra << 7) | (z << 4) | rc;
    assert(hi == flags_high(h));
    assert(lo == flags_low(h));
    assert({
        &&& (hi & 0x80 != 0) == (qr == 1)
        &&& (hi & 0x78) >> 3 == op
        &&& (hi & 0x04 != 0) == (aa == 1)
        &&& (hi & 0x02 != 0) == (tc == 1)
        &&& (hi & 0x01 != 0) == (rd == 1)
    }) by (bit_vector)
        requires
            hi == (qr << 7) | (op << 3) | (aa << 2) | (tc << 1) | rd,
            qr <= 1,
            aa <= 1,
            tc <= 1,
            rd <= 1,
            op < 16,
    ;
    assert({
        &&& (lo & 0x80 != 0) == (ra == 1)
        &&& lo & 0x0F == rc
    }) by (bit_vector)
        requires
            lo == (ra << 7) | (z << 4) | rc,
            ra <= 1,
            z == 0,
            rc < 16,
    ;
}

/// Round trip: a buffer that starts with the wire form of a well-formed header
/// decodes to that header, whatever follows the twelve bytes.
pub proof fn law_header_round_trip(h: Header, bytes: Seq<u8>)
    requires
        h.wf(),
        bytes.len() >= 12,
        bytes.subrange(0, 12) == encode_header(h),
    ensures
        encode_header(h).len() == 12,
        decode_header(bytes) == h,
        decode_header(encode_header(h)) == h,
{
    let e = encode_header(h);
    lemma_be16_round_trip(h.id);
    lemma_be16_round_trip(h.qdcount);
    lemma_be16_round_trip(h.ancount);
    lemma_be16_round_trip(h.nscount);
    lemma_be16_round_trip(h.arcount);
    lemma_flags_round_trip(h);
    assert(e.len() == 12);
    assert(e =~= seq![
        be16(h.id)[0],
        be16(h.id)[1],
        flags_high(h),
        flags_low(h),
        be16(h.qdcount)[0],
        be16(h.qdcount)[1],
        be16(h.ancount)[0],
        be16(h.ancount)[1],
        be16(h.nscount)[0],
        be16(h.nscount)[1],
        be16(h.arcount)[0],
        be16(h.arcount)[1],
    ]);
    assert forall|i: int| 0 <= i < 12 implies bytes[i] == e[i] by {
        assert(bytes.subrange(0, 12)[i] == bytes[i]);
    }
    assert(decode_header(e) == h);
    assert(decode_header(bytes) == h);
}

} // verus!
