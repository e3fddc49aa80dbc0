//! Resource records: the entries of the answer, authority and additional sections.

use crate::error::DnsError;
use crate::header::{from_be16, read_be16};
use crate::name::{
    copy_range, decode_name, get_name, lemma_decode_name_local, lemma_parse_labels_advances,
};
use crate::question::{type_of_code, QueryClass, QueryType};
use crate::text::{decimal, decimal_string, join_strings, join_with, texts_view};
use vstd::math::max;
use vstd::prelude::*;

verus! {

/// The first byte of a two-byte compression pointer.
pub const POINTER_MARK: u8 = 0xC0;

/// Bytes that follow the name of a record before its data: type, class,
/// time to live and data length.
pub const FIXED_LEN: usize = 10;

/// Bytes that must remain at the start of a record for decoding to begin.
pub const MIN_RECORD_LEN: usize = 12;

/// The data of a record, by its type.
#[derive(Clone, Copy, Debug, PartialEq, Eq)]
pub enum RData {
    /// An IPv4 address.
    A([u8; 4]),
    /// An IPv6 address.
    AAAA([u8; 16]),
}

/// The data of a record as a mathematical value.
pub enum RDataView {
    A(Seq<u8>),
    AAAA(Seq<u8>),
}

impl View for RData {
    type V = RDataView;

    open spec fn view(&self) -> RDataView {
        match *self {
            RData::A(ip) => RDataView::A(ip@),
            RData::AAAA(ip) => RDataView::AAAA(ip@),
        }
    }
}

/// A resource record.
#[derive(Debug, PartialEq, Eq)]
pub struct ResourceRecord {
    /// The name the record is about, labels joined by dots.
    pub name: String,
    /// The kind of record.
    pub query_type: QueryType,
    /// The class of the record.
    pub query_class: QueryClass,
    /// Seconds for which the record may be kept.
    pub ttl: u32,
    /// Number of bytes of data.
    pub rdlength: u16,
    /// The data.
    pub rdata: RData,
}

/// A resource record as a mathematical value.
pub struct RecordView {
    pub name: Seq<char>,
    pub query_type: QueryType,
    pub query_class: QueryClass,
    pub ttl: u32,
    pub rdlength: u16,
    pub rdata: RDataView,
}

impl View for ResourceRecord {
    type V = RecordView;

    open spec fn view(&self) -> RecordView {
        RecordView {
            name: self.name@,
            query_type: self.query_type,
            query_class: self.query_class,
            ttl: self.ttl,
            rdlength: self.rdlength,
            rdata: self.rdata@,
        }
    }
}

impl RecordView {
    /// The data is of the kind that the type names and as long as the type
    /// fixes, and the data length says so.
    pub open spec fn wf(&self) -> bool {
        &&& self.rdlength == rdata_len(self.query_type)
        &&& match self.query_type {
            QueryType::A => self.rdata is A && self.rdata->A_0.len() == 4,
            QueryType::AAAA => self.rdata is AAAA && self.rdata->AAAA_0.len() == 16,
        }
    }
}

/// The 32-bit value that four bytes spell, most significant first.
pub open spec fn from_be32(b0: u8, b1: u8, b2: u8, b3: u8) -> u32 {
    (b0 * 16777216 + b1 * 65536 + b2 * 256 + b3) as u32
}

/// Number of data bytes that a type fixes.
pub open spec fn rdata_len(t: QueryType) -> int {
    match t {
        QueryType::A => 4,
        QueryType::AAAA => 16,
    }
}

/// The data of a record of type `t` whose data bytes are `data`.
pub open spec fn rdata_of(t: QueryType, data: Seq<u8>) -> RDataView {
    match t {
        QueryType::A => RDataView::A(data),
        QueryType::AAAA => RDataView::AAAA(data),
    }
}

/// Each byte written out in decimal.
pub open spec fn decimals(bytes: Seq<u8>) -> Seq<Seq<char>> {
    bytes.map_values(|b: u8| decimal(b as nat))
}

/// An address as text: its bytes in decimal, joined by dots for IPv4 and by
/// colons for IPv6.
pub open spec fn rdata_text(data: RDataView) -> Seq<char> {
    match data {
        RDataView::A(ip) => join_with(decimals(ip), seq!['.']),
        RDataView::AAAA(ip) => join_with(decimals(ip), seq![':']),
    }
}

/// Decodes the name field of the record that starts at `pos`.
///
/// Where the field opens with the pointer mark and a second byte follows, the
/// field is those two bytes: the name is the one decoded at the offset that the
/// second byte gives, and reading stops just behind the pointer, wherever the
/// name it points to ends or fails. A pointer met inside the name it points to
/// is not followed. Any other field is a name in place.
pub open spec fn record_name(bytes: Seq<u8>, pos: int) -> (Result<Seq<char>, DnsError>, int) {
    if 0 <= pos && pos + 1 < bytes.len() && bytes[pos] == POINTER_MARK {
        (decode_name(bytes, bytes[pos + 1] as int).0, pos + 2)
    } else {
        decode_name(bytes, pos)
    }
}

/// Decodes what follows the name of a record, from `at` on: type, class, time
/// to live, data length and data.
///
/// The ten fixed bytes and then the data must lie in the buffer; a failure of
/// either is a truncated message, reported at the start of what is missing.
/// Once the data is known to be there, reading stops behind it in every case:
/// for a record, for a type other than A and AAAA, and for a data length that
/// differs from the one the type fixes.
pub open spec fn parse_record_body(bytes: Seq<u8>, name: Seq<char>, at: int) -> (
    Result<RecordView, DnsError>,
    int,
) {
    if at < 0 || at + FIXED_LEN > bytes.len() {
        (Err(DnsError::TruncatedMessage), at)
    } else {
        let code = from_be16(bytes[at], bytes[at + 1]);
        let ttl = from_be32(bytes[at + 4], bytes[at + 5], bytes[at + 6], bytes[at + 7]);
        let rdlength = from_be16(bytes[at + 8], bytes[at + 9]);
        let data = at + FIXED_LEN;
        let end = data + rdlength;
        if end > bytes.len() {
            (Err(DnsError::TruncatedMessage), data)
        } else {
            match type_of_code(code) {
                None => (Err(DnsError::UnsupportedRecordType), end),
                Some(query_type) => if rdlength != rdata_len(query_type) {
                    (Err(DnsError::RDataLengthMismatch), end)
                } else {
                    (
                        Ok(
                            RecordView {
                                name,
                                query_type,
                                query_class: QueryClass::IN,
                                ttl,
                                rdlength,
                                rdata: rdata_of(query_type, bytes.subrange(data, end)),
                            },
                        ),
                        end,
                    )
                },
            }
        }
    }
}

/// Decodes the record that starts at `pos`: the record on success, and in
/// every case the position at which reading stopped.
///
/// Fewer than twelve bytes from `pos` to the end of the buffer are too short
/// for a record. Otherwise the name field is decoded as [`record_name`] says
/// and the rest as [`parse_record_body`] says.
pub open spec fn parse_record(bytes: Seq<u8>, pos: int) -> (Result<RecordView, DnsError>, int) {
    if pos < 0 || pos + MIN_RECORD_LEN > bytes.len() {
        (Err(DnsError::DataTooShort), pos)
    } else {
        let name = record_name(bytes, pos);
        match name.0 {
            Err(e) => (Err(e), name.1),
            Ok(n) => parse_record_body(bytes, n, name.1),
        }
    }
}

/// The 32-bit value of four bytes, most significant first.
pub fn read_be32(b0: u8, b1: u8, b2: u8, b3: u8) -> (v: u32)
    ensures
        v == from_be32(b0, b1, b2, b3),
{
    let w0: u32 = b0 as u32;
    let w1: u32 = b1 as u32;
    let w2: u32 = b2 as u32;
    let w3: u32 = b3 as u32;
    w0 * 16777216 + w1 * 65536 + w2 * 256 + w3
}

/// Decodes the name field of the record that starts at `*offset` and moves
/// `*offset` behind the field: behind the pointer where the field is one.
pub fn read_record_name(bytes: &[u8; 512], offset: &mut usize) -> (r: Result<String, DnsError>)
    ensures
        match r {
            Ok(name) => record_name(bytes@, *old(offset) as int).0 == Ok::<Seq<char>, DnsError>(
                name@,
            ),
            Err(e) => record_name(bytes@, *old(offset) as int).0 == Err::<Seq<char>, DnsError>(e),
        },
        *final(offset) == record_name(bytes@, *old(offset) as int).1,
{
    let pos: usize = *offset;
    if pos < 511 && bytes[pos] == POINTER_MARK {
        let mut target: usize = bytes[pos + 1] as usize;
        *offset = pos + 2;
        get_name(bytes, &mut target)
    } else {
        get_name(bytes, offset)
    }
}

/// Writes each byte out in decimal.
pub fn decimal_strings(bytes: &[u8]) -> (texts: Vec<String>)
    ensures
        texts_view(texts@) == decimals(bytes@),
{
    let mut texts: Vec<String> = Vec::new();
    let mut i: usize = 0;
    while i < bytes.len()
        invariant
            i <= bytes.len(),
            texts_view(texts@) == decimals(bytes@).take(i as int),
        decreases bytes.len() - i,
    {
        let text = decimal_string(bytes[i]);
        proof {
            let all = decimals(bytes@);
            assert(all[i as int] == text@);
            assert(texts_view(texts@.push(text)) =~= texts_view(texts@).push(text@));
            assert(all.take(i + 1) =~= all.take(i as int).push(all[i as int]));
        }
        texts.push(text);
        i = i + 1;
    }
    assert(decimals(bytes@).take(i as int) =~= decimals(bytes@));
    texts
}

impl RData {
    /// The address as text: its bytes in decimal, joined by dots for IPv4 and
    /// by colons for IPv6.
    pub fn to_string(&self) -> (text: String)
        ensures
            text@ == rdata_text(self@),
    {
        proof {
            reveal_strlit(".");
            reveal_strlit(":");
            assert("."@ =~= seq!['.']);
            assert(":"@ =~= seq![':']);
        }
        match self {
            RData::A(ip) => {
                let parts = decimal_strings(ip.as_slice());
                join_strings(&parts, ".")
            },
            RData::AAAA(ip) => {
                let parts = decimal_strings(ip.as_slice());
                join_strings(&parts, ":")
            },
        }
    }

    /// The data of a record of type `query_type` from its `data` bytes, where
    /// there are as many as the type fixes.
    pub fn from_data(query_type: QueryType, data: &Vec<u8>) -> (r: Option<RData>)
        ensures
            data@.len() == rdata_len(query_type) ==> r is Some && r->Some_0@ == rdata_of(
                query_type,
                data@,
            ),
            data@.len() != rdata_len(query_type) ==> r is None,
    {
        match query_type {
            QueryType::A => {
                if data.len() != 4 {
                    return None;
                }
                let ip: [u8; 4] = [data[0], data[1], data[2], data[3]];
                assert(ip@ =~= data@);
                Some(RData::A(ip))
            },
            QueryType::AAAA => {
                if data.len() != 16 {
                    return None;
                }
                let ip: [u8; 16] = [
                    data[0],
                    data[1],
                    data[2],
                    data[3],
                    data[4],
                    data[5],
                    data[6],
                    data[7],
                    data[8],
                    data[9],
                    data[10],
                    data[11],
                    data[12],
                    data[13],
                    data[14],
                    data[15],
                ];
                assert(ip@ =~= data@);
                Some(RData::AAAA(ip))
            },
        }
    }
}

impl ResourceRecord {
    /// A record with the given fields.
    pub fn new(
        name: String,
        query_type: QueryType,
        query_class: QueryClass,
        ttl: u32,
        rdlength: u16,
        rdata: RData,
    ) -> (r: ResourceRecord)
        ensures
            r@ == (RecordView {
                name: name@,
                query_type,
                query_class,
                ttl,
                rdlength,
                rdata: rdata@,
            }),
    {
        ResourceRecord { name, query_type, query_class, ttl, rdlength, rdata }
    }

    /// Decodes the record that starts at `*offset` and moves `*offset` to
    /// where reading stopped: behind the data on success.
    pub fn from_bytes(bytes: &[u8; 512], offset: &mut usize) -> (r: Result<
        ResourceRecord,
        DnsError,
    >)
        ensures
            match r {
                Ok(record) => parse_record(bytes@, *old(offset) as int).0 == Ok::<
                    RecordView,
                    DnsError,
                >(record@) && record@.wf(),
                Err(e) => parse_record(bytes@, *old(offset) as int).0 == Err::<
                    RecordView,
                    DnsError,
                >(e),
            },
            *final(offset) == parse_record(bytes@, *old(offset) as int).1,
    {
        if *offset > 512 - MIN_RECORD_LEN {
            return Err(DnsError::DataTooShort);
        }
        let name = match read_record_name(bytes, offset) {
            Ok(name) => name,
            Err(e) => {
                return Err(e);
            },
        };
        let at: usize = *offset;
        if at > 512 - FIXED_LEN {
            return Err(DnsError::TruncatedMessage);
        }
        let code = read_be16(bytes[at], bytes[at + 1]);
        let ttl = read_be32(bytes[at + 4], bytes[at + 5], bytes[at + 6], bytes[at + 7]);
        let rdlength = read_be16(bytes[at + 8], bytes[at + 9]);
        let data: usize = at + FIXED_LEN;
        *offset = data;
        if rdlength as usize > 512 - data {
            return Err(DnsError::TruncatedMessage);
        }
        let end: usize = data + rdlength as usize;
        *offset = end;
        let query_type = match QueryType::from_code(code) {
            Some(t) => t,
            None => {
                return Err(DnsError::UnsupportedRecordType);
            },
        };
        let payload = copy_range(bytes, data, end);
        match RData::from_data(query_type, &payload) {
            Some(rdata) => Ok(
                ResourceRecord::new(name, query_type, QueryClass::IN, ttl, rdlength, rdata),
            ),
            None => Err(DnsError::RDataLengthMismatch),
        }
    }
}

/// A record that decodes is well formed: its data is of the kind and the
/// length that its type fixes.
pub proof fn lemma_parsed_record_wf(bytes: Seq<u8>, pos: int)
    ensures
        parse_record(bytes, pos).0 is Ok ==> parse_record(bytes, pos).0->Ok_0.wf(),
{
}

/// Compression: a name field that is a pointer to the offset `target` gives
/// the name that is decoded at `target`, or its failure, and takes exactly the
/// two bytes of the pointer, wherever the name at `target` ends.
pub proof fn law_pointer_gives_name_at_target(bytes: Seq<u8>, pos: int, target: int)
    requires
        0 <= pos,
        pos + 1 < bytes.len(),
        bytes[pos] == POINTER_MARK,
        bytes[pos + 1] == target,
    ensures
        record_name(bytes, pos).0 == decode_name(bytes, target).0,
        record_name(bytes, pos).1 == pos + 2,
        pos + MIN_RECORD_LEN <= bytes.len() ==> parse_record(bytes, pos) == (match decode_name(
            bytes,
            target,
        ).0 {
            Err(e) => (Err::<RecordView, DnsError>(e), pos + 2),
            Ok(name) => parse_record_body(bytes, name, pos + 2),
        }),
{
}

/// A record that decodes stops behind where it starts.
pub proof fn lemma_parse_record_advances(bytes: Seq<u8>, pos: int)
    requires
        0 <= pos,
        parse_record(bytes, pos).0 is Ok,
    ensures
        parse_record(bytes, pos).1 > pos,
{
    lemma_parse_labels_advances(bytes, pos);
}

/// One past the last byte that decoding the record at `pos` looks at: where
/// decoding stops, or, where the name field is a pointer to a name that ends
/// further on, where that name ends.
pub open spec fn record_reach(bytes: Seq<u8>, pos: int) -> int {
    if 0 <= pos && pos + 1 < bytes.len() && bytes[pos] == POINTER_MARK {
        max(parse_record(bytes, pos).1, decode_name(bytes, bytes[pos + 1] as int).1)
    } else {
        parse_record(bytes, pos).1
    }
}

/// Decoding a record that decodes looks at no byte at or behind its reach:
/// two buffers of one length that agree before it decode alike.
pub proof fn lemma_parse_record_local(a: Seq<u8>, b: Seq<u8>, pos: int, bound: int)
    requires
        a.len() == b.len(),
        0 <= pos,
        parse_record(a, pos).0 is Ok,
        record_reach(a, pos) <= bound,
        forall|i: int| 0 <= i < bound ==> a[i] == b[i],
    ensures
        parse_record(b, pos) == parse_record(a, pos),
{
    let name = record_name(a, pos);
    if a[pos] == POINTER_MARK {
        let target = a[pos + 1] as int;
        lemma_decode_name_local(a, b, target);
    } else {
        lemma_parse_labels_advances(a, pos);
        lemma_decode_name_local(a, b, pos);
    }
    assert(record_name(b, pos) == name);
    let at = name.1;
    let data = at + FIXED_LEN;
    let end = parse_record(a, pos).1;
    assert(a.subrange(data, end) =~= b.subrange(data, end));
}

} // verus!
