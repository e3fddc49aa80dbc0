//! The entries of the question section: a name, a type and a class.

use crate::error::DnsError;
use crate::header::{be16, from_be16, push_be16, read_be16};
use crate::name::{
    ascii_text, decode_name, encode_labels, encode_name, get_name, labels_fit,
    lemma_decode_name_local, lemma_parse_encoded_labels, lemma_parse_labels_advances,
    lemma_plain_name_text, plain_bytes, split_labels, write_name,
};
use vstd::prelude::*;
use vstd::utf8::{encode_utf8, is_ascii_chars, is_ascii_chars_encode_utf8};

verus! {

/// The kinds of record that can be asked for.
#[derive(Clone, Copy, Debug, PartialEq, Eq, Structural)]
pub enum QueryType {
    /// An IPv4 address.
    A,
    /// An IPv6 address.
    AAAA,
}

/// The classes of record that can be asked for.
#[derive(Clone, Copy, Debug, PartialEq, Eq, Structural)]
pub enum QueryClass {
    /// The Internet.
    IN,
}

/// The number that stands for a type on the wire.
pub open spec fn type_code(t: QueryType) -> u16 {
    match t {
        QueryType::A => 1,
        QueryType::AAAA => 28,
    }
}

/// The type that a number on the wire stands for, if it stands for one.
pub open spec fn type_of_code(code: u16) -> Option<QueryType> {
    if code == 1 {
        Some(QueryType::A)
    } else if code == 28 {
        Some(QueryType::AAAA)
    } else {
        None
    }
}

/// The number that stands for a class on the wire.
pub open spec fn class_code(c: QueryClass) -> u16 {
    match c {
        QueryClass::IN => 1,
    }
}

impl QueryType {
    /// The number that stands for this type on the wire.
    pub fn code(&self) -> (code: u16)
        ensures
            code == type_code(*self),
    {
        match self {
            QueryType::A => 1,
            QueryType::AAAA => 28,
        }
    }

    /// The type that `code` stands for, if it stands for one.
    pub fn from_code(code: u16) -> (t: Option<QueryType>)
        ensures
            t == type_of_code(code),
    {
        if code == 1 {
            Some(QueryType::A)
        } else if code == 28 {
            Some(QueryType::AAAA)
        } else {
            None
        }
    }
}

impl QueryClass {
    /// The number that stands for this class on the wire.
    pub fn code(&self) -> (code: u16)
        ensures
            code == class_code(*self),
    {
        match self {
            QueryClass::IN => 1,
        }
    }
}

/// One entry of the question section.
#[derive(Debug, PartialEq, Eq)]
pub struct Question {
    /// The name asked about, labels joined by dots.
    pub qname: String,
    /// The kind of record asked for.
    pub qtype: QueryType,
    /// The class asked in.
    pub qclass: QueryClass,
}

/// A question as a mathematical value.
pub struct QuestionView {
    pub qname: Seq<char>,
    pub qtype: QueryType,
    pub qclass: QueryClass,
}

impl View for Question {
    type V = QuestionView;

    open spec fn view(&self) -> QuestionView {
        QuestionView { qname: self.qname@, qtype: self.qtype, qclass: self.qclass }
    }
}

/// Decodes the question that starts at `pos`: the question on success, and in
/// every case the position at which reading stopped.
///
/// The name comes first. The two type bytes must lie in the buffer and spell A
/// or AAAA; the two class bytes must lie in the buffer and are stepped over
/// unread. A failure is reported at the start of the field that failed.
pub open spec fn parse_question(bytes: Seq<u8>, pos: int) -> (Result<QuestionView, DnsError>, int) {
    let name = decode_name(bytes, pos);
    match name.0 {
        Err(e) => (Err(e), name.1),
        Ok(qname) => {
            let at = name.1;
            if at + 2 > bytes.len() {
                (Err(DnsError::TruncatedMessage), at)
            } else {
                match type_of_code(from_be16(bytes[at], bytes[at + 1])) {
                    None => (Err(DnsError::InvalidQuestionType), at),
                    Some(qtype) => if at + 4 > bytes.len() {
                        (Err(DnsError::TruncatedMessage), at + 2)
                    } else {
                        (Ok(QuestionView { qname, qtype, qclass: QueryClass::IN }), at + 4)
                    },
                }
            }
        },
    }
}

/// The wire form of a question: its name, then its type and its class, two
/// bytes each. A question whose name has none has none.
pub open spec fn encode_question(q: QuestionView) -> Result<Seq<u8>, DnsError> {
    match encode_name(q.qname) {
        Err(e) => Err(e),
        Ok(name) => Ok(name + be16(type_code(q.qtype)) + be16(class_code(q.qclass))),
    }
}

impl Question {
    /// A question about `domain` in the class IN.
    pub fn new(domain: &str, qtype: QueryType) -> (q: Question)
        ensures
            q@ == (QuestionView { qname: domain@, qtype, qclass: QueryClass::IN }),
    {
        Question { qname: domain.to_owned(), qtype, qclass: QueryClass::IN }
    }

    /// Serializes the question. Fails where a label of its name is longer
    /// than 255 bytes.
    pub fn to_bytes(&self) -> (r: Result<Vec<u8>, DnsError>)
        ensures
            match r {
                Ok(out) => encode_question(self@) == Ok::<Seq<u8>, DnsError>(out@),
                Err(e) => encode_question(self@) == Err::<Seq<u8>, DnsError>(e),
            },
    {
        let mut out = match write_name(self.qname.as_str()) {
            Ok(name) => name,
            Err(e) => {
                return Err(e);
            },
        };
        push_be16(&mut out, self.qtype.code());
        push_be16(&mut out, self.qclass.code());
        Ok(out)
    }

    /// Decodes the question that starts at `*offset` and moves `*offset` to
    /// where reading stopped: behind the class on success.
    pub fn from_bytes(bytes: &[u8; 512], offset: &mut usize) -> (r: Result<Question, DnsError>)
        ensures
            match r {
                Ok(q) => parse_question(bytes@, *old(offset) as int).0 == Ok::<
                    QuestionView,
                    DnsError,
                >(q@),
                Err(e) => parse_question(bytes@, *old(offset) as int).0 == Err::<
                    QuestionView,
                    DnsError,
                >(e),
            },
            *final(offset) == parse_question(bytes@, *old(offset) as int).1,
    {
        let qname = match get_name(bytes, offset) {
            Ok(name) => name,
            Err(e) => {
                return Err(e);
            },
        };
        let at: usize = *offset;
        if at > 512 - 2 {
            return Err(DnsError::TruncatedMessage);
        }
        let qtype = match QueryType::from_code(read_be16(bytes[at], bytes[at + 1])) {
            Some(t) => t,
            None => {
                return Err(DnsError::InvalidQuestionType);
            },
        };
        if at > 512 - 4 {
            *offset = at + 2;
            return Err(DnsError::TruncatedMessage);
        }
        *offset = at + 4;
        Ok(Question { qname, qtype, qclass: QueryClass::IN })
    }
}

/// Longest label that a name on the wire should hold.
pub const MAX_PLAIN_LABEL_LEN: usize = 63;

/// A name of lowercase ASCII labels: every character is ASCII and no capital
/// letter, and every label between its dots has from 1 to 63 bytes.
pub open spec fn plain_name(name: Seq<char>) -> bool {
    &&& is_ascii_chars(name)
    &&& forall|i: int| 0 <= i < name.len() ==> !('A' <= #[trigger] name[i] && name[i] <= 'Z')
    &&& forall|j: int|
        0 <= j < split_labels(encode_utf8(name)).len() ==> 1 <= (#[trigger] split_labels(
            encode_utf8(name),
        )[j]).len() <= MAX_PLAIN_LABEL_LEN
}

/// Reading back the two bytes of a type gives the type.
pub proof fn lemma_type_code_round_trip(t: QueryType)
    ensures
        be16(type_code(t)).len() == 2,
        type_of_code(from_be16(be16(type_code(t))[0], be16(type_code(t))[1])) == Some(t),
{
}

/// Round trip: a question of type A or AAAA about a name of lowercase ASCII
/// labels has a wire form, and a buffer that holds that wire form at `pos`
/// decodes there to the same question, up to just behind its class.
pub proof fn law_question_round_trip(q: QuestionView, bytes: Seq<u8>, pos: int)
    requires
        plain_name(q.qname),
        0 <= pos,
        pos + encode_question(q)->Ok_0.len() <= bytes.len(),
        bytes.subrange(pos, pos + encode_question(q)->Ok_0.len()) == encode_question(q)->Ok_0,
    ensures
        encode_question(q) is Ok,
        parse_question(bytes, pos) == (
            Ok::<QuestionView, DnsError>(q),
            pos + encode_question(q)->Ok_0.len(),
        ),
{
    let raw = encode_utf8(q.qname);
    let labels = split_labels(raw);
    is_ascii_chars_encode_utf8(q.qname);
    assert(plain_bytes(raw)) by {
        assert forall|i: int| 0 <= i < raw.len() implies crate::name::plain_byte(
            #[trigger] raw[i],
        ) by {
            assert(q.qname[i] as u8 == raw[i]);
        }
    }
    assert(labels_fit(labels));
    crate::name::lemma_labels_fit_encode(labels);
    let name_wire = encode_labels(labels)->Ok_0;
    let wire = encode_question(q)->Ok_0;
    let tail = be16(type_code(q.qtype)) + be16(class_code(q.qclass));
    assert(wire == name_wire + be16(type_code(q.qtype)) + be16(class_code(q.qclass)));
    assert(wire =~= name_wire + tail);
    let held = bytes.subrange(pos, pos + wire.len());
    assert(bytes.subrange(pos, pos + name_wire.len()) =~= name_wire) by {
        assert forall|i: int| 0 <= i < name_wire.len() implies bytes[pos + i] == name_wire[i] by {
            assert(bytes[pos + i] == held[i]);
        }
    }
    lemma_parse_encoded_labels(labels, bytes, pos);
    lemma_plain_name_text(raw);
    assert(ascii_text(raw) =~= q.qname) by {
        assert forall|i: int| 0 <= i < raw.len() implies ascii_text(raw)[i] == q.qname[i] by {
            assert(q.qname[i] as u8 == raw[i]);
        }
    }
    let n = name_wire.len() as int;
    let at = pos + n;
    assert(decode_name(bytes, pos) == (Ok::<Seq<char>, DnsError>(q.qname), at));
    lemma_type_code_round_trip(q.qtype);
    assert(bytes[at] == held[n]);
    assert(bytes[at + 1] == held[n + 1]);
    assert(held[n] == be16(type_code(q.qtype))[0]);
    assert(held[n + 1] == be16(type_code(q.qtype))[1]);
}

/// Round trip without a buffer around it: the wire form of such a question
/// decodes from its own first byte to the question, and ends where the wire
/// form ends.
pub proof fn law_question_round_trip_exact(q: QuestionView)
    requires
        plain_name(q.qname),
    ensures
        encode_question(q) is Ok,
        parse_question(encode_question(q)->Ok_0, 0) == (
            Ok::<QuestionView, DnsError>(q),
            encode_question(q)->Ok_0.len() as int,
        ),
{
    let wire = encode_question(q)->Ok_0;
    assert(wire.subrange(0, wire.len() as int) =~= wire);
    law_question_round_trip(q, wire, 0);
}

/// Decoding a question that decodes looks at no byte but those from where it
/// starts up to where it stops.
pub proof fn lemma_parse_question_local(a: Seq<u8>, b: Seq<u8>, pos: int)
    requires
        a.len() == b.len(),
        0 <= pos,
        parse_question(a, pos).0 is Ok,
        forall|i: int| pos <= i < parse_question(a, pos).1 ==> a[i] == b[i],
    ensures
        parse_question(b, pos) == parse_question(a, pos),
{
    lemma_parse_labels_advances(a, pos);
    lemma_decode_name_local(a, b, pos);
}

} // verus!
