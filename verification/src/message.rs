//! Whole messages: the query that goes out and the response that comes back.

use crate::error::DnsError;
use crate::header::{decode_header, encode_header, query_header, Header, HEADER_LEN};
use crate::text::texts_view;
use crate::question::{
    encode_question, lemma_parse_question_local, parse_question, QueryClass, QueryType, Question,
    QuestionView,
};
use crate::record::{
    lemma_parse_record_local, parse_record, record_reach, RecordView, ResourceRecord,
};
use vstd::math::max;
use vstd::prelude::*;

verus! {

/// The questions held by a vector.
pub open spec fn questions_view(questions: Seq<Question>) -> Seq<QuestionView> {
    questions.map_values(|q: Question| q@)
}

/// The records held by a vector.
pub open spec fn records_view(records: Seq<ResourceRecord>) -> Seq<RecordView> {
    records.map_values(|r: ResourceRecord| r@)
}

/// Decodes `count` questions in a row from `pos` on: all of them, or the
/// failure of the first that fails, and the position at which reading stopped.
pub open spec fn parse_questions(bytes: Seq<u8>, pos: int, count: nat) -> (
    Result<Seq<QuestionView>, DnsError>,
    int,
)
    decreases count,
{
    if count == 0 {
        (Ok(Seq::empty()), pos)
    } else {
        let first = parse_question(bytes, pos);
        match first.0 {
            Err(e) => (Err(e), first.1),
            Ok(q) => {
                let rest = parse_questions(bytes, first.1, (count - 1) as nat);
                match rest.0 {
                    Err(e) => (Err(e), rest.1),
                    Ok(qs) => (Ok(seq![q] + qs), rest.1),
                }
            },
        }
    }
}

/// Decodes `count` records in a row from `pos` on: all of them, or the
/// failure of the first that fails, and the position at which reading stopped.
pub open spec fn parse_records(bytes: Seq<u8>, pos: int, count: nat) -> (
    Result<Seq<RecordView>, DnsError>,
    int,
)
    decreases count,
{
    if count == 0 {
        (Ok(Seq::empty()), pos)
    } else {
        let first = parse_record(bytes, pos);
        match first.0 {
            Err(e) => (Err(e), first.1),
            Ok(r) => {
                let rest = parse_records(bytes, first.1, (count - 1) as nat);
                match rest.0 {
                    Err(e) => (Err(e), rest.1),
                    Ok(rs) => (Ok(seq![r] + rs), rest.1),
                }
            },
        }
    }
}

/// What decoding `count` more questions at `pos` gives once `done` have been
/// decoded before them.
pub open spec fn parse_questions_after(
    done: Seq<QuestionView>,
    bytes: Seq<u8>,
    pos: int,
    count: nat,
) -> (Result<Seq<QuestionView>, DnsError>, int) {
    let rest = parse_questions(bytes, pos, count);
    match rest.0 {
        Err(e) => (Err(e), rest.1),
        Ok(qs) => (Ok(done + qs), rest.1),
    }
}

/// What decoding `count` more records at `pos` gives once `done` have been
/// decoded before them.
pub open spec fn parse_records_after(done: Seq<RecordView>, bytes: Seq<u8>, pos: int, count: nat) -> (
    Result<Seq<RecordView>, DnsError>,
    int,
) {
    let rest = parse_records(bytes, pos, count);
    match rest.0 {
        Err(e) => (Err(e), rest.1),
        Ok(rs) => (Ok(done + rs), rest.1),
    }
}

/// Decodes `count` questions in a row from `*offset` on and moves `*offset`
/// to where reading stopped.
pub fn read_questions(bytes: &[u8; 512], offset: &mut usize, count: u16) -> (r: Result<
    Vec<Question>,
    DnsError,
>)
    ensures
        match r {
            Ok(qs) => parse_questions(bytes@, *old(offset) as int, count as nat).0 == Ok::<
                Seq<QuestionView>,
                DnsError,
            >(questions_view(qs@)),
            Err(e) => parse_questions(bytes@, *old(offset) as int, count as nat).0 == Err::<
                Seq<QuestionView>,
                DnsError,
            >(e),
        },
        *final(offset) == parse_questions(bytes@, *old(offset) as int, count as nat).1,
{
    let ghost start = *offset as int;
    let mut out: Vec<Question> = Vec::new();
    let mut i: u16 = 0;
    proof {
        let all = parse_questions(bytes@, start, count as nat);
        assert(questions_view(out@) =~= Seq::<QuestionView>::empty());
        if all.0 is Ok {
            assert(Seq::<QuestionView>::empty() + all.0->Ok_0 =~= all.0->Ok_0);
        }
    }
    while i < count
        invariant
            i <= count,
            start == *old(offset) as int,
            parse_questions(bytes@, start, count as nat) == parse_questions_after(
                questions_view(out@),
                bytes@,
                *offset as int,
                (count - i) as nat,
            ),
        decreases count - i,
    {
        match Question::from_bytes(bytes, offset) {
            Err(e) => {
                return Err(e);
            },
            Ok(q) => {
                proof {
                    let done = questions_view(out@);
                    let one = seq![q@];
                    assert(questions_view(out@.push(q)) =~= done + one);
                    let rest = parse_questions(bytes@, *offset as int, (count - i - 1) as nat);
                    if rest.0 is Ok {
                        assert(done + (one + rest.0->Ok_0) =~= (done + one) + rest.0->Ok_0);
                    }
                }
                out.push(q);
            },
        }
        i = i + 1;
    }
    proof {
        assert(questions_view(out@) + Seq::<QuestionView>::empty() =~= questions_view(out@));
    }
    Ok(out)
}

/// Decodes `count` records in a row from `*offset` on and moves `*offset` to
/// where reading stopped.
pub fn read_records(bytes: &[u8; 512], offset: &mut usize, count: u16) -> (r: Result<
    Vec<ResourceRecord>,
    DnsError,
>)
    ensures
        match r {
            Ok(rs) => parse_records(bytes@, *old(offset) as int, count as nat).0 == Ok::<
                Seq<RecordView>,
                DnsError,
            >(records_view(rs@)),
            Err(e) => parse_records(bytes@, *old(offset) as int, count as nat).0 == Err::<
                Seq<RecordView>,
                DnsError,
            >(e),
        },
        *final(offset) == parse_records(bytes@, *old(offset) as int, count as nat).1,
{
    let ghost start = *offset as int;
    let mut out: Vec<ResourceRecord> = Vec::new();
    let mut i: u16 = 0;
    proof {
        let all = parse_records(bytes@, start, count as nat);
        assert(records_view(out@) =~= Seq::<RecordView>::empty());
        if all.0 is Ok {
            assert(Seq::<RecordView>::empty() + all.0->Ok_0 =~= all.0->Ok_0);
        }
    }
    while i < count
        invariant
            i <= count,
            start == *old(offset) as int,
            parse_records(bytes@, start, count as nat) == parse_records_after(
                records_view(out@),
                bytes@,
                *offset as int,
                (count - i) as nat,
            ),
        decreases count - i,
    {
        match ResourceRecord::from_bytes(bytes, offset) {
            Err(e) => {
                return Err(e);
            },
            Ok(record) => {
                proof {
                    let done = records_view(out@);
                    let one = seq![record@];
                    assert(records_view(out@.push(record)) =~= done + one);
                    let rest = parse_records(bytes@, *offset as int, (count - i - 1) as nat);
                    if rest.0 is Ok {
                        assert(done + (one + rest.0->Ok_0) =~= (done + one) + rest.0->Ok_0);
                    }
                }
                out.push(record);
            },
        }
        i = i + 1;
    }
    proof {
        assert(records_view(out@) + Seq::<RecordView>::empty() =~= records_view(out@));
    }
    Ok(out)
}

/// A response: the header and the four sections it counts.
#[derive(Debug)]
pub struct Response {
    pub header: Header,
    pub questions: Vec<Question>,
    pub answers: Vec<ResourceRecord>,
    pub authorities: Vec<ResourceRecord>,
    pub additionals: Vec<ResourceRecord>,
}

/// A response as a mathematical value.
pub struct ResponseView {
    pub header: Header,
    pub questions: Seq<QuestionView>,
    pub answers: Seq<RecordView>,
    pub authorities: Seq<RecordView>,
    pub additionals: Seq<RecordView>,
}

impl View for Response {
    type V = ResponseView;

    open spec fn view(&self) -> ResponseView {
        ResponseView {
            header: self.header,
            questions: questions_view(self.questions@),
            answers: records_view(self.answers@),
            authorities: records_view(self.authorities@),
            additionals: records_view(self.additionals@),
        }
    }
}

impl ResponseView {
    /// Each section holds as many entries as the header counts for it.
    pub open spec fn wf(&self) -> bool {
        &&& self.questions.len() == self.header.qdcount
        &&& self.answers.len() == self.header.ancount
        &&& self.authorities.len() == self.header.nscount
        &&& self.additionals.len() == self.header.arcount
    }
}

/// Decodes a whole response: the header from the first twelve bytes, then, from
/// byte twelve on and each where the one before stopped, as many questions,
/// answers, authorities and additionals as the header counts. The first
/// failure is the result; nothing decoded before it is kept.
pub open spec fn parse_response(bytes: Seq<u8>) -> Result<ResponseView, DnsError> {
    let header = decode_header(bytes);
    let qd = parse_questions(bytes, HEADER_LEN as int, header.qdcount as nat);
    match qd.0 {
        Err(e) => Err(e),
        Ok(questions) => {
            let an = parse_records(bytes, qd.1, header.ancount as nat);
            match an.0 {
                Err(e) => Err(e),
                Ok(answers) => {
                    let ns = parse_records(bytes, an.1, header.nscount as nat);
                    match ns.0 {
                        Err(e) => Err(e),
                        Ok(authorities) => {
                            let ar = parse_records(bytes, ns.1, header.arcount as nat);
                            match ar.0 {
                                Err(e) => Err(e),
                                Ok(additionals) => Ok(
                                    ResponseView {
                                        header,
                                        questions,
                                        answers,
                                        authorities,
                                        additionals,
                                    },
                                ),
                            }
                        },
                    }
                },
            }
        },
    }
}

/// A run of questions that decodes holds as many questions as were asked for.
pub proof fn lemma_parse_questions_len(bytes: Seq<u8>, pos: int, count: nat)
    ensures
        parse_questions(bytes, pos, count).0 is Ok ==> parse_questions(
            bytes,
            pos,
            count,
        ).0->Ok_0.len() == count,
    decreases count,
{
    if count > 0 {
        let first = parse_question(bytes, pos);
        if first.0 is Ok {
            lemma_parse_questions_len(bytes, first.1, (count - 1) as nat);
        }
    }
}

/// A run of records that decodes holds as many records as were asked for.
pub proof fn lemma_parse_records_len(bytes: Seq<u8>, pos: int, count: nat)
    ensures
        parse_records(bytes, pos, count).0 is Ok ==> parse_records(
            bytes,
            pos,
            count,
        ).0->Ok_0.len() == count,
    decreases count,
{
    if count > 0 {
        let first = parse_record(bytes, pos);
        if first.0 is Ok {
            lemma_parse_records_len(bytes, first.1, (count - 1) as nat);
        }
    }
}

/// The counts of the header drive decoding: a response that decodes carries
/// the header that the buffer opens with, and in each section exactly as many
/// entries as that header counts for it.
pub proof fn law_sections_match_counts(bytes: Seq<u8>)
    ensures
        match parse_response(bytes) {
            Ok(response) => response.header == decode_header(bytes) && response.wf(),
            Err(_) => true,
        },
{
    let header = decode_header(bytes);
    let qd = parse_questions(bytes, HEADER_LEN as int, header.qdcount as nat);
    lemma_parse_questions_len(bytes, HEADER_LEN as int, header.qdcount as nat);
    if qd.0 is Ok {
        let an = parse_records(bytes, qd.1, header.ancount as nat);
        lemma_parse_records_len(bytes, qd.1, header.ancount as nat);
        if an.0 is Ok {
            let ns = parse_records(bytes, an.1, header.nscount as nat);
            lemma_parse_records_len(bytes, an.1, header.nscount as nat);
            if ns.0 is Ok {
                lemma_parse_records_len(bytes, ns.1, header.arcount as nat);
            }
        }
    }
}

impl Response {
    /// Decodes a whole response from a received buffer.
    pub fn from_bytes(bytes: &[u8; 512]) -> (r: Result<Response, DnsError>)
        ensures
            match r {
                Ok(response) => parse_response(bytes@) == Ok::<ResponseView, DnsError>(response@)
                    && response@.wf(),
                Err(e) => parse_response(bytes@) == Err::<ResponseView, DnsError>(e),
            },
    {
        proof {
            law_sections_match_counts(bytes@);
        }
        let header = Header::from_bytes(bytes);
        let mut offset: usize = HEADER_LEN;
        let questions = match read_questions(bytes, &mut offset, header.qdcount) {
            Ok(qs) => qs,
            Err(e) => {
                return Err(e);
            },
        };
        let answers = match read_records(bytes, &mut offset, header.ancount) {
            Ok(rs) => rs,
            Err(e) => {
                return Err(e);
            },
        };
        let authorities = match read_records(bytes, &mut offset, header.nscount) {
            Ok(rs) => rs,
            Err(e) => {
                return Err(e);
            },
        };
        let additionals = match read_records(bytes, &mut offset, header.arcount) {
            Ok(rs) => rs,
            Err(e) => {
                return Err(e);
            },
        };
        Ok(Response { header, questions, answers, authorities, additionals })
    }
}

/// Most questions that a header can count.
pub const MAX_QUESTIONS: usize = 65535;

/// A query: the header and the questions it counts.
#[derive(Debug)]
pub struct Query {
    header: Header,
    questions: Vec<Question>,
}

/// A query as a mathematical value.
pub struct QueryView {
    pub header: Header,
    pub questions: Seq<QuestionView>,
}

impl View for Query {
    type V = QueryView;

    closed spec fn view(&self) -> QueryView {
        QueryView { header: self.header, questions: questions_view(self.questions@) }
    }
}

/// The question that a query asks about a domain: for its A records, in the
/// class IN.
pub open spec fn question_about(domain: Seq<char>) -> QuestionView {
    QuestionView { qname: domain, qtype: QueryType::A, qclass: QueryClass::IN }
}

/// The query with transaction id `id` about `domains`, one question each, in
/// their order.
pub open spec fn query_about(id: u16, domains: Seq<Seq<char>>) -> QueryView {
    QueryView {
        header: query_header(id, domains.len() as u16),
        questions: domains.map_values(|d: Seq<char>| question_about(d)),
    }
}

/// The wire forms of the questions, one behind the other. Where one of them
/// has none, the first such failure.
pub open spec fn encode_questions(questions: Seq<QuestionView>) -> Result<Seq<u8>, DnsError>
    decreases questions.len(),
{
    if questions.len() == 0 {
        Ok(Seq::empty())
    } else {
        match encode_question(questions[0]) {
            Err(e) => Err(e),
            Ok(first) => match encode_questions(questions.drop_first()) {
                Err(e) => Err(e),
                Ok(rest) => Ok(first + rest),
            },
        }
    }
}

/// The wire form of a query: the header, then the questions.
pub open spec fn encode_query(q: QueryView) -> Result<Seq<u8>, DnsError> {
    match encode_questions(q.questions) {
        Err(e) => Err(e),
        Ok(questions) => Ok(encode_header(q.header) + questions),
    }
}

impl QueryView {
    /// The header counts exactly the questions, and nothing else.
    pub open spec fn wf(&self) -> bool {
        self.header == query_header(self.header.id, self.questions.len() as u16)
            && self.questions.len() <= MAX_QUESTIONS
    }
}

/// The wire form of the questions from `from` on, behind the bytes `done`.
pub open spec fn encoded_questions_after(
    done: Seq<u8>,
    questions: Seq<QuestionView>,
    from: int,
) -> Result<Seq<u8>, DnsError> {
    match encode_questions(questions.skip(from)) {
        Err(e) => Err(e),
        Ok(rest) => Ok(done + rest),
    }
}

impl Query {
    /// A query always carries a header that counts its own questions.
    #[verifier::type_invariant]
    spec fn counted(self) -> bool {
        self@.wf()
    }

    /// A query with transaction id `id` that asks for the A records of each
    /// of `domains`. Fails where there are more domains than a header can count.
    pub fn new(id: u16, domains: &Vec<String>) -> (r: Result<Query, DnsError>)
        ensures
            domains@.len() > MAX_QUESTIONS ==> r == Err::<Query, DnsError>(
                DnsError::TooManyQuestions,
            ),
            domains@.len() <= MAX_QUESTIONS ==> r is Ok && r->Ok_0@ == query_about(
                id,
                texts_view(domains@),
            ) && r->Ok_0@.wf(),
    {
        if domains.len() > MAX_QUESTIONS {
            return Err(DnsError::TooManyQuestions);
        }
        let header = Header::new_query(id, domains.len() as u16);
        let mut questions: Vec<Question> = Vec::new();
        let mut i: usize = 0;
        let ghost wanted = texts_view(domains@).map_values(|d: Seq<char>| question_about(d));
        while i < domains.len()
            invariant
                i <= domains.len(),
                wanted == texts_view(domains@).map_values(|d: Seq<char>| question_about(d)),
                questions_view(questions@) == wanted.take(i as int),
            decreases domains.len() - i,
        {
            let q = Question::new(domains[i].as_str(), QueryType::A);
            proof {
                assert(texts_view(domains@)[i as int] == domains@[i as int]@);
                assert(wanted[i as int] == q@);
                assert(questions_view(questions@.push(q)) =~= questions_view(questions@).push(q@));
                assert(wanted.take(i + 1) =~= wanted.take(i as int).push(wanted[i as int]));
            }
            questions.push(q);
            i = i + 1;
        }
        assert(wanted.take(i as int) =~= wanted);
        Ok(Query { header, questions })
    }

    /// The header of the query. It counts the questions of the query, and
    /// nothing else.
    pub fn header(&self) -> (h: Header)
        ensures
            h == self@.header,
            self@.wf(),
    {
        proof {
            use_type_invariant(self);
        }
        self.header
    }

    /// The questions of the query.
    pub fn questions(&self) -> (qs: &Vec<Question>)
        ensures
            questions_view(qs@) == self@.questions,
            self@.wf(),
    {
        proof {
            use_type_invariant(self);
        }
        &self.questions
    }

    /// Serializes the query: the header, then each question in order. Fails
    /// where a label of a name is longer than 255 bytes.
    pub fn to_bytes(&self) -> (r: Result<Vec<u8>, DnsError>)
        ensures
            self@.wf(),
            match r {
                Ok(out) => encode_query(self@) == Ok::<Seq<u8>, DnsError>(out@),
                Err(e) => encode_query(self@) == Err::<Seq<u8>, DnsError>(e),
            },
    {
        proof {
            use_type_invariant(self);
        }
        let ghost all = questions_view(self.questions@);
        let head = self.header.to_bytes();
        let mut body: Vec<u8> = Vec::new();
        let mut i: usize = 0;
        proof {
            assert(all.skip(0) =~= all);
            let whole = encode_questions(all);
            if whole is Ok {
                assert(body@ + whole->Ok_0 =~= whole->Ok_0);
            }
        }
        while i < self.questions.len()
            invariant
                i <= self.questions.len(),
                self@.wf(),
                all == questions_view(self.questions@),
                encode_questions(all) == encoded_questions_after(body@, all, i as int),
            decreases self.questions.len() - i,
        {
            let ghost tail = all.skip(i as int);
            proof {
                assert(tail[0] == self.questions@[i as int]@);
                assert(tail.drop_first() =~= all.skip(i + 1));
            }
            match self.questions[i].to_bytes() {
                Err(e) => {
                    return Err(e);
                },
                Ok(bytes) => {
                    let ghost before = body@;
                    let mut bytes = bytes;
                    body.append(&mut bytes);
                    proof {
                        let rest = encode_questions(all.skip(i + 1));
                        if rest is Ok {
                            assert(before + (encode_question(tail[0])->Ok_0 + rest->Ok_0)
                                =~= body@ + rest->Ok_0);
                        }
                    }
                },
            }
            i = i + 1;
        }
        proof {
            assert(all.skip(i as int) =~= Seq::<QuestionView>::empty());
            assert(body@ + Seq::<u8>::empty() =~= body@);
        }
        let mut out = head;
        out.append(&mut body);
        Ok(out)
    }
}

/// One past the last byte that decoding `count` questions from `pos` on
/// looks at.
pub open spec fn questions_reach(bytes: Seq<u8>, pos: int, count: nat) -> int
    decreases count,
{
    if count == 0 {
        pos
    } else {
        let first = parse_question(bytes, pos);
        max(first.1, questions_reach(bytes, first.1, (count - 1) as nat))
    }
}

/// One past the last byte that decoding `count` records from `pos` on looks
/// at, the names that their pointers lead to among them.
pub open spec fn records_reach(bytes: Seq<u8>, pos: int, count: nat) -> int
    decreases count,
{
    if count == 0 {
        pos
    } else {
        max(
            record_reach(bytes, pos),
            records_reach(bytes, parse_record(bytes, pos).1, (count - 1) as nat),
        )
    }
}

/// One past the last byte that decoding a response looks at: the header, the
/// entries of its four sections, and the names that pointers lead to.
pub open spec fn response_reach(bytes: Seq<u8>) -> int {
    let header = decode_header(bytes);
    let start = HEADER_LEN as int;
    let qd = parse_questions(bytes, start, header.qdcount as nat);
    let an = parse_records(bytes, qd.1, header.ancount as nat);
    let ns = parse_records(bytes, an.1, header.nscount as nat);
    max(
        max(start, questions_reach(bytes, start, header.qdcount as nat)),
        max(
            records_reach(bytes, qd.1, header.ancount as nat),
            max(
                records_reach(bytes, an.1, header.nscount as nat),
                records_reach(bytes, ns.1, header.arcount as nat),
            ),
        ),
    )
}

/// Questions that decode look at no byte at or behind their reach.
pub proof fn lemma_parse_questions_local(
    a: Seq<u8>,
    b: Seq<u8>,
    pos: int,
    count: nat,
    bound: int,
)
    requires
        a.len() == b.len(),
        0 <= pos,
        parse_questions(a, pos, count).0 is Ok,
        questions_reach(a, pos, count) <= bound,
        forall|i: int| 0 <= i < bound ==> a[i] == b[i],
    ensures
        parse_questions(b, pos, count) == parse_questions(a, pos, count),
    decreases count,
{
    if count > 0 {
        let first = parse_question(a, pos);
        lemma_parse_question_local(a, b, pos);
        crate::name::lemma_parse_labels_advances(a, pos);
        lemma_parse_questions_local(a, b, first.1, (count - 1) as nat, bound);
    }
}

/// Records that decode look at no byte at or behind their reach.
pub proof fn lemma_parse_records_local(a: Seq<u8>, b: Seq<u8>, pos: int, count: nat, bound: int)
    requires
        a.len() == b.len(),
        0 <= pos,
        parse_records(a, pos, count).0 is Ok,
        records_reach(a, pos, count) <= bound,
        forall|i: int| 0 <= i < bound ==> a[i] == b[i],
    ensures
        parse_records(b, pos, count) == parse_records(a, pos, count),
    decreases count,
{
    if count > 0 {
        let first = parse_record(a, pos);
        lemma_parse_record_local(a, b, pos, bound);
        crate::record::lemma_parse_record_advances(a, pos);
        lemma_parse_records_local(a, b, first.1, (count - 1) as nat, bound);
    }
}

/// Questions that decode stop at or behind where they start.
pub proof fn lemma_parse_questions_advance(bytes: Seq<u8>, pos: int, count: nat)
    requires
        0 <= pos,
        parse_questions(bytes, pos, count).0 is Ok,
    ensures
        parse_questions(bytes, pos, count).1 >= pos,
    decreases count,
{
    if count > 0 {
        crate::name::lemma_parse_labels_advances(bytes, pos);
        lemma_parse_questions_advance(bytes, parse_question(bytes, pos).1, (count - 1) as nat);
    }
}

/// Records that decode stop at or behind where they start.
pub proof fn lemma_parse_records_advance(bytes: Seq<u8>, pos: int, count: nat)
    requires
        0 <= pos,
        parse_records(bytes, pos, count).0 is Ok,
    ensures
        parse_records(bytes, pos, count).1 >= pos,
    decreases count,
{
    if count > 0 {
        crate::record::lemma_parse_record_advances(bytes, pos);
        lemma_parse_records_advance(bytes, parse_record(bytes, pos).1, (count - 1) as nat);
    }
}

/// What lies behind the last byte that decoding looks at does not matter: a
/// buffer that decodes to a response, and any buffer of the same length that
/// agrees with it up to the reach of that decoding, decode to the same
/// response.
pub proof fn law_trailing_bytes_do_not_matter(a: Seq<u8>, b: Seq<u8>)
    requires
        a.len() == b.len(),
        parse_response(a) is Ok,
        forall|i: int| 0 <= i < response_reach(a) ==> a[i] == b[i],
    ensures
        parse_response(b) == parse_response(a),
{
    let header = decode_header(a);
    let start = HEADER_LEN as int;
    let bound = response_reach(a);
    assert(decode_header(b) == header);
    let qd = parse_questions(a, start, header.qdcount as nat);
    lemma_parse_questions_local(a, b, start, header.qdcount as nat, bound);
    lemma_parse_questions_advance(a, start, header.qdcount as nat);
    let an = parse_records(a, qd.1, header.ancount as nat);
    lemma_parse_records_local(a, b, qd.1, header.ancount as nat, bound);
    lemma_parse_records_advance(a, qd.1, header.ancount as nat);
    let ns = parse_records(a, an.1, header.nscount as nat);
    lemma_parse_records_local(a, b, an.1, header.nscount as nat, bound);
    lemma_parse_records_advance(a, an.1, header.nscount as nat);
    lemma_parse_records_local(a, b, ns.1, header.arcount as nat, bound);
}

} // verus!
