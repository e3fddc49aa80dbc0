//! Domain names on the wire: a run of length-prefixed labels closed by a zero byte.

use crate::error::DnsError;
use crate::text::{join_strings, join_with, texts_view};
use vstd::prelude::*;
use vstd::utf8::{
    decode_utf8, encode_utf8, encode_utf8_decode_utf8, encode_utf8_valid_utf8, is_ascii_chars,
    is_ascii_chars_encode_utf8, valid_utf8,
};

verus! {

/// The byte that separates the labels of a dotted name.
pub const DOT: u8 = 0x2E;

/// The longest label that a single length byte can announce.
pub const MAX_LABEL_LEN: usize = 255;

/// Reads the labels that start at `pos`: the labels on success, and in every
/// case the position at which reading stopped.
///
/// A zero length byte ends the name and is stepped over. A length byte beyond
/// the end of the buffer is a truncated message, reported at that position. A
/// label that would run past the end of the buffer is invalid, reported just
/// behind its length byte.
pub open spec fn parse_labels(bytes: Seq<u8>, pos: int) -> (Result<Seq<Seq<u8>>, DnsError>, int)
    decreases bytes.len() - pos,
{
    if pos < 0 || pos >= bytes.len() {
        (Err(DnsError::TruncatedMessage), pos)
    } else if bytes[pos] == 0 {
        (Ok(Seq::empty()), pos + 1)
    } else {
        let end = pos + 1 + bytes[pos];
        if end > bytes.len() {
            (Err(DnsError::InvalidLabel), pos + 1)
        } else {
            let rest = parse_labels(bytes, end);
            match rest.0 {
                Ok(labels) => (Ok(seq![bytes.subrange(pos + 1, end)] + labels), rest.1),
                Err(e) => (Err(e), rest.1),
            }
        }
    }
}

/// The labels held by a vector of byte vectors.
pub open spec fn labels_view(labels: Seq<Vec<u8>>) -> Seq<Seq<u8>> {
    labels.map_values(|l: Vec<u8>| l@)
}

/// What reading at `pos` gives once the labels `done` have been read before it.
pub open spec fn parse_labels_after(done: Seq<Seq<u8>>, bytes: Seq<u8>, pos: int) -> (
    Result<Seq<Seq<u8>>, DnsError>,
    int,
) {
    let rest = parse_labels(bytes, pos);
    match rest.0 {
        Ok(labels) => (Ok(done + labels), rest.1),
        Err(e) => (Err(e), rest.1),
    }
}

/// Reads the labels of the name that starts at `*offset` and moves `*offset`
/// to where reading stopped: behind the closing zero byte on success.
pub fn read_labels(bytes: &[u8; 512], offset: &mut usize) -> (r: Result<Vec<Vec<u8>>, DnsError>)
    ensures
        match r {
            Ok(labels) => parse_labels(bytes@, *old(offset) as int).0 == Ok::<
                Seq<Seq<u8>>,
                DnsError,
            >(labels_view(labels@)),
            Err(e) => parse_labels(bytes@, *old(offset) as int).0 == Err::<
                Seq<Seq<u8>>,
                DnsError,
            >(e),
        },
        *final(offset) == parse_labels(bytes@, *old(offset) as int).1,
{
    let ghost start = *offset as int;
    let mut labels: Vec<Vec<u8>> = Vec::new();
    assert(labels_view(labels@) =~= Seq::<Seq<u8>>::empty());
    assert(Seq::<Seq<u8>>::empty() + parse_labels(bytes@, start).0->Ok_0 =~= parse_labels(
        bytes@,
        start,
    ).0->Ok_0);
    loop
        invariant
            start == *old(offset) as int,
            parse_labels(bytes@, start) == parse_labels_after(
                labels_view(labels@),
                bytes@,
                *offset as int,
            ),
        decreases 512 - *offset,
    {
        let pos: usize = *offset;
        if pos >= 512 {
            return Err(DnsError::TruncatedMessage);
        }
        let n: usize = bytes[pos] as usize;
        if n == 0 {
            *offset = pos + 1;
            assert(labels_view(labels@) + Seq::<Seq<u8>>::empty() =~= labels_view(labels@));
            return Ok(labels);
        }
        *offset = pos + 1;
        let end: usize = pos + 1 + n;
        if end > 512 {
            return Err(DnsError::InvalidLabel);
        }
        let label = copy_range(bytes, pos + 1, end);
        proof {
            let done = labels_view(labels@);
            let one = seq![bytes@.subrange(pos + 1, end as int)];
            assert(labels_view(labels@.push(label)) =~= done + one);
            let rest = parse_labels(bytes@, end as int);
            if rest.0 is Ok {
                assert(done + (one + rest.0->Ok_0) =~= (done + one) + rest.0->Ok_0);
            }
        }
        labels.push(label);
        *offset = end;
    }
}

/// The bytes of `bytes` from `from` up to `to`, as a vector of their own.
pub(crate) fn copy_range(bytes: &[u8; 512], from: usize, to: usize) -> (out: Vec<u8>)
    requires
        from <= to <= 512,
    ensures
        out@ == bytes@.subrange(from as int, to as int),
{
    let mut out: Vec<u8> = Vec::new();
    let mut i: usize = from;
    while i < to
        invariant
            from <= i <= to <= 512,
            out@ == bytes@.subrange(from as int, i as int),
        decreases to - i,
    {
        out.push(bytes[i]);
        i = i + 1;
        assert(out@ =~= bytes@.subrange(from as int, i as int));
    }
    out
}

/// An ASCII capital letter as its small letter; any other byte as it is.
pub open spec fn lower_byte(b: u8) -> u8 {
    if 0x41 <= b && b <= 0x5A {
        (b + 32) as u8
    } else {
        b
    }
}

/// Every byte of `s` lowered.
pub open spec fn lower_bytes(s: Seq<u8>) -> Seq<u8> {
    s.map_values(|b: u8| lower_byte(b))
}

/// The text that a lossy UTF-8 conversion makes of bytes that are not valid
/// UTF-8: each malformed run replaced by U+FFFD.
pub uninterp spec fn utf8_lossy(bytes: Seq<u8>) -> Seq<char>;

/// The text of a run of bytes: the characters they encode where they are valid
/// UTF-8, and the lossy conversion otherwise.
pub open spec fn lossy_text(bytes: Seq<u8>) -> Seq<char> {
    if valid_utf8(bytes) {
        decode_utf8(bytes)
    } else {
        utf8_lossy(bytes)
    }
}

/// The text of one label: its bytes lowered, then read as text.
pub open spec fn label_text(label: Seq<u8>) -> Seq<char> {
    lossy_text(lower_bytes(label))
}

/// The parts joined by dots.
pub open spec fn join_dotted(parts: Seq<Seq<char>>) -> Seq<char> {
    join_with(parts, seq!['.'])
}

/// The dotted, lower-case name that a run of labels spells.
pub open spec fn name_text(labels: Seq<Seq<u8>>) -> Seq<char> {
    join_dotted(labels.map_values(|l: Seq<u8>| label_text(l)))
}

/// Decodes the name that starts at `pos`: the name on success, and in every
/// case the position at which reading stopped (see [`parse_labels`]).
pub open spec fn decode_name(bytes: Seq<u8>, pos: int) -> (Result<Seq<char>, DnsError>, int) {
    let parsed = parse_labels(bytes, pos);
    match parsed.0 {
        Ok(labels) => (Ok(name_text(labels)), parsed.1),
        Err(e) => (Err(e), parsed.1),
    }
}

/// Lowers one byte.
pub fn to_lower_byte(b: u8) -> (r: u8)
    ensures
        r == lower_byte(b),
{
    if 0x41 <= b && b <= 0x5A {
        b + 32
    } else {
        b
    }
}

/// A copy of `label` with every ASCII capital letter lowered.
pub fn lower_label(label: &Vec<u8>) -> (out: Vec<u8>)
    ensures
        out@ == lower_bytes(label@),
{
    let mut out: Vec<u8> = Vec::new();
    let mut i: usize = 0;
    while i < label.len()
        invariant
            i <= label.len(),
            out@ == lower_bytes(label@.take(i as int)),
        decreases label.len() - i,
    {
        out.push(to_lower_byte(label[i]));
        i = i + 1;
        assert(out@ =~= lower_bytes(label@.take(i as int)));
    }
    assert(label@.take(i as int) =~= label@);
    out
}

/// Calls `String::from_utf8_lossy` and takes the result as an owned string.
///
/// Trusted: valid UTF-8 comes back as the text it encodes; of anything else
/// the contract only names the result, [`utf8_lossy`].
#[verifier::external_body]
fn lossy_string(bytes: &[u8]) -> (text: String)
    ensures
        text@ == (if valid_utf8(bytes@) {
            decode_utf8(bytes@)
        } else {
            utf8_lossy(bytes@)
        }),
{
    String::from_utf8_lossy(bytes).into_owned()
}

/// The text of one label.
pub fn label_to_text(label: &Vec<u8>) -> (text: String)
    ensures
        text@ == label_text(label@),
{
    let lowered = lower_label(label);
    lossy_string(lowered.as_slice())
}

/// Joins the texts with dots.
pub fn join_texts(texts: &Vec<String>) -> (name: String)
    ensures
        name@ == join_dotted(texts_view(texts@)),
{
    proof {
        reveal_strlit(".");
        assert("."@ =~= seq!['.']);
    }
    join_strings(texts, ".")
}

/// The dotted, lower-case name that the labels spell.
pub fn name_from_labels(labels: &Vec<Vec<u8>>) -> (name: String)
    ensures
        name@ == name_text(labels_view(labels@)),
{
    let mut texts: Vec<String> = Vec::new();
    let mut i: usize = 0;
    let ghost all = labels_view(labels@).map_values(|l: Seq<u8>| label_text(l));
    while i < labels.len()
        invariant
            i <= labels.len(),
            all == labels_view(labels@).map_values(|l: Seq<u8>| label_text(l)),
            texts_view(texts@) == all.take(i as int),
        decreases labels.len() - i,
    {
        let text = label_to_text(&labels[i]);
        proof {
            assert(labels_view(labels@)[i as int] == labels@[i as int]@);
            assert(all[i as int] == text@);
            assert(texts_view(texts@.push(text)) =~= texts_view(texts@).push(text@));
            assert(all.take(i + 1) =~= all.take(i as int).push(all[i as int]));
        }
        texts.push(text);
        i = i + 1;
    }
    assert(all.take(i as int) =~= all);
    join_texts(&texts)
}

/// Decodes the name that starts at `*offset` and moves `*offset` to where
/// reading stopped: behind the closing zero byte on success.
pub fn get_name(bytes: &[u8; 512], offset: &mut usize) -> (r: Result<String, DnsError>)
    ensures
        match r {
            Ok(name) => decode_name(bytes@, *old(offset) as int).0 == Ok::<Seq<char>, DnsError>(
                name@,
            ),
            Err(e) => decode_name(bytes@, *old(offset) as int).0 == Err::<Seq<char>, DnsError>(e),
        },
        *final(offset) == decode_name(bytes@, *old(offset) as int).1,
{
    match read_labels(bytes, offset) {
        Ok(labels) => Ok(name_from_labels(&labels)),
        Err(e) => Err(e),
    }
}

/// Number of bytes of `s` before its first dot: all of them where it has none.
pub open spec fn first_dot(s: Seq<u8>) -> nat
    decreases s.len(),
{
    if s.len() == 0 || s[0] == DOT {
        0
    } else {
        1 + first_dot(s.drop_first())
    }
}

/// The labels of a dotted name: the runs of bytes between its dots, the runs
/// before the first and behind the last dot among them. A name without a dot is
/// one label, and so is the empty name.
pub open spec fn split_labels(s: Seq<u8>) -> Seq<Seq<u8>>
    decreases s.len(),
{
    let n = first_dot(s) as int;
    if n >= s.len() {
        seq![s]
    } else {
        seq![s.take(n)] + split_labels(s.skip(n + 1))
    }
}

/// The wire form of a run of labels: each label behind a byte that gives its
/// length, and a zero byte at the end. A label of more than 255 bytes has no
/// wire form.
pub open spec fn encode_labels(labels: Seq<Seq<u8>>) -> Result<Seq<u8>, DnsError>
    decreases labels.len(),
{
    if labels.len() == 0 {
        Ok(seq![0u8])
    } else if labels[0].len() > MAX_LABEL_LEN {
        Err(DnsError::LabelTooLong)
    } else {
        match encode_labels(labels.drop_first()) {
            Err(e) => Err(e),
            Ok(rest) => Ok(seq![labels[0].len() as u8] + labels[0] + rest),
        }
    }
}

/// The wire form of a dotted name, cut at the dots of its UTF-8 bytes.
pub open spec fn encode_name(name: Seq<char>) -> Result<Seq<u8>, DnsError> {
    encode_labels(split_labels(encode_utf8(name)))
}

/// The wire form `rest` with the bytes `done` before it.
pub open spec fn encoded_after(done: Seq<u8>, rest: Result<Seq<u8>, DnsError>) -> Result<
    Seq<u8>,
    DnsError,
> {
    match rest {
        Err(e) => Err(e),
        Ok(bytes) => Ok(done + bytes),
    }
}

/// The first dot of `s` is at `k` where no dot stands before `k` and one
/// stands at `k`, or `s` ends there.
pub proof fn lemma_first_dot(s: Seq<u8>, k: int)
    requires
        0 <= k <= s.len(),
        forall|j: int| 0 <= j < k ==> s[j] != DOT,
        k == s.len() || s[k] == DOT,
    ensures
        first_dot(s) == k,
    decreases k,
{
    if k > 0 {
        let t = s.drop_first();
        assert forall|j: int| 0 <= j < k - 1 implies t[j] != DOT by {
            assert(t[j] == s[j + 1]);
        }
        lemma_first_dot(t, k - 1);
    }
}

/// Appends the bytes of `src` from `from` up to `to`.
pub(crate) fn push_range(out: &mut Vec<u8>, src: &[u8], from: usize, to: usize)
    requires
        from <= to <= src@.len(),
    ensures
        final(out)@ == old(out)@ + src@.subrange(from as int, to as int),
{
    let mut i: usize = from;
    assert(out@ =~= old(out)@ + src@.subrange(from as int, i as int));
    while i < to
        invariant
            from <= i <= to <= src@.len(),
            out@ == old(out)@ + src@.subrange(from as int, i as int),
        decreases to - i,
    {
        out.push(src[i]);
        i = i + 1;
        assert(out@ =~= old(out)@ + src@.subrange(from as int, i as int));
    }
}

/// Encodes the labels of the dotted name whose bytes are `name`.
pub fn encode_dotted(name: &[u8]) -> (r: Result<Vec<u8>, DnsError>)
    ensures
        match r {
            Ok(out) => encode_labels(split_labels(name@)) == Ok::<Seq<u8>, DnsError>(out@),
            Err(e) => encode_labels(split_labels(name@)) == Err::<Seq<u8>, DnsError>(e),
        },
{
    let n: usize = name.len();
    let mut out: Vec<u8> = Vec::new();
    let mut start: usize = 0;
    proof {
        assert(name@.skip(0) =~= name@);
        let all = encode_labels(split_labels(name@));
        if all is Ok {
            assert(out@ + all->Ok_0 =~= all->Ok_0);
        }
    }
    loop
        invariant
            n == name@.len(),
            start <= n,
            encode_labels(split_labels(name@)) == encoded_after(
                out@,
                encode_labels(split_labels(name@.skip(start as int))),
            ),
        decreases n - start,
    {
        let mut end: usize = start;
        while end < n && name[end] != DOT
            invariant
                n == name@.len(),
                start <= end <= n,
                forall|j: int| start <= j < end ==> name@[j] != DOT,
            decreases n - end,
        {
            end = end + 1;
        }
        let len: usize = end - start;
        let ghost tail = name@.skip(start as int);
        let ghost labels = split_labels(tail);
        proof {
            assert forall|j: int| 0 <= j < len implies tail[j] != DOT by {
                assert(tail[j] == name@[start + j]);
            }
            lemma_first_dot(tail, len as int);
            assert(labels[0] =~= name@.subrange(start as int, end as int));
            if end < n {
                assert(tail.skip(len + 1) =~= name@.skip(end + 1));
                assert(labels.drop_first() =~= split_labels(name@.skip(end + 1)));
            } else {
                assert(labels.drop_first() =~= Seq::<Seq<u8>>::empty());
            }
        }
        if len > MAX_LABEL_LEN {
            return Err(DnsError::LabelTooLong);
        }
        let ghost before = out@;
        out.push(len as u8);
        push_range(&mut out, name, start, end);
        if end == n {
            out.push(0);
            proof {
                assert(encode_labels(labels.drop_first()) == Ok::<Seq<u8>, DnsError>(seq![0u8]));
                assert(out@ =~= before + (seq![len as u8] + labels[0] + seq![0u8]));
            }
            return Ok(out);
        }
        proof {
            let rest = encode_labels(labels.drop_first());
            assert(out@ =~= before + (seq![len as u8] + labels[0]));
            if rest is Ok {
                assert(before + (seq![len as u8] + labels[0] + rest->Ok_0) =~= out@ + rest->Ok_0);
            }
        }
        start = end + 1;
    }
}

/// Encodes a dotted name: a length byte and the bytes of each label, then a
/// zero byte. Fails where a label is longer than 255 bytes.
pub fn write_name(name: &str) -> (r: Result<Vec<u8>, DnsError>)
    ensures
        match r {
            Ok(out) => encode_name(name@) == Ok::<Seq<u8>, DnsError>(out@),
            Err(e) => encode_name(name@) == Err::<Seq<u8>, DnsError>(e),
        },
{
    encode_dotted(name.as_bytes())
}

/// Boundary: a label whose length byte announces more bytes than the buffer
/// holds fails as an invalid label, just behind that length byte, and nothing
/// beyond the buffer is read.
pub proof fn law_label_overrun_is_invalid(bytes: Seq<u8>, pos: int)
    requires
        0 <= pos < bytes.len(),
        bytes[pos] != 0,
        pos + 1 + bytes[pos] > bytes.len(),
    ensures
        parse_labels(bytes, pos) == (
            Err::<Seq<Seq<u8>>, DnsError>(DnsError::InvalidLabel),
            pos + 1,
        ),
        decode_name(bytes, pos) == (Err::<Seq<char>, DnsError>(DnsError::InvalidLabel), pos + 1),
{
}

/// Boundary: reading labels never leaves the buffer. Reading that starts
/// inside it, or at its end, stops between where it started and the end of the
/// buffer. Where it succeeds it has moved on, and every label it read has from
/// 1 to 255 bytes; where it fails, it fails as a truncated message or as an
/// invalid label.
pub proof fn law_labels_stay_in_bounds(bytes: Seq<u8>, pos: int)
    requires
        0 <= pos <= bytes.len(),
    ensures
        pos <= parse_labels(bytes, pos).1 <= bytes.len(),
        match parse_labels(bytes, pos).0 {
            Ok(labels) => pos < parse_labels(bytes, pos).1 && forall|i: int|
                0 <= i < labels.len() ==> 1 <= (#[trigger] labels[i]).len() <= MAX_LABEL_LEN,
            Err(e) => e == DnsError::TruncatedMessage || e == DnsError::InvalidLabel,
        },
    decreases bytes.len() - pos,
{
    if pos < bytes.len() && bytes[pos] != 0 {
        let end = pos + 1 + bytes[pos];
        if end <= bytes.len() {
            law_labels_stay_in_bounds(bytes, end);
            let rest = parse_labels(bytes, end);
            if rest.0 is Ok {
                let first = bytes.subrange(pos + 1, end);
                let labels = seq![first] + rest.0->Ok_0;
                assert forall|i: int| 0 <= i < labels.len() implies 1 <= (#[trigger] labels[i]).len()
                    <= MAX_LABEL_LEN by {
                    if i > 0 {
                        assert(labels[i] == rest.0->Ok_0[i - 1]);
                    }
                }
            }
        }
    }
}

/// Lowering bytes that are lowered already changes nothing.
pub proof fn lemma_lower_bytes_idempotent(s: Seq<u8>)
    ensures
        lower_bytes(lower_bytes(s)) == lower_bytes(s),
{
    assert(lower_bytes(lower_bytes(s)) =~= lower_bytes(s));
}

/// The name that labels spell is the name that their lowered forms spell.
pub proof fn lemma_name_text_of_lowered(labels: Seq<Seq<u8>>)
    ensures
        name_text(labels.map_values(|l: Seq<u8>| lower_bytes(l))) == name_text(labels),
{
    let lowered = labels.map_values(|l: Seq<u8>| lower_bytes(l));
    assert forall|i: int| 0 <= i < labels.len() implies label_text(lowered[i]) == label_text(
        labels[i],
    ) by {
        lemma_lower_bytes_idempotent(labels[i]);
    }
    assert(lowered.map_values(|l: Seq<u8>| label_text(l)) =~= labels.map_values(
        |l: Seq<u8>| label_text(l),
    ));
}

/// Decoding ignores case: where one buffer holds a name whose labels mix
/// capital and small letters and another holds the same labels all in small
/// letters, both decode to the same name.
pub proof fn law_decoding_ignores_case(
    mixed: Seq<u8>,
    mixed_pos: int,
    lowered: Seq<u8>,
    lowered_pos: int,
)
    requires
        parse_labels(mixed, mixed_pos).0 is Ok,
        parse_labels(lowered, lowered_pos).0 is Ok,
        parse_labels(lowered, lowered_pos).0->Ok_0 == parse_labels(
            mixed,
            mixed_pos,
        ).0->Ok_0.map_values(|l: Seq<u8>| lower_bytes(l)),
    ensures
        decode_name(mixed, mixed_pos).0 == decode_name(lowered, lowered_pos).0,
{
    lemma_name_text_of_lowered(parse_labels(mixed, mixed_pos).0->Ok_0);
}

/// A byte is plain where it is ASCII and no capital letter.
pub open spec fn plain_byte(b: u8) -> bool {
    b < 0x80 && !(0x41 <= b && b <= 0x5A)
}

/// Every byte of `s` is plain.
pub open spec fn plain_bytes(s: Seq<u8>) -> bool {
    forall|i: int| 0 <= i < s.len() ==> plain_byte(#[trigger] s[i])
}

/// The characters that ASCII bytes stand for.
pub open spec fn ascii_text(s: Seq<u8>) -> Seq<char> {
    s.map_values(|b: u8| b as char)
}

/// Every label is non-empty and short enough for a length byte.
pub open spec fn labels_fit(labels: Seq<Seq<u8>>) -> bool {
    forall|i: int| 0 <= i < labels.len() ==> 1 <= (#[trigger] labels[i]).len() <= MAX_LABEL_LEN
}

/// ASCII bytes are valid UTF-8 and encode the characters they stand for.
pub proof fn lemma_ascii_bytes_decode(s: Seq<u8>)
    requires
        forall|i: int| 0 <= i < s.len() ==> (#[trigger] s[i]) < 0x80,
    ensures
        valid_utf8(s),
        decode_utf8(s) == ascii_text(s),
        encode_utf8(ascii_text(s)) == s,
{
    let chars = ascii_text(s);
    assert(is_ascii_chars(chars)) by {
        assert forall|i: int| 0 <= i < chars.len() implies '\0' <= #[trigger] chars[i]
            <= '\u{7f}' by {
            assert(chars[i] == s[i] as char);
        }
    }
    is_ascii_chars_encode_utf8(chars);
    assert(encode_utf8(chars) =~= s) by {
        assert forall|i: int| 0 <= i < s.len() implies encode_utf8(chars)[i] == s[i] by {
            assert(chars[i] == s[i] as char);
            assert(chars[i] as u8 == s[i]);
        }
    }
    encode_utf8_valid_utf8(chars);
    encode_utf8_decode_utf8(chars);
}

/// The text of a label of plain bytes is the characters they stand for.
pub proof fn lemma_plain_label_text(label: Seq<u8>)
    requires
        plain_bytes(label),
    ensures
        label_text(label) == ascii_text(label),
{
    assert(lower_bytes(label) =~= label);
    lemma_ascii_bytes_decode(label);
}

/// Cutting a dotted name of plain bytes into labels and spelling the labels
/// out again, joined by dots, gives the name back.
pub proof fn lemma_plain_name_text(name: Seq<u8>)
    requires
        plain_bytes(name),
    ensures
        name_text(split_labels(name)) == ascii_text(name),
    decreases name.len(),
{
    let n = first_dot(name) as int;
    lemma_first_dot_bounds(name);
    let text_of = |l: Seq<u8>| label_text(l);
    if n >= name.len() {
        lemma_plain_label_text(name);
        assert(seq![name].map_values(text_of) =~= seq![label_text(name)]);
    } else {
        let head = name.take(n);
        let tail = name.skip(n + 1);
        let rest = split_labels(tail);
        lemma_plain_label_text(head);
        lemma_plain_name_text(tail);
        lemma_split_nonempty(tail);
        let texts = (seq![head] + rest).map_values(text_of);
        assert(texts.drop_first() =~= rest.map_values(text_of));
        assert(texts[0] == ascii_text(head));
        assert(texts.len() >= 2);
        assert(join_dotted(texts) == texts[0] + seq!['.'] + join_dotted(texts.drop_first()));
        assert(name[n] == DOT);
        assert(ascii_text(name) =~= ascii_text(head) + seq!['.'] + ascii_text(tail));
    }
}

/// The first dot of `s` lies in `s` or at its end; no dot stands before it
/// and, inside `s`, one stands at it.
pub proof fn lemma_first_dot_bounds(s: Seq<u8>)
    ensures
        first_dot(s) <= s.len(),
        forall|j: int| 0 <= j < first_dot(s) ==> s[j] != DOT,
        first_dot(s) < s.len() ==> s[first_dot(s) as int] == DOT,
    decreases s.len(),
{
    if s.len() > 0 && s[0] != DOT {
        let t = s.drop_first();
        lemma_first_dot_bounds(t);
        assert forall|j: int| 0 <= j < first_dot(s) implies s[j] != DOT by {
            if j > 0 {
                assert(s[j] == t[j - 1]);
            }
        }
    }
}

/// A dotted name always has a label, if only an empty one.
pub proof fn lemma_split_nonempty(s: Seq<u8>)
    ensures
        split_labels(s).len() >= 1,
{
}

/// Labels that fit have a wire form, and a buffer that holds it at `pos`
/// reads back as those labels, up to just behind the closing zero byte.
pub proof fn lemma_parse_encoded_labels(labels: Seq<Seq<u8>>, bytes: Seq<u8>, pos: int)
    requires
        labels_fit(labels),
        0 <= pos,
        pos + encode_labels(labels)->Ok_0.len() <= bytes.len(),
        bytes.subrange(pos, pos + encode_labels(labels)->Ok_0.len()) == encode_labels(
            labels,
        )->Ok_0,
    ensures
        encode_labels(labels) is Ok,
        parse_labels(bytes, pos) == (
            Ok::<Seq<Seq<u8>>, DnsError>(labels),
            pos + encode_labels(labels)->Ok_0.len(),
        ),
    decreases labels.len(),
{
    lemma_labels_fit_encode(labels);
    let wire = encode_labels(labels)->Ok_0;
    let held = bytes.subrange(pos, pos + wire.len());
    if labels.len() == 0 {
        assert(bytes[pos] == held[0]);
        assert(labels =~= Seq::<Seq<u8>>::empty());
    } else {
        let first = labels[0];
        let rest = labels.drop_first();
        lemma_labels_fit_encode(rest);
        let rest_wire = encode_labels(rest)->Ok_0;
        assert(wire == seq![first.len() as u8] + first + rest_wire);
        let end = pos + 1 + first.len();
        assert(bytes[pos] == held[0]);
        assert(bytes[pos] == first.len());
        assert(bytes.subrange(pos + 1, end) =~= first) by {
            assert forall|i: int| 0 <= i < first.len() implies bytes[pos + 1 + i] == first[i] by {
                assert(bytes[pos + 1 + i] == held[1 + i]);
            }
        }
        assert(bytes.subrange(end, end + rest_wire.len()) =~= rest_wire) by {
            assert forall|i: int| 0 <= i < rest_wire.len() implies bytes[end + i]
                == rest_wire[i] by {
                assert(bytes[end + i] == held[1 + first.len() + i]);
            }
        }
        lemma_parse_encoded_labels(rest, bytes, end);
        assert(seq![first] + rest =~= labels);
    }
}

/// Labels that fit have a wire form.
pub proof fn lemma_labels_fit_encode(labels: Seq<Seq<u8>>)
    requires
        labels_fit(labels),
    ensures
        encode_labels(labels) is Ok,
        labels.len() > 0 ==> labels_fit(labels.drop_first()),
    decreases labels.len(),
{
    if labels.len() > 0 {
        let rest = labels.drop_first();
        assert forall|i: int| 0 <= i < rest.len() implies 1 <= (#[trigger] rest[i]).len()
            <= MAX_LABEL_LEN by {
            assert(rest[i] == labels[i + 1]);
        }
        lemma_labels_fit_encode(rest);
    }
}

/// Reading never steps backwards.
pub proof fn lemma_parse_labels_advances(bytes: Seq<u8>, pos: int)
    requires
        0 <= pos,
    ensures
        parse_labels(bytes, pos).1 >= pos,
    decreases bytes.len() - pos,
{
    if pos < bytes.len() && bytes[pos] != 0 {
        let end = pos + 1 + bytes[pos];
        if end <= bytes.len() {
            lemma_parse_labels_advances(bytes, end);
        }
    }
}

/// Reading labels looks at no byte but those from where it starts up to where
/// it stops: two buffers of one length that agree there read alike.
pub proof fn lemma_parse_labels_local(a: Seq<u8>, b: Seq<u8>, pos: int)
    requires
        a.len() == b.len(),
        0 <= pos,
        forall|i: int| pos <= i < parse_labels(a, pos).1 ==> a[i] == b[i],
    ensures
        parse_labels(b, pos) == parse_labels(a, pos),
    decreases a.len() - pos,
{
    if pos < a.len() {
        lemma_parse_labels_advances(a, pos);
        if a[pos] != 0 {
            let end = pos + 1 + a[pos];
            if end <= a.len() {
                lemma_parse_labels_advances(a, end);
                lemma_parse_labels_local(a, b, end);
                assert(a.subrange(pos + 1, end) =~= b.subrange(pos + 1, end));
            }
        }
    }
}

/// Decoding a name looks at no byte but those from where it starts up to
/// where it stops.
pub proof fn lemma_decode_name_local(a: Seq<u8>, b: Seq<u8>, pos: int)
    requires
        a.len() == b.len(),
        0 <= pos,
        forall|i: int| pos <= i < decode_name(a, pos).1 ==> a[i] == b[i],
    ensures
        decode_name(b, pos) == decode_name(a, pos),
{
    lemma_parse_labels_local(a, b, pos);
}

} // verus!
