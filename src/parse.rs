//! Decoding received messages.
use vstd::prelude::*;
use vstd::utf8::{decode_utf8, valid_utf8};
use crate::error::DnsError;
use crate::query::DNSHeader;
use crate::wire::{be16, be32, push_bytes, read_u16, read_u32};
use crate::name::{
    DOT, POINTER_SPAN, Segment, after_labels, ascii_chars, decoded_name, dotted, follow,
    is_ascii_bytes, labels_then, lemma_ascii_utf8, lemma_segment_target, lemma_targets_left_shrinks,
    segment, targets_left,
};

verus! {

/// Relies on `String::from_utf8`: it succeeds exactly when the bytes are valid
/// UTF-8, and the string then holds the characters that they encode.
#[verifier::external_body]
fn utf8_text(bytes: Vec<u8>) -> (r: Option<String>)
    ensures
        r is Some <==> valid_utf8(bytes@),
        r matches Some(s) ==> s@ == decode_utf8(bytes@),
{
    String::from_utf8(bytes).ok()
}

/// Labels read in two steps are the labels read in one.
proof fn lemma_after_labels_assoc(a: Seq<Seq<u8>>, b: Seq<Seq<u8>>, s: Segment)
    ensures
        after_labels(a, after_labels(b, s)) == after_labels(a + b, s),
{
    match s {
        Segment::Ended { labels, next } => assert(a + (b + labels) =~= (a + b) + labels),
        Segment::Jump { labels, target, next } => assert(a + (b + labels) =~= (a + b) + labels),
        Segment::Failed { err } => {},
    }
}

/// Adding a label to a dotted name adds a dot, then the label.
proof fn lemma_dotted_push(ls: Seq<Seq<u8>>, l: Seq<u8>)
    ensures
        dotted(ls.push(l)) == if ls.len() == 0 { l } else { dotted(ls) + seq![DOT] + l },
{
    assert(ls.push(l).drop_last() =~= ls);
}

/// Reads literal labels from `start` and appends them, joined by dots, to the
/// text already in `out`, which holds the labels `acc`.
fn read_segment(
    msg: &[u8],
    start: usize,
    pointers: bool,
    out: &mut Vec<u8>,
    any: &mut bool,
    Ghost(acc): Ghost<Seq<Seq<u8>>>,
) -> (r: Result<(Option<usize>, usize), DnsError>)
    requires
        old(out)@ == dotted(acc),
        *old(any) == (acc.len() > 0),
    ensures
        match segment(msg@, start as int, pointers) {
            Segment::Ended { labels, next } => r matches Ok((None, n)) && n == next
                && final(out)@ == dotted(acc + labels) && *final(any) == (acc.len() + labels.len() > 0),
            Segment::Jump { labels, target, next } => r matches Ok((Some(t), n)) && t == target
                && n == next && final(out)@ == dotted(acc + labels)
                && *final(any) == (acc.len() + labels.len() > 0),
            Segment::Failed { err } => r == Err::<(Option<usize>, usize), DnsError>(err),
        },
{
    let mut p = start;
    let ghost mut got: Seq<Seq<u8>> = Seq::empty();
    assert(acc + got =~= acc);
    assert(got + Seq::<Seq<u8>>::empty() =~= got);
    loop
        invariant
            start <= p,
            *any == (acc.len() + got.len() > 0),
            segment(msg@, start as int, pointers) == after_labels(got, segment(msg@, p as int, pointers)),
            out@ == dotted(acc + got),
        decreases msg@.len() - p,
    {
        if p >= msg.len() {
            return Err(DnsError::TruncatedInput);
        }
        let b = msg[p];
        if b == 0 {
            assert(got + Seq::<Seq<u8>>::empty() =~= got);
            return Ok((None, p + 1));
        }
        if pointers && b >= 192 {
            if msg.len() - p < 2 {
                return Err(DnsError::TruncatedInput);
            }
            let t = ((b % 64) as usize) * 256 + msg[p + 1] as usize;
            assert(got + Seq::<Seq<u8>>::empty() =~= got);
            return Ok((Some(t), p + 2));
        }
        let n = b as usize;
        if msg.len() - (p + 1) < n {
            return Err(DnsError::TruncatedInput);
        }
        let ghost label = msg@.subrange(p + 1, p + 1 + n);
        proof {
            lemma_after_labels_assoc(got, seq![label], segment(msg@, p + 1 + n, pointers));
            lemma_dotted_push(acc + got, label);
            assert((acc + got).push(label) =~= acc + got.push(label));
            assert(got + seq![label] =~= got.push(label));
        }
        if *any {
            out.push(DOT);
        }
        push_bytes(out, msg, p + 1, p + 1 + n);
        p = p + 1 + n;
        *any = true;
        proof {
            got = got.push(label);
        }
    }
}

/// The offsets that `seen` holds.
spec fn seen_set(seen: Seq<usize>) -> Set<int> {
    Set::new(|x: int| exists|k: int| 0 <= k < seen.len() && seen[k] as int == x)
}

/// Whether `seen` holds `x`.
fn holds(seen: &Vec<usize>, x: usize) -> (r: bool)
    ensures
        r == seen_set(seen@).contains(x as int),
{
    let mut k: usize = 0;
    while k < seen.len()
        invariant
            k <= seen@.len(),
            forall|j: int| 0 <= j < k ==> seen@[j] != x,
        decreases seen@.len() - k,
    {
        if seen[k] == x {
            return true;
        }
        k = k + 1;
    }
    false
}

/// Follows the compression pointer to `target` that ended the first part of the
/// name at `start`, and the pointers after it, appending the labels met to `out`.
/// Entering an offset a second time fails with `CompressionLoop`.
fn decode_compressed_name(
    msg: &[u8],
    start: usize,
    target: usize,
    out: &mut Vec<u8>,
    any: &mut bool,
    Ghost(acc): Ghost<Seq<Seq<u8>>>,
) -> (r: Result<(), DnsError>)
    requires
        old(out)@ == dotted(acc),
        *old(any) == (acc.len() > 0),
        target < POINTER_SPAN,
    ensures
        match follow(msg@, target as int, set![start as int]) {
            Ok(ls) => r is Ok && final(out)@ == dotted(acc + ls),
            Err(e) => r == Err::<(), DnsError>(e),
        },
{
    let mut seen: Vec<usize> = Vec::new();
    seen.push(start);
    let mut cur = target;
    let ghost mut got: Seq<Seq<u8>> = Seq::empty();
    assert(seen_set(seen@) =~= set![start as int]) by {
        assert(seen@[0] == start);
    }
    assert(acc + got =~= acc);
    assert forall|r: Result<Seq<Seq<u8>>, DnsError>| labels_then(got, r) == r by {
        if let Ok(ls) = r {
            assert(got + ls =~= ls);
        }
    }
    loop
        invariant
            cur < POINTER_SPAN,
            follow(msg@, target as int, set![start as int]) == labels_then(got, follow(msg@, cur as int, seen_set(seen@))),
            out@ == dotted(acc + got),
            *any == (acc.len() + got.len() > 0),
        decreases targets_left(seen_set(seen@)),
    {
        if holds(&seen, cur) {
            return Err(DnsError::CompressionLoop);
        }
        let ghost visited = seen_set(seen@);
        let ghost seg = segment(msg@, cur as int, true);
        match read_segment(msg, cur, true, out, any, Ghost(acc + got)) {
            Err(e) => {
                return Err(e);
            },
            Ok((None, _)) => {
                assert(acc + got + seg->Ended_labels =~= acc + (got + seg->Ended_labels));
                return Ok(());
            },
            Ok((Some(t), _)) => {
                proof {
                    lemma_targets_left_shrinks(msg@, cur as int, visited, t as int);
                    let ls = seg->Jump_labels;
                    assert(acc + got + ls =~= acc + (got + ls));
                    let rest = follow(msg@, t as int, visited.insert(cur as int));
                    if let Ok(x) = rest {
                        assert(got + (ls + x) =~= (got + ls) + x);
                    }
                    got = got + ls;
                }
                let ghost before = seen@;
                seen.push(cur);
                proof {
                    assert(seen_set(seen@) =~= visited.insert(cur as int)) by {
                        assert(seen@[seen@.len() - 1] == cur);
                        assert forall|x: int| visited.contains(x) implies seen_set(seen@).contains(x) by {
                            let k = choose|k: int| 0 <= k < before.len() && before[k] as int == x;
                            assert(seen@[k] as int == x);
                        }
                    }
                }
                cur = t;
            },
        }
    }
}

/// Decodes the name at `*pos` and moves `pos` past it: past its zero
/// terminator, or past its first compression pointer. A pointer continues the
/// name at an offset from the start of `msg`. On failure `pos` is left as it was.
pub fn decode_name(msg: &[u8], pos: &mut usize) -> (r: Result<String, DnsError>)
    ensures
        match decoded_name(msg@, *old(pos) as int, true) {
            Ok((text, next)) => r matches Ok(s) && s@ == text && *final(pos) == next,
            Err(e) => r == Err::<String, DnsError>(e) && *final(pos) == *old(pos),
        },
{
    let start = *pos;
    let mut out: Vec<u8> = Vec::new();
    let mut any = false;
    let ghost seg = segment(msg@, start as int, true);
    let end = match read_segment(msg, start, true, &mut out, &mut any, Ghost(Seq::empty())) {
        Err(e) => {
            return Err(e);
        },
        Ok((None, n)) => {
            assert(Seq::<Seq<u8>>::empty() + seg->Ended_labels =~= seg->Ended_labels);
            n
        },
        Ok((Some(t), n)) => {
            let ghost ls = seg->Jump_labels;
            proof {
                lemma_segment_target(msg@, start as int, true);
                assert(Seq::<Seq<u8>>::empty() + ls =~= ls);
                assert(Set::<int>::empty().insert(start as int) =~= set![start as int]);
            }
            if let Err(e) = decode_compressed_name(msg, start, t, &mut out, &mut any, Ghost(ls)) {
                return Err(e);
            }
            n
        },
    };
    match utf8_text(out) {
        None => Err(DnsError::InvalidEncoding),
        Some(s) => {
            *pos = end;
            Ok(s)
        },
    }
}

/// Decodes the name at `*pos` and moves `pos` past its zero terminator, reading
/// every nonzero length byte as the length of a label: no compression pointers.
/// On failure `pos` is left as it was.
pub fn decode_name_simple(msg: &[u8], pos: &mut usize) -> (r: Result<String, DnsError>)
    ensures
        match decoded_name(msg@, *old(pos) as int, false) {
            Ok((text, next)) => r matches Ok(s) && s@ == text && *final(pos) == next,
            Err(e) => r == Err::<String, DnsError>(e) && *final(pos) == *old(pos),
        },
{
    let start = *pos;
    let mut out: Vec<u8> = Vec::new();
    let mut any = false;
    let ghost seg = segment(msg@, start as int, false);
    proof {
        lemma_plain_segment(msg@, start as int);
    }
    let end = match read_segment(msg, start, false, &mut out, &mut any, Ghost(Seq::empty())) {
        Err(e) => {
            return Err(e);
        },
        Ok((_, n)) => {
            assert(Seq::<Seq<u8>>::empty() + seg->Ended_labels =~= seg->Ended_labels);
            n
        },
    };
    match utf8_text(out) {
        None => Err(DnsError::InvalidEncoding),
        Some(s) => {
            *pos = end;
            Ok(s)
        },
    }
}

/// Without pointers, reading labels never ends in a jump.
proof fn lemma_plain_segment(msg: Seq<u8>, p: int)
    ensures
        !(segment(msg, p, false) is Jump),
    decreases msg.len() - p,
{
    if 0 <= p < msg.len() && msg[p] != 0 {
        let n = msg[p] as int;
        if p + 1 + n <= msg.len() {
            lemma_plain_segment(msg, p + 1 + n);
        }
    }
}

// ----- sections -----

/// A question as the parser returns it.
#[derive(Debug)]
pub struct DNSQuestion {
    pub name: String,
    pub type_: u16,
    pub class: u16,
}

/// A resource record of the answer, authority or additional section.
#[derive(Debug)]
pub struct DNSRecord {
    pub name: String,
    pub type_: u16,
    pub class: u16,
    pub ttl: u32,
    pub data: Vec<u8>,
}

/// A decoded message.
#[derive(Debug)]
pub struct DNSPacket {
    pub header: DNSHeader,
    pub questions: Vec<DNSQuestion>,
    pub answers: Vec<DNSRecord>,
    pub authorities: Vec<DNSRecord>,
    pub additionals: Vec<DNSRecord>,
}

/// What a question holds.
pub struct QuestionView {
    pub name: Seq<char>,
    pub type_: u16,
    pub class: u16,
}

/// What a record holds.
pub struct RecordView {
    pub name: Seq<char>,
    pub type_: u16,
    pub class: u16,
    pub ttl: u32,
    pub data: Seq<u8>,
}

/// What a message holds.
pub struct PacketView {
    pub header: DNSHeader,
    pub questions: Seq<QuestionView>,
    pub answers: Seq<RecordView>,
    pub authorities: Seq<RecordView>,
    pub additionals: Seq<RecordView>,
}

impl View for DNSQuestion {
    type V = QuestionView;

    open spec fn view(&self) -> QuestionView {
        QuestionView { name: self.name@, type_: self.type_, class: self.class }
    }
}

impl View for DNSRecord {
    type V = RecordView;

    open spec fn view(&self) -> RecordView {
        RecordView { name: self.name@, type_: self.type_, class: self.class, ttl: self.ttl, data: self.data@ }
    }
}

pub open spec fn question_views(v: Seq<DNSQuestion>) -> Seq<QuestionView> {
    v.map_values(|x: DNSQuestion| x@)
}

pub open spec fn record_views(v: Seq<DNSRecord>) -> Seq<RecordView> {
    v.map_values(|x: DNSRecord| x@)
}

impl View for DNSPacket {
    type V = PacketView;

    open spec fn view(&self) -> PacketView {
        PacketView {
            header: self.header,
            questions: question_views(self.questions@),
            answers: record_views(self.answers@),
            authorities: record_views(self.authorities@),
            additionals: record_views(self.additionals@),
        }
    }
}

/// The header at `p`: six big-endian `u16`s in 12 bytes.
pub open spec fn header_at(msg: Seq<u8>, p: int) -> Result<DNSHeader, DnsError> {
    if p < 0 || p + 12 > msg.len() {
        Err(DnsError::TruncatedInput)
    } else {
        Ok(DNSHeader {
            id: be16(msg, p),
            flags: be16(msg, p + 2),
            num_questions: be16(msg, p + 4),
            num_answers: be16(msg, p + 6),
            num_authorities: be16(msg, p + 8),
            num_additionals: be16(msg, p + 10),
        })
    }
}

/// The question at `p` and the offset after it: a name, then type and class.
pub open spec fn question_at(msg: Seq<u8>, p: int) -> Result<(QuestionView, int), DnsError> {
    match decoded_name(msg, p, true) {
        Err(e) => Err(e),
        Ok((name, q)) => if q + 4 > msg.len() {
            Err(DnsError::TruncatedInput)
        } else {
            Ok((QuestionView { name, type_: be16(msg, q), class: be16(msg, q + 2) }, q + 4))
        },
    }
}

/// The record at `p` and the offset after it: a name, then type, class, TTL,
/// the data length, and that many bytes of data.
pub open spec fn record_at(msg: Seq<u8>, p: int) -> Result<(RecordView, int), DnsError> {
    match decoded_name(msg, p, true) {
        Err(e) => Err(e),
        Ok((name, q)) => if q + 10 > msg.len() {
            Err(DnsError::TruncatedInput)
        } else {
            let len = be16(msg, q + 8) as int;
            if q + 10 + len > msg.len() {
                Err(DnsError::TruncatedInput)
            } else {
                Ok((
                    RecordView {
                        name,
                        type_: be16(msg, q),
                        class: be16(msg, q + 2),
                        ttl: be32(msg, q + 4),
                        data: msg.subrange(q + 10, q + 10 + len),
                    },
                    q + 10 + len,
                ))
            }
        },
    }
}

/// The `n` questions that follow one another from `p`, and the offset after them.
pub open spec fn questions_from(msg: Seq<u8>, p: int, n: nat) -> Result<(Seq<QuestionView>, int), DnsError>
    decreases n,
{
    if n == 0 {
        Ok((Seq::empty(), p))
    } else {
        match questions_from(msg, p, (n - 1) as nat) {
            Err(e) => Err(e),
            Ok((qs, q)) => match question_at(msg, q) {
                Err(e) => Err(e),
                Ok((x, next)) => Ok((qs.push(x), next)),
            },
        }
    }
}

/// The `n` records that follow one another from `p`, and the offset after them.
pub open spec fn records_from(msg: Seq<u8>, p: int, n: nat) -> Result<(Seq<RecordView>, int), DnsError>
    decreases n,
{
    if n == 0 {
        Ok((Seq::empty(), p))
    } else {
        match records_from(msg, p, (n - 1) as nat) {
            Err(e) => Err(e),
            Ok((rs, q)) => match record_at(msg, q) {
                Err(e) => Err(e),
                Ok((x, next)) => Ok((rs.push(x), next)),
            },
        }
    }
}

/// The message in `msg`: the header, then as many questions, answers,
/// authority and additional records as it counts, in that order. Bytes after
/// the last record are not read.
pub open spec fn packet_at(msg: Seq<u8>) -> Result<PacketView, DnsError> {
    match header_at(msg, 0) {
        Err(e) => Err(e),
        Ok(h) => match questions_from(msg, 12, h.num_questions as nat) {
            Err(e) => Err(e),
            Ok((qs, p1)) => match records_from(msg, p1, h.num_answers as nat) {
                Err(e) => Err(e),
                Ok((ans, p2)) => match records_from(msg, p2, h.num_authorities as nat) {
                    Err(e) => Err(e),
                    Ok((auth, p3)) => match records_from(msg, p3, h.num_additionals as nat) {
                        Err(e) => Err(e),
                        Ok((add, p4)) => Ok(PacketView {
                            header: h,
                            questions: qs,
                            answers: ans,
                            authorities: auth,
                            additionals: add,
                        }),
                    },
                },
            },
        },
    }
}

/// Reads the 12-byte header at `*pos` and moves `pos` past it. Fewer than 12
/// bytes from `*pos` on fail with `TruncatedInput`, leaving `pos` as it was.
pub fn parse_header(msg: &[u8], pos: &mut usize) -> (r: Result<DNSHeader, DnsError>)
    ensures
        match header_at(msg@, *old(pos) as int) {
            Ok(h) => r == Ok::<DNSHeader, DnsError>(h) && *final(pos) == *old(pos) + 12,
            Err(e) => r == Err::<DNSHeader, DnsError>(e) && *final(pos) == *old(pos),
        },
        r == Err::<DNSHeader, DnsError>(DnsError::TruncatedInput) <==> *old(pos) + 12 > msg@.len(),
{
    let p = *pos;
    if p > msg.len() || msg.len() - p < 12 {
        return Err(DnsError::TruncatedInput);
    }
    let header = DNSHeader {
        id: read_u16(msg, p),
        flags: read_u16(msg, p + 2),
        num_questions: read_u16(msg, p + 4),
        num_answers: read_u16(msg, p + 6),
        num_authorities: read_u16(msg, p + 8),
        num_additionals: read_u16(msg, p + 10),
    };
    *pos = p + 12;
    Ok(header)
}

/// Reads the question at `*pos` and moves `pos` past it. On failure `pos` is
/// left as it was.
pub fn parse_question(msg: &[u8], pos: &mut usize) -> (r: Result<DNSQuestion, DnsError>)
    ensures
        match question_at(msg@, *old(pos) as int) {
            Ok((q, next)) => r matches Ok(x) && x@ == q && *final(pos) == next,
            Err(e) => r matches Err(x) && x == e && *final(pos) == *old(pos),
        },
{
    let mut p = *pos;
    let name = match decode_name(msg, &mut p) {
        Ok(name) => name,
        Err(e) => {
            return Err(e);
        },
    };
    if p > msg.len() || msg.len() - p < 4 {
        return Err(DnsError::TruncatedInput);
    }
    let type_ = read_u16(msg, p);
    let class = read_u16(msg, p + 2);
    *pos = p + 4;
    Ok(DNSQuestion { name, type_, class })
}

/// Reads the record at `*pos` and moves `pos` past it. A data length that runs
/// past the end of `msg` fails with `TruncatedInput`. On failure `pos` is left
/// as it was.
pub fn parse_record(msg: &[u8], pos: &mut usize) -> (r: Result<DNSRecord, DnsError>)
    ensures
        match record_at(msg@, *old(pos) as int) {
            Ok((rec, next)) => r matches Ok(x) && x@ == rec && *final(pos) == next,
            Err(e) => r matches Err(x) && x == e && *final(pos) == *old(pos),
        },
{
    let mut p = *pos;
    let name = match decode_name(msg, &mut p) {
        Ok(name) => name,
        Err(e) => {
            return Err(e);
        },
    };
    if p > msg.len() || msg.len() - p < 10 {
        return Err(DnsError::TruncatedInput);
    }
    let type_ = read_u16(msg, p);
    let class = read_u16(msg, p + 2);
    let ttl = read_u32(msg, p + 4);
    let data_len = read_u16(msg, p + 8) as usize;
    let start = p + 10;
    if msg.len() - start < data_len {
        return Err(DnsError::TruncatedInput);
    }
    let mut data: Vec<u8> = Vec::new();
    push_bytes(&mut data, msg, start, start + data_len);
    assert(data@ =~= msg@.subrange(start as int, start + data_len));
    *pos = start + data_len;
    Ok(DNSRecord { name, type_, class, ttl, data })
}

/// A failure among the first `k` questions is the failure of any longer run.
proof fn lemma_questions_fail(msg: Seq<u8>, p: int, k: nat, m: nat)
    requires
        k <= m,
        questions_from(msg, p, k) is Err,
    ensures
        questions_from(msg, p, m) == questions_from(msg, p, k),
    decreases m - k,
{
    if k < m {
        lemma_questions_fail(msg, p, k, (m - 1) as nat);
    }
}

/// A failure among the first `k` records is the failure of any longer run.
proof fn lemma_records_fail(msg: Seq<u8>, p: int, k: nat, m: nat)
    requires
        k <= m,
        records_from(msg, p, k) is Err,
    ensures
        records_from(msg, p, m) == records_from(msg, p, k),
    decreases m - k,
{
    if k < m {
        lemma_records_fail(msg, p, k, (m - 1) as nat);
    }
}

/// Reads `n` questions, one after another, from `*pos`.
fn parse_questions(msg: &[u8], pos: &mut usize, n: u16) -> (r: Result<Vec<DNSQuestion>, DnsError>)
    ensures
        match questions_from(msg@, *old(pos) as int, n as nat) {
            Ok((qs, next)) => r matches Ok(v) && question_views(v@) == qs && v@.len() == n
                && *final(pos) == next,
            Err(e) => r matches Err(x) && x == e,
        },
{
    let mut v: Vec<DNSQuestion> = Vec::new();
    let mut k: u16 = 0;
    assert(question_views(v@) =~= Seq::empty());
    while k < n
        invariant
            k <= n,
            v@.len() == k,
            questions_from(msg@, *old(pos) as int, k as nat) == Ok::<(Seq<QuestionView>, int), DnsError>((question_views(v@), *pos as int)),
        decreases n - k,
    {
        let ghost before = v@;
        let x = match parse_question(msg, pos) {
            Ok(x) => x,
            Err(e) => {
                proof {
                    lemma_questions_fail(msg@, *old(pos) as int, (k + 1) as nat, n as nat);
                }
                return Err(e);
            },
        };
        v.push(x);
        k = k + 1;
        assert(question_views(v@) =~= question_views(before).push(x@));
    }
    Ok(v)
}

/// Reads `n` records, one after another, from `*pos`.
fn parse_records(msg: &[u8], pos: &mut usize, n: u16) -> (r: Result<Vec<DNSRecord>, DnsError>)
    ensures
        match records_from(msg@, *old(pos) as int, n as nat) {
            Ok((rs, next)) => r matches Ok(v) && record_views(v@) == rs && v@.len() == n
                && *final(pos) == next,
            Err(e) => r matches Err(x) && x == e,
        },
{
    let mut v: Vec<DNSRecord> = Vec::new();
    let mut k: u16 = 0;
    assert(record_views(v@) =~= Seq::empty());
    while k < n
        invariant
            k <= n,
            v@.len() == k,
            records_from(msg@, *old(pos) as int, k as nat) == Ok::<(Seq<RecordView>, int), DnsError>((record_views(v@), *pos as int)),
        decreases n - k,
    {
        let ghost before = v@;
        let x = match parse_record(msg, pos) {
            Ok(x) => x,
            Err(e) => {
                proof {
                    lemma_records_fail(msg@, *old(pos) as int, (k + 1) as nat, n as nat);
                }
                return Err(e);
            },
        };
        v.push(x);
        k = k + 1;
        assert(record_views(v@) =~= record_views(before).push(x@));
    }
    Ok(v)
}

impl DNSPacket {
    /// Decodes a whole message: the header, then exactly as many questions,
    /// answers, authority and additional records as the header counts. Any
    /// failure fails the whole decode.
    pub fn parse(msg: &[u8]) -> (r: Result<DNSPacket, DnsError>)
        ensures
            match packet_at(msg@) {
                Ok(pk) => r matches Ok(x) && x@ == pk,
                Err(e) => r matches Err(x) && x == e,
            },
            r matches Ok(x) ==> {
                &&& x.questions.len() == x.header.num_questions
                &&& x.answers.len() == x.header.num_answers
                &&& x.authorities.len() == x.header.num_authorities
                &&& x.additionals.len() == x.header.num_additionals
            },
    {
        let mut pos: usize = 0;
        let header = match parse_header(msg, &mut pos) {
            Ok(h) => h,
            Err(e) => {
                return Err(e);
            },
        };
        let questions = match parse_questions(msg, &mut pos, header.num_questions) {
            Ok(v) => v,
            Err(e) => {
                return Err(e);
            },
        };
        let answers = match parse_records(msg, &mut pos, header.num_answers) {
            Ok(v) => v,
            Err(e) => {
                return Err(e);
            },
        };
        let authorities = match parse_records(msg, &mut pos, header.num_authorities) {
            Ok(v) => v,
            Err(e) => {
                return Err(e);
            },
        };
        let additionals = match parse_records(msg, &mut pos, header.num_additionals) {
            Ok(v) => v,
            Err(e) => {
                return Err(e);
            },
        };
        Ok(DNSPacket { header, questions, answers, authorities, additionals })
    }
}

// ----- addresses -----

/// The decimal digits of `b` as ASCII bytes, without leading zeros.
pub open spec fn decimal(b: u8) -> Seq<u8> {
    if b < 10 {
        seq![(48 + b) as u8]
    } else if b < 100 {
        seq![(48 + b / 10) as u8, (48 + b % 10) as u8]
    } else {
        seq![(48 + b / 100) as u8, (48 + (b / 10) % 10) as u8, (48 + b % 10) as u8]
    }
}

/// The bytes of `ip` in decimal, joined by dots.
pub open spec fn dotted_decimal(ip: Seq<u8>) -> Seq<u8> {
    dotted(ip.map_values(|b: u8| decimal(b)))
}

/// Appends the decimal digits of `b`.
fn push_decimal(out: &mut Vec<u8>, b: u8)
    ensures
        final(out)@ == old(out)@ + decimal(b),
{
    if b >= 100 {
        out.push(48 + b / 100);
    }
    if b >= 10 {
        out.push(48 + (b / 10) % 10);
    }
    out.push(48 + b % 10);
    assert(final(out)@ =~= old(out)@ + decimal(b));
}

/// The bytes of `ip` written in decimal and joined by dots, as in `93.184.216.34`.
pub fn ip_to_string(ip: Vec<u8>) -> (r: String)
    ensures
        r@ == ascii_chars(dotted_decimal(ip@)),
{
    let mut out: Vec<u8> = Vec::new();
    let mut k: usize = 0;
    assert(ip@.subrange(0, 0).map_values(|b: u8| decimal(b)) =~= Seq::<Seq<u8>>::empty());
    while k < ip.len()
        invariant
            k <= ip@.len(),
            out@ == dotted(ip@.subrange(0, k as int).map_values(|b: u8| decimal(b))),
            is_ascii_bytes(out@),
        decreases ip@.len() - k,
    {
        let ghost done = ip@.subrange(0, k as int).map_values(|b: u8| decimal(b));
        let ghost before = out@;
        if k > 0 {
            out.push(DOT);
        }
        push_decimal(&mut out, ip[k]);
        proof {
            lemma_dotted_push(done, decimal(ip@[k as int]));
            assert(ip@.subrange(0, k + 1).map_values(|b: u8| decimal(b)) =~= done.push(decimal(ip@[k as int])));
            assert forall|i: int| 0 <= i < out@.len() implies #[trigger] out@[i] < 128 by {
                if i >= before.len() && !(k > 0 && i == before.len()) {
                    let j = if k > 0 { i - before.len() - 1 } else { i - before.len() };
                    assert(out@[i] == decimal(ip@[k as int])[j]);
                }
            }
        }
        k = k + 1;
    }
    proof {
        assert(ip@.subrange(0, ip@.len() as int) =~= ip@);
        lemma_ascii_utf8(out@);
    }
    match utf8_text(out) {
        Some(s) => s,
        None => {
            assert(false);
            String::new()
        },
    }
}

} // verus!
