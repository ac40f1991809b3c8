//! Laws that relate the builder and the parser, and what the parser does with
//! compression pointers and short input.
use vstd::prelude::*;
use crate::error::DnsError;
use crate::name::{
    DOT, POINTER_SPAN, Segment, ascii_chars, decoded_name, dotted, encoded_name,
    follow, is_ascii_bytes, labels_then, length_prefixed, lemma_ascii_utf8, lemma_split_nonempty,
    lemma_targets_left_shrinks, name_at, pointer_target, segment, split_dots, targets_left,
};
use crate::parse::{
    QuestionView, RecordView, header_at, packet_at, question_at, questions_from, record_at,
    records_from,
};
use crate::query::{DNSHeader, header_bytes, question_bytes};
use crate::wire::{be16, lemma_u16_bytes, u16_bytes};

verus! {

/// Every part between the dots is a label of 1 to 63 bytes.
pub open spec fn well_formed_domain(d: Seq<u8>) -> bool {
    forall|k: int| 0 <= k < split_dots(d).len() ==> 1 <= #[trigger] split_dots(d)[k].len() <= 63
}

/// Joining the parts between the dots gives the name back.
pub proof fn lemma_dotted_split(s: Seq<u8>)
    ensures
        dotted(split_dots(s)) == s,
    decreases s.len(),
{
    if s.len() == 0 {
        assert(split_dots(s) =~= seq![Seq::<u8>::empty()]);
        assert(s =~= Seq::<u8>::empty());
    } else {
        let init = s.drop_last();
        let c = s.last();
        let ls = split_dots(init);
        lemma_dotted_split(init);
        lemma_split_nonempty(init);
        if c == DOT {
            assert(ls.push(Seq::empty()).drop_last() =~= ls);
            assert(dotted(ls) + seq![DOT] + Seq::<u8>::empty() =~= s);
        } else {
            let ls2 = ls.update(ls.len() - 1, ls.last().push(c));
            if ls.len() == 1 {
                assert(ls2[0] =~= s);
            } else {
                assert(ls2.drop_last() =~= ls.drop_last());
                assert(dotted(ls2) =~= dotted(ls).push(c));
            }
            assert(init.push(c) =~= s);
        }
    }
}

/// The wire form of the parts of `s` is one byte longer than `s`.
pub proof fn lemma_length_prefixed_len(s: Seq<u8>)
    ensures
        length_prefixed(split_dots(s)).len() == s.len() + 1,
    decreases s.len(),
{
    if s.len() == 0 {
        assert(split_dots(s).drop_last() =~= Seq::<Seq<u8>>::empty());
        assert(length_prefixed(Seq::<Seq<u8>>::empty()) == Seq::<u8>::empty());
        assert(length_prefixed(split_dots(s)) =~= seq![0u8]);
    } else {
        let init = s.drop_last();
        let ls = split_dots(init);
        lemma_length_prefixed_len(init);
        lemma_split_nonempty(init);
        if s.last() == DOT {
            assert(split_dots(s) == ls.push(Seq::empty()));
            assert(ls.push(Seq::empty()).drop_last() =~= ls);
            assert(length_prefixed(split_dots(s)).len() == length_prefixed(ls).len() + 1);
        } else {
            let ls2 = ls.update(ls.len() - 1, ls.last().push(s.last()));
            assert(split_dots(s) == ls2);
            assert(ls2.drop_last() =~= ls.drop_last());
            assert(ls2.last().len() == ls.last().len() + 1);
            assert(length_prefixed(ls2).len() == length_prefixed(ls).len() + 1);
        }
    }
}

/// The wire form of labels read from the front: the first label, then the rest.
proof fn lemma_length_prefixed_front(ls: Seq<Seq<u8>>)
    requires
        ls.len() > 0,
    ensures
        length_prefixed(ls) == seq![ls[0].len() as u8] + ls[0] + length_prefixed(ls.drop_first()),
    decreases ls.len(),
{
    if ls.len() == 1 {
        assert(ls.drop_last() =~= Seq::<Seq<u8>>::empty());
        assert(ls.drop_first() =~= Seq::<Seq<u8>>::empty());
        assert(length_prefixed(ls) =~= seq![ls[0].len() as u8] + ls[0]);
    } else {
        lemma_length_prefixed_front(ls.drop_last());
        assert(ls.drop_last().drop_first() =~= ls.drop_first().drop_last());
        assert(ls.drop_first().last() == ls.last());
        assert(length_prefixed(ls) =~= seq![ls[0].len() as u8] + ls[0] + length_prefixed(ls.drop_first()));
    }
}

/// Labels of 1 to 63 bytes in wire form, then a zero byte, read back as those labels.
proof fn lemma_segment_of_labels(msg: Seq<u8>, p: int, ls: Seq<Seq<u8>>)
    requires
        0 <= p,
        p + length_prefixed(ls).len() + 1 <= msg.len(),
        msg.subrange(p, p + length_prefixed(ls).len() + 1) == length_prefixed(ls) + seq![0u8],
        forall|k: int| 0 <= k < ls.len() ==> 1 <= #[trigger] ls[k].len() <= 63,
    ensures
        segment(msg, p, true) == (Segment::Ended { labels: ls, next: p + length_prefixed(ls).len() + 1 }),
    decreases ls.len(),
{
    let w = length_prefixed(ls) + seq![0u8];
    assert(msg[p] == w[0]);
    if ls.len() == 0 {
        assert(ls =~= Seq::<Seq<u8>>::empty());
    } else {
        lemma_length_prefixed_front(ls);
        let n = ls[0].len() as int;
        let rest = ls.drop_first();
        assert(msg[p] == n as u8);
        assert(msg.subrange(p + 1, p + 1 + n) =~= ls[0]) by {
            assert forall|i: int| 0 <= i < n implies msg.subrange(p + 1, p + 1 + n)[i] == ls[0][i] by {
                assert(msg[p + 1 + i] == w[1 + i]);
            }
        }
        assert(msg.subrange(p + 1 + n, p + 1 + n + length_prefixed(rest).len() + 1) =~= length_prefixed(rest) + seq![0u8]) by {
            assert forall|i: int| 0 <= i < length_prefixed(rest).len() + 1 implies
                msg.subrange(p + 1 + n, p + 1 + n + length_prefixed(rest).len() + 1)[i]
                    == (length_prefixed(rest) + seq![0u8])[i] by {
                assert(msg[p + 1 + n + i] == w[1 + n + i]);
            }
        }
        assert forall|k: int| 0 <= k < rest.len() implies 1 <= #[trigger] rest[k].len() <= 63 by {
            assert(rest[k] == ls[k + 1]);
        }
        lemma_segment_of_labels(msg, p + 1 + n, rest);
        assert(seq![ls[0]] + rest =~= ls);
    }
}

/// Round trip of names: a domain name of 1- to 63-byte ASCII labels, written
/// as a question anywhere in a message, reads back as the same name, type and
/// class, and the cursor ends just past the question.
pub proof fn lemma_question_round_trip(domain: Seq<u8>, type_: u16, class: u16, pre: Seq<u8>, post: Seq<u8>)
    requires
        is_ascii_bytes(domain),
        well_formed_domain(domain),
    ensures
        ({
            let msg = pre + question_bytes(encoded_name(domain), type_, class) + post;
            &&& decoded_name(msg, pre.len() as int, true) == Ok::<(Seq<char>, int), DnsError>((ascii_chars(domain), (pre.len() + domain.len() + 2) as int))
            &&& question_at(msg, pre.len() as int) == Ok::<(QuestionView, int), DnsError>((
                QuestionView { name: ascii_chars(domain), type_, class },
                (pre.len() + domain.len() + 6) as int,
            ))
        }),
{
    let name = encoded_name(domain);
    let msg = pre + question_bytes(name, type_, class) + post;
    let p = pre.len() as int;
    let ls = split_dots(domain);
    lemma_length_prefixed_len(domain);
    assert(msg.subrange(p, p + length_prefixed(ls).len() + 1) =~= length_prefixed(ls) + seq![0u8]);
    lemma_segment_of_labels(msg, p, ls);
    lemma_dotted_split(domain);
    lemma_ascii_utf8(domain);
    assert(name_at(msg, p, true) == Ok::<(Seq<Seq<u8>>, int), DnsError>((ls, p + domain.len() + 2)));
    let q = p + domain.len() + 2;
    assert(msg =~= (pre + name) + u16_bytes(type_) + (u16_bytes(class) + post));
    lemma_u16_bytes(type_, pre + name, u16_bytes(class) + post);
    assert(msg =~= (pre + name + u16_bytes(type_)) + u16_bytes(class) + post);
    lemma_u16_bytes(class, pre + name + u16_bytes(type_), post);
}

/// Round trip of headers: the bytes of any header read back as that header.
pub proof fn lemma_header_round_trip(h: DNSHeader, pre: Seq<u8>, post: Seq<u8>)
    ensures
        header_at(pre + header_bytes(h) + post, pre.len() as int) == Ok::<DNSHeader, DnsError>(h),
{
    let msg = pre + header_bytes(h) + post;
    let p = pre.len() as int;
    let b = header_bytes(h);
    assert(b.len() == 12);
    assert forall|i: int| 0 <= i < 12 implies msg[p + i] == #[trigger] b[i] by {}
    assert(be16(msg, p) == h.id);
    assert(be16(msg, p + 2) == h.flags);
    assert(be16(msg, p + 4) == h.num_questions);
    assert(be16(msg, p + 6) == h.num_answers);
    assert(be16(msg, p + 8) == h.num_authorities);
    assert(be16(msg, p + 10) == h.num_additionals);
}

/// Following the chain from `t` gives the same result when `x` is also marked
/// as entered, provided `x` is itself a pointer back into what was entered:
/// reaching `x` would have been a loop either way.
proof fn lemma_follow_ignores(msg: Seq<u8>, t: int, visited: Set<int>, x: int)
    requires
        follow(msg, t, visited) is Ok,
        segment(msg, x, true) is Jump,
        visited.insert(t).contains(segment(msg, x, true)->Jump_target),
    ensures
        follow(msg, t, visited.insert(x)) == follow(msg, t, visited),
    decreases targets_left(visited), if t < POINTER_SPAN { 0int } else { 1int },
{
    assert(!visited.contains(t));
    if x == t {
        let tg = segment(msg, x, true)->Jump_target;
        assert(follow(msg, tg, visited.insert(t)) is Err);
        assert(false);
    } else {
        match segment(msg, t, true) {
            Segment::Jump { labels, target, next } => {
                lemma_targets_left_shrinks(msg, t, visited, target);
                assert(follow(msg, target, visited.insert(t)) is Ok);
                lemma_follow_ignores(msg, target, visited.insert(t), x);
                assert(visited.insert(x).insert(t) =~= visited.insert(t).insert(x));
            },
            _ => {},
        }
    }
}

/// Compression: a name that is a pointer to offset `t` reads as the name at
/// `t`, whenever that one reads at all, and the cursor moves past the two
/// pointer bytes.
pub proof fn lemma_pointer_resolves(msg: Seq<u8>, p: int, t: int)
    requires
        0 <= p,
        p + 2 <= msg.len(),
        msg[p] >= 192,
        pointer_target(msg[p], msg[p + 1]) == t,
        decoded_name(msg, t, true) is Ok,
    ensures
        decoded_name(msg, p, true) == Ok::<(Seq<char>, int), DnsError>((decoded_name(msg, t, true)->Ok_0.0, p + 2)),
{
    assert(segment(msg, p, true) == (Segment::Jump { labels: Seq::empty(), target: t, next: p + 2 }));
    let none = Set::<int>::empty();
    assert(follow(msg, t, none) is Ok);
    lemma_follow_ignores(msg, t, none, p);
    let r = follow(msg, t, none);
    assert(labels_then(Seq::empty(), r) == r) by {
        if let Ok(ls) = r {
            assert(Seq::<Seq<u8>>::empty() + ls =~= ls);
        }
    }
    assert(name_at(msg, p, true) == Ok::<(Seq<Seq<u8>>, int), DnsError>((r->Ok_0, p + 2)));
}

/// Loops: when the name at `x` is a pointer to `y` and the name at `y` a
/// pointer back to `x`, decoding at `x` fails with `CompressionLoop`.
pub proof fn lemma_loop_rejected(msg: Seq<u8>, x: int, y: int)
    requires
        0 <= x,
        x + 2 <= msg.len(),
        msg[x] >= 192,
        pointer_target(msg[x], msg[x + 1]) == y,
        0 <= y,
        y + 2 <= msg.len(),
        msg[y] >= 192,
        pointer_target(msg[y], msg[y + 1]) == x,
    ensures
        decoded_name(msg, x, true) == Err::<(Seq<char>, int), DnsError>(DnsError::CompressionLoop),
{
    let none = Set::<int>::empty();
    assert(segment(msg, x, true) == (Segment::Jump { labels: Seq::empty(), target: y, next: x + 2 }));
    assert(segment(msg, y, true) == (Segment::Jump { labels: Seq::empty(), target: x, next: y + 2 }));
    assert(follow(msg, x, none.insert(x).insert(y)) == Err::<Seq<Seq<u8>>, DnsError>(DnsError::CompressionLoop));
    assert(follow(msg, y, none.insert(x)) == Err::<Seq<Seq<u8>>, DnsError>(DnsError::CompressionLoop));
    assert(follow(msg, x, none) == Err::<Seq<Seq<u8>>, DnsError>(DnsError::CompressionLoop));
}

/// Short input: fewer than 12 bytes hold no header.
pub proof fn lemma_short_header(msg: Seq<u8>)
    requires
        msg.len() < 12,
    ensures
        header_at(msg, 0) == Err::<DNSHeader, DnsError>(DnsError::TruncatedInput),
{
}

/// Short input: a record whose data length runs past the end of the message
/// fails with `TruncatedInput`.
pub proof fn lemma_short_record_data(msg: Seq<u8>, p: int)
    requires
        decoded_name(msg, p, true) is Ok,
        ({
            let q = decoded_name(msg, p, true)->Ok_0.1;
            q + 10 <= msg.len() && q + 10 + be16(msg, q + 8) > msg.len()
        }),
    ensures
        record_at(msg, p) == Err::<(RecordView, int), DnsError>(DnsError::TruncatedInput),
{
}

/// `n` questions read in a row are `n` questions.
proof fn lemma_questions_count(msg: Seq<u8>, p: int, n: nat)
    ensures
        questions_from(msg, p, n) matches Ok((qs, _)) ==> qs.len() == n,
    decreases n,
{
    if n > 0 {
        lemma_questions_count(msg, p, (n - 1) as nat);
    }
}

/// `n` records read in a row are `n` records.
proof fn lemma_records_count(msg: Seq<u8>, p: int, n: nat)
    ensures
        records_from(msg, p, n) matches Ok((rs, _)) ==> rs.len() == n,
    decreases n,
{
    if n > 0 {
        lemma_records_count(msg, p, (n - 1) as nat);
    }
}

/// Counts: a decoded message has as many questions, answers, authority and
/// additional records as its header counts.
pub proof fn lemma_section_counts(msg: Seq<u8>)
    ensures
        packet_at(msg) matches Ok(pk) ==> {
            &&& pk.questions.len() == pk.header.num_questions
            &&& pk.answers.len() == pk.header.num_answers
            &&& pk.authorities.len() == pk.header.num_authorities
            &&& pk.additionals.len() == pk.header.num_additionals
        },
{
    if let Ok(h) = header_at(msg, 0) {
        lemma_questions_count(msg, 12, h.num_questions as nat);
        if let Ok((qs, p1)) = questions_from(msg, 12, h.num_questions as nat) {
            lemma_records_count(msg, p1, h.num_answers as nat);
            if let Ok((ans, p2)) = records_from(msg, p1, h.num_answers as nat) {
                lemma_records_count(msg, p2, h.num_authorities as nat);
                if let Ok((auth, p3)) = records_from(msg, p2, h.num_authorities as nat) {
                    lemma_records_count(msg, p3, h.num_additionals as nat);
                }
            }
        }
    }
}

} // verus!
