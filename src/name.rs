//! Domain names: the dotted text form, the label form on the wire, and the
//! compression pointers that let one name continue at another offset.
use vstd::prelude::*;
use vstd::set_lib::{lemma_int_range, lemma_len_subset, set_int_range};
use vstd::utf8::{decode_utf8, pop_first_scalar, valid_utf8};
use crate::error::DnsError;

verus! {

/// The byte `.` that separates labels in the text form of a name.
pub const DOT: u8 = 46;

/// Pointer targets are 14-bit offsets, so they all lie below this bound.
pub const POINTER_SPAN: u64 = 16384;

/// The longest label that fits a length byte with its top two bits clear.
pub const MAX_LABEL: usize = 63;

// ----- text form -----

/// The parts of `s` between the dots, in order: `n` dots give `n + 1` parts.
pub open spec fn split_dots(s: Seq<u8>) -> Seq<Seq<u8>>
    decreases s.len(),
{
    if s.len() == 0 {
        seq![Seq::empty()]
    } else {
        let init = split_dots(s.drop_last());
        if s.last() == DOT {
            init.push(Seq::empty())
        } else {
            init.update(init.len() - 1, init.last().push(s.last()))
        }
    }
}

/// The labels joined by dots.
pub open spec fn dotted(labels: Seq<Seq<u8>>) -> Seq<u8>
    decreases labels.len(),
{
    if labels.len() == 0 {
        Seq::empty()
    } else if labels.len() == 1 {
        labels[0]
    } else {
        dotted(labels.drop_last()) + seq![DOT] + labels.last()
    }
}

/// Each label as a length byte followed by its bytes.
pub open spec fn length_prefixed(labels: Seq<Seq<u8>>) -> Seq<u8>
    decreases labels.len(),
{
    if labels.len() == 0 {
        Seq::empty()
    } else {
        length_prefixed(labels.drop_last()) + seq![labels.last().len() as u8] + labels.last()
    }
}

/// Every label fits in a length byte with its top two bits clear.
pub open spec fn labels_fit(labels: Seq<Seq<u8>>) -> bool {
    forall|k: int| 0 <= k < labels.len() ==> #[trigger] labels[k].len() <= MAX_LABEL
}

/// The wire form of the dotted name `d`: its labels, then the zero terminator.
pub open spec fn encoded_name(d: Seq<u8>) -> Seq<u8> {
    length_prefixed(split_dots(d)) + seq![0u8]
}

/// Bytes below 128 only.
pub open spec fn is_ascii_bytes(b: Seq<u8>) -> bool {
    forall|i: int| 0 <= i < b.len() ==> #[trigger] b[i] < 128
}

/// The characters that ASCII bytes stand for.
pub open spec fn ascii_chars(b: Seq<u8>) -> Seq<char> {
    b.map_values(|x: u8| x as char)
}

// ----- wire form -----

/// Where reading the labels from one offset stops.
pub enum Segment {
    /// A zero length byte ended the name; `next` is the offset after it.
    Ended { labels: Seq<Seq<u8>>, next: int },
    /// A compression pointer to `target` ended this part; `next` is the offset after the pointer.
    Jump { labels: Seq<Seq<u8>>, target: int, next: int },
    /// The bytes ran out.
    Failed { err: DnsError },
}

/// `s` with `pre` read before its labels.
pub open spec fn after_labels(pre: Seq<Seq<u8>>, s: Segment) -> Segment {
    match s {
        Segment::Ended { labels, next } => Segment::Ended { labels: pre + labels, next },
        Segment::Jump { labels, target, next } => Segment::Jump { labels: pre + labels, target, next },
        Segment::Failed { err } => Segment::Failed { err },
    }
}

/// The offset that a pointer whose two bytes are `hi` and `lo` names: the low six
/// bits of `hi`, then the eight bits of `lo`.
pub open spec fn pointer_target(hi: u8, lo: u8) -> int {
    (hi as int % 64) * 256 + lo as int
}

/// Reads literal labels from offset `p` until a zero length byte or, where
/// `pointers` holds, a length byte with both top bits set, which starts a
/// two-byte compression pointer. Without `pointers` every nonzero byte is a
/// label length.
pub open spec fn segment(msg: Seq<u8>, p: int, pointers: bool) -> Segment
    decreases msg.len() - p,
{
    if p < 0 || p >= msg.len() {
        Segment::Failed { err: DnsError::TruncatedInput }
    } else if msg[p] == 0 {
        Segment::Ended { labels: Seq::empty(), next: p + 1 }
    } else if pointers && msg[p] >= 192 {
        if p + 2 > msg.len() {
            Segment::Failed { err: DnsError::TruncatedInput }
        } else {
            Segment::Jump { labels: Seq::empty(), target: pointer_target(msg[p], msg[p + 1]), next: p + 2 }
        }
    } else {
        let n = msg[p] as int;
        if p + 1 + n > msg.len() {
            Segment::Failed { err: DnsError::TruncatedInput }
        } else {
            after_labels(seq![msg.subrange(p + 1, p + 1 + n)], segment(msg, p + 1 + n, pointers))
        }
    }
}

/// `r` with `pre` read before its labels.
pub open spec fn labels_then(pre: Seq<Seq<u8>>, r: Result<Seq<Seq<u8>>, DnsError>) -> Result<Seq<Seq<u8>>, DnsError> {
    match r {
        Ok(ls) => Ok(pre + ls),
        Err(e) => Err(e),
    }
}

/// How many pointer targets remain that `visited` does not hold.
pub open spec fn targets_left(visited: Set<int>) -> nat {
    set_int_range(0, POINTER_SPAN as int).difference(visited).len()
}

/// The labels of the name that continues at offset `t`, given the offsets
/// already entered while decoding it. Entering an offset a second time is a
/// loop.
pub open spec fn follow(msg: Seq<u8>, t: int, visited: Set<int>) -> Result<Seq<Seq<u8>>, DnsError>
    decreases targets_left(visited), if t < POINTER_SPAN { 0int } else { 1int },
{
    if visited.contains(t) {
        Err(DnsError::CompressionLoop)
    } else {
        match segment(msg, t, true) {
            Segment::Failed { err } => Err(err),
            Segment::Ended { labels, next } => Ok(labels),
            Segment::Jump { labels, target, next } => {
                proof {
                    lemma_targets_left_shrinks(msg, t, visited, target);
                }
                labels_then(labels, follow(msg, target, visited.insert(t)))
            },
        }
    }
}

/// The labels of the name at `p`, and the offset just past it: past its zero
/// terminator, or past its first compression pointer.
pub open spec fn name_at(msg: Seq<u8>, p: int, pointers: bool) -> Result<(Seq<Seq<u8>>, int), DnsError> {
    match segment(msg, p, pointers) {
        Segment::Failed { err } => Err(err),
        Segment::Ended { labels, next } => Ok((labels, next)),
        Segment::Jump { labels, target, next } => match follow(msg, p, Set::empty()) {
            Ok(ls) => Ok((ls, next)),
            Err(e) => Err(e),
        },
    }
}

/// The text of the name at `p` and the offset just past it. The labels, joined
/// by dots, must be valid UTF-8 (which holds exactly when each label is).
pub open spec fn decoded_name(msg: Seq<u8>, p: int, pointers: bool) -> Result<(Seq<char>, int), DnsError> {
    match name_at(msg, p, pointers) {
        Err(e) => Err(e),
        Ok((labels, next)) => if valid_utf8(dotted(labels)) {
            Ok((decode_utf8(dotted(labels)), next))
        } else {
            Err(DnsError::InvalidEncoding)
        },
    }
}

// ----- lemmas -----

/// Entering a new pointer target leaves one target fewer.
pub proof fn lemma_targets_left_shrinks(msg: Seq<u8>, t: int, visited: Set<int>, target: int)
    requires
        !visited.contains(t),
        segment(msg, t, true) is Jump,
        target == segment(msg, t, true)->Jump_target,
    ensures
        t < POINTER_SPAN ==> targets_left(visited.insert(t)) < targets_left(visited),
        t >= POINTER_SPAN ==> targets_left(visited.insert(t)) == targets_left(visited),
        target < POINTER_SPAN,
{
    let range = set_int_range(0, POINTER_SPAN as int);
    lemma_int_range(0, POINTER_SPAN as int);
    lemma_len_subset(range.difference(visited), range);
    lemma_segment_target(msg, t, true);
    if t < POINTER_SPAN {
        assert(range.difference(visited.insert(t)) =~= range.difference(visited).remove(t));
    } else {
        assert(range.difference(visited.insert(t)) =~= range.difference(visited));
    }
}

/// A pointer target is a 14-bit offset.
pub proof fn lemma_segment_target(msg: Seq<u8>, p: int, pointers: bool)
    ensures
        segment(msg, p, pointers) is Jump ==> 0 <= segment(msg, p, pointers)->Jump_target < POINTER_SPAN,
    decreases msg.len() - p,
{
    if 0 <= p < msg.len() && msg[p] != 0 && !(pointers && msg[p] >= 192) {
        let n = msg[p] as int;
        if p + 1 + n <= msg.len() {
            lemma_segment_target(msg, p + 1 + n, pointers);
        }
    }
}

/// ASCII bytes are valid UTF-8, one character per byte.
pub proof fn lemma_ascii_utf8(b: Seq<u8>)
    requires
        is_ascii_bytes(b),
    ensures
        valid_utf8(b),
        decode_utf8(b) == ascii_chars(b),
    decreases b.len(),
{
    if b.len() > 0 {
        let x = b[0];
        assert(x < 128);
        assert(x & 0x7f == x) by (bit_vector)
            requires
                x < 128,
        ;
        assert(pop_first_scalar(b) =~= b.drop_first());
        lemma_ascii_utf8(b.drop_first());
        assert(ascii_chars(b) =~= seq![x as char] + ascii_chars(b.drop_first()));
    } else {
        assert(ascii_chars(b) =~= Seq::empty());
    }
}

/// The parts between the dots of a prefix of `s` stay the parts of any longer
/// prefix, and the last of them can only grow.
pub proof fn lemma_split_grows(s: Seq<u8>, i: int, j: int)
    requires
        0 <= i <= j <= s.len(),
    ensures
        split_dots(s.subrange(0, i)).len() <= split_dots(s.subrange(0, j)).len(),
        forall|k: int| 0 <= k < split_dots(s.subrange(0, i)).len() - 1
            ==> #[trigger] split_dots(s.subrange(0, j))[k] == split_dots(s.subrange(0, i))[k],
        split_dots(s.subrange(0, i)).last().len() <= split_dots(s.subrange(0, j))[split_dots(s.subrange(0, i)).len() - 1].len(),
    decreases j - i,
{
    lemma_split_nonempty(s.subrange(0, i));
    if i < j {
        lemma_split_grows(s, i, j - 1);
        let prev = s.subrange(0, j - 1);
        assert(s.subrange(0, j).drop_last() =~= prev);
        lemma_split_nonempty(prev);
    }
}

/// There is always at least one part.
pub proof fn lemma_split_nonempty(s: Seq<u8>)
    ensures
        split_dots(s).len() >= 1,
    decreases s.len(),
{
    if s.len() > 0 {
        lemma_split_nonempty(s.drop_last());
    }
}

} // verus!
