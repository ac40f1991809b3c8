//! Building outbound query messages.
use vstd::prelude::*;
use crate::error::DnsError;
use crate::name::{DOT, MAX_LABEL, encoded_name, labels_fit, length_prefixed, lemma_split_grows, lemma_split_nonempty, split_dots};
use crate::wire::{push_bytes, push_u16, u16_bytes};

verus! {

/// The fixed 12-byte header that starts every message.
#[derive(Debug, Clone, Copy, Default, PartialEq, Eq, Structural)]
pub struct DNSHeader {
    pub id: u16,
    pub flags: u16,
    pub num_questions: u16,
    pub num_answers: u16,
    pub num_authorities: u16,
    pub num_additionals: u16,
}

/// The wire form of a header: its six fields as big-endian `u16`s, in order.
pub open spec fn header_bytes(h: DNSHeader) -> Seq<u8> {
    u16_bytes(h.id) + u16_bytes(h.flags) + u16_bytes(h.num_questions) + u16_bytes(h.num_answers)
        + u16_bytes(h.num_authorities) + u16_bytes(h.num_additionals)
}

impl DNSHeader {
    /// The header's 12 bytes on the wire.
    pub fn to_bytes(&self) -> (r: [u8; 12])
        ensures
            r@ == header_bytes(*self),
    {
        let r = [
            (self.id / 256) as u8,
            (self.id % 256) as u8,
            (self.flags / 256) as u8,
            (self.flags % 256) as u8,
            (self.num_questions / 256) as u8,
            (self.num_questions % 256) as u8,
            (self.num_answers / 256) as u8,
            (self.num_answers % 256) as u8,
            (self.num_authorities / 256) as u8,
            (self.num_authorities % 256) as u8,
            (self.num_additionals / 256) as u8,
            (self.num_additionals % 256) as u8,
        ];
        assert(r@ =~= header_bytes(*self));
        r
    }
}

/// Record type of an IPv4 address.
pub const TYPE_A: u16 = 1;

/// The Internet class.
pub const CLASS_IN: u16 = 1;

/// The header flag that asks the resolver to recurse.
pub const RECURSION_DESIRED: u16 = 256;

/// A question as the builder writes it: a name already in wire form, a type and a class.
pub struct DNSQuestion {
    pub name: Vec<u8>,
    pub type_: u16,
    pub class: u16,
}

/// The wire form of a question: the name, then type and class as big-endian `u16`s.
pub open spec fn question_bytes(name: Seq<u8>, type_: u16, class: u16) -> Seq<u8> {
    name + u16_bytes(type_) + u16_bytes(class)
}

impl DNSQuestion {
    /// The question's bytes on the wire.
    pub fn to_bytes(&self) -> (r: Vec<u8>)
        ensures
            r@ == question_bytes(self.name@, self.type_, self.class),
    {
        let mut r: Vec<u8> = Vec::new();
        push_bytes(&mut r, self.name.as_slice(), 0, self.name.len());
        assert(r@ =~= self.name@);
        push_u16(&mut r, self.type_);
        push_u16(&mut r, self.class);
        r
    }
}

/// The header of a query with identifier `id`: recursion desired, one question.
pub open spec fn query_header(id: u16) -> DNSHeader {
    DNSHeader {
        id,
        flags: RECURSION_DESIRED,
        num_questions: 1,
        num_answers: 0,
        num_authorities: 0,
        num_additionals: 0,
    }
}

/// The whole query for `domain`, of type `record_type`, class Internet.
pub open spec fn query_bytes(domain: Seq<u8>, record_type: u16, id: u16) -> Seq<u8> {
    header_bytes(query_header(id)) + question_bytes(encoded_name(domain), record_type, CLASS_IN)
}

/// Writes the dotted name `domain_name` in wire form: for each part between the
/// dots, a length byte and the part's bytes, then a zero byte. A part longer
/// than 63 bytes fails with `LabelTooLong`.
pub fn encode_dns_name(domain_name: &[u8]) -> (r: Result<Vec<u8>, DnsError>)
    ensures
        labels_fit(split_dots(domain_name@)) ==> (r matches Ok(v) && v@ == encoded_name(domain_name@)),
        !labels_fit(split_dots(domain_name@)) ==> r == Err::<Vec<u8>, DnsError>(DnsError::LabelTooLong),
{
    let n = domain_name.len();
    let mut out: Vec<u8> = Vec::new();
    let mut start: usize = 0;
    let mut i: usize = 0;
    assert(domain_name@.subrange(0, 0) =~= Seq::<u8>::empty());
    assert(split_dots(Seq::<u8>::empty()).drop_last() =~= Seq::<Seq<u8>>::empty());
    loop
        invariant
            start <= i <= n == domain_name@.len(),
            split_dots(domain_name@.subrange(0, i as int)).last() == domain_name@.subrange(start as int, i as int),
            out@ == length_prefixed(split_dots(domain_name@.subrange(0, i as int)).drop_last()),
            labels_fit(split_dots(domain_name@.subrange(0, i as int)).drop_last()),
        decreases n - i,
    {
        let ghost parts = split_dots(domain_name@.subrange(0, i as int));
        proof {
            lemma_split_nonempty(domain_name@.subrange(0, i as int));
        }
        if i == n || domain_name[i] == DOT {
            if i - start > MAX_LABEL {
                proof {
                    lemma_split_grows(domain_name@, i as int, n as int);
                    assert(domain_name@.subrange(0, n as int) =~= domain_name@);
                    let whole = split_dots(domain_name@);
                    assert(whole[parts.len() - 1].len() > MAX_LABEL);
                    assert(!labels_fit(whole));
                }
                return Err(DnsError::LabelTooLong);
            }
            out.push((i - start) as u8);
            push_bytes(&mut out, domain_name, start, i);
            proof {
                assert(out@ == length_prefixed(parts));
                assert(parts.drop_last().push(parts.last()) =~= parts);
                assert(labels_fit(parts)) by {
                    assert forall|k: int| 0 <= k < parts.len() implies #[trigger] parts[k].len() <= MAX_LABEL by {
                        if k < parts.len() - 1 {
                            assert(parts[k] == parts.drop_last()[k]);
                        }
                    }
                }
            }
            if i == n {
                out.push(0u8);
                proof {
                    assert(domain_name@.subrange(0, n as int) =~= domain_name@);
                    assert(parts == split_dots(domain_name@));
                    assert(out@ =~= encoded_name(domain_name@));
                }
                return Ok(out);
            }
            proof {
                let next = domain_name@.subrange(0, i + 1);
                assert(next.drop_last() =~= domain_name@.subrange(0, i as int));
                assert(split_dots(next) == parts.push(Seq::empty()));
                assert(parts.push(Seq::empty()).drop_last() =~= parts);
                assert(domain_name@.subrange(i + 1, i + 1) =~= Seq::<u8>::empty());
            }
            i = i + 1;
            start = i;
        } else {
            proof {
                let next = domain_name@.subrange(0, i + 1);
                assert(next.drop_last() =~= domain_name@.subrange(0, i as int));
                let grown = parts.update(parts.len() - 1, parts.last().push(domain_name@[i as int]));
                assert(split_dots(next) == grown);
                assert(grown.drop_last() =~= parts.drop_last());
                assert(domain_name@.subrange(start as int, i + 1) =~= parts.last().push(domain_name@[i as int]));
            }
            i = i + 1;
        }
    }
}

/// Builds a query with identifier `id` for `domain_name` and `record_type`:
/// a header with recursion desired and one question, then the question with
/// class Internet. A label longer than 63 bytes fails with `LabelTooLong`.
pub fn build_query_with_id(domain_name: &[u8], record_type: u16, id: u16) -> (r: Result<Vec<u8>, DnsError>)
    ensures
        labels_fit(split_dots(domain_name@)) ==> (r matches Ok(v) && v@ == query_bytes(domain_name@, record_type, id)),
        !labels_fit(split_dots(domain_name@)) ==> r == Err::<Vec<u8>, DnsError>(DnsError::LabelTooLong),
{
    let name = match encode_dns_name(domain_name) {
        Ok(name) => name,
        Err(e) => {
            return Err(e);
        },
    };
    let header = DNSHeader {
        id,
        flags: RECURSION_DESIRED,
        num_questions: 1,
        num_answers: 0,
        num_authorities: 0,
        num_additionals: 0,
    };
    let question = DNSQuestion { name, type_: record_type, class: CLASS_IN };
    let header_bytes = header.to_bytes();
    let question_bytes = question.to_bytes();
    let mut result: Vec<u8> = Vec::new();
    push_bytes(&mut result, header_bytes.as_slice(), 0, 12);
    push_bytes(&mut result, question_bytes.as_slice(), 0, question_bytes.len());
    assert(result@ =~= query_bytes(domain_name@, record_type, id));
    Ok(result)
}

/// Builds a query with identifier 1 for `domain_name` and `record_type`, as
/// [`build_query_with_id`] does.
pub fn build_query(domain_name: &[u8], record_type: u16) -> (r: Result<Vec<u8>, DnsError>)
    ensures
        labels_fit(split_dots(domain_name@)) ==> (r matches Ok(v) && v@ == query_bytes(domain_name@, record_type, 1)),
        !labels_fit(split_dots(domain_name@)) ==> r == Err::<Vec<u8>, DnsError>(DnsError::LabelTooLong),
{
    build_query_with_id(domain_name, record_type, 1)
}

} // verus!
