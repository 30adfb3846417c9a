use vstd::prelude::*;
use vstd::utf8::encode_utf8;

use crate::error::DnsError;
use crate::name::{
    bytes_result, encode_text, labels_wire, lemma_name_at_wire, lemma_text_round_trip, name_at,
    name_labels, name_text, parse_label, text_wire,
};
use crate::wire::{be16_at, be16_bytes, lemma_be16_between, push_u16, read_u16};

verus! {

/// One entry of the question section.
#[derive(Debug, Clone, PartialEq, Eq)]
pub struct DNSQuestion {
    /// The name asked about, its labels joined by dots.
    pub qname: String,
    /// The type of record asked for.
    pub qtype: u16,
    /// The class of record asked for.
    pub qclass: u16,
}

/// What a question holds: its name's text, its type and its class.
pub type QuestionModel = (Seq<char>, u16, u16);

impl View for DNSQuestion {
    type V = QuestionModel;

    open spec fn view(&self) -> QuestionModel {
        (self.qname@, self.qtype, self.qclass)
    }
}

/// Reads the question at `pos` of `buf`: what it holds, and the offset just
/// past its class.
pub open spec fn question_at(buf: Seq<u8>, pos: int) -> Result<(QuestionModel, int), DnsError> {
    match name_at(buf, pos, 0) {
        Err(e) => Err(e),
        Ok((ls, end)) => if end + 4 > buf.len() {
            Err(DnsError::TruncatedInput)
        } else {
            Ok(((name_text(ls), be16_at(buf, end), be16_at(buf, end + 2)), end + 4))
        },
    }
}

/// The encoding of a question: its name, then its type and class, big-endian.
pub open spec fn question_wire(q: QuestionModel) -> Result<Seq<u8>, DnsError> {
    match text_wire(q.0) {
        Err(e) => Err(e),
        Ok(w) => Ok(w + be16_bytes(q.1) + be16_bytes(q.2)),
    }
}

impl DNSQuestion {
    /// Decodes the question at `start_offset`, with the offset just past it.
    pub fn from_bytes(bytes: &[u8], start_offset: usize) -> (r: Result<(DNSQuestion, usize), DnsError>)
        ensures
            match question_at(bytes@, start_offset as int) {
                Ok((m, end)) => r matches Ok((q, e)) && q@ == m && e == end,
                Err(err) => r matches Err(x) && x == err,
            },
    {
        let (qname, offset) = match parse_label(bytes, start_offset) {
            Ok(p) => p,
            Err(e) => return Err(e),
        };
        if offset > bytes.len() || bytes.len() - offset < 4 {
            return Err(DnsError::TruncatedInput);
        }
        let qtype = read_u16(bytes, offset);
        let qclass = read_u16(bytes, offset + 2);
        Ok((DNSQuestion { qname, qtype, qclass }, offset + 4))
    }

    /// Encodes the question; fails when its name cannot be encoded.
    pub fn to_bytes(&self) -> (r: Result<Vec<u8>, DnsError>)
        ensures
            bytes_result(r) == question_wire(self@),
    {
        let mut bytes = match encode_text(&self.qname) {
            Ok(w) => w,
            Err(e) => return Err(e),
        };
        push_u16(&mut bytes, self.qtype);
        push_u16(&mut bytes, self.qclass);
        Ok(bytes)
    }
}

/// Decoding the encoding `w` of a question, where it stands, gives the
/// question back and ends where `w` ends, whatever bytes come before and
/// after it.
pub proof fn lemma_question_round_trip(q: QuestionModel, w: Seq<u8>, pre: Seq<u8>, rest: Seq<u8>)
    requires
        question_wire(q) == Ok::<Seq<u8>, DnsError>(w),
    ensures
        question_at(pre + w + rest, pre.len() as int) == Ok::<(QuestionModel, int), DnsError>(
            (q, pre.len() + w.len() as int),
        ),
{
    let ls = name_labels(encode_utf8(q.0));
    let wn = labels_wire(ls);
    let p = pre.len() as int;
    let buf = pre + w + rest;
    assert(w == wn + be16_bytes(q.1) + be16_bytes(q.2));
    assert(buf.subrange(p, p + wn.len()) =~= wn);
    lemma_name_at_wire(buf, p, ls, 0);
    lemma_text_round_trip(q.0);
    assert(buf =~= (pre + wn) + be16_bytes(q.1) + (be16_bytes(q.2) + rest));
    lemma_be16_between(pre + wn, q.1, be16_bytes(q.2) + rest);
    assert(buf =~= (pre + wn + be16_bytes(q.1)) + be16_bytes(q.2) + rest);
    lemma_be16_between(pre + wn + be16_bytes(q.1), q.2, rest);
}

} // verus!
