use vstd::prelude::*;

use crate::error::DnsError;
use crate::header::{header_at, header_bytes, lemma_header_round_trip, DNSHeader, HEADER_LEN};
use crate::name::bytes_result;
use crate::question::{
    lemma_question_round_trip, question_at, question_wire, DNSQuestion, QuestionModel,
};
use crate::record::{lemma_record_round_trip, record_at, record_wire, DNSResourceRecord, RecordModel};

verus! {

/// The largest number of entries that a section count can announce.
pub const MAX_SECTION_LEN: usize = 0xffff;

/// A whole DNS message: the header and its four sections.
#[derive(Debug, Clone, PartialEq, Eq)]
pub struct DNSMessage {
    /// The header; its counts say how many entries each section holds.
    pub header: DNSHeader,
    /// The question section.
    pub questions: Vec<DNSQuestion>,
    /// The answer section.
    pub answers: Vec<DNSResourceRecord>,
    /// The authority section.
    pub authorities: Vec<DNSResourceRecord>,
    /// The additional section.
    pub additional: Vec<DNSResourceRecord>,
}

/// What a message holds: the header, the questions, and the answer,
/// authority and additional records.
pub type MessageModel = (
    DNSHeader,
    Seq<QuestionModel>,
    Seq<RecordModel>,
    Seq<RecordModel>,
    Seq<RecordModel>,
);

/// What each question of a sequence holds.
pub open spec fn questions_model(v: Seq<DNSQuestion>) -> Seq<QuestionModel> {
    v.map_values(|q: DNSQuestion| q@)
}

/// What each record of a sequence holds.
pub open spec fn records_model(v: Seq<DNSResourceRecord>) -> Seq<RecordModel> {
    v.map_values(|rr: DNSResourceRecord| rr@)
}

impl View for DNSMessage {
    type V = MessageModel;

    open spec fn view(&self) -> MessageModel {
        (
            self.header,
            questions_model(self.questions@),
            records_model(self.answers@),
            records_model(self.authorities@),
            records_model(self.additional@),
        )
    }
}

/// Reads `n` questions one after the other from `pos` on: them, and the
/// offset just past the last.
pub open spec fn questions_at(buf: Seq<u8>, pos: int, n: nat) -> Result<(Seq<QuestionModel>, int), DnsError>
    decreases n,
{
    if n == 0 {
        Ok((Seq::empty(), pos))
    } else {
        match questions_at(buf, pos, (n - 1) as nat) {
            Err(e) => Err(e),
            Ok((qs, p)) => match question_at(buf, p) {
                Err(e) => Err(e),
                Ok((q, next)) => Ok((qs.push(q), next)),
            },
        }
    }
}

/// Reads `n` records one after the other from `pos` on: them, and the offset
/// just past the last.
pub open spec fn records_at(buf: Seq<u8>, pos: int, n: nat) -> Result<(Seq<RecordModel>, int), DnsError>
    decreases n,
{
    if n == 0 {
        Ok((Seq::empty(), pos))
    } else {
        match records_at(buf, pos, (n - 1) as nat) {
            Err(e) => Err(e),
            Ok((rs, p)) => match record_at(buf, p) {
                Err(e) => Err(e),
                Ok((rr, next)) => Ok((rs.push(rr), next)),
            },
        }
    }
}

/// Reads the message held by `buf`: the header, then as many entries of each
/// section as the header announces, each section after the one before.
pub open spec fn message_at(buf: Seq<u8>) -> Result<MessageModel, DnsError> {
    if buf.len() < HEADER_LEN {
        Err(DnsError::TruncatedInput)
    } else {
        let h = header_at(buf);
        match questions_at(buf, HEADER_LEN as int, h.qdcount as nat) {
            Err(e) => Err(e),
            Ok((qs, p1)) => match records_at(buf, p1, h.ancount as nat) {
                Err(e) => Err(e),
                Ok((an, p2)) => match records_at(buf, p2, h.nscount as nat) {
                    Err(e) => Err(e),
                    Ok((ns, p3)) => match records_at(buf, p3, h.arcount as nat) {
                        Err(e) => Err(e),
                        Ok((ar, _)) => Ok((h, qs, an, ns, ar)),
                    },
                },
            },
        }
    }
}

/// The encodings of a sequence of questions, one after the other.
pub open spec fn questions_wire(qs: Seq<QuestionModel>) -> Result<Seq<u8>, DnsError>
    decreases qs.len(),
{
    if qs.len() == 0 {
        Ok(Seq::empty())
    } else {
        match questions_wire(qs.drop_last()) {
            Err(e) => Err(e),
            Ok(w) => match question_wire(qs.last()) {
                Err(e) => Err(e),
                Ok(wq) => Ok(w + wq),
            },
        }
    }
}

/// The encodings of a sequence of records, one after the other.
pub open spec fn records_wire(rs: Seq<RecordModel>) -> Result<Seq<u8>, DnsError>
    decreases rs.len(),
{
    if rs.len() == 0 {
        Ok(Seq::empty())
    } else {
        match records_wire(rs.drop_last()) {
            Err(e) => Err(e),
            Ok(w) => match record_wire(rs.last()) {
                Err(e) => Err(e),
                Ok(wr) => Ok(w + wr),
            },
        }
    }
}

/// The encoding of a message: the header as it stands, then each section.
pub open spec fn message_wire(m: MessageModel) -> Result<Seq<u8>, DnsError> {
    match questions_wire(m.1) {
        Err(e) => Err(e),
        Ok(wq) => match records_wire(m.2) {
            Err(e) => Err(e),
            Ok(wa) => match records_wire(m.3) {
                Err(e) => Err(e),
                Ok(wn) => match records_wire(m.4) {
                    Err(e) => Err(e),
                    Ok(wr) => Ok(header_bytes(m.0) + wq + wa + wn + wr),
                },
            },
        },
    }
}

/// Once reading the first `m` questions fails, reading more fails the same way.
proof fn lemma_questions_at_fail(buf: Seq<u8>, pos: int, m: nat, n: nat)
    requires
        m <= n,
        questions_at(buf, pos, m) is Err,
    ensures
        questions_at(buf, pos, n) == questions_at(buf, pos, m),
    decreases n,
{
    if n > m {
        lemma_questions_at_fail(buf, pos, m, (n - 1) as nat);
    }
}

/// Once reading the first `m` records fails, reading more fails the same way.
proof fn lemma_records_at_fail(buf: Seq<u8>, pos: int, m: nat, n: nat)
    requires
        m <= n,
        records_at(buf, pos, m) is Err,
    ensures
        records_at(buf, pos, n) == records_at(buf, pos, m),
    decreases n,
{
    if n > m {
        lemma_records_at_fail(buf, pos, m, (n - 1) as nat);
    }
}

/// Once encoding the first `k` questions fails, encoding them all fails the
/// same way.
proof fn lemma_questions_wire_fail(qs: Seq<QuestionModel>, k: int)
    requires
        0 <= k <= qs.len(),
        questions_wire(qs.take(k)) is Err,
    ensures
        questions_wire(qs) == questions_wire(qs.take(k)),
    decreases qs.len(),
{
    if k == qs.len() {
        assert(qs.take(k) =~= qs);
    } else {
        assert(qs.drop_last().take(k) =~= qs.take(k));
        lemma_questions_wire_fail(qs.drop_last(), k);
    }
}

/// Once encoding the first `k` records fails, encoding them all fails the
/// same way.
proof fn lemma_records_wire_fail(rs: Seq<RecordModel>, k: int)
    requires
        0 <= k <= rs.len(),
        records_wire(rs.take(k)) is Err,
    ensures
        records_wire(rs) == records_wire(rs.take(k)),
    decreases rs.len(),
{
    if k == rs.len() {
        assert(rs.take(k) =~= rs);
    } else {
        assert(rs.drop_last().take(k) =~= rs.take(k));
        lemma_records_wire_fail(rs.drop_last(), k);
    }
}

/// Decodes `count` questions one after the other from `start` on, with the
/// offset just past the last.
pub fn read_questions(bytes: &[u8], start: usize, count: u16) -> (r: Result<(Vec<DNSQuestion>, usize), DnsError>)
    ensures
        match questions_at(bytes@, start as int, count as nat) {
            Ok((qs, end)) => r matches Ok((v, e)) && questions_model(v@) == qs && e == end,
            Err(err) => r matches Err(x) && x == err,
        },
{
    let mut v: Vec<DNSQuestion> = Vec::new();
    let mut pos: usize = start;
    let mut i: u16 = 0;
    assert(questions_model(v@) =~= Seq::<QuestionModel>::empty());
    while i < count
        invariant
            i <= count,
            questions_at(bytes@, start as int, i as nat) == Ok::<(Seq<QuestionModel>, int), DnsError>(
                (questions_model(v@), pos as int),
            ),
        decreases count - i,
    {
        match DNSQuestion::from_bytes(bytes, pos) {
            Err(e) => {
                proof {
                    lemma_questions_at_fail(bytes@, start as int, (i + 1) as nat, count as nat);
                }
                return Err(e);
            },
            Ok((q, next)) => {
                let ghost before = v@;
                v.push(q);
                assert(questions_model(v@) =~= questions_model(before).push(q@));
                pos = next;
                i = i + 1;
            },
        }
    }
    Ok((v, pos))
}

/// Decodes `count` records one after the other from `start` on, with the
/// offset just past the last.
pub fn read_records(bytes: &[u8], start: usize, count: u16) -> (r: Result<(Vec<DNSResourceRecord>, usize), DnsError>)
    ensures
        match records_at(bytes@, start as int, count as nat) {
            Ok((rs, end)) => r matches Ok((v, e)) && records_model(v@) == rs && e == end,
            Err(err) => r matches Err(x) && x == err,
        },
{
    let mut v: Vec<DNSResourceRecord> = Vec::new();
    let mut pos: usize = start;
    let mut i: u16 = 0;
    assert(records_model(v@) =~= Seq::<RecordModel>::empty());
    while i < count
        invariant
            i <= count,
            records_at(bytes@, start as int, i as nat) == Ok::<(Seq<RecordModel>, int), DnsError>(
                (records_model(v@), pos as int),
            ),
        decreases count - i,
    {
        match DNSResourceRecord::from_bytes(bytes, pos) {
            Err(e) => {
                proof {
                    lemma_records_at_fail(bytes@, start as int, (i + 1) as nat, count as nat);
                }
                return Err(e);
            },
            Ok((rr, next)) => {
                let ghost before = v@;
                v.push(rr);
                assert(records_model(v@) =~= records_model(before).push(rr@));
                pos = next;
                i = i + 1;
            },
        }
    }
    Ok((v, pos))
}

/// Encodes questions one after the other.
pub fn write_questions(qs: &Vec<DNSQuestion>) -> (r: Result<Vec<u8>, DnsError>)
    ensures
        bytes_result(r) == questions_wire(questions_model(qs@)),
{
    let mut out: Vec<u8> = Vec::new();
    let mut i: usize = 0;
    assert(questions_model(qs@).take(0) =~= Seq::<QuestionModel>::empty());
    while i < qs.len()
        invariant
            i <= qs@.len(),
            questions_wire(questions_model(qs@).take(i as int)) == Ok::<Seq<u8>, DnsError>(out@),
        decreases qs@.len() - i,
    {
        let ghost model = questions_model(qs@);
        assert(model.take(i + 1).drop_last() =~= model.take(i as int));
        match qs[i].to_bytes() {
            Err(e) => {
                proof {
                    lemma_questions_wire_fail(model, i + 1);
                }
                return Err(e);
            },
            Ok(mut w) => {
                out.append(&mut w);
            },
        }
        i = i + 1;
    }
    assert(questions_model(qs@).take(qs@.len() as int) =~= questions_model(qs@));
    Ok(out)
}

/// Encodes records one after the other.
pub fn write_records(rs: &Vec<DNSResourceRecord>) -> (r: Result<Vec<u8>, DnsError>)
    ensures
        bytes_result(r) == records_wire(records_model(rs@)),
{
    let mut out: Vec<u8> = Vec::new();
    let mut i: usize = 0;
    assert(records_model(rs@).take(0) =~= Seq::<RecordModel>::empty());
    while i < rs.len()
        invariant
            i <= rs@.len(),
            records_wire(records_model(rs@).take(i as int)) == Ok::<Seq<u8>, DnsError>(out@),
        decreases rs@.len() - i,
    {
        let ghost model = records_model(rs@);
        assert(model.take(i + 1).drop_last() =~= model.take(i as int));
        match rs[i].to_bytes() {
            Err(e) => {
                proof {
                    lemma_records_wire_fail(model, i + 1);
                }
                return Err(e);
            },
            Ok(mut w) => {
                out.append(&mut w);
            },
        }
        i = i + 1;
    }
    assert(records_model(rs@).take(rs@.len() as int) =~= records_model(rs@));
    Ok(out)
}

/// Whether the header's counts match the number of entries in each section.
pub open spec fn counts_match(m: MessageModel) -> bool {
    &&& m.0.qdcount == m.1.len()
    &&& m.0.ancount == m.2.len()
    &&& m.0.nscount == m.3.len()
    &&& m.0.arcount == m.4.len()
}

impl DNSMessage {
    /// Builds a message whose header counts are the lengths of the given
    /// sections; fails when a section holds more entries than a count can say.
    pub fn new(
        id: u16,
        flags: u16,
        questions: Vec<DNSQuestion>,
        answers: Vec<DNSResourceRecord>,
        authorities: Vec<DNSResourceRecord>,
        additional: Vec<DNSResourceRecord>,
    ) -> (r: Result<DNSMessage, DnsError>)
        ensures
            questions@.len() > MAX_SECTION_LEN || answers@.len() > MAX_SECTION_LEN
                || authorities@.len() > MAX_SECTION_LEN || additional@.len() > MAX_SECTION_LEN
                ==> r == Err::<DNSMessage, DnsError>(DnsError::TooManyEntries),
            questions@.len() <= MAX_SECTION_LEN && answers@.len() <= MAX_SECTION_LEN
                && authorities@.len() <= MAX_SECTION_LEN && additional@.len() <= MAX_SECTION_LEN
                ==> (r matches Ok(m) && m.header.id == id && m.header.flags == flags
                && m.questions@ == questions@ && m.answers@ == answers@
                && m.authorities@ == authorities@ && m.additional@ == additional@
                && counts_match(m@)),
    {
        if questions.len() > MAX_SECTION_LEN || answers.len() > MAX_SECTION_LEN
            || authorities.len() > MAX_SECTION_LEN || additional.len() > MAX_SECTION_LEN {
            return Err(DnsError::TooManyEntries);
        }
        let header = DNSHeader {
            id,
            flags,
            qdcount: questions.len() as u16,
            ancount: answers.len() as u16,
            nscount: authorities.len() as u16,
            arcount: additional.len() as u16,
        };
        Ok(DNSMessage { header, questions, answers, authorities, additional })
    }

    /// Decodes a whole message: the header, then as many entries of each
    /// section as the header announces. Bytes after the last section are
    /// ignored.
    pub fn from_bytes(bytes: &[u8]) -> (r: Result<DNSMessage, DnsError>)
        ensures
            match message_at(bytes@) {
                Ok(m) => r matches Ok(msg) && msg@ == m,
                Err(err) => r matches Err(x) && x == err,
            },
    {
        let (header, offset) = match DNSHeader::from_bytes(bytes) {
            Ok(p) => p,
            Err(e) => return Err(e),
        };
        let (questions, offset) = match read_questions(bytes, offset, header.qdcount) {
            Ok(p) => p,
            Err(e) => return Err(e),
        };
        let (answers, offset) = match read_records(bytes, offset, header.ancount) {
            Ok(p) => p,
            Err(e) => return Err(e),
        };
        let (authorities, offset) = match read_records(bytes, offset, header.nscount) {
            Ok(p) => p,
            Err(e) => return Err(e),
        };
        let (additional, _) = match read_records(bytes, offset, header.arcount) {
            Ok(p) => p,
            Err(e) => return Err(e),
        };
        Ok(DNSMessage { header, questions, answers, authorities, additional })
    }

    /// Encodes the message: the header as it stands, then each section in
    /// order. The counts are not recomputed; fails when an entry cannot be
    /// encoded.
    pub fn to_bytes(&self) -> (r: Result<Vec<u8>, DnsError>)
        ensures
            bytes_result(r) == message_wire(self@),
    {
        let mut wq = match write_questions(&self.questions) {
            Ok(w) => w,
            Err(e) => return Err(e),
        };
        let mut wa = match write_records(&self.answers) {
            Ok(w) => w,
            Err(e) => return Err(e),
        };
        let mut wn = match write_records(&self.authorities) {
            Ok(w) => w,
            Err(e) => return Err(e),
        };
        let mut wr = match write_records(&self.additional) {
            Ok(w) => w,
            Err(e) => return Err(e),
        };
        let mut bytes = self.header.to_bytes();
        bytes.append(&mut wq);
        bytes.append(&mut wa);
        bytes.append(&mut wn);
        bytes.append(&mut wr);
        Ok(bytes)
    }
}

/// Decoding the encoding `w` of a sequence of questions, where it stands,
/// reads them all back and ends where `w` ends.
pub proof fn lemma_questions_round_trip(
    qs: Seq<QuestionModel>,
    w: Seq<u8>,
    pre: Seq<u8>,
    rest: Seq<u8>,
)
    requires
        questions_wire(qs) == Ok::<Seq<u8>, DnsError>(w),
    ensures
        questions_at(pre + w + rest, pre.len() as int, qs.len()) == Ok::<
            (Seq<QuestionModel>, int),
            DnsError,
        >((qs, pre.len() + w.len() as int)),
    decreases qs.len(),
{
    if qs.len() == 0 {
        assert(qs =~= Seq::<QuestionModel>::empty());
        assert(pre + w + rest =~= pre + rest);
    } else {
        let init = qs.drop_last();
        let wi = questions_wire(init)->Ok_0;
        let wl = question_wire(qs.last())->Ok_0;
        assert(w == wi + wl);
        assert(pre + w + rest =~= pre + wi + (wl + rest));
        lemma_questions_round_trip(init, wi, pre, wl + rest);
        assert(pre + w + rest =~= (pre + wi) + wl + rest);
        lemma_question_round_trip(qs.last(), wl, pre + wi, rest);
        assert(init.push(qs.last()) =~= qs);
    }
}

/// Decoding the encoding `w` of a sequence of records, where it stands,
/// reads them all back and ends where `w` ends.
pub proof fn lemma_records_round_trip(rs: Seq<RecordModel>, w: Seq<u8>, pre: Seq<u8>, rest: Seq<u8>)
    requires
        records_wire(rs) == Ok::<Seq<u8>, DnsError>(w),
    ensures
        records_at(pre + w + rest, pre.len() as int, rs.len()) == Ok::<
            (Seq<RecordModel>, int),
            DnsError,
        >((rs, pre.len() + w.len() as int)),
    decreases rs.len(),
{
    if rs.len() == 0 {
        assert(rs =~= Seq::<RecordModel>::empty());
        assert(pre + w + rest =~= pre + rest);
    } else {
        let init = rs.drop_last();
        let wi = records_wire(init)->Ok_0;
        let wl = record_wire(rs.last())->Ok_0;
        assert(w == wi + wl);
        assert(pre + w + rest =~= pre + wi + (wl + rest));
        lemma_records_round_trip(init, wi, pre, wl + rest);
        assert(pre + w + rest =~= (pre + wi) + wl + rest);
        lemma_record_round_trip(rs.last(), wl, pre + wi, rest);
        assert(init.push(rs.last()) =~= rs);
    }
}

/// Decoding the encoding of a message whose header counts match its
/// sections gives the message back.
pub proof fn lemma_message_round_trip(m: MessageModel, w: Seq<u8>)
    requires
        counts_match(m),
        message_wire(m) == Ok::<Seq<u8>, DnsError>(w),
    ensures
        message_at(w) == Ok::<MessageModel, DnsError>(m),
{
    let h = header_bytes(m.0);
    let wq = questions_wire(m.1)->Ok_0;
    let wa = records_wire(m.2)->Ok_0;
    let wn = records_wire(m.3)->Ok_0;
    let wr = records_wire(m.4)->Ok_0;
    let e = Seq::<u8>::empty();
    assert(w == h + wq + wa + wn + wr);
    assert(w =~= h + (wq + wa + wn + wr));
    lemma_header_round_trip(m.0, wq + wa + wn + wr);
    assert(w =~= h + wq + (wa + wn + wr));
    lemma_questions_round_trip(m.1, wq, h, wa + wn + wr);
    assert(w =~= (h + wq) + wa + (wn + wr));
    lemma_records_round_trip(m.2, wa, h + wq, wn + wr);
    assert(w =~= (h + wq + wa) + wn + wr);
    lemma_records_round_trip(m.3, wn, h + wq + wa, wr);
    assert(w =~= (h + wq + wa + wn) + wr + e);
    lemma_records_round_trip(m.4, wr, h + wq + wa + wn, e);
}

} // verus!
