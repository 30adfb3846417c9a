use vstd::prelude::*;
use vstd::utf8::encode_utf8;

use crate::error::DnsError;
use crate::name::{
    bytes_result, encode_text, labels_wire, lemma_name_at_wire, lemma_text_round_trip, name_at,
    name_labels, name_text, parse_label, text_wire,
};
use crate::wire::{
    be16_at, be16_bytes, be32_at, be32_bytes, lemma_be16_between, lemma_be32_between, push_u16,
    push_u32, read_u16, read_u32,
};

verus! {

/// The largest record data that the 16-bit length field can announce.
pub const MAX_RDATA_LEN: usize = 0xffff;

/// One resource record of the answer, authority or additional section.
#[derive(Debug, Clone, PartialEq, Eq)]
pub struct DNSResourceRecord {
    /// The owner name, its labels joined by dots.
    pub name: String,
    /// The record type.
    pub rtype: u16,
    /// The record class.
    pub rclass: u16,
    /// How long the record may be cached, in seconds.
    pub ttl: u32,
    /// The record data; its length goes on the wire before it.
    pub rdata: Vec<u8>,
}

/// What a record holds: its name's text, type, class, TTL and data.
pub type RecordModel = (Seq<char>, u16, u16, u32, Seq<u8>);

impl View for DNSResourceRecord {
    type V = RecordModel;

    open spec fn view(&self) -> RecordModel {
        (self.name@, self.rtype, self.rclass, self.ttl, self.rdata@)
    }
}

/// Reads the record at `pos` of `buf`: what it holds, and the offset just past
/// its data.
pub open spec fn record_at(buf: Seq<u8>, pos: int) -> Result<(RecordModel, int), DnsError> {
    match name_at(buf, pos, 0) {
        Err(e) => Err(e),
        Ok((ls, end)) => if end + 10 > buf.len() {
            Err(DnsError::TruncatedInput)
        } else {
            let len = be16_at(buf, end + 8) as int;
            if end + 10 + len > buf.len() {
                Err(DnsError::TruncatedInput)
            } else {
                Ok((
                    (
                        name_text(ls),
                        be16_at(buf, end),
                        be16_at(buf, end + 2),
                        be32_at(buf, end + 4),
                        buf.subrange(end + 10, end + 10 + len),
                    ),
                    end + 10 + len,
                ))
            }
        },
    }
}

/// The encoding of a record: its name, type, class and TTL, the length of its
/// data, then the data.
pub open spec fn record_wire(m: RecordModel) -> Result<Seq<u8>, DnsError> {
    match text_wire(m.0) {
        Err(e) => Err(e),
        Ok(w) => if m.4.len() > MAX_RDATA_LEN {
            Err(DnsError::DataTooLong)
        } else {
            Ok(w + be16_bytes(m.1) + be16_bytes(m.2) + be32_bytes(m.3) + be16_bytes(
                m.4.len() as u16,
            ) + m.4)
        },
    }
}

impl DNSResourceRecord {
    /// Decodes the record at `start_offset`, with the offset just past it.
    pub fn from_bytes(bytes: &[u8], start_offset: usize) -> (r: Result<(DNSResourceRecord, usize), DnsError>)
        ensures
            match record_at(bytes@, start_offset as int) {
                Ok((m, end)) => r matches Ok((rr, e)) && rr@ == m && e == end,
                Err(err) => r matches Err(x) && x == err,
            },
    {
        let (name, offset) = match parse_label(bytes, start_offset) {
            Ok(p) => p,
            Err(e) => return Err(e),
        };
        if offset > bytes.len() || bytes.len() - offset < 10 {
            return Err(DnsError::TruncatedInput);
        }
        let rtype = read_u16(bytes, offset);
        let rclass = read_u16(bytes, offset + 2);
        let ttl = read_u32(bytes, offset + 4);
        let len = read_u16(bytes, offset + 8) as usize;
        let data_start = offset + 10;
        if bytes.len() - data_start < len {
            return Err(DnsError::TruncatedInput);
        }
        let mut rdata: Vec<u8> = Vec::new();
        let data_end = data_start + len;
        let mut k: usize = data_start;
        while k < data_end
            invariant
                data_end == data_start + len,
                data_start <= k <= data_end <= bytes@.len(),
                rdata@ == bytes@.subrange(data_start as int, k as int),
            decreases data_end - k,
        {
            rdata.push(bytes[k]);
            assert(bytes@.subrange(data_start as int, k + 1) =~= bytes@.subrange(
                data_start as int,
                k as int,
            ).push(bytes@[k as int]));
            k = k + 1;
        }
        Ok((DNSResourceRecord { name, rtype, rclass, ttl, rdata }, data_end))
    }

    /// Encodes the record, its data length computed from the data; fails when
    /// its name cannot be encoded or its data is too long.
    pub fn to_bytes(&self) -> (r: Result<Vec<u8>, DnsError>)
        ensures
            bytes_result(r) == record_wire(self@),
    {
        let mut bytes = match encode_text(&self.name) {
            Ok(w) => w,
            Err(e) => return Err(e),
        };
        if self.rdata.len() > MAX_RDATA_LEN {
            return Err(DnsError::DataTooLong);
        }
        push_u16(&mut bytes, self.rtype);
        push_u16(&mut bytes, self.rclass);
        push_u32(&mut bytes, self.ttl);
        push_u16(&mut bytes, self.rdata.len() as u16);
        let ghost head = bytes@;
        let mut k: usize = 0;
        while k < self.rdata.len()
            invariant
                k <= self.rdata@.len(),
                bytes@ == head + self.rdata@.subrange(0, k as int),
            decreases self.rdata@.len() - k,
        {
            bytes.push(self.rdata[k]);
            assert(self.rdata@.subrange(0, k + 1) =~= self.rdata@.subrange(0, k as int).push(
                self.rdata@[k as int],
            ));
            k = k + 1;
        }
        assert(self.rdata@.subrange(0, self.rdata@.len() as int) =~= self.rdata@);
        Ok(bytes)
    }
}

/// Decoding the encoding `w` of a record, where it stands, gives the record
/// back and ends where `w` ends, whatever bytes come before and after it.
pub proof fn lemma_record_round_trip(m: RecordModel, w: Seq<u8>, pre: Seq<u8>, rest: Seq<u8>)
    requires
        record_wire(m) == Ok::<Seq<u8>, DnsError>(w),
    ensures
        record_at(pre + w + rest, pre.len() as int) == Ok::<(RecordModel, int), DnsError>(
            (m, pre.len() + w.len() as int),
        ),
{
    let ls = name_labels(encode_utf8(m.0));
    let wn = labels_wire(ls);
    let len = m.4.len() as u16;
    let p = pre.len() as int;
    let buf = pre + w + rest;
    let a1 = pre + wn;
    let a2 = a1 + be16_bytes(m.1);
    let a3 = a2 + be16_bytes(m.2);
    let a4 = a3 + be32_bytes(m.3);
    let a5 = a4 + be16_bytes(len);
    assert(w == wn + be16_bytes(m.1) + be16_bytes(m.2) + be32_bytes(m.3) + be16_bytes(len) + m.4);
    assert(buf.subrange(p, p + wn.len()) =~= wn);
    lemma_name_at_wire(buf, p, ls, 0);
    lemma_text_round_trip(m.0);
    assert(buf =~= a1 + be16_bytes(m.1) + (be16_bytes(m.2) + be32_bytes(m.3) + be16_bytes(len) + m.4 + rest));
    lemma_be16_between(a1, m.1, be16_bytes(m.2) + be32_bytes(m.3) + be16_bytes(len) + m.4 + rest);
    assert(buf =~= a2 + be16_bytes(m.2) + (be32_bytes(m.3) + be16_bytes(len) + m.4 + rest));
    lemma_be16_between(a2, m.2, be32_bytes(m.3) + be16_bytes(len) + m.4 + rest);
    assert(buf =~= a3 + be32_bytes(m.3) + (be16_bytes(len) + m.4 + rest));
    lemma_be32_between(a3, m.3, be16_bytes(len) + m.4 + rest);
    assert(buf =~= a4 + be16_bytes(len) + (m.4 + rest));
    lemma_be16_between(a4, len, m.4 + rest);
    assert(buf.subrange(a5.len() as int, a5.len() + m.4.len() as int) =~= m.4);
}

/// A record whose data length runs past the end of the buffer is truncated.
pub proof fn lemma_record_data_truncated(buf: Seq<u8>, pos: int, ls: Seq<Seq<u8>>, end: int)
    requires
        name_at(buf, pos, 0) == Ok::<(Seq<Seq<u8>>, int), DnsError>((ls, end)),
        end + 10 <= buf.len(),
        end + 10 + be16_at(buf, end + 8) > buf.len(),
    ensures
        record_at(buf, pos) == Err::<(RecordModel, int), DnsError>(DnsError::TruncatedInput),
{
}

} // verus!
