use vstd::prelude::*;

use crate::error::DnsError;
use crate::wire::{be16_at, be16_bytes, lemma_be16_round_trip, push_u16, read_u16};

verus! {

/// The length of the fixed header at the start of every message.
pub const HEADER_LEN: usize = 12;

/// The fixed header of a DNS message.
#[derive(Debug, Clone, Copy, PartialEq, Eq, Structural)]
pub struct DNSHeader {
    /// Transaction identifier, echoed between query and response.
    pub id: u16,
    /// QR, Opcode, AA, TC, RD, RA, Z and RCODE, kept as one opaque word.
    pub flags: u16,
    /// Number of entries in the question section.
    pub qdcount: u16,
    /// Number of entries in the answer section.
    pub ancount: u16,
    /// Number of entries in the authority section.
    pub nscount: u16,
    /// Number of entries in the additional section.
    pub arcount: u16,
}

/// The header held by the first twelve bytes of `b`.
pub open spec fn header_at(b: Seq<u8>) -> DNSHeader
    recommends
        b.len() >= HEADER_LEN,
{
    DNSHeader {
        id: be16_at(b, 0),
        flags: be16_at(b, 2),
        qdcount: be16_at(b, 4),
        ancount: be16_at(b, 6),
        nscount: be16_at(b, 8),
        arcount: be16_at(b, 10),
    }
}

/// The twelve bytes of `h`: its six fields, big-endian, in order.
pub open spec fn header_bytes(h: DNSHeader) -> Seq<u8> {
    be16_bytes(h.id) + be16_bytes(h.flags) + be16_bytes(h.qdcount) + be16_bytes(h.ancount)
        + be16_bytes(h.nscount) + be16_bytes(h.arcount)
}

impl DNSHeader {
    /// Decodes the header at the start of `bytes`, with the offset where the
    /// question section begins.
    pub fn from_bytes(bytes: &[u8]) -> (r: Result<(DNSHeader, usize), DnsError>)
        ensures
            bytes@.len() < HEADER_LEN ==> r == Err::<(DNSHeader, usize), DnsError>(
                DnsError::TruncatedInput,
            ),
            bytes@.len() >= HEADER_LEN ==> r == Ok::<(DNSHeader, usize), DnsError>(
                (header_at(bytes@), HEADER_LEN),
            ),
    {
        if bytes.len() < HEADER_LEN {
            return Err(DnsError::TruncatedInput);
        }
        let header = DNSHeader {
            id: read_u16(bytes, 0),
            flags: read_u16(bytes, 2),
            qdcount: read_u16(bytes, 4),
            ancount: read_u16(bytes, 6),
            nscount: read_u16(bytes, 8),
            arcount: read_u16(bytes, 10),
        };
        Ok((header, HEADER_LEN))
    }

    /// Encodes the header as twelve bytes.
    pub fn to_bytes(&self) -> (r: Vec<u8>)
        ensures
            r@ == header_bytes(*self),
    {
        let mut bytes: Vec<u8> = Vec::new();
        push_u16(&mut bytes, self.id);
        push_u16(&mut bytes, self.flags);
        push_u16(&mut bytes, self.qdcount);
        push_u16(&mut bytes, self.ancount);
        push_u16(&mut bytes, self.nscount);
        push_u16(&mut bytes, self.arcount);
        assert(bytes@ =~= header_bytes(*self));
        bytes
    }
}

/// Decoding the encoding of a header gives the header back, whatever bytes
/// follow it.
pub proof fn lemma_header_round_trip(h: DNSHeader, rest: Seq<u8>)
    ensures
        header_bytes(h).len() == HEADER_LEN,
        header_at(header_bytes(h) + rest) == h,
{
    let b = header_bytes(h) + rest;
    lemma_be16_round_trip(h.id);
    lemma_be16_round_trip(h.flags);
    lemma_be16_round_trip(h.qdcount);
    lemma_be16_round_trip(h.ancount);
    lemma_be16_round_trip(h.nscount);
    lemma_be16_round_trip(h.arcount);
    assert(b.subrange(0, 2) =~= be16_bytes(h.id));
    assert(b.subrange(2, 4) =~= be16_bytes(h.flags));
    assert(b.subrange(4, 6) =~= be16_bytes(h.qdcount));
    assert(b.subrange(6, 8) =~= be16_bytes(h.ancount));
    assert(b.subrange(8, 10) =~= be16_bytes(h.nscount));
    assert(b.subrange(10, 12) =~= be16_bytes(h.arcount));
}

} // verus!
