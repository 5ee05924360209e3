//! The entry codec: one log record, a key, a value and a deleted flag, framed
//! by a CRC-32 of its payload.
use crate::bytes::{le_u32, push_u32_le, read_u32_le, u32_le};
use vstd::prelude::*;
use vstd::slice::{slice_subrange, slice_to_vec};

verus! {

/// The CRC-32 (ISO-HDLC) checksum of `data`.
pub uninterp spec fn crc32_of(data: Seq<u8>) -> u32;

/// Relies on `crc32fast::hash`: the CRC-32 (ISO-HDLC) of the bytes, which
/// depends on the bytes alone.
#[verifier::external_body]
fn crc32(data: &[u8]) -> (r: u32)
    ensures
        r == crc32_of(data@),
{
    crc32fast::hash(data)
}

/// Bytes in a record before the key: checksum, key length, value length, deleted flag.
pub const HEADER_LEN: usize = 13;

/// One log record.
pub struct Entry {
    pub key: Vec<u8>,
    pub val: Vec<u8>,
    pub deleted: bool,
}

/// What a record holds, as mathematical values.
pub struct EntryModel {
    pub key: Seq<u8>,
    pub val: Seq<u8>,
    pub deleted: bool,
}

impl View for Entry {
    type V = EntryModel;

    open spec fn view(&self) -> EntryModel {
        EntryModel { key: self.key@, val: self.val@, deleted: self.deleted }
    }
}

/// Why no record could be read.
#[derive(Debug, PartialEq, Eq, Structural)]
pub enum EntryError {
    /// Fewer bytes remain than the record needs; at a record boundary, the end of the log.
    UnexpectedEof,
    /// The record was read whole and its checksum does not match its payload.
    BadChecksum,
}

/// Whether the record format can hold `e`: both lengths must fit in 32 bits.
pub open spec fn entry_encodable(e: EntryModel) -> bool {
    e.key.len() <= u32::MAX && e.val.len() <= u32::MAX
}

/// The checksummed part of a record: key length, value length, deleted flag, key, value.
pub open spec fn payload_bytes(e: EntryModel) -> Seq<u8> {
    u32_le(e.key.len() as u32) + u32_le(e.val.len() as u32) + seq![
        if e.deleted {
            1u8
        } else {
            0u8
        },
    ] + e.key + e.val
}

/// A whole record: the checksum of the payload, then the payload.
pub open spec fn entry_bytes(e: EntryModel) -> Seq<u8> {
    u32_le(crc32_of(payload_bytes(e))) + payload_bytes(e)
}

/// The record at the front of `s` and the number of bytes it takes, or why there is none.
pub open spec fn parse_entry(s: Seq<u8>) -> Result<(EntryModel, nat), EntryError> {
    if s.len() < HEADER_LEN {
        Err(EntryError::UnexpectedEof)
    } else {
        let kl = le_u32(s.subrange(4, 8)) as int;
        let vl = le_u32(s.subrange(8, 12)) as int;
        let end = HEADER_LEN + kl + vl;
        if s.len() < end {
            Err(EntryError::UnexpectedEof)
        } else if crc32_of(s.subrange(4, end)) != le_u32(s.subrange(0, 4)) {
            Err(EntryError::BadChecksum)
        } else {
            Ok(
                (
                    EntryModel {
                        key: s.subrange(HEADER_LEN as int, HEADER_LEN + kl),
                        val: s.subrange(HEADER_LEN + kl, end),
                        deleted: s[12] != 0,
                    },
                    end as nat,
                ),
            )
        }
    }
}

/// Decoding an encoded record, followed by anything, gives the record back and
/// consumes exactly its bytes.
pub proof fn lemma_entry_round_trip(e: EntryModel, rest: Seq<u8>)
    requires
        entry_encodable(e),
    ensures
        parse_entry(entry_bytes(e) + rest) == Ok::<(EntryModel, nat), EntryError>(
            (e, entry_bytes(e).len()),
        ),
{
    let s = entry_bytes(e) + rest;
    let p = payload_bytes(e);
    let kl = e.key.len() as int;
    let vl = e.val.len() as int;
    crate::bytes::lemma_u32_round_trip(crc32_of(p));
    crate::bytes::lemma_u32_round_trip(kl as u32);
    crate::bytes::lemma_u32_round_trip(vl as u32);
    assert(s.subrange(0, 4) =~= u32_le(crc32_of(p)));
    assert(s.subrange(4, 8) =~= u32_le(kl as u32));
    assert(s.subrange(8, 12) =~= u32_le(vl as u32));
    assert(s.subrange(4, 13 + kl + vl) =~= p);
    assert(s.subrange(13, 13 + kl) =~= e.key);
    assert(s.subrange(13 + kl, 13 + kl + vl) =~= e.val);
    assert(s[12] == p[8]);
    let (d, n) = parse_entry(s)->Ok_0;
    assert(d == e);
}

/// A record that parses takes at least its header, and parsing it reads
/// nothing past its end.
pub proof fn lemma_parse_entry_prefix(s: Seq<u8>, t: Seq<u8>)
    requires
        parse_entry(s) is Ok,
    ensures
        parse_entry(s)->Ok_0.1 >= HEADER_LEN,
        parse_entry(s)->Ok_0.1 <= s.len(),
        parse_entry(s + t) == parse_entry(s),
{
    let u = s + t;
    assert(u.subrange(0, 4) =~= s.subrange(0, 4));
    assert(u.subrange(4, 8) =~= s.subrange(4, 8));
    assert(u.subrange(8, 12) =~= s.subrange(8, 12));
    let kl = le_u32(s.subrange(4, 8)) as int;
    let vl = le_u32(s.subrange(8, 12)) as int;
    let end = 13 + kl + vl;
    assert(u.subrange(4, end) =~= s.subrange(4, end));
    assert(u.subrange(13, 13 + kl) =~= s.subrange(13, 13 + kl));
    assert(u.subrange(13 + kl, end) =~= s.subrange(13 + kl, end));
}

/// A record that parses parses the same from its own bytes alone.
pub proof fn lemma_parse_entry_take(s: Seq<u8>)
    requires
        parse_entry(s) is Ok,
    ensures
        parse_entry(s)->Ok_0.1 <= s.len(),
        parse_entry(s.take(parse_entry(s)->Ok_0.1 as int)) == parse_entry(s),
{
    let n = parse_entry(s)->Ok_0.1 as int;
    let u = s.take(n);
    assert(u.subrange(0, 4) =~= s.subrange(0, 4));
    assert(u.subrange(4, 8) =~= s.subrange(4, 8));
    assert(u.subrange(8, 12) =~= s.subrange(8, 12));
    let kl = le_u32(s.subrange(4, 8)) as int;
    let vl = le_u32(s.subrange(8, 12)) as int;
    assert(u.subrange(4, n) =~= s.subrange(4, n));
    assert(u.subrange(13, 13 + kl) =~= s.subrange(13, 13 + kl));
    assert(u.subrange(13 + kl, n) =~= s.subrange(13 + kl, n));
}

impl Entry {
    /// A live record of `key` and `val`.
    pub fn new(key: Vec<u8>, val: Vec<u8>) -> (r: Entry)
        ensures
            r@ == (EntryModel { key: key@, val: val@, deleted: false }),
    {
        Entry { key, val, deleted: false }
    }

    /// A record that deletes `key`: empty value, deleted flag set.
    pub fn tombstone(key: Vec<u8>) -> (r: Entry)
        ensures
            r@ == (EntryModel { key: key@, val: Seq::<u8>::empty(), deleted: true }),
    {
        Entry { key, val: Vec::new(), deleted: true }
    }

    pub fn is_deleted(&self) -> (r: bool)
        ensures
            r == self.deleted,
    {
        self.deleted
    }

    pub fn key(&self) -> (r: &[u8])
        ensures
            r@ == self.key@,
    {
        self.key.as_slice()
    }

    pub fn value(&self) -> (r: &[u8])
        ensures
            r@ == self.val@,
    {
        self.val.as_slice()
    }

    /// The record's bytes.
    pub fn encode(&self) -> (r: Vec<u8>)
        requires
            entry_encodable(self@),
        ensures
            r@ == entry_bytes(self@),
    {
        let mut buf: Vec<u8> = Vec::new();
        self.encode_into(&mut buf);
        assert(buf@ =~= entry_bytes(self@));
        buf
    }

    /// Appends the record's bytes to `out`: checksum, then payload.
    pub fn encode_into(&self, out: &mut Vec<u8>)
        requires
            entry_encodable(self@),
        ensures
            final(out)@ == old(out)@ + entry_bytes(self@),
    {
        let mut payload: Vec<u8> = Vec::new();
        push_u32_le(&mut payload, self.key.len() as u32);
        push_u32_le(&mut payload, self.val.len() as u32);
        payload.push(
            if self.deleted {
                1u8
            } else {
                0u8
            },
        );
        payload.extend_from_slice(self.key.as_slice());
        payload.extend_from_slice(self.val.as_slice());
        assert(payload@ =~= payload_bytes(self@));
        let crc = crc32(payload.as_slice());
        push_u32_le(out, crc);
        out.extend_from_slice(payload.as_slice());
        assert(final(out)@ =~= old(out)@ + entry_bytes(self@));
    }

    /// Decodes the record at the front of `data`; returns it with the number of bytes it took.
    pub fn decode(data: &[u8]) -> (r: Result<(Entry, usize), EntryError>)
        ensures
            match (r, parse_entry(data@)) {
                (Ok((e, n)), Ok((m, k))) => e@ == m && n == k,
                (Err(e), Err(f)) => e == f,
                _ => false,
            },
    {
        if data.len() < HEADER_LEN {
            return Err(EntryError::UnexpectedEof);
        }
        let expected = read_u32_le(data, 0);
        let kl = read_u32_le(data, 4) as usize;
        let vl = read_u32_le(data, 8) as usize;
        if data.len() - HEADER_LEN < kl || data.len() - HEADER_LEN - kl < vl {
            return Err(EntryError::UnexpectedEof);
        }
        let end = HEADER_LEN + kl + vl;
        let actual = crc32(slice_subrange(data, 4, end));
        if actual != expected {
            return Err(EntryError::BadChecksum);
        }
        let key = slice_to_vec(slice_subrange(data, HEADER_LEN, HEADER_LEN + kl));
        let val = slice_to_vec(slice_subrange(data, HEADER_LEN + kl, end));
        Ok((Entry { key, val, deleted: data[12] != 0 }, end))
    }
}

} // verus!
