//! The cell codec: one typed scalar, written as a tag byte and a payload.
use crate::bytes::{i64_le, le_i64, le_u32, push_i64_le, push_u32_le, read_i64_le, read_u32_le, u32_le};
use vstd::prelude::*;
use vstd::slice::{slice_subrange, slice_to_vec};

verus! {

/// Tag byte of a signed 64-bit integer cell.
pub const TYPE_I64: u8 = 1;

/// Tag byte of a byte-string cell.
pub const TYPE_STR: u8 = 2;

/// A typed scalar: a signed 64-bit integer or a byte string.
#[derive(Debug, Clone, PartialEq)]
pub enum CellType {
    I64(i64),
    Str(Vec<u8>),
}

/// Why a cell could not be decoded.
#[derive(Debug, PartialEq, Eq, Structural)]
pub enum DecodeError {
    /// Fewer bytes remain than the tag or the payload needs.
    UnexpectedEOF,
    /// The tag byte names no cell type.
    UnknownType(u8),
}

/// What a cell holds, as a mathematical value.
pub enum CellValue {
    I64(i64),
    Str(Seq<u8>),
}

impl View for CellType {
    type V = CellValue;

    open spec fn view(&self) -> CellValue {
        match self {
            CellType::I64(v) => CellValue::I64(*v),
            CellType::Str(s) => CellValue::Str(s@),
        }
    }
}

/// Whether the wire format can hold `c`: a string's length must fit its 32-bit prefix.
pub open spec fn cell_encodable(c: CellValue) -> bool {
    match c {
        CellValue::I64(_) => true,
        CellValue::Str(s) => s.len() <= u32::MAX,
    }
}

/// Whether two cells are of the same variant, whatever they hold.
pub open spec fn same_variant(a: CellValue, b: CellValue) -> bool {
    match (a, b) {
        (CellValue::I64(_), CellValue::I64(_)) => true,
        (CellValue::Str(_), CellValue::Str(_)) => true,
        _ => false,
    }
}

/// The wire form of a cell: its tag, then an 8-byte integer or a 4-byte length and the bytes.
pub open spec fn cell_bytes(c: CellValue) -> Seq<u8> {
    match c {
        CellValue::I64(v) => seq![TYPE_I64] + i64_le(v),
        CellValue::Str(s) => seq![TYPE_STR] + u32_le(s.len() as u32) + s,
    }
}

/// The cell at the front of `s` and the number of bytes it takes, or why there is none.
pub open spec fn parse_cell(s: Seq<u8>) -> Result<(CellValue, nat), DecodeError> {
    if s.len() < 1 {
        Err(DecodeError::UnexpectedEOF)
    } else if s[0] == TYPE_I64 {
        if s.len() < 9 {
            Err(DecodeError::UnexpectedEOF)
        } else {
            Ok((CellValue::I64(le_i64(s.subrange(1, 9))), 9))
        }
    } else if s[0] == TYPE_STR {
        if s.len() < 5 {
            Err(DecodeError::UnexpectedEOF)
        } else {
            let n = le_u32(s.subrange(1, 5)) as nat;
            if s.len() < 5 + n {
                Err(DecodeError::UnexpectedEOF)
            } else {
                Ok((CellValue::Str(s.subrange(5, 5 + n as int)), 5 + n))
            }
        }
    } else {
        Err(DecodeError::UnknownType(s[0]))
    }
}

/// Decoding what a cell encodes to, followed by anything, gives the cell back
/// and consumes exactly its bytes.
pub proof fn lemma_cell_round_trip(c: CellValue, rest: Seq<u8>)
    requires
        cell_encodable(c),
    ensures
        parse_cell(cell_bytes(c) + rest) == Ok::<(CellValue, nat), DecodeError>(
            (c, cell_bytes(c).len()),
        ),
{
    let s = cell_bytes(c) + rest;
    match c {
        CellValue::I64(v) => {
            crate::bytes::lemma_i64_round_trip(v);
            assert(s.subrange(1, 9) =~= i64_le(v));
        },
        CellValue::Str(b) => {
            crate::bytes::lemma_u32_round_trip(b.len() as u32);
            assert(s.subrange(1, 5) =~= u32_le(b.len() as u32));
            assert(s.subrange(5, 5 + b.len() as int) =~= b);
        },
    }
}

/// A cell's wire form cut short anywhere fails to decode with an unexpected
/// end of input; a tag that names no type fails with that tag.
pub proof fn law_cell_decode_failures(c: CellValue, cut: nat, s: Seq<u8>)
    requires
        cell_encodable(c),
    ensures
        cut < cell_bytes(c).len() ==> parse_cell(cell_bytes(c).take(cut as int)) == Err::<
            (CellValue, nat),
            DecodeError,
        >(DecodeError::UnexpectedEOF),
        s.len() > 0 && s[0] != TYPE_I64 && s[0] != TYPE_STR ==> parse_cell(s) == Err::<
            (CellValue, nat),
            DecodeError,
        >(DecodeError::UnknownType(s[0])),
{
    let b = cell_bytes(c);
    if cut < b.len() {
        let t = b.take(cut as int);
        match c {
            CellValue::I64(v) => {},
            CellValue::Str(x) => {
                if cut >= 5 {
                    crate::bytes::lemma_u32_round_trip(x.len() as u32);
                    assert(t.subrange(1, 5) =~= u32_le(x.len() as u32));
                }
            },
        }
    }
}

impl CellType {
    /// Appends the wire form of this cell to `out`.
    pub fn encode(&self, out: &mut Vec<u8>)
        requires
            cell_encodable(self@),
        ensures
            final(out)@ == old(out)@ + cell_bytes(self@),
    {
        match self {
            CellType::I64(v) => {
                out.push(TYPE_I64);
                push_i64_le(out, *v);
            },
            CellType::Str(s) => {
                out.push(TYPE_STR);
                push_u32_le(out, s.len() as u32);
                out.extend_from_slice(s.as_slice());
            },
        }
        assert(out@ =~= old(out)@ + cell_bytes(self@));
    }

    /// Decodes the cell at the front of `data`; returns it with the bytes after it.
    pub fn decode(data: &[u8]) -> (r: Result<(CellType, &[u8]), DecodeError>)
        ensures
            match (r, parse_cell(data@)) {
                (Ok((c, rest)), Ok((v, n))) => c@ == v && rest@ == data@.skip(n as int),
                (Err(e), Err(f)) => e == f,
                _ => false,
            },
    {
        if data.len() < 1 {
            return Err(DecodeError::UnexpectedEOF);
        }
        let tag = data[0];
        if tag == TYPE_I64 {
            if data.len() < 9 {
                return Err(DecodeError::UnexpectedEOF);
            }
            let v = read_i64_le(data, 1);
            Ok((CellType::I64(v), slice_subrange(data, 9, data.len())))
        } else if tag == TYPE_STR {
            if data.len() < 5 {
                return Err(DecodeError::UnexpectedEOF);
            }
            let n = read_u32_le(data, 1) as usize;
            if data.len() - 5 < n {
                return Err(DecodeError::UnexpectedEOF);
            }
            let s = slice_to_vec(slice_subrange(data, 5, 5 + n));
            Ok((CellType::Str(s), slice_subrange(data, 5 + n, data.len())))
        } else {
            Err(DecodeError::UnknownType(tag))
        }
    }

    /// Whether `self` and `other` are of the same variant, ignoring what they hold.
    pub fn same_type(&self, other: &CellType) -> (r: bool)
        ensures
            r == same_variant(self@, other@),
    {
        match (self, other) {
            (CellType::I64(_), CellType::I64(_)) => true,
            (CellType::Str(_), CellType::Str(_)) => true,
            _ => false,
        }
    }
}

} // verus!
