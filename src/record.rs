//! Records: the payload of a leaf cell, a header of column type codes followed by
//! a body of column values.
use vstd::prelude::*;

use crate::bytes::{be_int, be_uint, lemma_be_uint_bound, lemma_pow256_values, read_be_uint};
use vstd::slice::{slice_subrange, slice_to_vec};
use crate::error::DbError;
use crate::varint::{
    lemma_varint_in_prefix, lemma_varint_len_bounds, parse_varint, varint_fits, varint_len, varint_value,
};

verus! {

/// The type of one column of a record, as its type code announces it.
#[derive(Debug, Copy, Clone, PartialEq, Eq, Structural)]
pub enum ColumnType {
    Null,
    I8,
    I16,
    I24,
    I32,
    I48,
    I64,
    F64,
    Zero,
    One,
    /// A blob of the given number of bytes.
    Blob(u64),
    /// A string of the given number of bytes.
    String(u64),
    SQLiteReserved,
}

/// The column type that the type code `n` (read as an unsigned 64-bit value) announces.
pub open spec fn spec_column_type(n: i64) -> ColumnType {
    let u: int = if n < 0 {
        n + 0x1_0000_0000_0000_0000
    } else {
        n as int
    };
    if u == 0 {
        ColumnType::Null
    } else if u == 1 {
        ColumnType::I8
    } else if u == 2 {
        ColumnType::I16
    } else if u == 3 {
        ColumnType::I24
    } else if u == 4 {
        ColumnType::I32
    } else if u == 5 {
        ColumnType::I48
    } else if u == 6 {
        ColumnType::I64
    } else if u == 7 {
        ColumnType::F64
    } else if u == 8 {
        ColumnType::Zero
    } else if u == 9 {
        ColumnType::One
    } else if u == 10 || u == 11 {
        ColumnType::SQLiteReserved
    } else if u % 2 == 0 {
        ColumnType::Blob(((u - 12) / 2) as u64)
    } else {
        ColumnType::String(((u - 13) / 2) as u64)
    }
}

/// How many body bytes a value of type `t` takes.
pub open spec fn type_width(t: ColumnType) -> int {
    match t {
        ColumnType::I8 => 1,
        ColumnType::I16 => 2,
        ColumnType::I24 => 3,
        ColumnType::I32 => 4,
        ColumnType::I48 => 6,
        ColumnType::I64 => 8,
        ColumnType::F64 => 8,
        ColumnType::Blob(n) => n as int,
        ColumnType::String(n) => n as int,
        _ => 0,
    }
}

impl ColumnType {
    /// The column type that a type code announces.
    pub fn from_numeric(n: i64) -> (r: Self)
        ensures
            r == spec_column_type(n),
    {
        match n {
            0 => Self::Null,
            1 => Self::I8,
            2 => Self::I16,
            3 => Self::I24,
            4 => Self::I32,
            5 => Self::I48,
            6 => Self::I64,
            7 => Self::F64,
            8 => Self::Zero,
            9 => Self::One,
            10 | 11 => Self::SQLiteReserved,
            _ => {
                let u: u64 = if n < 0 {
                    ((n + i64::MAX + 1) as u64) + 0x8000_0000_0000_0000
                } else {
                    n as u64
                };
                if u % 2 == 0 {
                    Self::Blob((u - 12) / 2)
                } else {
                    Self::String((u - 13) / 2)
                }
            },
        }
    }

    /// How many body bytes a value of this type takes.
    pub fn width(&self) -> (r: u64)
        ensures
            r == type_width(*self),
    {
        match self {
            Self::I8 => 1,
            Self::I16 => 2,
            Self::I24 => 3,
            Self::I32 => 4,
            Self::I48 => 6,
            Self::I64 => 8,
            Self::F64 => 8,
            Self::Blob(n) => *n,
            Self::String(n) => *n,
            _ => 0,
        }
    }
}


/// A value a column of a record can have. `Blob` and `String` hold the value's
/// bytes (borrowed from the page, or owned); strings are not decoded. `F64` holds
/// the IEEE-754 bits of the float.
#[derive(Debug, Copy, Clone, PartialEq, Eq)]
pub enum Value<Blob> {
    Null,
    I8(i8),
    I16(i16),
    I24(i32),
    I32(i32),
    I48(i64),
    I64(i64),
    F64(u64),
    Zero,
    One,
    Blob(Blob),
    String(Blob),
    SQLiteReserved,
}

/// A value that owns its bytes.
pub type OwnedValue = Value<Vec<u8>>;

impl<B: View<V = Seq<u8>>> View for Value<B> {
    type V = Value<Seq<u8>>;

    open spec fn view(&self) -> Value<Seq<u8>> {
        match self {
            Value::Null => Value::Null,
            Value::I8(n) => Value::I8(*n),
            Value::I16(n) => Value::I16(*n),
            Value::I24(n) => Value::I24(*n),
            Value::I32(n) => Value::I32(*n),
            Value::I48(n) => Value::I48(*n),
            Value::I64(n) => Value::I64(*n),
            Value::F64(n) => Value::F64(*n),
            Value::Zero => Value::Zero,
            Value::One => Value::One,
            Value::Blob(b) => Value::Blob(b@),
            Value::String(b) => Value::String(b@),
            Value::SQLiteReserved => Value::SQLiteReserved,
        }
    }
}

/// The value of type `t` whose bytes start at `pos` in `s`. Integers are big-endian
/// two's complement of their declared width.
pub open spec fn spec_value(t: ColumnType, s: Seq<u8>, pos: int) -> Value<Seq<u8>> {
    match t {
        ColumnType::Null => Value::Null,
        ColumnType::I8 => Value::I8(be_int(s, pos, 1) as i8),
        ColumnType::I16 => Value::I16(be_int(s, pos, 2) as i16),
        ColumnType::I24 => Value::I24(be_int(s, pos, 3) as i32),
        ColumnType::I32 => Value::I32(be_int(s, pos, 4) as i32),
        ColumnType::I48 => Value::I48(be_int(s, pos, 6) as i64),
        ColumnType::I64 => Value::I64(be_int(s, pos, 8) as i64),
        ColumnType::F64 => Value::F64(be_uint(s, pos, 8) as u64),
        ColumnType::Zero => Value::Zero,
        ColumnType::One => Value::One,
        ColumnType::Blob(n) => Value::Blob(s.subrange(pos, pos + n)),
        ColumnType::String(n) => Value::String(s.subrange(pos, pos + n)),
        ColumnType::SQLiteReserved => Value::SQLiteReserved,
    }
}

/// The column type that describes a value.
pub open spec fn spec_value_type(v: Value<Seq<u8>>) -> ColumnType {
    match v {
        Value::Null => ColumnType::Null,
        Value::I8(_) => ColumnType::I8,
        Value::I16(_) => ColumnType::I16,
        Value::I24(_) => ColumnType::I24,
        Value::I32(_) => ColumnType::I32,
        Value::I48(_) => ColumnType::I48,
        Value::I64(_) => ColumnType::I64,
        Value::F64(_) => ColumnType::F64,
        Value::Zero => ColumnType::Zero,
        Value::One => ColumnType::One,
        Value::Blob(b) => ColumnType::Blob(b.len() as u64),
        Value::String(b) => ColumnType::String(b.len() as u64),
        Value::SQLiteReserved => ColumnType::SQLiteReserved,
    }
}

/// The integer a value holds, for the integer types and the constants 0 and 1.
pub open spec fn spec_value_integer(v: Value<Seq<u8>>) -> Option<i64> {
    match v {
        Value::I8(n) => Some(n as i64),
        Value::I16(n) => Some(n as i64),
        Value::I24(n) => Some(n as i64),
        Value::I32(n) => Some(n as i64),
        Value::I48(n) => Some(n),
        Value::I64(n) => Some(n),
        Value::Zero => Some(0),
        Value::One => Some(1),
        _ => None,
    }
}

/// Reads the big-endian two's-complement integer of `n` bytes at `pos`.
fn read_be_int(buffer: &[u8], pos: usize, n: usize) -> (r: i64)
    requires
        n == 1 || n == 2 || n == 3 || n == 4 || n == 6 || n == 8,
        pos + n <= buffer@.len(),
    ensures
        r == be_int(buffer@, pos as int, n as nat),
{
    let u = read_be_uint(buffer, pos, n);
    proof {
        lemma_be_uint_bound(buffer@, pos as int, n as nat);
        lemma_pow256_values();
    }
    if n == 8 {
        if u >= 0x8000_0000_0000_0000 {
            ((u - 0x8000_0000_0000_0000) as i64) + i64::MIN
        } else {
            u as i64
        }
    } else {
        let full: u64 = if n == 1 {
            0x100
        } else if n == 2 {
            0x1_0000
        } else if n == 3 {
            0x100_0000
        } else if n == 4 {
            0x1_0000_0000
        } else {
            0x1_0000_0000_0000
        };
        if u >= full / 2 {
            (u as i64) - (full as i64)
        } else {
            u as i64
        }
    }
}

impl<'a> Value<&'a [u8]> {
    /// Parses the value of type `ty` whose bytes start at `pos`; returns it with the
    /// position just after it. Blobs and strings borrow from `buffer`.
    pub fn parse_for_ty(ty: ColumnType, buffer: &'a [u8], pos: usize) -> (r: Result<
        (Self, usize),
        DbError,
    >)
        requires
            pos <= buffer@.len(),
        ensures
            match r {
                Ok((v, end)) => {
                    &&& pos + type_width(ty) <= buffer@.len()
                    &&& v@ == spec_value(ty, buffer@, pos as int)
                    &&& end == pos + type_width(ty)
                },
                Err(e) => pos + type_width(ty) > buffer@.len() && e == DbError::FormatTruncated,
            },
    {
        let width = ty.width();
        if width > (buffer.len() - pos) as u64 {
            return Err(DbError::FormatTruncated);
        }
        let end = pos + width as usize;
        let value = match ty {
            ColumnType::Null => Self::Null,
            ColumnType::I8 => Self::I8(read_be_int(buffer, pos, 1) as i8),
            ColumnType::I16 => Self::I16(read_be_int(buffer, pos, 2) as i16),
            ColumnType::I24 => Self::I24(read_be_int(buffer, pos, 3) as i32),
            ColumnType::I32 => Self::I32(read_be_int(buffer, pos, 4) as i32),
            ColumnType::I48 => Self::I48(read_be_int(buffer, pos, 6)),
            ColumnType::I64 => Self::I64(read_be_int(buffer, pos, 8)),
            ColumnType::F64 => Self::F64(read_be_uint(buffer, pos, 8)),
            ColumnType::Zero => Self::Zero,
            ColumnType::One => Self::One,
            ColumnType::Blob(_) => Self::Blob(slice_subrange(buffer, pos, end)),
            ColumnType::String(_) => Self::String(slice_subrange(buffer, pos, end)),
            ColumnType::SQLiteReserved => Self::SQLiteReserved,
        };
        Ok((value, end))
    }

    /// A copy of the value that owns its bytes.
    pub fn to_owned(&self) -> (r: OwnedValue)
        ensures
            r@ == self@,
    {
        match self {
            Self::Null => Value::Null,
            Self::I8(n) => Value::I8(*n),
            Self::I16(n) => Value::I16(*n),
            Self::I24(n) => Value::I24(*n),
            Self::I32(n) => Value::I32(*n),
            Self::I48(n) => Value::I48(*n),
            Self::I64(n) => Value::I64(*n),
            Self::F64(n) => Value::F64(*n),
            Self::Zero => Value::Zero,
            Self::One => Value::One,
            Self::Blob(blob) => Value::Blob(slice_to_vec(blob)),
            Self::String(blob) => Value::String(slice_to_vec(blob)),
            Self::SQLiteReserved => Value::SQLiteReserved,
        }
    }

    /// The column type that describes this value.
    pub fn ty(&self) -> (r: ColumnType)
        ensures
            r == spec_value_type(self@),
    {
        match self {
            Self::Null => ColumnType::Null,
            Self::I8(_) => ColumnType::I8,
            Self::I16(_) => ColumnType::I16,
            Self::I24(_) => ColumnType::I24,
            Self::I32(_) => ColumnType::I32,
            Self::I48(_) => ColumnType::I48,
            Self::I64(_) => ColumnType::I64,
            Self::F64(_) => ColumnType::F64,
            Self::Zero => ColumnType::Zero,
            Self::One => ColumnType::One,
            Self::Blob(blob) => ColumnType::Blob(blob.len() as u64),
            Self::String(blob) => ColumnType::String(blob.len() as u64),
            Self::SQLiteReserved => ColumnType::SQLiteReserved,
        }
    }
}

impl Value<Vec<u8>> {
    /// The integer this value holds, for the integer types and the constants 0 and 1.
    pub fn as_integer(&self) -> (r: Option<i64>)
        ensures
            r == spec_value_integer(self@),
    {
        match self {
            Self::I8(n) => Some(*n as i64),
            Self::I16(n) => Some(*n as i64),
            Self::I24(n) => Some(*n as i64),
            Self::I32(n) => Some(*n as i64),
            Self::I48(n) => Some(*n),
            Self::I64(n) => Some(*n),
            Self::Zero => Some(0),
            Self::One => Some(1),
            _ => None,
        }
    }
}


/// The type codes of the header region `h` from `pos` to its end, or `None` when a
/// code runs past the end of the header.
pub open spec fn header_codes(h: Seq<u8>, pos: int) -> Option<Seq<i64>>
    decreases h.len() - pos,
{
    if pos < 0 || pos >= h.len() {
        Some(Seq::empty())
    } else if !varint_fits(h, pos) {
        None
    } else {
        proof {
            lemma_varint_len_bounds(h, pos);
        }
        match header_codes(h, pos + varint_len(h, pos)) {
            Some(rest) => Some(seq![varint_value(h, pos) as i64] + rest),
            None => None,
        }
    }
}

/// The column types that the codes announce.
pub open spec fn column_types(codes: Seq<i64>) -> Seq<ColumnType> {
    codes.map_values(|c: i64| spec_column_type(c))
}

/// Where the value of column `i` starts in the body: the widths of the columns
/// before it, added up.
pub open spec fn schedule_offset(types: Seq<ColumnType>, i: int) -> int
    decreases i,
{
    if i <= 0 {
        0
    } else {
        schedule_offset(types, i - 1) + type_width(types[i - 1])
    }
}

/// The number of body bytes that a record of these column types occupies.
pub open spec fn schedule_width(types: Seq<ColumnType>) -> int {
    schedule_offset(types, types.len() as int)
}

/// The column types of the record whose header region (header-length varint
/// included) is `h`.
pub open spec fn record_types(h: Seq<u8>) -> Seq<ColumnType> {
    column_types(header_codes(h, varint_len(h, 0) as int).unwrap())
}

/// A record's header lists whole type codes, and its body holds exactly the values
/// they announce.
pub open spec fn record_wf(h: Seq<u8>, b: Seq<u8>) -> bool {
    &&& varint_fits(h, 0)
    &&& header_codes(h, varint_len(h, 0) as int) is Some
    &&& schedule_width(record_types(h)) == b.len()
}

/// The values of the record with header region `h` and body `b`, in column order.
pub open spec fn record_values(h: Seq<u8>, b: Seq<u8>) -> Seq<Value<Seq<u8>>> {
    let types = record_types(h);
    Seq::new(types.len(), |i: int| spec_value(types[i], b, schedule_offset(types, i)))
}

/// Splits a payload into its header region and its body: the header length is
/// the varint at the start, which counts itself. The header must list whole type
/// codes, and the body must hold exactly the values they announce: a shorter body
/// is truncated, a longer one disagrees with its header.
pub open spec fn spec_parse_record(p: Seq<u8>) -> Result<(Seq<u8>, Seq<u8>), DbError> {
    if !varint_fits(p, 0) {
        Err(DbError::FormatTruncated)
    } else {
        let hl = varint_value(p, 0) as i64;
        if hl < varint_len(p, 0) {
            Err(DbError::FormatRecord)
        } else if hl > p.len() {
            Err(DbError::FormatTruncated)
        } else {
            let h = p.subrange(0, hl as int);
            let b = p.subrange(hl as int, p.len() as int);
            match header_codes(h, varint_len(p, 0) as int) {
                None => Err(DbError::FormatTruncated),
                Some(codes) => {
                    let w = schedule_width(column_types(codes));
                    if w > b.len() {
                        Err(DbError::FormatTruncated)
                    } else if w < b.len() {
                        Err(DbError::FormatRecord)
                    } else {
                        Ok((h, b))
                    }
                },
            }
        }
    }
}

proof fn lemma_schedule_prefix(types: Seq<ColumnType>, more: Seq<ColumnType>, i: int)
    requires
        0 <= i <= types.len(),
    ensures
        schedule_offset(types + more, i) == schedule_offset(types, i),
    decreases i,
{
    if i > 0 {
        lemma_schedule_prefix(types, more, i - 1);
        assert((types + more)[i - 1] == types[i - 1]);
    }
}

proof fn lemma_schedule_mono(types: Seq<ColumnType>, i: int, j: int)
    requires
        0 <= i <= j <= types.len(),
    ensures
        schedule_offset(types, i) <= schedule_offset(types, j),
    decreases j,
{
    if i < j {
        lemma_schedule_mono(types, i, j - 1);
        let t = types[j - 1];
        assert(type_width(t) >= 0);
    }
}

/// Of every record: it has as many values as column types, and the widths of the
/// column types add up to exactly the payload bytes after the header.
pub proof fn lemma_record_schedule(p: Seq<u8>)
    requires
        spec_parse_record(p) is Ok,
    ensures
        ({
            let (h, b) = spec_parse_record(p).unwrap();
            &&& h.len() == varint_value(p, 0) as i64
            &&& record_wf(h, b)
            &&& record_values(h, b).len() == record_types(h).len()
            &&& schedule_width(record_types(h)) == p.len() - varint_value(p, 0) as i64
        }),
{
    let hl = varint_value(p, 0) as i64;
    lemma_varint_len_bounds(p, 0);
    lemma_varint_in_prefix(p, hl as int, 0);
}

/// A record: a header of column type codes followed by a body of values.
#[derive(Copy, Clone)]
pub struct Record<'a> {
    /// The header region, header-length varint included.
    header: &'a [u8],
    /// The body, holding the raw values.
    body: &'a [u8],
}

impl<'a> View for Record<'a> {
    type V = (Seq<u8>, Seq<u8>);

    closed spec fn view(&self) -> (Seq<u8>, Seq<u8>) {
        (self.header@, self.body@)
    }
}

impl<'a> Record<'a> {
    #[verifier::type_invariant]
    closed spec fn inv(&self) -> bool {
        record_wf(self.header@, self.body@)
    }

    /// Parses a leaf cell's payload as a record.
    pub fn parse(payload: &'a [u8]) -> (r: Result<Self, DbError>)
        ensures
            match r {
                Ok(rec) => spec_parse_record(payload@) == Ok::<_, DbError>(rec@) && record_wf(
                    rec@.0,
                    rec@.1,
                ),
                Err(e) => spec_parse_record(payload@) == Err::<(Seq<u8>, Seq<u8>), _>(e),
            },
    {
        let (header_len, start) = match parse_varint(payload, 0) {
            Ok(x) => x,
            Err(e) => return Err(e),
        };
        proof {
            lemma_varint_len_bounds(payload@, 0);
        }
        if header_len < start as i64 {
            return Err(DbError::FormatRecord);
        }
        if header_len as u64 > payload.len() as u64 {
            return Err(DbError::FormatTruncated);
        }
        let hl = header_len as usize;
        let header = slice_subrange(payload, 0, hl);
        let body = slice_subrange(payload, hl, payload.len());
        proof {
            lemma_varint_in_prefix(payload@, hl as int, 0);
        }
        let ghost whole = header_codes(header@, start as int);
        let ghost mut seen: Seq<i64> = Seq::empty();
        let mut pos = start;
        let mut width: usize = 0;
        while pos < hl
            invariant
                varint_fits(payload@, 0),
                header_len == varint_value(payload@, 0) as i64,
                start == varint_len(payload@, 0),
                start <= header_len <= payload@.len(),
                hl == header_len,
                header@ == payload@.subrange(0, hl as int),
                body@ == payload@.subrange(hl as int, payload@.len() as int),
                header@.len() == hl,
                body@.len() + hl == payload@.len(),
                start <= pos <= hl,
                whole == header_codes(header@, start as int),
                whole == match header_codes(header@, pos as int) {
                    Some(rest) => Some(seen + rest),
                    None => None::<Seq<i64>>,
                },
                width == schedule_width(column_types(seen)),
                width <= body@.len(),
            decreases hl - pos,
        {
            let (code, next) = match parse_varint(header, pos) {
            Ok(x) => x,
            Err(e) => {
                assert(header_codes(header@, pos as int) is None);
                return Err(e);
            },
        };
        let w = ColumnType::from_numeric(code).width();
        let ghost seen2 = seen.push(code);
        let ghost rest = header_codes(header@, next as int);
        proof {
            lemma_varint_len_bounds(header@, pos as int);
            let ts = column_types(seen);
            let ts2 = column_types(seen2);
            assert(ts2 == ts + seq![spec_column_type(code)]);
            lemma_schedule_prefix(ts, seq![spec_column_type(code)], seen.len() as int);
            assert(schedule_width(ts2) == width + w);
            if rest is Some {
                assert(header_codes(header@, pos as int) == Some(seq![code] + rest.unwrap()));
                assert(seen + (seq![code] + rest.unwrap()) == seen2 + rest.unwrap());
            }
        }
        if w > (body.len() - width) as u64 {
            proof {
                if let Some(all) = whole {
                    let r = rest.unwrap();
                    assert(all == seen2 + r);
                    assert(column_types(all) == column_types(seen2) + column_types(r));
                    lemma_schedule_prefix(column_types(seen2), column_types(r), seen2.len() as int);
                    lemma_schedule_mono(column_types(all), seen2.len() as int, all.len() as int);
                }
            }
            return Err(DbError::FormatTruncated);
        }
        width = width + w as usize;
        pos = next;
        proof {
            seen = seen2;
        }
    }
        if width < body.len() {
            return Err(DbError::FormatRecord);
        }
        proof {
            assert(seen + Seq::<i64>::empty() == seen);
        }
        Ok(Record { header, body })
    }
}

/// The column types listed in a header region whose codes are all whole.
fn header_types(header: &[u8]) -> (r: Vec<ColumnType>)
    requires
        varint_fits(header@, 0),
        header_codes(header@, varint_len(header@, 0) as int) is Some,
    ensures
        r@ == record_types(header@),
{
    let mut types: Vec<ColumnType> = Vec::new();
    let start = match parse_varint(header, 0) {
        Ok((_, start)) => start,
        Err(_) => return types,
    };
    let ghost whole = header_codes(header@, start as int).unwrap();
    let ghost mut seen: Seq<i64> = Seq::empty();
    let mut pos = start;
    while pos < header.len()
        invariant
            start == varint_len(header@, 0),
            start <= pos <= header@.len(),
            header_codes(header@, start as int) == Some(whole),
            header_codes(header@, pos as int) is Some,
            whole == seen + header_codes(header@, pos as int).unwrap(),
            types@ == column_types(seen),
        decreases header@.len() - pos,
    {
        let (code, next) = match parse_varint(header, pos) {
            Ok(x) => x,
            Err(_) => return types,
        };
        proof {
            lemma_varint_len_bounds(header@, pos as int);
            let rest = header_codes(header@, next as int).unwrap();
            assert(header_codes(header@, pos as int).unwrap() == seq![code] + rest);
            assert(seen + (seq![code] + rest) == seen.push(code) + rest);
            assert(column_types(seen.push(code)) == column_types(seen).push(
                spec_column_type(code),
            ));
            seen = seen.push(code);
        }
        types.push(ColumnType::from_numeric(code));
        pos = next;
    }
    proof {
        assert(seen + Seq::<i64>::empty() == seen);
    }
    types
}

impl<'a> Record<'a> {
    /// The column types of the record, in column order.
    pub fn type_iter(&self) -> (r: Vec<ColumnType>)
        ensures
            r@ == record_types(self@.0),
    {
        proof {
            use_type_invariant(self);
        }
        header_types(self.header)
    }

    /// The values of the record, in column order. Blobs and strings borrow from
    /// the record's bytes.
    pub fn value_iter(&self) -> (r: Vec<Value<&'a [u8]>>)
        ensures
            r@.len() == record_types(self@.0).len(),
            forall|i: int|
                0 <= i < r@.len() ==> (#[trigger] r@[i])@ == record_values(self@.0, self@.1)[i],
    {
        proof {
            use_type_invariant(self);
        }
        let types = header_types(self.header);
        let mut values: Vec<Value<&'a [u8]>> = Vec::new();
        let mut offset: usize = 0;
        let mut i: usize = 0;
        while i < types.len()
            invariant
                types@ == record_types(self.header@),
                schedule_width(types@) == self.body@.len(),
                i <= types@.len(),
                offset == schedule_offset(types@, i as int),
                values@.len() == i,
                forall|j: int|
                    0 <= j < i ==> (#[trigger] values@[j])@ == record_values(
                        self.header@,
                        self.body@,
                    )[j],
            decreases types@.len() - i,
        {
            proof {
                lemma_schedule_mono(types@, i + 1, types@.len() as int);
                lemma_schedule_mono(types@, 0, i as int);
            }
            let (value, end) = match Value::parse_for_ty(types[i], self.body, offset) {
                Ok(x) => x,
                Err(_) => return values,
            };
            values.push(value);
            offset = end;
            i = i + 1;
        }
        values
    }
}

} // verus!
