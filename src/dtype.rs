//! Column data types, typed column values, and the decoder from raw column
//! bytes to typed values.
use vstd::prelude::*;
use vstd::bytes::{spec_u32_from_le_bytes, spec_u64_from_le_bytes, u32_from_le_bytes, u64_from_le_bytes};
use vstd::string::StringSliceAdditionalSpecFns;
use vstd::utf8::valid_utf8;

verus! {

/// The type of a column.
#[derive(Debug, Clone, Copy, PartialEq, Eq, Structural)]
pub enum DataType {
    /// Four bytes, little-endian.
    U32,
    /// Eight bytes, little-endian IEEE-754 binary64.
    F64,
    /// Between 0 and `max_bytes` bytes of valid UTF-8.
    UTF8 { max_bytes: usize },
    /// Between 0 and `max_length` opaque bytes.
    VARBINARY { max_length: usize },
    /// Exactly `length` opaque bytes.
    BUFFER { length: usize },
}

impl DataType {
    pub open spec fn min_len(self) -> nat {
        match self {
            DataType::U32 => 4,
            DataType::F64 => 8,
            DataType::UTF8 { .. } => 0,
            DataType::VARBINARY { .. } => 0,
            DataType::BUFFER { length } => length as nat,
        }
    }

    pub open spec fn max_len(self) -> nat {
        match self {
            DataType::U32 => 4,
            DataType::F64 => 8,
            DataType::UTF8 { max_bytes } => max_bytes as nat,
            DataType::VARBINARY { max_length } => max_length as nat,
            DataType::BUFFER { length } => length as nat,
        }
    }

    /// Smallest encoded size of a value of this type.
    pub fn min_size(&self) -> (r: usize)
        ensures
            r == self.min_len(),
    {
        match self {
            DataType::U32 => 4,
            DataType::F64 => 8,
            DataType::UTF8 { .. } => 0,
            DataType::VARBINARY { .. } => 0,
            DataType::BUFFER { length } => *length,
        }
    }

    /// Largest encoded size of a value of this type.
    pub fn max_size(&self) -> (r: usize)
        ensures
            r == self.max_len(),
    {
        match self {
            DataType::U32 => 4,
            DataType::F64 => 8,
            DataType::UTF8 { max_bytes } => *max_bytes,
            DataType::VARBINARY { max_length } => *max_length,
            DataType::BUFFER { length } => *length,
        }
    }
}

/// Failure to decode bytes or to compare two values.
#[derive(Debug, PartialEq)]
pub enum TypeError {
    ConversionError,
    /// The operation's name and the types of its two operands.
    InvalidArgType(String, DataType, DataType),
}

/// A typed value. Text and bytes borrow the buffer they were decoded from.
/// `F64` holds the IEEE-754 bit pattern of the number (`f64::to_bits`).
#[derive(Debug, Clone, Copy)]
pub enum ColumnValue<'a> {
    U32(u32),
    F64(u64),
    UTF8(&'a str),
    Bytes(&'a [u8]),
}

/// What a `ColumnValue` denotes: text is given by its UTF-8 bytes.
pub ghost enum Val {
    U32(u32),
    F64(u64),
    Utf8(Seq<u8>),
    Bytes(Seq<u8>),
}

impl<'a> ColumnValue<'a> {
    pub open spec fn view(self) -> Val {
        match self {
            ColumnValue::U32(x) => Val::U32(x),
            ColumnValue::F64(x) => Val::F64(x),
            ColumnValue::UTF8(s) => Val::Utf8(s.spec_bytes()),
            ColumnValue::Bytes(b) => Val::Bytes(b@),
        }
    }
}


/// The six comparison operators of the predicate language.
#[derive(Debug, Clone, Copy, PartialEq, Eq, Structural)]
pub enum CmpOp {
    Eq,
    Neq,
    Gt,
    Gte,
    Lt,
    Lte,
}

/// Name under which an operator is reported in a type error.
pub open spec fn op_name(op: CmpOp) -> Seq<char> {
    match op {
        CmpOp::Eq => "eq"@,
        CmpOp::Neq => "ne"@,
        CmpOp::Gt => "gt"@,
        CmpOp::Gte => "gte"@,
        CmpOp::Lt => "lt"@,
        CmpOp::Lte => "lte"@,
    }
}

/// The type reported for a value in a type error: text and bytes carry their length.
pub open spec fn type_of(v: Val) -> DataType {
    match v {
        Val::U32(_) => DataType::U32,
        Val::F64(_) => DataType::F64,
        Val::Utf8(b) => DataType::UTF8 { max_bytes: b.len() as usize },
        Val::Bytes(b) => DataType::BUFFER { length: b.len() as usize },
    }
}

pub open spec fn f64_magnitude(bits: u64) -> u64 {
    bits & 0x7fff_ffff_ffff_ffffu64
}

/// The bit pattern encodes a NaN: all exponent bits set and a non-zero fraction.
pub open spec fn f64_is_nan(bits: u64) -> bool {
    f64_magnitude(bits) > 0x7ff0_0000_0000_0000u64
}

/// Position of a non-NaN binary64 value on the number line: IEEE-754 orders
/// such values by sign and magnitude, and both zeros share position 0.
pub open spec fn f64_rank(bits: u64) -> int {
    if bits >= 0x8000_0000_0000_0000u64 {
        -(f64_magnitude(bits) as int)
    } else {
        f64_magnitude(bits) as int
    }
}

/// IEEE-754 equality: false whenever either side is NaN.
pub open spec fn f64_eq(a: u64, b: u64) -> bool {
    !f64_is_nan(a) && !f64_is_nan(b) && f64_rank(a) == f64_rank(b)
}

/// IEEE-754 less-than: false whenever either side is NaN.
pub open spec fn f64_lt(a: u64, b: u64) -> bool {
    !f64_is_nan(a) && !f64_is_nan(b) && f64_rank(a) < f64_rank(b)
}

/// Result of `op` on two values, or `None` when the operator is not defined
/// for the pair (different variants, or an ordering on text or bytes).
pub open spec fn compare(op: CmpOp, l: Val, r: Val) -> Option<bool> {
    match (l, r) {
        (Val::U32(x), Val::U32(y)) => Some(
            match op {
                CmpOp::Eq => x == y,
                CmpOp::Neq => x != y,
                CmpOp::Gt => x > y,
                CmpOp::Gte => x >= y,
                CmpOp::Lt => x < y,
                CmpOp::Lte => x <= y,
            },
        ),
        (Val::F64(x), Val::F64(y)) => Some(
            match op {
                CmpOp::Eq => f64_eq(x, y),
                CmpOp::Neq => !f64_eq(x, y),
                CmpOp::Gt => f64_lt(y, x),
                CmpOp::Gte => f64_lt(y, x) || f64_eq(x, y),
                CmpOp::Lt => f64_lt(x, y),
                CmpOp::Lte => f64_lt(x, y) || f64_eq(x, y),
            },
        ),
        (Val::Utf8(x), Val::Utf8(y)) => match op {
            CmpOp::Eq => Some(x == y),
            CmpOp::Neq => Some(x != y),
            _ => None,
        },
        (Val::Bytes(x), Val::Bytes(y)) => match op {
            CmpOp::Eq => Some(x == y),
            CmpOp::Neq => Some(x != y),
            _ => None,
        },
        _ => None,
    }
}

/// The two values are of different variants.
pub open spec fn different_variants(l: Val, r: Val) -> bool {
    match (l, r) {
        (Val::U32(_), Val::U32(_)) => false,
        (Val::F64(_), Val::F64(_)) => false,
        (Val::Utf8(_), Val::Utf8(_)) => false,
        (Val::Bytes(_), Val::Bytes(_)) => false,
        _ => true,
    }
}

/// No operator is defined on values of different variants: comparing them
/// is a type mismatch.
pub proof fn lemma_cross_variant_mismatch(op: CmpOp, l: Val, r: Val)
    requires
        different_variants(l, r),
    ensures
        compare(op, l, r).is_none(),
{
}

/// `r` is what applying `op` to `l` and `r_val` returns.
pub open spec fn compare_result(op: CmpOp, l: Val, r_val: Val, r: Result<bool, TypeError>) -> bool {
    match compare(op, l, r_val) {
        Some(b) => r == Ok::<bool, TypeError>(b),
        None => match r {
            Err(TypeError::InvalidArgType(name, lt, rt)) => name@ == op_name(op) && lt == type_of(l)
                && rt == type_of(r_val),
            _ => false,
        },
    }
}

fn f64_equal(a: u64, b: u64) -> (r: bool)
    ensures
        r == f64_eq(a, b),
{
    let ma = a & 0x7fff_ffff_ffff_ffffu64;
    let mb = b & 0x7fff_ffff_ffff_ffffu64;
    if ma > 0x7ff0_0000_0000_0000u64 || mb > 0x7ff0_0000_0000_0000u64 {
        false
    } else if (a >= 0x8000_0000_0000_0000u64) == (b >= 0x8000_0000_0000_0000u64) {
        ma == mb
    } else {
        ma == 0 && mb == 0
    }
}

fn f64_less(a: u64, b: u64) -> (r: bool)
    ensures
        r == f64_lt(a, b),
{
    let ma = a & 0x7fff_ffff_ffff_ffffu64;
    let mb = b & 0x7fff_ffff_ffff_ffffu64;
    let na = a >= 0x8000_0000_0000_0000u64;
    let nb = b >= 0x8000_0000_0000_0000u64;
    if ma > 0x7ff0_0000_0000_0000u64 || mb > 0x7ff0_0000_0000_0000u64 {
        false
    } else if !na && !nb {
        ma < mb
    } else if na && nb {
        mb < ma
    } else if na {
        ma > 0 || mb > 0
    } else {
        false
    }
}

/// Byte-wise equality of two slices.
pub fn bytes_equal(a: &[u8], b: &[u8]) -> (r: bool)
    ensures
        r == (a@ == b@),
{
    if a.len() != b.len() {
        return false;
    }
    let mut i: usize = 0;
    while i < a.len()
        invariant
            a@.len() == b@.len(),
            i <= a@.len(),
            a@.subrange(0, i as int) == b@.subrange(0, i as int),
        decreases a@.len() - i,
    {
        if a[i] != b[i] {
            assert(a@[i as int] != b@[i as int]);
            return false;
        }
        assert(a@.subrange(0, i + 1) == a@.subrange(0, i as int).push(a@[i as int]));
        assert(b@.subrange(0, i + 1) == b@.subrange(0, i as int).push(b@[i as int]));
        i = i + 1;
    }
    assert(a@.subrange(0, i as int) == a@);
    assert(b@.subrange(0, i as int) == b@);
    true
}

fn value_type(v: &ColumnValue) -> (r: DataType)
    ensures
        r == type_of(v@),
{
    match v {
        ColumnValue::U32(_) => DataType::U32,
        ColumnValue::F64(_) => DataType::F64,
        ColumnValue::UTF8(s) => DataType::UTF8 { max_bytes: s.as_bytes().len() },
        ColumnValue::Bytes(b) => DataType::BUFFER { length: b.len() },
    }
}

fn op_label(op: CmpOp) -> (r: String)
    ensures
        r@ == op_name(op),
{
    match op {
        CmpOp::Eq => "eq".to_owned(),
        CmpOp::Neq => "ne".to_owned(),
        CmpOp::Gt => "gt".to_owned(),
        CmpOp::Gte => "gte".to_owned(),
        CmpOp::Lt => "lt".to_owned(),
        CmpOp::Lte => "lte".to_owned(),
    }
}

impl<'cmp> ColumnValue<'cmp> {
    /// Applies `op` to `self` and `other`; a pair for which `op` is not
    /// defined fails with the operator's name and both operand types.
    pub fn compare(&self, other: &Self, op: CmpOp) -> (r: Result<bool, TypeError>)
        ensures
            compare_result(op, self@, other@, r),
    {
        let res = match (self, other) {
            (ColumnValue::U32(l), ColumnValue::U32(r)) => match op {
                CmpOp::Eq => *l == *r,
                CmpOp::Neq => *l != *r,
                CmpOp::Gt => *l > *r,
                CmpOp::Gte => *l >= *r,
                CmpOp::Lt => *l < *r,
                CmpOp::Lte => *l <= *r,
            },
            (ColumnValue::F64(l), ColumnValue::F64(r)) => match op {
                CmpOp::Eq => f64_equal(*l, *r),
                CmpOp::Neq => !f64_equal(*l, *r),
                CmpOp::Gt => f64_less(*r, *l),
                CmpOp::Gte => f64_less(*r, *l) || f64_equal(*l, *r),
                CmpOp::Lt => f64_less(*l, *r),
                CmpOp::Lte => f64_less(*l, *r) || f64_equal(*l, *r),
            },
            (ColumnValue::UTF8(l), ColumnValue::UTF8(r)) => match op {
                CmpOp::Eq => bytes_equal(l.as_bytes(), r.as_bytes()),
                CmpOp::Neq => !bytes_equal(l.as_bytes(), r.as_bytes()),
                _ => {
                    return Err(TypeError::InvalidArgType(op_label(op), value_type(self), value_type(other)));
                },
            },
            (ColumnValue::Bytes(l), ColumnValue::Bytes(r)) => match op {
                CmpOp::Eq => bytes_equal(l, r),
                CmpOp::Neq => !bytes_equal(l, r),
                _ => {
                    return Err(TypeError::InvalidArgType(op_label(op), value_type(self), value_type(other)));
                },
            },
            _ => {
                return Err(TypeError::InvalidArgType(op_label(op), value_type(self), value_type(other)));
            },
        };
        Ok(res)
    }

    pub fn eq(&self, other: &Self) -> (r: Result<bool, TypeError>)
        ensures
            compare_result(CmpOp::Eq, self@, other@, r),
    {
        self.compare(other, CmpOp::Eq)
    }

    pub fn neq(&self, other: &Self) -> (r: Result<bool, TypeError>)
        ensures
            compare_result(CmpOp::Neq, self@, other@, r),
    {
        self.compare(other, CmpOp::Neq)
    }

    pub fn gt(&self, other: &Self) -> (r: Result<bool, TypeError>)
        ensures
            compare_result(CmpOp::Gt, self@, other@, r),
    {
        self.compare(other, CmpOp::Gt)
    }

    pub fn gte(&self, other: &Self) -> (r: Result<bool, TypeError>)
        ensures
            compare_result(CmpOp::Gte, self@, other@, r),
    {
        self.compare(other, CmpOp::Gte)
    }

    pub fn lt(&self, other: &Self) -> (r: Result<bool, TypeError>)
        ensures
            compare_result(CmpOp::Lt, self@, other@, r),
    {
        self.compare(other, CmpOp::Lt)
    }

    pub fn lte(&self, other: &Self) -> (r: Result<bool, TypeError>)
        ensures
            compare_result(CmpOp::Lte, self@, other@, r),
    {
        self.compare(other, CmpOp::Lte)
    }
}

/// The value that `bytes` encode as a value of `dtype`, if any.
/// The text bound `max_bytes` is not checked here: row validation bounds it.
pub open spec fn decode(dtype: DataType, bytes: Seq<u8>) -> Option<Val> {
    match dtype {
        DataType::U32 => if bytes.len() == 4 {
            Some(Val::U32(spec_u32_from_le_bytes(bytes)))
        } else {
            None
        },
        DataType::F64 => if bytes.len() == 8 {
            Some(Val::F64(spec_u64_from_le_bytes(bytes)))
        } else {
            None
        },
        DataType::UTF8 { .. } => if valid_utf8(bytes) {
            Some(Val::Utf8(bytes))
        } else {
            None
        },
        DataType::VARBINARY { .. } => Some(Val::Bytes(bytes)),
        DataType::BUFFER { length } => if bytes.len() == length {
            Some(Val::Bytes(bytes))
        } else {
            None
        },
    }
}

/// Relies on std::str::from_utf8: it succeeds exactly on valid UTF-8 and
/// returns a string slice over the same bytes.
#[verifier::external_body]
fn utf8_str<'a>(data: &'a [u8]) -> (r: Option<&'a str>)
    ensures
        r.is_some() == valid_utf8(data@),
        r matches Some(s) ==> s.spec_bytes() == data@,
{
    std::str::from_utf8(data).ok()
}

/// Decodes the bytes of a column as a value of `dtype`, borrowing text and
/// bytes from `data`.
pub fn canonical_column<'a>(dtype: &DataType, data: &'a [u8]) -> (r: Result<ColumnValue<'a>, TypeError>)
    ensures
        r.is_ok() == decode(*dtype, data@).is_some(),
        r matches Ok(v) ==> decode(*dtype, data@) == Some(v@),
        r matches Err(e) ==> e == TypeError::ConversionError,
{
    match dtype {
        DataType::U32 => {
            if data.len() != 4 {
                return Err(TypeError::ConversionError);
            }
            Ok(ColumnValue::U32(u32_from_le_bytes(data)))
        },
        DataType::F64 => {
            if data.len() != 8 {
                return Err(TypeError::ConversionError);
            }
            Ok(ColumnValue::F64(u64_from_le_bytes(data)))
        },
        DataType::UTF8 { .. } => match utf8_str(data) {
            Some(s) => Ok(ColumnValue::UTF8(s)),
            None => Err(TypeError::ConversionError),
        },
        DataType::VARBINARY { .. } => Ok(ColumnValue::Bytes(data)),
        DataType::BUFFER { length } => {
            if data.len() != *length {
                return Err(TypeError::ConversionError);
            }
            Ok(ColumnValue::Bytes(data))
        },
    }
}

} // verus!
