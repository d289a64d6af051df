//! The values that are scanned for and written, their types, and the records
//! that scans produce.

use vstd::prelude::*;
use vstd::utf8::*;
use crate::encoding::{
    encode_utf16, le_bytes, le_bytes_to_units, le_decode, le_encode, le_units, le_value,
    lemma_le_bytes_len, lemma_le_roundtrip, lemma_le_value_bound, lemma_pow256_values, lemma_units_le_bytes_len, signed_from, signed_of, twos, twos_u64, units_le_bytes,
    units_to_le_bytes, utf16_units,
};
use crate::text::{from_utf16_lossy, from_utf8_lossy, utf16_lossy, utf8_text};

verus! {

/// A value to scan for or to write. Floating-point values are held by their
/// IEEE 754 bit patterns (`F32` by `f32::to_bits`, `F64` by `f64::to_bits`).
#[derive(Debug, Clone)]
pub enum ScanValue {
    I8(i8),
    I16(i16),
    I32(i32),
    I64(i64),
    U8(u8),
    U16(u16),
    U32(u32),
    U64(u64),
    F32(u32),
    F64(u64),
    StringUtf8(String),
    StringUtf16(String),
    ByteArray(Vec<u8>),
}

/// The mathematical content of a [`ScanValue`].
pub enum ScanValueView {
    I8(i8),
    I16(i16),
    I32(i32),
    I64(i64),
    U8(u8),
    U16(u16),
    U32(u32),
    U64(u64),
    F32(u32),
    F64(u64),
    StringUtf8(Seq<char>),
    StringUtf16(Seq<char>),
    ByteArray(Seq<u8>),
}

impl View for ScanValue {
    type V = ScanValueView;

    open spec fn view(&self) -> ScanValueView {
        match self {
            ScanValue::I8(x) => ScanValueView::I8(*x),
            ScanValue::I16(x) => ScanValueView::I16(*x),
            ScanValue::I32(x) => ScanValueView::I32(*x),
            ScanValue::I64(x) => ScanValueView::I64(*x),
            ScanValue::U8(x) => ScanValueView::U8(*x),
            ScanValue::U16(x) => ScanValueView::U16(*x),
            ScanValue::U32(x) => ScanValueView::U32(*x),
            ScanValue::U64(x) => ScanValueView::U64(*x),
            ScanValue::F32(x) => ScanValueView::F32(*x),
            ScanValue::F64(x) => ScanValueView::F64(*x),
            ScanValue::StringUtf8(s) => ScanValueView::StringUtf8(s@),
            ScanValue::StringUtf16(s) => ScanValueView::StringUtf16(s@),
            ScanValue::ByteArray(b) => ScanValueView::ByteArray(b@),
        }
    }
}

impl ScanValueView {
    /// The little-endian byte representation of the value; strings are
    /// encoded in UTF-8 or UTF-16, byte arrays are their bytes.
    pub open spec fn to_bytes(self) -> Seq<u8> {
        match self {
            ScanValueView::I8(x) => le_bytes(twos(x as int, 1), 1),
            ScanValueView::I16(x) => le_bytes(twos(x as int, 2), 2),
            ScanValueView::I32(x) => le_bytes(twos(x as int, 4), 4),
            ScanValueView::I64(x) => le_bytes(twos(x as int, 8), 8),
            ScanValueView::U8(x) => le_bytes(x as nat, 1),
            ScanValueView::U16(x) => le_bytes(x as nat, 2),
            ScanValueView::U32(x) => le_bytes(x as nat, 4),
            ScanValueView::U64(x) => le_bytes(x as nat, 8),
            ScanValueView::F32(x) => le_bytes(x as nat, 4),
            ScanValueView::F64(x) => le_bytes(x as nat, 8),
            ScanValueView::StringUtf8(s) => encode_utf8(s),
            ScanValueView::StringUtf16(s) => units_le_bytes(encode_utf16(s)),
            ScanValueView::ByteArray(b) => b,
        }
    }

    /// The number of bytes the value occupies in memory.
    pub open spec fn byte_size(self) -> nat {
        match self {
            ScanValueView::I8(_) | ScanValueView::U8(_) => 1,
            ScanValueView::I16(_) | ScanValueView::U16(_) => 2,
            ScanValueView::I32(_) | ScanValueView::U32(_) | ScanValueView::F32(_) => 4,
            ScanValueView::I64(_) | ScanValueView::U64(_) | ScanValueView::F64(_) => 8,
            ScanValueView::StringUtf8(s) => encode_utf8(s).len(),
            ScanValueView::StringUtf16(s) => 2 * encode_utf16(s).len(),
            ScanValueView::ByteArray(b) => b.len(),
        }
    }

    /// Whether the value's size in bytes can be held in a `usize`.
    pub open spec fn fits(self) -> bool {
        self.byte_size() <= usize::MAX
    }

    /// Whether the value is a floating-point number, matched approximately.
    pub open spec fn is_float(self) -> bool {
        self is F32 || self is F64
    }

    /// Whether the value is one of the fixed-size numeric kinds.
    pub open spec fn is_numeric(self) -> bool {
        !(self is StringUtf8 || self is StringUtf16 || self is ByteArray)
    }

    /// A value of the same kind read from `bytes`, which hold exactly
    /// `self.byte_size()` bytes.
    pub open spec fn decode(self, bytes: Seq<u8>) -> ScanValueView {
        match self {
            ScanValueView::I8(_) => ScanValueView::I8(signed_of(le_value(bytes), 1) as i8),
            ScanValueView::I16(_) => ScanValueView::I16(signed_of(le_value(bytes), 2) as i16),
            ScanValueView::I32(_) => ScanValueView::I32(signed_of(le_value(bytes), 4) as i32),
            ScanValueView::I64(_) => ScanValueView::I64(signed_of(le_value(bytes), 8) as i64),
            ScanValueView::U8(_) => ScanValueView::U8(le_value(bytes) as u8),
            ScanValueView::U16(_) => ScanValueView::U16(le_value(bytes) as u16),
            ScanValueView::U32(_) => ScanValueView::U32(le_value(bytes) as u32),
            ScanValueView::U64(_) => ScanValueView::U64(le_value(bytes) as u64),
            ScanValueView::F32(_) => ScanValueView::F32(le_value(bytes) as u32),
            ScanValueView::F64(_) => ScanValueView::F64(le_value(bytes) as u64),
            ScanValueView::StringUtf8(_) => ScanValueView::StringUtf8(utf8_text(bytes)),
            ScanValueView::StringUtf16(_) => ScanValueView::StringUtf16(utf16_lossy(le_units(bytes))),
            ScanValueView::ByteArray(_) => ScanValueView::ByteArray(bytes),
        }
    }

    /// What reading a value of this kind at `offset` of `buf` gives: `None`
    /// when the value's bytes do not fit inside `buf`.
    pub open spec fn read_at(self, buf: Seq<u8>, offset: int) -> Option<ScanValueView> {
        if offset + self.byte_size() > buf.len() {
            None
        } else {
            Some(self.decode(buf.subrange(offset, offset + self.byte_size())))
        }
    }

    /// Whether the bytes of the value appear at `offset` of `buf`.
    pub open spec fn bytes_at(self, buf: Seq<u8>, offset: int) -> bool {
        &&& offset + self.to_bytes().len() <= buf.len()
        &&& buf.subrange(offset, offset + self.to_bytes().len()) == self.to_bytes()
    }

    /// The type selector of the value (string and byte-array types carry
    /// the value's size in bytes).
    pub open spec fn value_type(self) -> ValueType {
        match self {
            ScanValueView::I8(_) => ValueType::I8,
            ScanValueView::I16(_) => ValueType::I16,
            ScanValueView::I32(_) => ValueType::I32,
            ScanValueView::I64(_) => ValueType::I64,
            ScanValueView::U8(_) => ValueType::U8,
            ScanValueView::U16(_) => ValueType::U16,
            ScanValueView::U32(_) => ValueType::U32,
            ScanValueView::U64(_) => ValueType::U64,
            ScanValueView::F32(_) => ValueType::F32,
            ScanValueView::F64(_) => ValueType::F64,
            ScanValueView::StringUtf8(s) => ValueType::StringUtf8(encode_utf8(s).len() as usize),
            ScanValueView::StringUtf16(s) => ValueType::StringUtf16((2 * encode_utf16(s).len()) as usize),
            ScanValueView::ByteArray(b) => ValueType::ByteArray(b.len() as usize),
        }
    }
}

/// A value type without a value; string and byte-array types carry their
/// size in bytes.
#[derive(Debug, Clone, Copy, PartialEq, Eq, Structural)]
pub enum ValueType {
    I8,
    I16,
    I32,
    I64,
    U8,
    U16,
    U32,
    U64,
    F32,
    F64,
    StringUtf8(usize),
    StringUtf16(usize),
    ByteArray(usize),
}

impl ValueType {
    /// The number of bytes a value of this type occupies.
    pub open spec fn spec_byte_size(self) -> nat {
        match self {
            ValueType::I8 | ValueType::U8 => 1,
            ValueType::I16 | ValueType::U16 => 2,
            ValueType::I32 | ValueType::U32 | ValueType::F32 => 4,
            ValueType::I64 | ValueType::U64 | ValueType::F64 => 8,
            ValueType::StringUtf8(n) => n as nat,
            ValueType::StringUtf16(n) => n as nat,
            ValueType::ByteArray(n) => n as nat,
        }
    }

    /// The zero value of the type: numbers are zero, strings are empty and
    /// a byte array holds the type's size in zero bytes.
    pub open spec fn spec_default_value(self) -> ScanValueView {
        match self {
            ValueType::I8 => ScanValueView::I8(0),
            ValueType::I16 => ScanValueView::I16(0),
            ValueType::I32 => ScanValueView::I32(0),
            ValueType::I64 => ScanValueView::I64(0),
            ValueType::U8 => ScanValueView::U8(0),
            ValueType::U16 => ScanValueView::U16(0),
            ValueType::U32 => ScanValueView::U32(0),
            ValueType::U64 => ScanValueView::U64(0),
            ValueType::F32 => ScanValueView::F32(0),
            ValueType::F64 => ScanValueView::F64(0),
            ValueType::StringUtf8(_) => ScanValueView::StringUtf8(Seq::empty()),
            ValueType::StringUtf16(_) => ScanValueView::StringUtf16(Seq::empty()),
            ValueType::ByteArray(n) => ScanValueView::ByteArray(Seq::new(n as nat, |i: int| 0u8)),
        }
    }

    /// The number of bytes a value of this type occupies.
    pub fn byte_size(&self) -> (r: usize)
        ensures
            r == self.spec_byte_size(),
    {
        match self {
            ValueType::I8 | ValueType::U8 => 1,
            ValueType::I16 | ValueType::U16 => 2,
            ValueType::I32 | ValueType::U32 | ValueType::F32 => 4,
            ValueType::I64 | ValueType::U64 | ValueType::F64 => 8,
            ValueType::StringUtf8(n) => *n,
            ValueType::StringUtf16(n) => *n,
            ValueType::ByteArray(n) => *n,
        }
    }

    /// The zero value of this type.
    pub fn default_value(&self) -> (r: ScanValue)
        ensures
            r@ == self.spec_default_value(),
    {
        match self {
            ValueType::I8 => ScanValue::I8(0),
            ValueType::I16 => ScanValue::I16(0),
            ValueType::I32 => ScanValue::I32(0),
            ValueType::I64 => ScanValue::I64(0),
            ValueType::U8 => ScanValue::U8(0),
            ValueType::U16 => ScanValue::U16(0),
            ValueType::U32 => ScanValue::U32(0),
            ValueType::U64 => ScanValue::U64(0),
            ValueType::F32 => ScanValue::F32(0),
            ValueType::F64 => ScanValue::F64(0),
            ValueType::StringUtf8(_) => ScanValue::StringUtf8(String::new()),
            ValueType::StringUtf16(_) => ScanValue::StringUtf16(String::new()),
            ValueType::ByteArray(n) => {
                let mut b: Vec<u8> = Vec::new();
                let mut i: usize = 0;
                while i < *n
                    invariant
                        i <= *n,
                        b@ == Seq::new(i as nat, |k: int| 0u8),
                    decreases *n - i,
                {
                    b.push(0u8);
                    i = i + 1;
                    assert(b@ =~= Seq::new(i as nat, |k: int| 0u8));
                }
                ScanValue::ByteArray(b)
            },
        }
    }
}

} // verus!

verus! {

/// A copy of `b`.
pub fn copy_bytes(b: &[u8]) -> (r: Vec<u8>)
    ensures
        r@ == b@,
{
    vstd::slice::slice_to_vec(b)
}

impl ScanValue {
    /// A copy of the value with the same content.
    pub fn duplicate(&self) -> (r: ScanValue)
        ensures
            r@ == self@,
    {
        match self {
            ScanValue::I8(x) => ScanValue::I8(*x),
            ScanValue::I16(x) => ScanValue::I16(*x),
            ScanValue::I32(x) => ScanValue::I32(*x),
            ScanValue::I64(x) => ScanValue::I64(*x),
            ScanValue::U8(x) => ScanValue::U8(*x),
            ScanValue::U16(x) => ScanValue::U16(*x),
            ScanValue::U32(x) => ScanValue::U32(*x),
            ScanValue::U64(x) => ScanValue::U64(*x),
            ScanValue::F32(x) => ScanValue::F32(*x),
            ScanValue::F64(x) => ScanValue::F64(*x),
            ScanValue::StringUtf8(s) => ScanValue::StringUtf8(s.clone()),
            ScanValue::StringUtf16(s) => ScanValue::StringUtf16(s.clone()),
            ScanValue::ByteArray(b) => ScanValue::ByteArray(copy_bytes(b.as_slice())),
        }
    }

    /// Whether the value is a floating-point number.
    pub fn is_float(&self) -> (r: bool)
        ensures
            r == self@.is_float(),
    {
        match self {
            ScanValue::F32(_) | ScanValue::F64(_) => true,
            _ => false,
        }
    }

    /// Byte size of this value type.
    pub fn byte_size(&self) -> (r: usize)
        requires
            self@.fits(),
        ensures
            r == self@.byte_size(),
    {
        match self {
            ScanValue::I8(_) | ScanValue::U8(_) => 1,
            ScanValue::I16(_) | ScanValue::U16(_) => 2,
            ScanValue::I32(_) | ScanValue::U32(_) | ScanValue::F32(_) => 4,
            ScanValue::I64(_) | ScanValue::U64(_) | ScanValue::F64(_) => 8,
            ScanValue::StringUtf8(s) => s.as_str().as_bytes().len(),
            ScanValue::StringUtf16(s) => {
                let units = utf16_units(s.as_str());
                units.len() * 2
            },
            ScanValue::ByteArray(b) => b.len(),
        }
    }

    /// Convert value to its little-endian byte representation.
    pub fn to_bytes(&self) -> (r: Vec<u8>)
        ensures
            r@ == self@.to_bytes(),
    {
        match self {
            ScanValue::I8(x) => le_encode(twos_u64(*x as i64, 1), 1),
            ScanValue::I16(x) => le_encode(twos_u64(*x as i64, 2), 2),
            ScanValue::I32(x) => le_encode(twos_u64(*x as i64, 4), 4),
            ScanValue::I64(x) => le_encode(twos_u64(*x, 8), 8),
            ScanValue::U8(x) => le_encode(*x as u64, 1),
            ScanValue::U16(x) => le_encode(*x as u64, 2),
            ScanValue::U32(x) => le_encode(*x as u64, 4),
            ScanValue::U64(x) => le_encode(*x, 8),
            ScanValue::F32(x) => le_encode(*x as u64, 4),
            ScanValue::F64(x) => le_encode(*x, 8),
            ScanValue::StringUtf8(s) => copy_bytes(s.as_str().as_bytes()),
            ScanValue::StringUtf16(s) => {
                let units = utf16_units(s.as_str());
                units_to_le_bytes(&units)
            },
            ScanValue::ByteArray(b) => copy_bytes(b.as_slice()),
        }
    }

    /// Read a value of this value's type from `buf` at `offset`; `None` when
    /// the value's bytes would run past the end of `buf`.
    pub fn read_from_buffer(&self, buf: &[u8], offset: usize) -> (r: Option<ScanValue>)
        requires
            self@.fits(),
            offset + self@.byte_size() <= usize::MAX,
        ensures
            r matches Some(v) ==> self@.read_at(buf@, offset as int) == Some(v@),
            r is None ==> self@.read_at(buf@, offset as int) is None,
            ({
                let slice = buf@.subrange(offset as int, offset + self@.byte_size());
                &&& self@ is StringUtf8 && r is Some && valid_utf8(slice) ==> r->0@
                    == ScanValueView::StringUtf8(decode_utf8(slice))
                &&& self@ is StringUtf16 && r is Some ==> forall|cs: Seq<char>|
                    #[trigger] encode_utf16(cs) == le_units(slice) ==> r->0@
                        == ScanValueView::StringUtf16(cs)
            }),
    {
        let size = self.byte_size();
        if offset + size > buf.len() {
            return None;
        }
        proof {
            lemma_pow256_values();
        }
        let ghost slice = buf@.subrange(offset as int, offset + size);
        let v = match self {
            ScanValue::I8(_) => {
                let u = le_decode(buf, offset, 1);
                proof { lemma_le_value_bound(slice); }
                ScanValue::I8(signed_from(u, 1) as i8)
            },
            ScanValue::I16(_) => {
                let u = le_decode(buf, offset, 2);
                proof { lemma_le_value_bound(slice); }
                ScanValue::I16(signed_from(u, 2) as i16)
            },
            ScanValue::I32(_) => {
                let u = le_decode(buf, offset, 4);
                proof { lemma_le_value_bound(slice); }
                ScanValue::I32(signed_from(u, 4) as i32)
            },
            ScanValue::I64(_) => {
                let u = le_decode(buf, offset, 8);
                proof { lemma_le_value_bound(slice); }
                ScanValue::I64(signed_from(u, 8))
            },
            ScanValue::U8(_) => {
                let u = le_decode(buf, offset, 1);
                proof { lemma_le_value_bound(slice); }
                ScanValue::U8(u as u8)
            },
            ScanValue::U16(_) => {
                let u = le_decode(buf, offset, 2);
                proof { lemma_le_value_bound(slice); }
                ScanValue::U16(u as u16)
            },
            ScanValue::U32(_) => {
                let u = le_decode(buf, offset, 4);
                proof { lemma_le_value_bound(slice); }
                ScanValue::U32(u as u32)
            },
            ScanValue::U64(_) => ScanValue::U64(le_decode(buf, offset, 8)),
            ScanValue::F32(_) => {
                let u = le_decode(buf, offset, 4);
                proof { lemma_le_value_bound(slice); }
                ScanValue::F32(u as u32)
            },
            ScanValue::F64(_) => ScanValue::F64(le_decode(buf, offset, 8)),
            ScanValue::StringUtf8(_) => {
                let part = vstd::slice::slice_subrange(buf, offset, offset + size);
                ScanValue::StringUtf8(from_utf8_lossy(part))
            },
            ScanValue::StringUtf16(_) => {
                let part = vstd::slice::slice_subrange(buf, offset, offset + size);
                let units = le_bytes_to_units(part);
                proof {
                    assert forall|cs: Seq<char>| #[trigger] encode_utf16(cs) == units@ implies utf16_lossy(
                        units@,
                    ) == cs by {
                        crate::text::lemma_utf16_decodes_encoding(cs);
                    }
                }
                ScanValue::StringUtf16(from_utf16_lossy(units.as_slice()))
            },
            ScanValue::ByteArray(_) => {
                let part = vstd::slice::slice_subrange(buf, offset, offset + size);
                ScanValue::ByteArray(copy_bytes(part))
            },
        };
        Some(v)
    }

    /// Whether this value's bytes appear in `buf` at `offset`. The
    /// floating-point kinds are matched approximately, which is decided
    /// outside this library: for them the result is `None`.
    pub fn matches_bytes(&self, buf: &[u8], offset: usize) -> (r: Option<bool>)
        requires
            offset + self@.byte_size() <= usize::MAX,
        ensures
            r is None <==> self@.is_float(),
            r matches Some(b) ==> b == self@.bytes_at(buf@, offset as int),
    {
        proof {
            lemma_to_bytes_len(self@);
        }
        if self.is_float() {
            return None;
        }
        let target = self.to_bytes();
        Some(bytes_equal_at(buf, offset, target.as_slice()))
    }

    /// The type selector of this value, as recorded for a scan session.
    pub fn value_type(&self) -> (r: ValueType)
        requires
            self@.fits(),
        ensures
            r == self@.value_type(),
    {
        match self {
            ScanValue::I8(_) => ValueType::I8,
            ScanValue::I16(_) => ValueType::I16,
            ScanValue::I32(_) => ValueType::I32,
            ScanValue::I64(_) => ValueType::I64,
            ScanValue::U8(_) => ValueType::U8,
            ScanValue::U16(_) => ValueType::U16,
            ScanValue::U32(_) => ValueType::U32,
            ScanValue::U64(_) => ValueType::U64,
            ScanValue::F32(_) => ValueType::F32,
            ScanValue::F64(_) => ValueType::F64,
            ScanValue::StringUtf8(s) => ValueType::StringUtf8(s.as_str().as_bytes().len()),
            ScanValue::StringUtf16(s) => {
                let units = utf16_units(s.as_str());
                ValueType::StringUtf16(units.len() * 2)
            },
            ScanValue::ByteArray(b) => ValueType::ByteArray(b.len()),
        }
    }
}

/// Whether `target` appears in `buf` starting at `offset`.
pub fn bytes_equal_at(buf: &[u8], offset: usize, target: &[u8]) -> (r: bool)
    requires
        offset + target@.len() <= usize::MAX,
    ensures
        r == (offset + target@.len() <= buf@.len() && buf@.subrange(
            offset as int,
            offset + target@.len(),
        ) == target@),
{
    let size = target.len();
    let blen = buf.len();
    if offset + size > blen {
        return false;
    }
    let mut i: usize = 0;
    while i < size
        invariant
            i <= size,
            size == target@.len(),
            offset + size <= buf@.len(),
            blen == buf@.len(),
            forall|k: int| 0 <= k < i ==> buf@[offset + k] == target@[k],
        decreases size - i,
    {
        if buf[offset + i] != target[i] {
            assert(buf@.subrange(offset as int, offset + size)[i as int] != target@[i as int]);
            return false;
        }
        i = i + 1;
    }
    assert(buf@.subrange(offset as int, offset + size) =~= target@);
    true
}

} // verus!

verus! {

/// How a rescan compares the values it reads again.
#[derive(Debug, Clone)]
pub enum ScanFilter {
    ExactValue(ScanValue),
    Changed,
    Unchanged,
    Increased,
    Decreased,
    IncreasedBy(ScanValue),
    DecreasedBy(ScanValue),
    GreaterThan(ScanValue),
    LessThan(ScanValue),
    Between(ScanValue, ScanValue),
}

impl ScanFilter {
    /// Whether every value the filter carries has a size that a `usize` holds.
    pub open spec fn fits(&self) -> bool {
        match self {
            ScanFilter::ExactValue(v) => v@.fits(),
            ScanFilter::IncreasedBy(v) => v@.fits(),
            ScanFilter::DecreasedBy(v) => v@.fits(),
            ScanFilter::GreaterThan(v) => v@.fits(),
            ScanFilter::LessThan(v) => v@.fits(),
            ScanFilter::Between(a, b) => a@.fits() && b@.fits(),
            _ => true,
        }
    }
}

/// A found memory address with its current value.
#[derive(Debug, Clone)]
pub struct FoundAddress {
    pub address: u64,
    pub current_value: ScanValue,
    /// Raw bytes stored for "changed/unchanged" comparison
    pub previous_bytes: Vec<u8>,
}

/// The mathematical content of a [`FoundAddress`].
pub struct FoundAddressView {
    pub address: u64,
    pub current_value: ScanValueView,
    pub previous_bytes: Seq<u8>,
}

impl View for FoundAddress {
    type V = FoundAddressView;

    open spec fn view(&self) -> FoundAddressView {
        FoundAddressView {
            address: self.address,
            current_value: self.current_value@,
            previous_bytes: self.previous_bytes@,
        }
    }
}

/// The contents of a list of found addresses.
pub open spec fn found_views(v: Seq<FoundAddress>) -> Seq<FoundAddressView> {
    v.map_values(|f: FoundAddress| f@)
}

/// An entry in the user's saved address table.
#[derive(Debug, Clone)]
pub struct TableEntry {
    pub label: String,
    pub address: u64,
    pub value_type: ValueType,
    pub frozen: bool,
    pub freeze_value: Option<ScanValue>,
}

/// Info about a running process.
#[derive(Debug, Clone)]
pub struct ProcessInfo {
    pub pid: u32,
    pub name: String,
}

/// A readable memory region in the target process.
#[derive(Debug, Clone, Copy, PartialEq, Eq, Structural)]
pub struct MemoryRegion {
    pub base_address: u64,
    pub size: u64,
}

/// Scan session state.
#[derive(Debug, Clone)]
pub struct ScanState {
    pub results: Vec<FoundAddress>,
    pub scan_count: u32,
    pub value_type: ValueType,
}

impl ScanValue {
    /// Whether the value's size in bytes can be held in a `usize`.
    pub fn fits(&self) -> (r: bool)
        ensures
            r == self@.fits(),
    {
        match self {
            ScanValue::StringUtf16(s) => {
                let units = utf16_units(s.as_str());
                let n = units.len();
                let r = n <= usize::MAX / 2;
                assert(r == (2 * n <= usize::MAX));
                assert(self@.byte_size() == 2 * n);
                assert(self@.fits() == r);
                r
            },
            ScanValue::StringUtf8(s) => {
                let n = s.as_str().as_bytes().len();
                assert(self@.byte_size() == n);
                true
            },
            ScanValue::ByteArray(b) => {
                let n = b.len();
                assert(self@.byte_size() == n);
                true
            },
            _ => true,
        }
    }
}

impl ScanFilter {
    /// Whether every value the filter carries has a size that a `usize` holds.
    pub fn values_fit(&self) -> (r: bool)
        ensures
            r == self.fits(),
    {
        match self {
            ScanFilter::ExactValue(v) => v.fits(),
            ScanFilter::IncreasedBy(v) => v.fits(),
            ScanFilter::DecreasedBy(v) => v.fits(),
            ScanFilter::GreaterThan(v) => v.fits(),
            ScanFilter::LessThan(v) => v.fits(),
            ScanFilter::Between(a, b) => a.fits() && b.fits(),
            _ => true,
        }
    }
}

/// The bytes of a value number as many as its size says.
pub proof fn lemma_to_bytes_len(v: ScanValueView)
    ensures
        v.to_bytes().len() == v.byte_size(),
{
    match v {
        ScanValueView::I8(x) => lemma_le_bytes_len(twos(x as int, 1), 1),
        ScanValueView::I16(x) => lemma_le_bytes_len(twos(x as int, 2), 2),
        ScanValueView::I32(x) => lemma_le_bytes_len(twos(x as int, 4), 4),
        ScanValueView::I64(x) => lemma_le_bytes_len(twos(x as int, 8), 8),
        ScanValueView::U8(x) => lemma_le_bytes_len(x as nat, 1),
        ScanValueView::U16(x) => lemma_le_bytes_len(x as nat, 2),
        ScanValueView::U32(x) => lemma_le_bytes_len(x as nat, 4),
        ScanValueView::U64(x) => lemma_le_bytes_len(x as nat, 8),
        ScanValueView::F32(x) => lemma_le_bytes_len(x as nat, 4),
        ScanValueView::F64(x) => lemma_le_bytes_len(x as nat, 8),
        ScanValueView::StringUtf16(s) => lemma_units_le_bytes_len(encode_utf16(s)),
        _ => {},
    }
}

} // verus!

verus! {

impl FoundAddress {
    /// A copy of the record with the same content.
    pub fn duplicate(&self) -> (r: FoundAddress)
        ensures
            r@ == self@,
    {
        FoundAddress {
            address: self.address,
            current_value: self.current_value.duplicate(),
            previous_bytes: copy_bytes(self.previous_bytes.as_slice()),
        }
    }
}

} // verus!

verus! {

/// Writing a fixed-size number or a byte array and reading a value of the
/// same kind back from those bytes gives the same value.
pub proof fn lemma_roundtrip(v: ScanValueView)
    requires
        v.is_numeric() || v is ByteArray,
    ensures
        v.read_at(v.to_bytes(), 0) == Some(v),
{
    lemma_to_bytes_len(v);
    lemma_pow256_values();
    let b = v.to_bytes();
    assert(b.subrange(0, v.byte_size() as int) =~= b);
    match v {
        ScanValueView::I8(x) => lemma_le_roundtrip(twos(x as int, 1), 1),
        ScanValueView::I16(x) => lemma_le_roundtrip(twos(x as int, 2), 2),
        ScanValueView::I32(x) => lemma_le_roundtrip(twos(x as int, 4), 4),
        ScanValueView::I64(x) => lemma_le_roundtrip(twos(x as int, 8), 8),
        ScanValueView::U8(x) => lemma_le_roundtrip(x as nat, 1),
        ScanValueView::U16(x) => lemma_le_roundtrip(x as nat, 2),
        ScanValueView::U32(x) => lemma_le_roundtrip(x as nat, 4),
        ScanValueView::U64(x) => lemma_le_roundtrip(x as nat, 8),
        ScanValueView::F32(x) => lemma_le_roundtrip(x as nat, 4),
        ScanValueView::F64(x) => lemma_le_roundtrip(x as nat, 8),
        _ => {},
    }
}

/// A number decoded from bytes of its size encodes back to those bytes.
pub proof fn lemma_decode_encodes(v: ScanValueView, bytes: Seq<u8>)
    requires
        v.is_numeric(),
        bytes.len() == v.byte_size(),
    ensures
        v.decode(bytes).to_bytes() == bytes,
{
    lemma_pow256_values();
    lemma_le_value_bound(bytes);
    crate::encoding::lemma_le_value_bytes(bytes);
    let u = le_value(bytes);
    match v {
        ScanValueView::I8(_) => assert(twos((signed_of(u, 1) as i8) as int, 1) == u),
        ScanValueView::I16(_) => assert(twos((signed_of(u, 2) as i16) as int, 2) == u),
        ScanValueView::I32(_) => assert(twos((signed_of(u, 4) as i32) as int, 4) == u),
        ScanValueView::I64(_) => assert(twos((signed_of(u, 8) as i64) as int, 8) == u),
        _ => {},
    }
}

/// A value's bytes are found where they were written: at offset zero of
/// its own encoding.
pub proof fn lemma_matches_own_bytes(v: ScanValueView)
    ensures
        v.bytes_at(v.to_bytes(), 0),
{
    assert(v.to_bytes().subrange(0, v.to_bytes().len() as int) =~= v.to_bytes());
}

/// The type recorded for a scan value occupies as many bytes as the value.
pub proof fn lemma_value_type_size(v: ScanValueView)
    requires
        v.fits(),
    ensures
        v.value_type().spec_byte_size() == v.byte_size(),
{
}

} // verus!
