//! A homogeneous array of fixed-width numbers, chosen by a one-character type
//! code. Items are held as their raw bits; while a byte view of the storage is
//! exported, nothing may change the array's length.

use vstd::prelude::*;
use vstd::arithmetic::power::pow;
use crate::codec::{decode, encode, le_bytes, le_value, be_value, read_be, swapped, lemma_decode_encode,
    push_le_bytes, read_le, swap_bytes, lemma_le_value_bound};
use crate::slice::{SliceArgs, count_steps, slice_indices, slice_step_is_zero, lemma_selected_in_bounds,
    slice_length, lemma_count_at_most_len, in_progression, progression_step, lemma_progression_grow,
    in_progression_exec};

verus! {

/// The thirteen element kinds, by type code: `b B u h H i I l L q Q f d`.
#[derive(Clone, Copy, Debug, PartialEq, Eq, Structural)]
pub enum ElementKind {
    SignedByte,
    UnsignedByte,
    PyUnicode,
    SignedShort,
    UnsignedShort,
    SignedInt,
    UnsignedInt,
    SignedLong,
    UnsignedLong,
    SignedLongLong,
    UnsignedLongLong,
    Float,
    Double,
}

/// Why an array operation was refused.
#[derive(Clone, Copy, Debug, PartialEq, Eq)]
pub enum ArrayError {
    /// The type code names no element kind.
    BadTypecode,
    /// A value, or an array, of the wrong kind.
    TypeMismatch,
    /// An integer outside the kind's range, or bits wider than the kind.
    Overflow,
    /// A byte view is exported, so the length may not change.
    Exported,
    /// An index outside the array.
    IndexOutOfRange,
    /// `pop` on an empty array.
    EmptyPop,
    /// The value searched for is not in the array.
    NotInArray,
    /// A byte count that is not a multiple of the item size.
    BadLength,
    /// A slice whose step is zero.
    ZeroStep,
    /// An extended slice assigned from an array of another length.
    SizeMismatch,
    /// A character item above U+10FFFF.
    InvalidCodePoint,
    /// A character operation on an array that is not of kind `u`.
    NotUnicode,
    /// A machine format code outside 0..=21.
    BadFormatCode,
    /// A repetition whose result would not fit in memory.
    MemoryError,
    /// Serialized UTF-16 that does not decode.
    UnicodeDecode,
    /// A reader returned fewer bytes than were asked for.
    UnexpectedEof,
    /// A negative item count.
    NegativeCount,
    /// Floating-point items serialized at one width and asked for at another:
    /// converting them is floating-point work, left to the caller.
    FloatWidth,
}

/// One item as the outside sees it: an integer for the integer kinds, a code
/// point for `u`, the IEEE-754 bits for `f` and `d`.
#[derive(Clone, Copy, Debug, PartialEq, Eq)]
pub enum ArrayValue {
    Int(i128),
    Char(u32),
    Bits(u64),
}

pub open spec fn itemsize_spec(k: ElementKind) -> nat {
    match k {
        ElementKind::SignedByte | ElementKind::UnsignedByte => 1,
        ElementKind::SignedShort | ElementKind::UnsignedShort => 2,
        ElementKind::PyUnicode | ElementKind::SignedInt | ElementKind::UnsignedInt | ElementKind::Float => 4,
        _ => 8,
    }
}

/// `256^itemsize`: one past the largest raw item.
pub open spec fn modulus(k: ElementKind) -> int {
    if itemsize_spec(k) == 1 {
        0x100
    } else if itemsize_spec(k) == 2 {
        0x1_0000
    } else if itemsize_spec(k) == 4 {
        0x1_0000_0000
    } else {
        0x1_0000_0000_0000_0000
    }
}

pub open spec fn is_signed(k: ElementKind) -> bool {
    match k {
        ElementKind::SignedByte | ElementKind::SignedShort | ElementKind::SignedInt
        | ElementKind::SignedLong | ElementKind::SignedLongLong => true,
        _ => false,
    }
}

pub open spec fn is_int_kind(k: ElementKind) -> bool {
    match k {
        ElementKind::PyUnicode | ElementKind::Float | ElementKind::Double => false,
        _ => true,
    }
}

pub open spec fn is_float_kind(k: ElementKind) -> bool {
    k == ElementKind::Float || k == ElementKind::Double
}

pub open spec fn typecode_spec(k: ElementKind) -> char {
    match k {
        ElementKind::SignedByte => 'b',
        ElementKind::UnsignedByte => 'B',
        ElementKind::PyUnicode => 'u',
        ElementKind::SignedShort => 'h',
        ElementKind::UnsignedShort => 'H',
        ElementKind::SignedInt => 'i',
        ElementKind::UnsignedInt => 'I',
        ElementKind::SignedLong => 'l',
        ElementKind::UnsignedLong => 'L',
        ElementKind::SignedLongLong => 'q',
        ElementKind::UnsignedLongLong => 'Q',
        ElementKind::Float => 'f',
        ElementKind::Double => 'd',
    }
}

/// The kind a type code names, if any.
pub open spec fn kind_of_char(c: char) -> Option<ElementKind> {
    if c == 'b' { Some(ElementKind::SignedByte) }
    else if c == 'B' { Some(ElementKind::UnsignedByte) }
    else if c == 'u' { Some(ElementKind::PyUnicode) }
    else if c == 'h' { Some(ElementKind::SignedShort) }
    else if c == 'H' { Some(ElementKind::UnsignedShort) }
    else if c == 'i' { Some(ElementKind::SignedInt) }
    else if c == 'I' { Some(ElementKind::UnsignedInt) }
    else if c == 'l' { Some(ElementKind::SignedLong) }
    else if c == 'L' { Some(ElementKind::UnsignedLong) }
    else if c == 'q' { Some(ElementKind::SignedLongLong) }
    else if c == 'Q' { Some(ElementKind::UnsignedLongLong) }
    else if c == 'f' { Some(ElementKind::Float) }
    else if c == 'd' { Some(ElementKind::Double) }
    else { None }
}

/// The integers an integer kind holds: `[-m/2, m/2)` when signed, `[0, m)` when not.
pub open spec fn int_in_range(k: ElementKind, x: int) -> bool {
    if is_signed(k) { -modulus(k) / 2 <= x < modulus(k) / 2 } else { 0 <= x < modulus(k) }
}

/// Two's complement: the raw bits of an integer of kind `k`.
pub open spec fn raw_of_int(k: ElementKind, x: int) -> int {
    if x < 0 { x + modulus(k) } else { x }
}

/// The integer that raw bits stand for.
pub open spec fn int_of_raw(k: ElementKind, r: int) -> int {
    if is_signed(k) && r >= modulus(k) / 2 { r - modulus(k) } else { r }
}

/// The raw bits that store `v` in an array of kind `k`, or why it cannot be stored.
pub open spec fn convert_spec(k: ElementKind, v: ArrayValue) -> Result<u64, ArrayError> {
    match v {
        ArrayValue::Int(x) => if !is_int_kind(k) {
            Err(ArrayError::TypeMismatch)
        } else if int_in_range(k, x as int) {
            Ok(raw_of_int(k, x as int) as u64)
        } else {
            Err(ArrayError::Overflow)
        },
        ArrayValue::Char(c) => if k != ElementKind::PyUnicode {
            Err(ArrayError::TypeMismatch)
        } else if c <= 0x10FFFF {
            Ok(c as u64)
        } else {
            Err(ArrayError::InvalidCodePoint)
        },
        ArrayValue::Bits(b) => if !is_float_kind(k) {
            Err(ArrayError::TypeMismatch)
        } else if b < modulus(k) {
            Ok(b)
        } else {
            Err(ArrayError::Overflow)
        },
    }
}

/// What raw bits of kind `k` read as.
pub open spec fn value_spec(k: ElementKind, r: u64) -> Result<ArrayValue, ArrayError> {
    if is_int_kind(k) {
        Ok(ArrayValue::Int(int_of_raw(k, r as int) as i128))
    } else if k == ElementKind::PyUnicode {
        if r <= 0x10FFFF { Ok(ArrayValue::Char(r as u32)) } else { Err(ArrayError::InvalidCodePoint) }
    } else {
        Ok(ArrayValue::Bits(r))
    }
}

/// Every item fits the kind's width.
pub open spec fn items_fit(k: ElementKind, items: Seq<u64>) -> bool {
    forall|i: int| 0 <= i < items.len() ==> (#[trigger] items[i] as int) < modulus(k)
}

pub proof fn lemma_modulus_is_pow(k: ElementKind)
    ensures
        modulus(k) == pow(256, itemsize_spec(k)),
        itemsize_spec(k) <= 8,
        itemsize_spec(k) >= 1,
{
    reveal_with_fuel(pow, 9);
}

impl ElementKind {
    /// The kind a type code names.
    pub fn from_char(c: char) -> (r: Result<ElementKind, ArrayError>)
        ensures
            r matches Ok(k) ==> typecode_spec(k) == c && kind_of_char(c) == Some(k),
            r is Err <==> kind_of_char(c) is None,
            r is Err <==> !(exists|k: ElementKind| typecode_spec(k) == c),
            r matches Err(e) ==> e == ArrayError::BadTypecode,
    {
        let r = match c {
            'b' => Ok(ElementKind::SignedByte),
            'B' => Ok(ElementKind::UnsignedByte),
            'u' => Ok(ElementKind::PyUnicode),
            'h' => Ok(ElementKind::SignedShort),
            'H' => Ok(ElementKind::UnsignedShort),
            'i' => Ok(ElementKind::SignedInt),
            'I' => Ok(ElementKind::UnsignedInt),
            'l' => Ok(ElementKind::SignedLong),
            'L' => Ok(ElementKind::UnsignedLong),
            'q' => Ok(ElementKind::SignedLongLong),
            'Q' => Ok(ElementKind::UnsignedLongLong),
            'f' => Ok(ElementKind::Float),
            'd' => Ok(ElementKind::Double),
            _ => Err(ArrayError::BadTypecode),
        };
        proof {
            if let Ok(k) = r {
                assert(typecode_spec(k) == c);
            }
            if r is Err {
                assert forall|k: ElementKind| typecode_spec(k) != c by {
                    match k { _ => {} }
                }
            }
        }
        r
    }

    pub fn typecode(&self) -> (r: char)
        ensures
            r == typecode_spec(*self),
    {
        match self {
            ElementKind::SignedByte => 'b',
            ElementKind::UnsignedByte => 'B',
            ElementKind::PyUnicode => 'u',
            ElementKind::SignedShort => 'h',
            ElementKind::UnsignedShort => 'H',
            ElementKind::SignedInt => 'i',
            ElementKind::UnsignedInt => 'I',
            ElementKind::SignedLong => 'l',
            ElementKind::UnsignedLong => 'L',
            ElementKind::SignedLongLong => 'q',
            ElementKind::UnsignedLongLong => 'Q',
            ElementKind::Float => 'f',
            ElementKind::Double => 'd',
        }
    }

    pub fn itemsize(&self) -> (r: usize)
        ensures
            r == itemsize_spec(*self),
    {
        match self {
            ElementKind::SignedByte | ElementKind::UnsignedByte => 1,
            ElementKind::SignedShort | ElementKind::UnsignedShort => 2,
            ElementKind::PyUnicode | ElementKind::SignedInt | ElementKind::UnsignedInt | ElementKind::Float => 4,
            _ => 8,
        }
    }

    fn modulus_exec(&self) -> (r: u128)
        ensures
            r == modulus(*self),
    {
        match self.itemsize() {
            1 => 0x100,
            2 => 0x1_0000,
            4 => 0x1_0000_0000,
            _ => 0x1_0000_0000_0000_0000,
        }
    }

    fn is_signed(&self) -> (r: bool)
        ensures
            r == is_signed(*self),
    {
        match self {
            ElementKind::SignedByte | ElementKind::SignedShort | ElementKind::SignedInt
            | ElementKind::SignedLong | ElementKind::SignedLongLong => true,
            _ => false,
        }
    }

    fn is_float(&self) -> (r: bool)
        ensures
            r == is_float_kind(*self),
    {
        match self {
            ElementKind::Float | ElementKind::Double => true,
            _ => false,
        }
    }

    /// The raw bits that store `v`, or why it cannot be stored.
    pub fn convert(&self, v: ArrayValue) -> (r: Result<u64, ArrayError>)
        ensures
            r == convert_spec(*self, v),
            r matches Ok(b) ==> (b as int) < modulus(*self),
    {
        let m = self.modulus_exec();
        match v {
            ArrayValue::Int(x) => {
                if *self == ElementKind::PyUnicode || self.is_float() {
                    Err(ArrayError::TypeMismatch)
                } else {
                    let ok = if self.is_signed() {
                        -((m / 2) as i128) <= x && x < (m / 2) as i128
                    } else {
                        0 <= x && (x as u128) < m
                    };
                    if ok {
                        let raw: u128 = if x < 0 { (x + m as i128) as u128 } else { x as u128 };
                        Ok(raw as u64)
                    } else {
                        Err(ArrayError::Overflow)
                    }
                }
            }
            ArrayValue::Char(c) => {
                if *self != ElementKind::PyUnicode {
                    Err(ArrayError::TypeMismatch)
                } else if c <= 0x10FFFF {
                    Ok(c as u64)
                } else {
                    Err(ArrayError::InvalidCodePoint)
                }
            }
            ArrayValue::Bits(b) => {
                if !self.is_float() {
                    Err(ArrayError::TypeMismatch)
                } else if (b as u128) < m {
                    Ok(b)
                } else {
                    Err(ArrayError::Overflow)
                }
            }
        }
    }

    /// What raw bits of this kind read as.
    pub fn value_of(&self, r: u64) -> (v: Result<ArrayValue, ArrayError>)
        requires
            (r as int) < modulus(*self),
        ensures
            v == value_spec(*self, r),
    {
        if *self == ElementKind::PyUnicode {
            if r <= 0x10FFFF { Ok(ArrayValue::Char(r as u32)) } else { Err(ArrayError::InvalidCodePoint) }
        } else if self.is_float() {
            Ok(ArrayValue::Bits(r))
        } else {
            let m = self.modulus_exec();
            if self.is_signed() && (r as u128) >= m / 2 {
                Ok(ArrayValue::Int((r as i128) - (m as i128)))
            } else {
                Ok(ArrayValue::Int(r as i128))
            }
        }
    }
}

/// What an array is: its kind, its raw items, and how many byte views of its
/// storage are exported.
pub struct ArrayModel {
    pub kind: ElementKind,
    pub items: Seq<u64>,
    pub exports: nat,
}

/// A typed array; see the module documentation.
#[derive(Debug)]
pub struct PyArray {
    kind: ElementKind,
    items: Vec<u64>,
    exports: usize,
}

/// What a byte view of an array's storage describes.
#[derive(Clone, Copy, Debug, PartialEq, Eq)]
pub struct BufferDescriptor {
    pub len: usize,
    pub itemsize: usize,
    pub format: char,
}

/// The most items an array holds: a `Vec<u64>` never spans more than
/// `isize::MAX` bytes.
pub const MAX_ITEMS: usize = usize::MAX / 16;

impl View for PyArray {
    type V = ArrayModel;

    closed spec fn view(&self) -> ArrayModel {
        ArrayModel { kind: self.kind, items: self.items@, exports: self.exports as nat }
    }
}

impl PyArray {
    /// Every raw item fits the kind's width.
    pub open spec fn wf(&self) -> bool {
        items_fit(self@.kind, self@.items) && self@.items.len() <= MAX_ITEMS
    }

    pub open spec fn itemsize_of(&self) -> nat {
        itemsize_spec(self@.kind)
    }

    /// An array of the given kind holding `items`, with no view exported.
    fn from_parts(kind: ElementKind, items: Vec<u64>) -> (r: PyArray)
        ensures
            r@.kind == kind && r@.items == items@ && r@.exports == 0,
    {
        PyArray { kind, items, exports: 0 }
    }

    /// An empty array of the kind that `typecode` names.
    pub fn new(typecode: char) -> (r: Result<PyArray, ArrayError>)
        ensures
            r is Err <==> !(exists|k: ElementKind| typecode_spec(k) == typecode),
            r matches Err(e) ==> e == ArrayError::BadTypecode,
            r matches Ok(a) ==> a.wf() && typecode_spec(a@.kind) == typecode && a@.items.len() == 0
                && a@.exports == 0 && kind_of_char(typecode) == Some(a@.kind),
            r is Err <==> kind_of_char(typecode) is None,
    {
        match ElementKind::from_char(typecode) {
            Ok(kind) => Ok(Self::from_parts(kind, Vec::new())),
            Err(e) => Err(e),
        }
    }

    pub fn kind(&self) -> (r: ElementKind)
        ensures
            r == self@.kind,
    {
        self.kind
    }

    pub fn typecode(&self) -> (r: char)
        ensures
            r == typecode_spec(self@.kind),
    {
        self.kind.typecode()
    }

    pub fn itemsize(&self) -> (r: usize)
        ensures
            r == self.itemsize_of(),
    {
        self.kind.itemsize()
    }

    pub fn __len__(&self) -> (r: usize)
        ensures
            r == self@.items.len(),
    {
        self.items.len()
    }

    /// The raw bits of every item, in order.
    pub fn raw_items(&self) -> (r: Vec<u64>)
        ensures
            r@ == self@.items,
    {
        self.items.clone()
    }

    /// Exports a byte view of the storage: until it is released, nothing may
    /// change the length.
    pub fn as_buffer(&mut self) -> (r: BufferDescriptor)
        requires
            old(self).wf(),
            old(self)@.exports < usize::MAX,
        ensures
            final(self)@.exports == old(self)@.exports + 1,
            final(self)@.items == old(self)@.items && final(self)@.kind == old(self)@.kind,
            final(self).wf(),
            r.len == old(self)@.items.len() * itemsize_spec(old(self)@.kind),
            r.itemsize == itemsize_spec(old(self)@.kind),
            r.format == typecode_spec(old(self)@.kind),
    {
        let n = self.kind.itemsize();
        let d = BufferDescriptor { len: self.items.len() * n, itemsize: n, format: self.kind.typecode() };
        self.exports = self.exports + 1;
        d
    }

    /// Gives back one exported view.
    pub fn release_buffer(&mut self)
        requires
            old(self)@.exports > 0,
        ensures
            final(self)@.exports == old(self)@.exports - 1,
            final(self)@.items == old(self)@.items && final(self)@.kind == old(self)@.kind,
    {
        self.exports = self.exports - 1;
    }

    /// The length may change only while no view is exported.
    pub fn try_resizable(&self) -> (r: Result<(), ArrayError>)
        ensures
            r is Ok <==> self@.exports == 0,
            r matches Err(e) ==> e == ArrayError::Exported,
    {
        if self.exports == 0 { Ok(()) } else { Err(ArrayError::Exported) }
    }

    /// Appends `x`, refused while a view is exported or when `x` does not fit.
    pub fn append(&mut self, x: ArrayValue) -> (r: Result<(), ArrayError>)
        requires
            old(self).wf(),
        ensures
            final(self).wf(),
            final(self)@.kind == old(self)@.kind && final(self)@.exports == old(self)@.exports,
            old(self)@.exports > 0 ==> r == Err::<(), ArrayError>(ArrayError::Exported),
            old(self)@.exports == 0 && convert_spec(old(self)@.kind, x) is Err
                ==> r == Err::<(), ArrayError>(convert_spec(old(self)@.kind, x)->Err_0),
            old(self)@.exports == 0 && old(self)@.items.len() >= MAX_ITEMS && convert_spec(old(self)@.kind, x) is Ok
                ==> r == Err::<(), ArrayError>(ArrayError::MemoryError),
            r is Ok <==> old(self)@.exports == 0 && convert_spec(old(self)@.kind, x) is Ok
                && old(self)@.items.len() < MAX_ITEMS,
            r is Ok ==> final(self)@.items == old(self)@.items.push(convert_spec(old(self)@.kind, x)->Ok_0),
            r is Err ==> final(self)@.items == old(self)@.items,
    {
        self.try_resizable()?;
        let raw = self.kind.convert(x)?;
        if self.items.len() >= MAX_ITEMS {
            return Err(ArrayError::MemoryError);
        }
        self.items.push(raw);
        Ok(())
    }

    /// The storage as bytes: each item's little-endian bytes in turn.
    pub fn tobytes(&self) -> (r: Vec<u8>)
        ensures
            r@ == encode(self@.items, self.itemsize_of()),
    {
        let n = self.kind.itemsize();
        let mut out: Vec<u8> = Vec::new();
        let mut i: usize = 0;
        while i < self.items.len()
            invariant
                i <= self.items@.len(),
                n == itemsize_spec(self.kind),
                n <= 8,
                out@ == encode(self.items@.subrange(0, i as int), n as nat),
            decreases self.items@.len() - i,
        {
            proof {
                let p = self.items@.subrange(0, i + 1);
                assert(p.drop_last() =~= self.items@.subrange(0, i as int));
            }
            push_le_bytes(&mut out, self.items[i], n);
            i = i + 1;
        }
        proof {
            assert(self.items@.subrange(0, i as int) =~= self.items@);
        }
        out
    }

    /// Appends the items that `b` encodes, refused when its length is not a
    /// multiple of the item size, or when it holds items while a view is
    /// exported.
    pub fn frombytes(&mut self, b: &[u8]) -> (r: Result<(), ArrayError>)
        requires
            old(self).wf(),
        ensures
            final(self).wf(),
            final(self)@.kind == old(self)@.kind && final(self)@.exports == old(self)@.exports,
            b@.len() % old(self).itemsize_of() != 0 ==> r == Err::<(), ArrayError>(ArrayError::BadLength),
            b@.len() % old(self).itemsize_of() == 0 && b@.len() > 0 && old(self)@.exports > 0
                ==> r == Err::<(), ArrayError>(ArrayError::Exported),
            b@.len() % old(self).itemsize_of() == 0 && (b@.len() == 0 || old(self)@.exports == 0)
                && old(self)@.items.len() + b@.len() / old(self).itemsize_of() > MAX_ITEMS
                ==> r == Err::<(), ArrayError>(ArrayError::MemoryError),
            r is Ok <==> b@.len() % old(self).itemsize_of() == 0 && (b@.len() == 0 || old(self)@.exports == 0)
                && old(self)@.items.len() + b@.len() / old(self).itemsize_of() <= MAX_ITEMS,
            r is Ok ==> final(self)@.items == old(self)@.items + decode(b@, old(self).itemsize_of()),
            r is Err ==> final(self)@.items == old(self)@.items,
    {
        let n = self.kind.itemsize();
        proof { lemma_modulus_is_pow(self.kind); }
        if b.len() % n != 0 {
            return Err(ArrayError::BadLength);
        }
        let count = b.len() / n;
        if count == 0 {
            proof { assert(decode(b@, n as nat) =~= Seq::empty()); assert(old(self)@.items + Seq::empty() =~= old(self)@.items); }
            return Ok(());
        }
        self.try_resizable()?;
        if count > MAX_ITEMS - self.items.len() {
            return Err(ArrayError::MemoryError);
        }
        let ghost base = self.items@;
        let mut i: usize = 0;
        while i < count
            invariant
                n == itemsize_spec(self.kind),
                1 <= n <= 8,
                modulus(self.kind) == pow(256, n as nat),
                count == (b@.len() as int) / (n as int),
                (b@.len() as int) % (n as int) == 0,
                b@.len() <= usize::MAX,
                i <= count,
                base.len() + count <= MAX_ITEMS,
                self.kind == old(self).kind,
                self.exports == old(self).exports,
                base == old(self)@.items,
                items_fit(self.kind, base),
                self.items@ == base + decode(b@, n as nat).subrange(0, i as int),
            decreases count - i,
        {
            proof {
                assert(i * n + n <= count * n) by (nonlinear_arith)
                    requires i < count, n >= 1;
                let (bl, ni) = (b@.len() as int, n as int);
                vstd::arithmetic::div_mod::lemma_fundamental_div_mod(bl, ni);
                assert(count * n <= bl) by (nonlinear_arith)
                    requires count == bl / ni, bl == ni * (bl / ni) + bl % ni, bl % ni == 0, ni == n;
            }
            let v = read_le(b, i * n, n);
            proof {
                lemma_le_value_bound(b@.subrange(i * n, i * n + n));
            }
            self.items.push(v);
            i = i + 1;
            proof {
                assert(self.items@ =~= base + decode(b@, n as nat).subrange(0, i as int));
            }
        }
        proof {
            assert(decode(b@, n as nat).subrange(0, i as int) =~= decode(b@, n as nat));
            assert forall|j: int| 0 <= j < self.items@.len() implies (#[trigger] self.items@[j] as int) < modulus(self.kind) by {
                if j >= base.len() {
                    let k = j - base.len();
                    lemma_le_value_bound(b@.subrange(k * n, k * n + n));
                }
            }
        }
        Ok(())
    }

    /// Inserts `x` before position `i` (negative counts from the end; out of
    /// range positions are clamped to the ends).
    pub fn insert(&mut self, i: i64, x: ArrayValue) -> (r: Result<(), ArrayError>)
        requires
            old(self).wf(),
        ensures
            final(self).wf(),
            final(self)@.kind == old(self)@.kind && final(self)@.exports == old(self)@.exports,
            old(self)@.exports > 0 ==> r == Err::<(), ArrayError>(ArrayError::Exported),
            old(self)@.exports == 0 && convert_spec(old(self)@.kind, x) is Err
                ==> r == Err::<(), ArrayError>(convert_spec(old(self)@.kind, x)->Err_0),
            r is Ok <==> old(self)@.exports == 0 && convert_spec(old(self)@.kind, x) is Ok
                && old(self)@.items.len() < MAX_ITEMS,
            r is Ok ==> final(self)@.items == old(self)@.items.insert(
                saturate(i as int, old(self)@.items.len() as int), convert_spec(old(self)@.kind, x)->Ok_0),
            r is Err ==> final(self)@.items == old(self)@.items,
    {
        self.try_resizable()?;
        let raw = self.kind.convert(x)?;
        if self.items.len() >= MAX_ITEMS {
            return Err(ArrayError::MemoryError);
        }
        let n = self.items.len();
        let pos: usize = if i < 0 {
            if (-(i as i128)) > n as i128 { 0 } else { (n as i128 + i as i128) as usize }
        } else if i as i128 > n as i128 {
            n
        } else {
            i as usize
        };
        self.items.insert(pos, raw);
        Ok(())
    }

    /// Removes the item at `i` (negative counts from the end; default the
    /// last) and gives what it read as.
    pub fn pop(&mut self, i: i64) -> (r: Result<ArrayValue, ArrayError>)
        requires
            old(self).wf(),
        ensures
            final(self).wf(),
            final(self)@.kind == old(self)@.kind && final(self)@.exports == old(self)@.exports,
            old(self)@.exports > 0 ==> r == Err::<ArrayValue, ArrayError>(ArrayError::Exported),
            old(self)@.exports == 0 && old(self)@.items.len() == 0 ==> r == Err::<ArrayValue, ArrayError>(ArrayError::EmptyPop),
            old(self)@.exports == 0 && old(self)@.items.len() > 0 && wrap_index(i as int, old(self)@.items.len() as int) is None
                ==> r == Err::<ArrayValue, ArrayError>(ArrayError::IndexOutOfRange),
            old(self)@.exports == 0 ==> (wrap_index(i as int, old(self)@.items.len() as int) matches Some(j) ==> ({
                &&& final(self)@.items == old(self)@.items.remove(j)
                &&& r == value_spec(old(self)@.kind, old(self)@.items[j])
            })),
            !(old(self)@.exports == 0 && wrap_index(i as int, old(self)@.items.len() as int) is Some)
                ==> final(self)@.items == old(self)@.items,
    {
        self.try_resizable()?;
        let n = self.items.len();
        if n == 0 {
            return Err(ArrayError::EmptyPop);
        }
        let j = match wrap_index_exec(i as i128, n) {
            Some(j) => j,
            None => return Err(ArrayError::IndexOutOfRange),
        };
        let raw = self.items.remove(j);
        proof { assert(self.items@.len() < old(self)@.items.len()); }
        self.kind.value_of(raw)
    }

    /// Removes the first item equal to `x`.
    pub fn remove(&mut self, x: ArrayValue) -> (r: Result<(), ArrayError>)
        requires
            old(self).wf(),
        ensures
            final(self).wf(),
            final(self)@.kind == old(self)@.kind && final(self)@.exports == old(self)@.exports,
            old(self)@.exports > 0 ==> r == Err::<(), ArrayError>(ArrayError::Exported),
            r is Ok <==> old(self)@.exports == 0 && (convert_spec(old(self)@.kind, x) matches Ok(v)
                && old(self)@.items.contains(v)),
            r is Ok ==> final(self)@.items == old(self)@.items.remove(
                first_index(old(self)@.items, convert_spec(old(self)@.kind, x)->Ok_0)),
            r is Err ==> final(self)@.items == old(self)@.items,
            r matches Err(e) ==> e == ArrayError::Exported || e == ArrayError::NotInArray,
    {
        self.try_resizable()?;
        let v = match self.kind.convert(x) {
            Ok(v) => v,
            Err(_) => return Err(ArrayError::NotInArray),
        };
        match find_raw(&self.items, v, 0, self.items.len()) {
            Some(p) => {
                proof { lemma_first_index(old(self)@.items, v, p as int); }
                self.items.remove(p);
                Ok(())
            }
            None => Err(ArrayError::NotInArray),
        }
    }

    /// How many items equal `x` (none when `x` cannot be stored here).
    pub fn count(&self, x: ArrayValue) -> (r: usize)
        requires
            self.wf(),
        ensures
            r == (match convert_spec(self@.kind, x) { Ok(v) => count_raw(self@.items, v), Err(_) => 0 }),
    {
        let v = match self.kind.convert(x) {
            Ok(v) => v,
            Err(_) => return 0,
        };
        let mut c: usize = 0;
        let mut i: usize = 0;
        while i < self.items.len()
            invariant
                i <= self.items@.len(),
                c == count_raw(self.items@.subrange(0, i as int), v),
                c <= i,
            decreases self.items@.len() - i,
        {
            proof {
                assert(self.items@.subrange(0, i + 1).drop_last() =~= self.items@.subrange(0, i as int));
            }
            if self.items[i] == v {
                c = c + 1;
            }
            i = i + 1;
        }
        proof { assert(self.items@.subrange(0, i as int) =~= self.items@); }
        c
    }

    /// The first position in `[start, stop)` (bounds resolved as for slices,
    /// without a step) whose item equals `x`.
    pub fn index(&self, x: ArrayValue, start: Option<i64>, stop: Option<i64>) -> (r: Result<usize, ArrayError>)
        requires
            self.wf(),
        ensures
            ({
                let n = self@.items.len() as int;
                let lo = match start { Some(v) => saturate(v as int, n), None => 0 };
                let hi = match stop { Some(v) => saturate(v as int, n), None => n };
                &&& r is Ok <==> (convert_spec(self@.kind, x) matches Ok(v)
                    && exists|p: int| lo <= p < hi && self@.items[p] == v)
                &&& r matches Ok(p) ==> lo <= p < hi && self@.items[p as int] == convert_spec(self@.kind, x)->Ok_0
                    && forall|q: int| lo <= q < p ==> self@.items[q] != convert_spec(self@.kind, x)->Ok_0
                &&& r matches Err(e) ==> e == ArrayError::NotInArray
            }),
    {
        let n = self.items.len();
        let lo = match start { Some(v) => saturate_exec(v, n), None => 0 };
        let hi = match stop { Some(v) => saturate_exec(v, n), None => n };
        let v = match self.kind.convert(x) {
            Ok(v) => v,
            Err(_) => return Err(ArrayError::NotInArray),
        };
        match find_raw(&self.items, v, lo, hi) {
            Some(p) => Ok(p),
            None => Err(ArrayError::NotInArray),
        }
    }

    /// Reverses the order of the items.
    pub fn reverse(&mut self)
        requires
            old(self).wf(),
        ensures
            final(self).wf(),
            final(self)@.kind == old(self)@.kind && final(self)@.exports == old(self)@.exports,
            final(self)@.items == old(self)@.items.reverse(),
    {
        let n = self.items.len();
        let mut out: Vec<u64> = Vec::with_capacity(n);
        let mut i: usize = 0;
        while i < n
            invariant
                n == self.items@.len(),
                i <= n,
                out@ == self.items@.reverse().subrange(0, i as int),
            decreases n - i,
        {
            out.push(self.items[n - 1 - i]);
            i = i + 1;
            proof { assert(out@ =~= self.items@.reverse().subrange(0, i as int)); }
        }
        proof { assert(out@ =~= self.items@.reverse()); }
        self.items = out;
    }

    /// Reverses the bytes of every item.
    pub fn byteswap(&mut self)
        requires
            old(self).wf(),
        ensures
            final(self).wf(),
            final(self)@.kind == old(self)@.kind && final(self)@.exports == old(self)@.exports,
            final(self)@.items.len() == old(self)@.items.len(),
            forall|j: int| 0 <= j < old(self)@.items.len() ==>
                #[trigger] final(self)@.items[j] == swapped(old(self)@.items[j] as nat, old(self).itemsize_of()),
    {
        let n = self.kind.itemsize();
        proof { lemma_modulus_is_pow(self.kind); }
        let mut i: usize = 0;
        while i < self.items.len()
            invariant
                n == itemsize_spec(self.kind),
                n <= 8,
                modulus(self.kind) == pow(256, n as nat),
                self.kind == old(self).kind && self.exports == old(self).exports,
                self.items@.len() == old(self)@.items.len(),
                self.items@.len() <= MAX_ITEMS,
                i <= self.items@.len(),
                items_fit(self.kind, self.items@),
                forall|j: int| 0 <= j < i ==> #[trigger] self.items@[j] == swapped(old(self)@.items[j] as nat, n as nat),
                forall|j: int| i <= j < self.items@.len() ==> #[trigger] self.items@[j] == old(self)@.items[j],
            decreases self.items@.len() - i,
        {
            let w = swap_bytes(self.items[i], n);
            self.items.set(i, w);
            i = i + 1;
        }
    }

    /// What the item at `i` reads as (negative counts from the end).
    pub fn getitem(&self, i: i64) -> (r: Result<ArrayValue, ArrayError>)
        requires
            self.wf(),
        ensures
            wrap_index(i as int, self@.items.len() as int) matches Some(j)
                ==> r == value_spec(self@.kind, self@.items[j]),
            wrap_index(i as int, self@.items.len() as int) is None
                ==> r == Err::<ArrayValue, ArrayError>(ArrayError::IndexOutOfRange),
    {
        match wrap_index_exec(i as i128, self.items.len()) {
            Some(j) => self.kind.value_of(self.items[j]),
            None => Err(ArrayError::IndexOutOfRange),
        }
    }

    /// Stores `x` at `i` (negative counts from the end). The length stays, so
    /// an exported view does not prevent it.
    pub fn setitem(&mut self, i: i64, x: ArrayValue) -> (r: Result<(), ArrayError>)
        requires
            old(self).wf(),
        ensures
            final(self).wf(),
            final(self)@.kind == old(self)@.kind && final(self)@.exports == old(self)@.exports,
            wrap_index(i as int, old(self)@.items.len() as int) is None
                ==> r == Err::<(), ArrayError>(ArrayError::IndexOutOfRange),
            wrap_index(i as int, old(self)@.items.len() as int) is Some && convert_spec(old(self)@.kind, x) is Err
                ==> r == Err::<(), ArrayError>(convert_spec(old(self)@.kind, x)->Err_0),
            r is Ok <==> wrap_index(i as int, old(self)@.items.len() as int) is Some
                && convert_spec(old(self)@.kind, x) is Ok,
            r is Ok ==> final(self)@.items == old(self)@.items.update(
                wrap_index(i as int, old(self)@.items.len() as int)->Some_0, convert_spec(old(self)@.kind, x)->Ok_0),
            r is Err ==> final(self)@.items == old(self)@.items,
    {
        let j = match wrap_index_exec(i as i128, self.items.len()) {
            Some(j) => j,
            None => return Err(ArrayError::IndexOutOfRange),
        };
        let raw = self.kind.convert(x)?;
        self.items.set(j, raw);
        proof {
            assert forall|k: int| 0 <= k < self.items@.len() implies (#[trigger] self.items@[k] as int) < modulus(self.kind) by {
                if k != j { assert(self.items@[k] == old(self)@.items[k]); }
            }
        }
        Ok(())
    }

    /// Deletes the item at `i` (negative counts from the end).
    pub fn delitem(&mut self, i: i64) -> (r: Result<(), ArrayError>)
        requires
            old(self).wf(),
        ensures
            final(self).wf(),
            final(self)@.kind == old(self)@.kind && final(self)@.exports == old(self)@.exports,
            old(self)@.exports > 0 ==> r == Err::<(), ArrayError>(ArrayError::Exported),
            old(self)@.exports == 0 && wrap_index(i as int, old(self)@.items.len() as int) is None
                ==> r == Err::<(), ArrayError>(ArrayError::IndexOutOfRange),
            r is Ok <==> old(self)@.exports == 0 && wrap_index(i as int, old(self)@.items.len() as int) is Some,
            r is Ok ==> final(self)@.items == old(self)@.items.remove(wrap_index(i as int, old(self)@.items.len() as int)->Some_0),
            r is Err ==> final(self)@.items == old(self)@.items,
    {
        self.try_resizable()?;
        let j = match wrap_index_exec(i as i128, self.items.len()) {
            Some(j) => j,
            None => return Err(ArrayError::IndexOutOfRange),
        };
        self.items.remove(j);
        Ok(())
    }

    /// A new array of the same kind holding the items that `s` selects.
    pub fn getitem_slice(&self, s: SliceArgs) -> (r: Result<PyArray, ArrayError>)
        requires
            self.wf(),
        ensures
            slice_step_is_zero(s) <==> r is Err,
            r matches Err(e) ==> e == ArrayError::ZeroStep,
            r matches Ok(g) ==> g.wf() && g@.kind == self@.kind && g@.exports == 0
                && g@.items == selected_items(self@.items, s),
    {
        let n = self.items.len();
        let (a, b, c) = match s.indices(n as u64) {
            None => return Err(ArrayError::ZeroStep),
            Some(t) => t,
        };
        let cnt = slice_length(a, b, c);
        proof { lemma_count_at_most_len(s, n as int); }
        let mut out: Vec<u64> = Vec::new();
        let mut k: u64 = 0;
        while k < cnt
            invariant
                n == self.items@.len(),
                n <= MAX_ITEMS,
                !slice_step_is_zero(s),
                (a as int, b as int, c as int) == slice_indices(s, n as int),
                cnt == count_steps(a as int, b as int, c as int),
                cnt <= n,
                k <= cnt,
                out@ == selected_items(self@.items, s).subrange(0, k as int),
            decreases cnt - k,
        {
            proof { lemma_selected_in_bounds(s, n as int, k as int); }
            let pos = a + c * (k as i128);
            out.push(self.items[pos as usize]);
            k = k + 1;
            proof { assert(out@ =~= selected_items(self@.items, s).subrange(0, k as int)); }
        }
        proof {
            assert(out@ =~= selected_items(self@.items, s));
            assert forall|j: int| 0 <= j < out@.len() implies (#[trigger] out@[j] as int) < modulus(self.kind) by {
                lemma_selected_in_bounds(s, n as int, j);
            }
        }
        Ok(Self::from_parts(self.kind, out))
    }

    /// Assigns the items of `other` to the positions that `s` selects. A
    /// contiguous slice may change the length (not while a view is exported);
    /// an extended one needs exactly as many items as it selects.
    #[verifier::rlimit(40)]
    pub fn setitem_slice(&mut self, s: SliceArgs, other: &PyArray) -> (r: Result<(), ArrayError>)
        requires
            old(self).wf(),
            other.wf(),
        ensures
            final(self).wf(),
            final(self)@.kind == old(self)@.kind && final(self)@.exports == old(self)@.exports,
            r is Err ==> final(self)@.items == old(self)@.items,
            slice_step_is_zero(s) ==> r == Err::<(), ArrayError>(ArrayError::ZeroStep),
            !slice_step_is_zero(s) && other@.kind != old(self)@.kind ==> r == Err::<(), ArrayError>(ArrayError::TypeMismatch),
            !slice_step_is_zero(s) && other@.kind == old(self)@.kind ==> ({
                let n = old(self)@.items.len() as int;
                let (a, b, c) = slice_indices(s, n);
                let cut = if b > a { b - a } else { 0 };
                if c == 1 {
                    if other@.items.len() != cut && old(self)@.exports > 0 {
                        r == Err::<(), ArrayError>(ArrayError::Exported)
                    } else if n - cut + other@.items.len() > MAX_ITEMS {
                        r == Err::<(), ArrayError>(ArrayError::MemoryError)
                    } else {
                        r is Ok && final(self)@.items == old(self)@.items.subrange(0, a) + other@.items
                            + old(self)@.items.subrange(a + cut, n)
                    }
                } else if other@.items.len() != count_steps(a, b, c) {
                    r == Err::<(), ArrayError>(ArrayError::SizeMismatch)
                } else {
                    r is Ok && final(self)@.items == Seq::new(n as nat, |j: int|
                        if in_progression(j, a, c, count_steps(a, b, c)) {
                            other@.items[progression_step(j, a, c)]
                        } else {
                            old(self)@.items[j]
                        })
                }
            }),
    {
        let n = self.items.len();
        let (a, b, c) = match s.indices(n as u64) {
            None => return Err(ArrayError::ZeroStep),
            Some(t) => t,
        };
        if other.kind != self.kind {
            return Err(ArrayError::TypeMismatch);
        }
        let cnt = slice_length(a, b, c);
        proof { lemma_count_at_most_len(s, n as int); }
        if c == 1 {
            let lo = a as usize;
            let cut: usize = if b > a { (b - a) as usize } else { 0 };
            if other.items.len() != cut && self.exports > 0 {
                return Err(ArrayError::Exported);
            }
            if other.items.len() > MAX_ITEMS - (n - cut) {
                return Err(ArrayError::MemoryError);
            }
            let mut out: Vec<u64> = Vec::new();
            let mut i: usize = 0;
            while i < lo
                invariant
                    lo <= n, n == self.items@.len(), i <= lo,
                    out@ == self.items@.subrange(0, i as int),
                decreases lo - i,
            {
                out.push(self.items[i]);
                i = i + 1;
                proof { assert(out@ =~= self.items@.subrange(0, i as int)); }
            }
            let mut i: usize = 0;
            while i < other.items.len()
                invariant
                    i <= other.items@.len(),
                    out@ == self.items@.subrange(0, lo as int) + other.items@.subrange(0, i as int),
                decreases other.items@.len() - i,
            {
                out.push(other.items[i]);
                i = i + 1;
                proof { assert(out@ =~= self.items@.subrange(0, lo as int) + other.items@.subrange(0, i as int)); }
            }
            let mut i: usize = lo + cut;
            while i < n
                invariant
                    lo + cut <= i <= n, n == self.items@.len(),
                    out@ == self.items@.subrange(0, lo as int) + other.items@
                        + self.items@.subrange(lo + cut, i as int),
                decreases n - i,
            {
                out.push(self.items[i]);
                i = i + 1;
                proof {
                    assert(out@ =~= self.items@.subrange(0, lo as int) + other.items@
                        + self.items@.subrange(lo + cut, i as int));
                }
            }
            proof {
                assert(other.items@.subrange(0, other.items@.len() as int) =~= other.items@);
                assert forall|j: int| 0 <= j < out@.len() implies (#[trigger] out@[j] as int) < modulus(self.kind) by {
                    if j < lo {
                        assert(out@[j] == self.items@[j]);
                    } else if j < lo + other.items@.len() {
                        assert(out@[j] == other.items@[j - lo]);
                    } else {
                        assert(out@[j] == self.items@[j - lo - other.items@.len() + lo + cut]);
                    }
                }
            }
            self.items = out;
            Ok(())
        } else {
            if other.items.len() as u64 != cnt {
                return Err(ArrayError::SizeMismatch);
            }
            let ghost target = Seq::new(n as nat, |j: int|
                if in_progression(j, a as int, c as int, cnt as int) {
                    other@.items[progression_step(j, a as int, c as int)]
                } else {
                    old(self)@.items[j]
                });
            let mut k: u64 = 0;
            while k < cnt
                invariant
                    n == self.items@.len(),
                    n <= MAX_ITEMS,
                    !slice_step_is_zero(s),
                    c != 0,
                    (a as int, b as int, c as int) == slice_indices(s, n as int),
                    cnt == count_steps(a as int, b as int, c as int),
                    cnt == other.items@.len(),
                    cnt <= n,
                    k <= cnt,
                    self.kind == old(self).kind && self.exports == old(self).exports,
                    self.kind == other.kind,
                    items_fit(self.kind, self.items@),
                    items_fit(other.kind, other.items@),
                    self.items@ == Seq::new(n as nat, |j: int|
                        if in_progression(j, a as int, c as int, k as int) {
                            other@.items[progression_step(j, a as int, c as int)]
                        } else {
                            old(self)@.items[j]
                        }),
                decreases cnt - k,
            {
                proof { lemma_selected_in_bounds(s, n as int, k as int); }
                let pos = a + c * (k as i128);
                let ghost before = self.items@;
                self.items.set(pos as usize, other.items[k as usize]);
                proof {
                    assert forall|j: int| 0 <= j < n implies #[trigger] self.items@[j] ==
                        (if in_progression(j, a as int, c as int, k + 1) {
                            other@.items[progression_step(j, a as int, c as int)]
                        } else {
                            old(self)@.items[j]
                        }) by {
                        lemma_progression_grow(j, a as int, c as int, k as int);
                    }
                    assert(self.items@ =~= Seq::new(n as nat, |j: int|
                        if in_progression(j, a as int, c as int, k + 1) {
                            other@.items[progression_step(j, a as int, c as int)]
                        } else {
                            old(self)@.items[j]
                        }));
                }
                k = k + 1;
            }
            Ok(())
        }
    }

    /// Deletes the items that `s` selects; refused while a view is exported.
    pub fn delitem_slice(&mut self, s: SliceArgs) -> (r: Result<(), ArrayError>)
        requires
            old(self).wf(),
        ensures
            final(self).wf(),
            final(self)@.kind == old(self)@.kind && final(self)@.exports == old(self)@.exports,
            old(self)@.exports > 0 ==> r == Err::<(), ArrayError>(ArrayError::Exported),
            old(self)@.exports == 0 && slice_step_is_zero(s) ==> r == Err::<(), ArrayError>(ArrayError::ZeroStep),
            r is Ok <==> old(self)@.exports == 0 && !slice_step_is_zero(s),
            r is Ok ==> ({
                let (a, b, c) = slice_indices(s, old(self)@.items.len() as int);
                final(self)@.items == unselected(old(self)@.items, a, c, count_steps(a, b, c))
            }),
            r is Err ==> final(self)@.items == old(self)@.items,
    {
        self.try_resizable()?;
        let n = self.items.len();
        let (a, b, c) = match s.indices(n as u64) {
            None => return Err(ArrayError::ZeroStep),
            Some(t) => t,
        };
        let cnt = slice_length(a, b, c);
        let mut out: Vec<u64> = Vec::new();
        let mut j: usize = 0;
        while j < n
            invariant
                n == self.items@.len(),
                n <= MAX_ITEMS,
                j <= n,
                c != 0,
                -1 <= a <= n,
                items_fit(self.kind, self.items@),
                out@ == unselected(self.items@.subrange(0, j as int), a as int, c as int, cnt as int),
                out@.len() <= j,
                items_fit(self.kind, out@),
            decreases n - j,
        {
            proof {
                assert(self.items@.subrange(0, j + 1).drop_last() =~= self.items@.subrange(0, j as int));
            }
            if !in_progression_exec(j as i128, a, c, cnt as i128) {
                out.push(self.items[j]);
            }
            j = j + 1;
        }
        proof { assert(self.items@.subrange(0, j as int) =~= self.items@); }
        self.items = out;
        Ok(())
    }

    /// A new array holding this array's items followed by `other`'s.
    pub fn __add__(&self, other: &PyArray) -> (r: Result<PyArray, ArrayError>)
        requires
            self.wf(),
            other.wf(),
        ensures
            other@.kind != self@.kind ==> r == Err::<PyArray, ArrayError>(ArrayError::TypeMismatch),
            other@.kind == self@.kind && self@.items.len() + other@.items.len() > MAX_ITEMS
                ==> r == Err::<PyArray, ArrayError>(ArrayError::MemoryError),
            r is Ok <==> other@.kind == self@.kind && self@.items.len() + other@.items.len() <= MAX_ITEMS,
            r matches Ok(g) ==> g.wf() && g@.kind == self@.kind && g@.exports == 0
                && g@.items == self@.items + other@.items,
    {
        if other.kind != self.kind {
            return Err(ArrayError::TypeMismatch);
        }
        if other.items.len() > MAX_ITEMS - self.items.len() {
            return Err(ArrayError::MemoryError);
        }
        let mut out = self.items.clone();
        let mut extra = other.items.clone();
        out.append(&mut extra);
        proof {
            assert forall|j: int| 0 <= j < out@.len() implies (#[trigger] out@[j] as int) < modulus(self.kind) by {
                if j >= self.items@.len() { assert(out@[j] == other.items@[j - self.items@.len()]); }
            }
        }
        Ok(Self::from_parts(self.kind, out))
    }

    /// Appends `other`'s items, which must be of the same kind; refused while a
    /// view is exported.
    pub fn __iadd__(&mut self, other: &PyArray) -> (r: Result<(), ArrayError>)
        requires
            old(self).wf(),
            other.wf(),
        ensures
            final(self).wf(),
            final(self)@.kind == old(self)@.kind && final(self)@.exports == old(self)@.exports,
            old(self)@.exports > 0 ==> r == Err::<(), ArrayError>(ArrayError::Exported),
            old(self)@.exports == 0 && other@.kind != old(self)@.kind ==> r == Err::<(), ArrayError>(ArrayError::TypeMismatch),
            r is Ok <==> old(self)@.exports == 0 && other@.kind == old(self)@.kind
                && old(self)@.items.len() + other@.items.len() <= MAX_ITEMS,
            r is Ok ==> final(self)@.items == old(self)@.items + other@.items,
            r is Err ==> final(self)@.items == old(self)@.items,
    {
        self.try_resizable()?;
        let g = self.__add__(other)?;
        self.items = g.items;
        Ok(())
    }

    /// Same as `__iadd__`: extends by the items of an array of the same kind.
    pub fn extend(&mut self, other: &PyArray) -> (r: Result<(), ArrayError>)
        requires
            old(self).wf(),
            other.wf(),
        ensures
            final(self).wf(),
            final(self)@.kind == old(self)@.kind && final(self)@.exports == old(self)@.exports,
            old(self)@.exports > 0 ==> r == Err::<(), ArrayError>(ArrayError::Exported),
            old(self)@.exports == 0 && other@.kind != old(self)@.kind ==> r == Err::<(), ArrayError>(ArrayError::TypeMismatch),
            r is Ok <==> old(self)@.exports == 0 && other@.kind == old(self)@.kind
                && old(self)@.items.len() + other@.items.len() <= MAX_ITEMS,
            r is Ok ==> final(self)@.items == old(self)@.items + other@.items,
            r is Err ==> final(self)@.items == old(self)@.items,
    {
        self.__iadd__(other)
    }

    /// A new array holding the items `n` times over (none when `n <= 0`).
    pub fn __mul__(&self, n: i64) -> (r: Result<PyArray, ArrayError>)
        requires
            self.wf(),
        ensures
            r is Ok <==> n <= 0 || self@.items.len() * n <= MAX_ITEMS,
            r matches Err(e) ==> e == ArrayError::MemoryError,
            r matches Ok(g) ==> g.wf() && g@.kind == self@.kind && g@.exports == 0
                && g@.items == repeat(self@.items, if n <= 0 { 0 } else { n as nat }),
    {
        let len = self.items.len();
        if n <= 0 {
            return Ok(Self::from_parts(self.kind, Vec::new()));
        }
        if len > 0 && n as u128 > (MAX_ITEMS / len) as u128 {
            proof {
                vstd::arithmetic::div_mod::lemma_fundamental_div_mod(MAX_ITEMS as int, len as int);
                assert(len * n > MAX_ITEMS) by (nonlinear_arith)
                    requires len > 0, n > MAX_ITEMS / len, MAX_ITEMS == len * (MAX_ITEMS / len) + MAX_ITEMS % len,
                        0 <= MAX_ITEMS % len < len;
            }
            return Err(ArrayError::MemoryError);
        }
        proof {
            if len > 0 {
                vstd::arithmetic::div_mod::lemma_fundamental_div_mod(MAX_ITEMS as int, len as int);
                assert(len * n <= MAX_ITEMS) by (nonlinear_arith)
                    requires len > 0, n <= MAX_ITEMS / len, MAX_ITEMS == len * (MAX_ITEMS / len) + MAX_ITEMS % len,
                        0 <= MAX_ITEMS % len < len, n > 0;
            }
        }
        let mut out: Vec<u64> = Vec::new();
        let mut t: i64 = 0;
        while t < n
            invariant
                0 <= t <= n,
                len == self.items@.len(),
                len * n <= MAX_ITEMS,
                out@ == repeat(self.items@, t as nat),
                out@.len() == len * t,
                items_fit(self.kind, self.items@),
                items_fit(self.kind, out@),
            decreases n - t,
        {
            let mut more = self.items.clone();
            proof {
                assert(len * (t + 1) <= len * n) by (nonlinear_arith)
                    requires t < n, len >= 0;
                assert(len * (t + 1) == len * t + len) by (nonlinear_arith);
                assert forall|j: int| 0 <= j < out@.len() + more@.len() implies
                    (#[trigger] (out@ + more@)[j] as int) < modulus(self.kind) by {
                    if j >= out@.len() { assert((out@ + more@)[j] == self.items@[j - out@.len()]); }
                }
            }
            out.append(&mut more);
            t = t + 1;
        }
        proof {
            if n > 0 && len == 0 {
                assert(len * n == 0);
            }
        }
        Ok(Self::from_parts(self.kind, out))
    }

    /// Repeats the items `n` times in place; refused while a view is exported.
    pub fn __imul__(&mut self, n: i64) -> (r: Result<(), ArrayError>)
        requires
            old(self).wf(),
        ensures
            final(self).wf(),
            final(self)@.kind == old(self)@.kind && final(self)@.exports == old(self)@.exports,
            old(self)@.exports > 0 ==> r == Err::<(), ArrayError>(ArrayError::Exported),
            r is Ok <==> old(self)@.exports == 0 && (n <= 0 || old(self)@.items.len() * n <= MAX_ITEMS),
            r is Ok ==> final(self)@.items == repeat(old(self)@.items, if n <= 0 { 0 } else { n as nat }),
            r is Err ==> final(self)@.items == old(self)@.items,
            r matches Err(e) ==> e == ArrayError::Exported || e == ArrayError::MemoryError,
    {
        self.try_resizable()?;
        let g = self.__mul__(n)?;
        self.items = g.items;
        Ok(())
    }

    /// A new array with the same kind and items and no exported view.
    pub fn __copy__(&self) -> (r: PyArray)
        requires
            self.wf(),
        ensures
            r.wf(),
            r@.kind == self@.kind && r@.items == self@.items && r@.exports == 0,
    {
        Self::from_parts(self.kind, self.items.clone())
    }

    pub fn __deepcopy__(&self) -> (r: PyArray)
        requires
            self.wf(),
        ensures
            r.wf(),
            r@.kind == self@.kind && r@.items == self@.items && r@.exports == 0,
    {
        self.__copy__()
    }

    /// What every item reads as, or the error of the first one that reads as
    /// none (a character item above U+10FFFF).
    pub fn tolist(&self) -> (r: Result<Vec<ArrayValue>, ArrayError>)
        requires
            self.wf(),
        ensures
            r is Ok <==> forall|j: int| 0 <= j < self@.items.len() ==> #[trigger] value_spec(self@.kind, self@.items[j]) is Ok,
            r matches Ok(v) ==> v@.len() == self@.items.len()
                && forall|j: int| 0 <= j < v@.len() ==> Ok::<ArrayValue, ArrayError>(#[trigger] v@[j]) == value_spec(self@.kind, self@.items[j]),
            r matches Err(e) ==> e == ArrayError::InvalidCodePoint,
    {
        let mut out: Vec<ArrayValue> = Vec::new();
        let mut i: usize = 0;
        while i < self.items.len()
            invariant
                i <= self.items@.len(),
                items_fit(self.kind, self.items@),
                out@.len() == i,
                forall|j: int| 0 <= j < i ==> #[trigger] value_spec(self.kind, self.items@[j]) is Ok,
                forall|j: int| 0 <= j < i ==> Ok::<ArrayValue, ArrayError>(#[trigger] out@[j]) == value_spec(self.kind, self.items@[j]),
            decreases self.items@.len() - i,
        {
            match self.kind.value_of(self.items[i]) {
                Ok(v) => out.push(v),
                Err(e) => {
                    proof {
                        if !is_int_kind(self.kind) && self.kind != ElementKind::PyUnicode {
                            assert(false);
                        }
                    }
                    return Err(e);
                }
            }
            i = i + 1;
        }
        Ok(out)
    }

    /// Appends every value, all converted before any is stored: on an error
    /// the array is unchanged.
    pub fn fromlist(&mut self, values: &Vec<ArrayValue>) -> (r: Result<(), ArrayError>)
        requires
            old(self).wf(),
        ensures
            final(self).wf(),
            final(self)@.kind == old(self)@.kind && final(self)@.exports == old(self)@.exports,
            old(self)@.exports > 0 ==> r == Err::<(), ArrayError>(ArrayError::Exported),
            r is Ok <==> old(self)@.exports == 0
                && (forall|j: int| 0 <= j < values@.len() ==> #[trigger] convert_spec(old(self)@.kind, values@[j]) is Ok)
                && old(self)@.items.len() + values@.len() <= MAX_ITEMS,
            r is Ok ==> final(self)@.items.len() == old(self)@.items.len() + values@.len()
                && final(self)@.items.subrange(0, old(self)@.items.len() as int) == old(self)@.items
                && forall|j: int| 0 <= j < values@.len() ==> Ok::<u64, ArrayError>(#[trigger] final(self)@.items[old(self)@.items.len() + j])
                    == convert_spec(old(self)@.kind, values@[j]),
            r is Err ==> final(self)@.items == old(self)@.items,
    {
        self.try_resizable()?;
        let raws = self.convert_all(values)?;
        if raws.len() > MAX_ITEMS - self.items.len() {
            return Err(ArrayError::MemoryError);
        }
        let ghost base = self.items@;
        let mut more = raws;
        self.items.append(&mut more);
        proof {
            assert(self.items@.subrange(0, base.len() as int) =~= base);
            assert forall|j: int| 0 <= j < self.items@.len() implies (#[trigger] self.items@[j] as int) < modulus(self.kind) by {
                if j >= base.len() { assert(self.items@[j] == raws@[j - base.len()]); }
            }
            assert forall|j: int| 0 <= j < values@.len() implies Ok::<u64, ArrayError>(#[trigger] self.items@[base.len() + j])
                    == convert_spec(old(self)@.kind, values@[j]) by {
                assert(self.items@[base.len() + j] == raws@[j]);
            }
        }
        Ok(())
    }

    /// The raw bits of every value, or the error of the first that cannot be
    /// stored in this kind.
    fn convert_all(&self, values: &Vec<ArrayValue>) -> (r: Result<Vec<u64>, ArrayError>)
        ensures
            r is Ok <==> forall|j: int| 0 <= j < values@.len() ==> #[trigger] convert_spec(self@.kind, values@[j]) is Ok,
            r matches Ok(v) ==> v@.len() == values@.len() && items_fit(self@.kind, v@)
                && forall|j: int| 0 <= j < values@.len() ==> Ok::<u64, ArrayError>(#[trigger] v@[j]) == convert_spec(self@.kind, values@[j]),
            r matches Err(e) ==> exists|j: int| 0 <= j < values@.len() && convert_spec(self@.kind, #[trigger] values@[j]) == Err::<u64, ArrayError>(e),
    {
        let mut out: Vec<u64> = Vec::new();
        let mut i: usize = 0;
        while i < values.len()
            invariant
                i <= values@.len(),
                out@.len() == i,
                items_fit(self.kind, out@),
                forall|j: int| 0 <= j < i ==> #[trigger] convert_spec(self.kind, values@[j]) is Ok,
                forall|j: int| 0 <= j < i ==> Ok::<u64, ArrayError>(#[trigger] out@[j]) == convert_spec(self.kind, values@[j]),
            decreases values@.len() - i,
        {
            match self.kind.convert(values[i]) {
                Ok(v) => out.push(v),
                Err(e) => return Err(e),
            }
            i = i + 1;
        }
        Ok(out)
    }

    /// Appends the characters of `text`; only for arrays of kind `u`, and not
    /// while a view is exported.
    pub fn fromunicode(&mut self, text: &Vec<char>) -> (r: Result<(), ArrayError>)
        requires
            old(self).wf(),
        ensures
            final(self).wf(),
            final(self)@.kind == old(self)@.kind && final(self)@.exports == old(self)@.exports,
            old(self)@.kind != ElementKind::PyUnicode ==> r == Err::<(), ArrayError>(ArrayError::NotUnicode),
            old(self)@.kind == ElementKind::PyUnicode && old(self)@.exports > 0 ==> r == Err::<(), ArrayError>(ArrayError::Exported),
            r is Ok <==> old(self)@.kind == ElementKind::PyUnicode && old(self)@.exports == 0
                && old(self)@.items.len() + text@.len() <= MAX_ITEMS,
            r is Ok ==> final(self)@.items == old(self)@.items + code_points(text@),
            r is Err ==> final(self)@.items == old(self)@.items,
    {
        if self.kind != ElementKind::PyUnicode {
            return Err(ArrayError::NotUnicode);
        }
        self.try_resizable()?;
        if text.len() > MAX_ITEMS - self.items.len() {
            return Err(ArrayError::MemoryError);
        }
        let ghost base = self.items@;
        let mut i: usize = 0;
        while i < text.len()
            invariant
                i <= text@.len(),
                self.kind == ElementKind::PyUnicode,
                self.kind == old(self).kind && self.exports == old(self).exports,
                base == old(self)@.items,
                base.len() + text@.len() <= MAX_ITEMS,
                items_fit(self.kind, self.items@),
                self.items@ == base + code_points(text@).subrange(0, i as int),
            decreases text@.len() - i,
        {
            let c = text[i] as u32;
            self.items.push(c as u64);
            i = i + 1;
            proof { assert(self.items@ =~= base + code_points(text@).subrange(0, i as int)); }
        }
        proof { assert(code_points(text@).subrange(0, i as int) =~= code_points(text@)); }
        Ok(())
    }

    /// The code points of an array of kind `u`.
    pub fn tounicode(&self) -> (r: Result<Vec<u32>, ArrayError>)
        requires
            self.wf(),
        ensures
            self@.kind != ElementKind::PyUnicode ==> r == Err::<Vec<u32>, ArrayError>(ArrayError::NotUnicode),
            self@.kind == ElementKind::PyUnicode ==> (r is Ok <==> forall|j: int| 0 <= j < self@.items.len() ==> #[trigger] self@.items[j] <= 0x10FFFF),
            r matches Ok(v) ==> v@.len() == self@.items.len() && forall|j: int| 0 <= j < v@.len() ==> #[trigger] v@[j] == self@.items[j],
            r matches Err(e) ==> e == ArrayError::NotUnicode || e == ArrayError::InvalidCodePoint,
    {
        if self.kind != ElementKind::PyUnicode {
            return Err(ArrayError::NotUnicode);
        }
        let mut out: Vec<u32> = Vec::new();
        let mut i: usize = 0;
        while i < self.items.len()
            invariant
                i <= self.items@.len(),
                self.kind == ElementKind::PyUnicode,
                out@.len() == i,
                forall|j: int| 0 <= j < i ==> #[trigger] self@.items[j] <= 0x10FFFF,
                forall|j: int| 0 <= j < i ==> #[trigger] out@[j] == self@.items[j],
            decreases self.items@.len() - i,
        {
            let v = self.items[i];
            if v > 0x10FFFF {
                proof { assert(!(self@.items[i as int] <= 0x10FFFF)); }
                return Err(ArrayError::InvalidCodePoint);
            }
            out.push(v as u32);
            i = i + 1;
        }
        Ok(out)
    }

    /// Element-wise equality. Items of one kind compare by their bits; an
    /// integer item never equals a character item. `None` when either array
    /// holds floating-point items, whose comparison is left to the caller.
    pub fn array_eq(&self, other: &PyArray) -> (r: Option<bool>)
        requires
            self.wf(),
            other.wf(),
        ensures
            (is_float_kind(self@.kind) || is_float_kind(other@.kind)) <==> r is None,
            r matches Some(b) ==> b == (self@.items.len() == other@.items.len()
                && forall|j: int| 0 <= j < self@.items.len() ==>
                    #[trigger] item_key(self@.kind, self@.items[j]) == item_key(other@.kind, other@.items[j])),
    {
        if self.kind.is_float() || other.kind.is_float() {
            return None;
        }
        if self.items.len() != other.items.len() {
            return Some(false);
        }
        let mut i: usize = 0;
        while i < self.items.len()
            invariant
                i <= self.items@.len(),
                self.items@.len() == other.items@.len(),
                !is_float_kind(self.kind) && !is_float_kind(other.kind),
                items_fit(self.kind, self.items@),
                items_fit(other.kind, other.items@),
                forall|j: int| 0 <= j < i ==> #[trigger] item_key(self.kind, self.items@[j]) == item_key(other.kind, other.items@[j]),
            decreases self.items@.len() - i,
        {
            let ka = key_of(self.kind, self.items[i]);
            let kb = key_of(other.kind, other.items[i]);
            if ka.0 != kb.0 || ka.1 != kb.1 {
                return Some(false);
            }
            i = i + 1;
        }
        Some(true)
    }
}

/// What an item compares by: whether it is a character, and its number.
pub open spec fn item_key(k: ElementKind, r: u64) -> (bool, int) {
    if k == ElementKind::PyUnicode { (true, r as int) } else { (false, int_of_raw(k, r as int)) }
}

fn key_of(k: ElementKind, r: u64) -> (res: (bool, i128))
    requires
        (r as int) < modulus(k),
    ensures
        (res.0, res.1 as int) == item_key(k, r),
{
    if k == ElementKind::PyUnicode {
        (true, r as i128)
    } else {
        let m = k.modulus_exec();
        if k.is_signed() && (r as u128) >= m / 2 {
            (false, (r as i128) - (m as i128))
        } else {
            (false, r as i128)
        }
    }
}

/// `s` repeated `n` times.
pub open spec fn repeat(s: Seq<u64>, n: nat) -> Seq<u64>
    decreases n,
{
    if n == 0 { Seq::empty() } else { repeat(s, (n - 1) as nat) + s }
}

/// The code point of each character.
pub open spec fn code_points(t: Seq<char>) -> Seq<u64> {
    Seq::new(t.len(), |j: int| (t[j] as u32) as u64)
}

/// The items at the positions a subscript selects, in order.
pub open spec fn selected_items(items: Seq<u64>, s: SliceArgs) -> Seq<u64> {
    let (a, b, c) = slice_indices(s, items.len() as int);
    Seq::new(count_steps(a, b, c) as nat, |k: int| items[a + c * k])
}

/// The items whose positions are not among the first `k` of `a, a + c, ...`.
pub open spec fn unselected(items: Seq<u64>, a: int, c: int, k: int) -> Seq<u64>
    decreases items.len(),
{
    if items.len() == 0 {
        Seq::empty()
    } else {
        let p = unselected(items.drop_last(), a, c, k);
        if in_progression(items.len() - 1, a, c, k) { p } else { p.push(items.last()) }
    }
}

/// A position counted from the end when negative, if it then lies inside.
pub open spec fn wrap_index(i: int, len: int) -> Option<int> {
    let j = if i < 0 { i + len } else { i };
    if 0 <= j < len { Some(j) } else { None }
}

/// A position counted from the end when negative, clamped into `[0, len]`.
pub open spec fn saturate(i: int, len: int) -> int {
    if i < 0 {
        if i + len < 0 { 0 } else { i + len }
    } else if i > len {
        len
    } else {
        i
    }
}

fn wrap_index_exec(i: i128, len: usize) -> (r: Option<usize>)
    ensures
        r == (match wrap_index(i as int, len as int) { Some(j) => Some(j as usize), None => None }),
{
    let j: i128 = if i < 0 { i + len as i128 } else { i };
    if 0 <= j && j < len as i128 { Some(j as usize) } else { None }
}

fn saturate_exec(i: i64, len: usize) -> (r: usize)
    requires
        len <= MAX_ITEMS,
    ensures
        r == saturate(i as int, len as int),
{
    if i < 0 {
        let j = i as i128 + len as i128;
        if j < 0 { 0 } else { j as usize }
    } else if i as i128 > len as i128 {
        len
    } else {
        i as usize
    }
}

/// How many times `v` occurs in `s`.
pub open spec fn count_raw(s: Seq<u64>, v: u64) -> nat
    decreases s.len(),
{
    if s.len() == 0 { 0 } else { count_raw(s.drop_last(), v) + if s.last() == v { 1nat } else { 0nat } }
}

/// The first position of `v` in `s`.
pub open spec fn first_index(s: Seq<u64>, v: u64) -> int {
    choose|p: int| 0 <= p < s.len() && s[p] == v && forall|q: int| 0 <= q < p ==> s[q] != v
}

proof fn lemma_first_index(s: Seq<u64>, v: u64, p: int)
    requires
        0 <= p < s.len(),
        s[p] == v,
        forall|q: int| 0 <= q < p ==> s[q] != v,
    ensures
        first_index(s, v) == p,
{
    let f = first_index(s, v);
    assert(0 <= f < s.len() && s[f] == v && forall|q: int| 0 <= q < f ==> s[q] != v);
    if f < p {
        assert(s[f] != v);
    } else if p < f {
        assert(s[p] != v);
    }
}

/// The first position in `[lo, hi)` whose item is `v`.
fn find_raw(items: &Vec<u64>, v: u64, lo: usize, hi: usize) -> (r: Option<usize>)
    requires
        lo <= items@.len(),
        hi <= items@.len(),
    ensures
        r is Some <==> exists|p: int| lo <= p < hi && items@[p] == v,
        r matches Some(p) ==> lo <= p < hi && items@[p as int] == v
            && forall|q: int| lo <= q < p ==> items@[q] != v,
{
    let mut i = lo;
    while i < hi
        invariant
            lo <= i,
            hi <= items@.len(),
            forall|q: int| lo <= q < i ==> items@[q] != v,
        decreases hi - i,
    {
        if items[i] == v {
            return Some(i);
        }
        i = i + 1;
    }
    None
}

/// Decoding an array's bytes gives back its items, for every element kind.
pub proof fn lemma_frombytes_tobytes(a: PyArray)
    requires
        a.wf(),
    ensures
        decode(encode(a@.items, a.itemsize_of()), a.itemsize_of()) == a@.items,
{
    lemma_modulus_is_pow(a@.kind);
    lemma_decode_encode(a@.items, a.itemsize_of());
}

} // verus!

verus! {

/// How serialized items are laid out: width, signedness and byte order of an
/// integer, a float's byte order, or the encoding of characters.
#[derive(Clone, Copy, Debug, PartialEq, Eq, Structural)]
pub enum MachineFormatCode {
    Int8 { signed: bool },
    Int16 { signed: bool, big_endian: bool },
    Int32 { signed: bool, big_endian: bool },
    Int64 { signed: bool, big_endian: bool },
    Ieee754Float { big_endian: bool },
    Ieee754Double { big_endian: bool },
    Utf16 { big_endian: bool },
    Utf32 { big_endian: bool },
}

pub open spec fn b2i(b: bool) -> int {
    if b { 1 } else { 0 }
}

/// The number that stands for a format on the wire, 0 to 21.
pub open spec fn format_code_spec(m: MachineFormatCode) -> int {
    match m {
        MachineFormatCode::Int8 { signed } => b2i(signed),
        MachineFormatCode::Int16 { signed, big_endian } => 2 + 2 * b2i(signed) + b2i(big_endian),
        MachineFormatCode::Int32 { signed, big_endian } => 6 + 2 * b2i(signed) + b2i(big_endian),
        MachineFormatCode::Int64 { signed, big_endian } => 10 + 2 * b2i(signed) + b2i(big_endian),
        MachineFormatCode::Ieee754Float { big_endian } => 14 + b2i(big_endian),
        MachineFormatCode::Ieee754Double { big_endian } => 16 + b2i(big_endian),
        MachineFormatCode::Utf16 { big_endian } => 18 + b2i(big_endian),
        MachineFormatCode::Utf32 { big_endian } => 20 + b2i(big_endian),
    }
}

pub open spec fn format_item_size(m: MachineFormatCode) -> nat {
    match m {
        MachineFormatCode::Int8 { .. } => 1,
        MachineFormatCode::Int16 { .. } | MachineFormatCode::Utf16 { .. } => 2,
        MachineFormatCode::Int32 { .. } | MachineFormatCode::Utf32 { .. }
        | MachineFormatCode::Ieee754Float { .. } => 4,
        _ => 8,
    }
}

pub open spec fn format_is_big_endian(m: MachineFormatCode) -> bool {
    match m {
        MachineFormatCode::Int8 { .. } => false,
        MachineFormatCode::Int16 { big_endian, .. } | MachineFormatCode::Int32 { big_endian, .. }
        | MachineFormatCode::Int64 { big_endian, .. } | MachineFormatCode::Ieee754Float { big_endian }
        | MachineFormatCode::Ieee754Double { big_endian } | MachineFormatCode::Utf16 { big_endian }
        | MachineFormatCode::Utf32 { big_endian } => big_endian,
    }
}

/// The layout of this library's own storage: little-endian, the signedness
/// and width of the kind, UTF-32 for characters.
pub open spec fn native_format(k: ElementKind) -> MachineFormatCode {
    match k {
        ElementKind::SignedByte => MachineFormatCode::Int8 { signed: true },
        ElementKind::UnsignedByte => MachineFormatCode::Int8 { signed: false },
        ElementKind::PyUnicode => MachineFormatCode::Utf32 { big_endian: false },
        ElementKind::SignedShort => MachineFormatCode::Int16 { signed: true, big_endian: false },
        ElementKind::UnsignedShort => MachineFormatCode::Int16 { signed: false, big_endian: false },
        ElementKind::SignedInt => MachineFormatCode::Int32 { signed: true, big_endian: false },
        ElementKind::UnsignedInt => MachineFormatCode::Int32 { signed: false, big_endian: false },
        ElementKind::SignedLong | ElementKind::SignedLongLong => MachineFormatCode::Int64 { signed: true, big_endian: false },
        ElementKind::UnsignedLong | ElementKind::UnsignedLongLong => MachineFormatCode::Int64 { signed: false, big_endian: false },
        ElementKind::Float => MachineFormatCode::Ieee754Float { big_endian: false },
        ElementKind::Double => MachineFormatCode::Ieee754Double { big_endian: false },
    }
}

impl MachineFormatCode {
    /// The wire number of this format.
    pub fn code(&self) -> (r: u8)
        ensures
            r == format_code_spec(*self),
    {
        let b = |x: bool| -> (r: u8) ensures r == b2i(x) { if x { 1 } else { 0 } };
        match *self {
            MachineFormatCode::Int8 { signed } => b(signed),
            MachineFormatCode::Int16 { signed, big_endian } => 2 + 2 * b(signed) + b(big_endian),
            MachineFormatCode::Int32 { signed, big_endian } => 6 + 2 * b(signed) + b(big_endian),
            MachineFormatCode::Int64 { signed, big_endian } => 10 + 2 * b(signed) + b(big_endian),
            MachineFormatCode::Ieee754Float { big_endian } => 14 + b(big_endian),
            MachineFormatCode::Ieee754Double { big_endian } => 16 + b(big_endian),
            MachineFormatCode::Utf16 { big_endian } => 18 + b(big_endian),
            MachineFormatCode::Utf32 { big_endian } => 20 + b(big_endian),
        }
    }

    /// The format a wire number stands for; numbers above 21 are refused.
    pub fn try_from_u8(code: u8) -> (r: Result<MachineFormatCode, u8>)
        ensures
            r is Err <==> code > 21,
            r matches Ok(m) ==> format_code_spec(m) == code,
            r matches Err(c) ==> c == code,
    {
        let big_endian = code % 2 != 0;
        let signed = if code <= 1 { code != 0 } else if code <= 13 { (code - 2) % 4 >= 2 } else { false };
        if code <= 1 {
            Ok(MachineFormatCode::Int8 { signed })
        } else if code <= 5 {
            Ok(MachineFormatCode::Int16 { signed, big_endian })
        } else if code <= 9 {
            Ok(MachineFormatCode::Int32 { signed, big_endian })
        } else if code <= 13 {
            Ok(MachineFormatCode::Int64 { signed, big_endian })
        } else if code <= 15 {
            Ok(MachineFormatCode::Ieee754Float { big_endian })
        } else if code <= 17 {
            Ok(MachineFormatCode::Ieee754Double { big_endian })
        } else if code <= 19 {
            Ok(MachineFormatCode::Utf16 { big_endian })
        } else if code <= 21 {
            Ok(MachineFormatCode::Utf32 { big_endian })
        } else {
            Err(code)
        }
    }

    /// The format an integer argument names: numbers outside 0..=21 are refused.
    pub fn from_int(v: i32) -> (r: Result<MachineFormatCode, ArrayError>)
        ensures
            r is Ok <==> 0 <= v <= 21,
            r matches Ok(m) ==> format_code_spec(m) == v,
            r matches Err(e) ==> e == ArrayError::BadFormatCode,
    {
        if v < 0 || v > 255 {
            return Err(ArrayError::BadFormatCode);
        }
        match Self::try_from_u8(v as u8) {
            Ok(m) => Ok(m),
            Err(_) => Err(ArrayError::BadFormatCode),
        }
    }

    /// The layout of an array of the kind that `code` names, if any.
    pub fn from_typecode(code: char) -> (r: Option<MachineFormatCode>)
        ensures
            r is Some <==> (exists|k: ElementKind| typecode_spec(k) == code),
            forall|k: ElementKind| typecode_spec(k) == code ==> r == Some(native_format(k)),
    {
        match ElementKind::from_char(code) {
            Ok(k) => {
                proof {
                    assert forall|k2: ElementKind| typecode_spec(k2) == code implies k2 == k by {
                        match k2 { _ => {} }
                    }
                }
                Some(native_format_exec(k))
            }
            Err(_) => None,
        }
    }

    pub fn item_size(&self) -> (r: usize)
        ensures
            r == format_item_size(*self),
    {
        match self {
            MachineFormatCode::Int8 { .. } => 1,
            MachineFormatCode::Int16 { .. } | MachineFormatCode::Utf16 { .. } => 2,
            MachineFormatCode::Int32 { .. } | MachineFormatCode::Utf32 { .. }
            | MachineFormatCode::Ieee754Float { .. } => 4,
            _ => 8,
        }
    }

    fn is_big_endian(&self) -> (r: bool)
        ensures
            r == format_is_big_endian(*self),
    {
        match *self {
            MachineFormatCode::Int8 { .. } => false,
            MachineFormatCode::Int16 { big_endian, .. } | MachineFormatCode::Int32 { big_endian, .. }
            | MachineFormatCode::Int64 { big_endian, .. } | MachineFormatCode::Ieee754Float { big_endian }
            | MachineFormatCode::Ieee754Double { big_endian } | MachineFormatCode::Utf16 { big_endian }
            | MachineFormatCode::Utf32 { big_endian } => big_endian,
        }
    }
}

fn native_format_exec(k: ElementKind) -> (r: MachineFormatCode)
    ensures
        r == native_format(k),
{
    match k {
        ElementKind::SignedByte => MachineFormatCode::Int8 { signed: true },
        ElementKind::UnsignedByte => MachineFormatCode::Int8 { signed: false },
        ElementKind::PyUnicode => MachineFormatCode::Utf32 { big_endian: false },
        ElementKind::SignedShort => MachineFormatCode::Int16 { signed: true, big_endian: false },
        ElementKind::UnsignedShort => MachineFormatCode::Int16 { signed: false, big_endian: false },
        ElementKind::SignedInt => MachineFormatCode::Int32 { signed: true, big_endian: false },
        ElementKind::UnsignedInt => MachineFormatCode::Int32 { signed: false, big_endian: false },
        ElementKind::SignedLong | ElementKind::SignedLongLong => MachineFormatCode::Int64 { signed: true, big_endian: false },
        ElementKind::UnsignedLong | ElementKind::UnsignedLongLong => MachineFormatCode::Int64 { signed: false, big_endian: false },
        ElementKind::Float => MachineFormatCode::Ieee754Float { big_endian: false },
        ElementKind::Double => MachineFormatCode::Ieee754Double { big_endian: false },
    }
}

/// Every format survives the trip through its wire number, and every wire
/// number up to 21 through its format.
pub proof fn lemma_format_code_round_trip(m: MachineFormatCode, c: u8)
    ensures
        0 <= format_code_spec(m) <= 21,
        c <= 21 ==> exists|m2: MachineFormatCode| format_code_spec(m2) == c,
        forall|m1: MachineFormatCode, m2: MachineFormatCode|
            format_code_spec(m1) == format_code_spec(m2) ==> m1 == m2,
{
    if c <= 21 {
        let big_endian = c % 2 != 0;
        let signed = if c <= 1 { c != 0 } else if c <= 13 { (c - 2) % 4 >= 2 } else { false };
        let m2 = if c <= 1 {
            MachineFormatCode::Int8 { signed }
        } else if c <= 5 {
            MachineFormatCode::Int16 { signed, big_endian }
        } else if c <= 9 {
            MachineFormatCode::Int32 { signed, big_endian }
        } else if c <= 13 {
            MachineFormatCode::Int64 { signed, big_endian }
        } else if c <= 15 {
            MachineFormatCode::Ieee754Float { big_endian }
        } else if c <= 17 {
            MachineFormatCode::Ieee754Double { big_endian }
        } else if c <= 19 {
            MachineFormatCode::Utf16 { big_endian }
        } else {
            MachineFormatCode::Utf32 { big_endian }
        };
        assert(format_code_spec(m2) == c);
    }
}

/// What `String::from_utf16` makes of some UTF-16 code units: the characters,
/// or nothing when a surrogate is unpaired.
pub uninterp spec fn utf16_decode(units: Seq<u16>) -> Option<Seq<char>>;

/// Relies on `String::from_utf16` (std): decodes UTF-16, failing exactly on
/// unpaired surrogates; the characters come out in order.
#[verifier::external_body]
fn decode_utf16(units: &Vec<u16>) -> (r: Option<Vec<char>>)
    ensures
        r is None <==> utf16_decode(units@) is None,
        r matches Some(v) ==> utf16_decode(units@) == Some(v@),
{
    match String::from_utf16(units.as_slice()) {
        Ok(s) => Some(s.chars().collect()),
        Err(_) => None,
    }
}

/// The raw number in a serialized chunk, read in the format's byte order.
pub open spec fn chunk_raw(m: MachineFormatCode, chunk: Seq<u8>) -> nat {
    if format_is_big_endian(m) { be_value(chunk) } else { le_value(chunk) }
}

/// What a serialized chunk stands for under a numeric or UTF-32 format.
pub open spec fn chunk_value(m: MachineFormatCode, chunk: Seq<u8>) -> ArrayValue {
    let raw = chunk_raw(m, chunk);
    let half = pow(256, format_item_size(m)) / 2;
    match m {
        MachineFormatCode::Int8 { signed } | MachineFormatCode::Int16 { signed, .. }
        | MachineFormatCode::Int32 { signed, .. } | MachineFormatCode::Int64 { signed, .. } =>
            ArrayValue::Int((if signed && raw >= half { raw - 2 * half } else { raw as int }) as i128),
        MachineFormatCode::Utf16 { .. } | MachineFormatCode::Utf32 { .. } => ArrayValue::Char(raw as u32),
        _ => ArrayValue::Bits(raw as u64),
    }
}

pub open spec fn is_float_format(m: MachineFormatCode) -> bool {
    m matches MachineFormatCode::Ieee754Float { .. } || m matches MachineFormatCode::Ieee754Double { .. }
}

/// The raw item that chunk `i` of `bytes` becomes in an array of kind `k`.
pub open spec fn chunk_item(k: ElementKind, m: MachineFormatCode, bytes: Seq<u8>, i: int) -> Result<u64, ArrayError> {
    let n = format_item_size(m) as int;
    if is_float_format(m) && is_float_kind(k) && format_item_size(m) != itemsize_spec(k) {
        Err(ArrayError::FloatWidth)
    } else {
        convert_spec(k, chunk_value(m, bytes.subrange(i * n, i * n + n)))
    }
}

/// The UTF-16 code units of `bytes`, in the given byte order.
pub open spec fn utf16_units(bytes: Seq<u8>, big_endian: bool) -> Seq<u16> {
    Seq::new(bytes.len() / 2, |i: int|
        (if big_endian { be_value(bytes.subrange(2 * i, 2 * i + 2)) } else { le_value(bytes.subrange(2 * i, 2 * i + 2)) }) as u16)
}

impl PyArray {
    /// What rebuilds this array anywhere: its type code, the wire number of
    /// its layout, and its bytes.
    pub fn __reduce_ex__(&self) -> (r: (char, u8, Vec<u8>))
        requires
            self.wf(),
        ensures
            r.0 == typecode_spec(self@.kind),
            r.1 == format_code_spec(native_format(self@.kind)),
            r.2@ == encode(self@.items, self.itemsize_of()),
    {
        (self.kind.typecode(), native_format_exec(self.kind).code(), self.tobytes())
    }
}

/// Rebuilds an array from a type code, a wire format number and bytes. Bytes
/// in the kind's own layout are taken as they are; otherwise each chunk is
/// read in the given format and stored as a value of the kind.
pub fn array_reconstructor(typecode: char, mformat_code: u8, bytes: &Vec<u8>) -> (r: Result<PyArray, ArrayError>)
    ensures
        !(exists|k: ElementKind| typecode_spec(k) == typecode) ==> r == Err::<PyArray, ArrayError>(ArrayError::BadTypecode),
        (exists|k: ElementKind| typecode_spec(k) == typecode) && mformat_code > 21
            ==> r == Err::<PyArray, ArrayError>(ArrayError::BadFormatCode),
        forall|k: ElementKind, m: MachineFormatCode| typecode_spec(k) == typecode && format_code_spec(m) == mformat_code ==> ({
            let n = format_item_size(m);
            let count = (bytes@.len() as int) / (n as int);
            if (bytes@.len() as int) % (n as int) != 0 {
                r == Err::<PyArray, ArrayError>(ArrayError::BadLength)
            } else if count > MAX_ITEMS {
                r == Err::<PyArray, ArrayError>(ArrayError::MemoryError)
            } else if m == native_format(k) {
                r matches Ok(a) && a.wf() && a@.kind == k && a@.exports == 0 && a@.items == decode(bytes@, n)
            } else if m matches MachineFormatCode::Utf16 { .. } {
                if k != ElementKind::PyUnicode {
                    r == Err::<PyArray, ArrayError>(ArrayError::TypeMismatch)
                } else {
                    match utf16_decode(utf16_units(bytes@, format_is_big_endian(m))) {
                        None => r == Err::<PyArray, ArrayError>(ArrayError::UnicodeDecode),
                        Some(t) => t.len() <= MAX_ITEMS ==> (r matches Ok(a) && a.wf() && a@.kind == k
                            && a@.exports == 0 && a@.items == code_points(t)),
                    }
                }
            } else {
                &&& r is Ok <==> forall|i: int| 0 <= i < count ==> #[trigger] chunk_item(k, m, bytes@, i) is Ok
                &&& r matches Ok(a) ==> a.wf() && a@.kind == k && a@.exports == 0 && a@.items.len() == count
                    && forall|i: int| 0 <= i < count ==> Ok::<u64, ArrayError>(#[trigger] a@.items[i]) == chunk_item(k, m, bytes@, i)
                &&& r matches Err(e) ==> exists|i: int| 0 <= i < count && #[trigger] chunk_item(k, m, bytes@, i) == Err::<u64, ArrayError>(e)
            }
        }),
{
    let k = match ElementKind::from_char(typecode) {
        Ok(k) => k,
        Err(e) => {
            proof {
                assert forall|k2: ElementKind| typecode_spec(k2) != typecode by {
                    if typecode_spec(k2) == typecode {
                        assert(exists|k3: ElementKind| typecode_spec(k3) == typecode);
                    }
                }
            }
            return Err(e);
        }
    };
    let m = match MachineFormatCode::try_from_u8(mformat_code) {
        Ok(m) => m,
        Err(_) => return Err(ArrayError::BadFormatCode),
    };
    proof {
        lemma_format_code_round_trip(m, mformat_code);
        assert forall|k2: ElementKind| typecode_spec(k2) == typecode implies k2 == k by {
            match k2 { _ => {} }
        }
    }
    let n = m.item_size();
    let count = bytes.len() / n;
    if bytes.len() % n != 0 {
        return Err(ArrayError::BadLength);
    }
    if count > MAX_ITEMS {
        return Err(ArrayError::MemoryError);
    }
    let mut a = PyArray::from_parts(k, Vec::new());
    if native_format_exec(k) == m {
        proof { lemma_modulus_is_pow(k); }
        let res = a.frombytes(bytes.as_slice());
        proof { assert(Seq::<u64>::empty() + decode(bytes@, n as nat) =~= decode(bytes@, n as nat)); }
        return match res {
            Ok(()) => Ok(a),
            Err(e) => Err(e),
        };
    }
    match m {
        MachineFormatCode::Utf16 { big_endian } => {
            if k != ElementKind::PyUnicode {
                return Err(ArrayError::TypeMismatch);
            }
            let mut units: Vec<u16> = Vec::new();
            let mut i: usize = 0;
            while i < count
                invariant
                    n == 2,
                    count == bytes@.len() / 2,
                    bytes@.len() % 2 == 0,
                    bytes@.len() <= usize::MAX,
                    i <= count,
                    units@ == utf16_units(bytes@, big_endian).subrange(0, i as int),
                decreases count - i,
            {
                let u = if big_endian { read_be(bytes.as_slice(), 2 * i, 2) } else { read_le(bytes.as_slice(), 2 * i, 2) };
                units.push(u as u16);
                i = i + 1;
                proof { assert(units@ =~= utf16_units(bytes@, big_endian).subrange(0, i as int)); }
            }
            proof { assert(units@ =~= utf16_units(bytes@, big_endian)); }
            match decode_utf16(&units) {
                None => Err(ArrayError::UnicodeDecode),
                Some(text) => {
                    match a.fromunicode(&text) {
                        Ok(()) => {
                            proof { assert(Seq::<u64>::empty() + code_points(text@) =~= code_points(text@)); }
                            Ok(a)
                        }
                        Err(e) => Err(e),
                    }
                }
            }
        }
        _ => {
            let float_mismatch = (m == MachineFormatCode::Ieee754Float { big_endian: false }
                || m == MachineFormatCode::Ieee754Float { big_endian: true }
                || m == MachineFormatCode::Ieee754Double { big_endian: false }
                || m == MachineFormatCode::Ieee754Double { big_endian: true })
                && k.is_float() && n != k.itemsize();
            let big = m.is_big_endian();
            let mut raws: Vec<u64> = Vec::new();
            let mut i: usize = 0;
            while i < count
                invariant
                    n == format_item_size(m),
                    1 <= n <= 8,
                    count == (bytes@.len() as int) / (n as int),
                    (bytes@.len() as int) % (n as int) == 0,
                    bytes@.len() <= usize::MAX,
                    count <= MAX_ITEMS,
                    !(m matches MachineFormatCode::Utf16 { .. }),
                    m != native_format(k),
                    big == format_is_big_endian(m),
                    float_mismatch == (is_float_format(m) && is_float_kind(k) && format_item_size(m) != itemsize_spec(k)),
                    typecode_spec(k) == typecode,
                    format_code_spec(m) == mformat_code,
                    forall|k2: ElementKind| typecode_spec(k2) == typecode ==> k2 == k,
                    forall|m1: MachineFormatCode, m2: MachineFormatCode|
                        format_code_spec(m1) == format_code_spec(m2) ==> m1 == m2,
                    a@.kind == k && a@.exports == 0,
                    i <= count,
                    raws@.len() == i,
                    items_fit(k, raws@),
                    forall|j: int| 0 <= j < i ==> Ok::<u64, ArrayError>(#[trigger] raws@[j]) == chunk_item(k, m, bytes@, j),
                decreases count - i,
            {
                proof {
                    assert(i * n + n <= count * n) by (nonlinear_arith)
                        requires i < count, n >= 1;
                    let (bl, ni) = (bytes@.len() as int, n as int);
                    vstd::arithmetic::div_mod::lemma_fundamental_div_mod(bl, ni);
                    assert(count * n <= bl) by (nonlinear_arith)
                        requires count == bl / ni, bl == ni * (bl / ni) + bl % ni, bl % ni == 0, ni == n;
                }
                if float_mismatch {
                    proof { assert(chunk_item(k, m, bytes@, i as int) == Err::<u64, ArrayError>(ArrayError::FloatWidth)); }
                    return Err(ArrayError::FloatWidth);
                }
                let v = read_chunk(m, bytes.as_slice(), i * n);
                match k.convert(v) {
                    Ok(raw) => raws.push(raw),
                    Err(e) => {
                        proof { assert(chunk_item(k, m, bytes@, i as int) == Err::<u64, ArrayError>(e)); }
                        return Err(e);
                    }
                }
                i = i + 1;
            }
            proof {
                assert forall|j: int| 0 <= j < count implies #[trigger] chunk_item(k, m, bytes@, j) is Ok by {
                    assert(Ok::<u64, ArrayError>(raws@[j]) == chunk_item(k, m, bytes@, j));
                }
            }
            a.items = raws;
            Ok(a)
        }
    }
}

/// The value of the chunk of `m`'s size at `start`.
fn read_chunk(m: MachineFormatCode, b: &[u8], start: usize) -> (r: ArrayValue)
    requires
        start + format_item_size(m) <= b@.len(),
        start + format_item_size(m) <= usize::MAX,
    ensures
        r == chunk_value(m, b@.subrange(start as int, start + format_item_size(m))),
{
    let n = m.item_size();
    let raw = if m.is_big_endian() { read_be(b, start, n) } else { read_le(b, start, n) };
    let ghost chunk = b@.subrange(start as int, start + n);
    proof {
        reveal_with_fuel(pow, 9);
        assert(pow(256, 1) == 0x100 && pow(256, 2) == 0x1_0000 && pow(256, 4) == 0x1_0000_0000
            && pow(256, 8) == 0x1_0000_0000_0000_0000);
    }
    let half: u64 = match n { 1 => 0x80, 2 => 0x8000, 4 => 0x8000_0000, _ => 0x8000_0000_0000_0000 };
    match m {
        MachineFormatCode::Int8 { signed } | MachineFormatCode::Int16 { signed, .. }
        | MachineFormatCode::Int32 { signed, .. } | MachineFormatCode::Int64 { signed, .. } => {
            if signed && raw >= half {
                ArrayValue::Int(raw as i128 - 2 * (half as i128))
            } else {
                ArrayValue::Int(raw as i128)
            }
        }
        MachineFormatCode::Utf16 { .. } | MachineFormatCode::Utf32 { .. } => ArrayValue::Char(raw as u32),
        _ => ArrayValue::Bits(raw),
    }
}

/// Read in the array's own layout, each chunk of its bytes stands for what
/// the item reads as: the integer, the code point or the float bits. So bytes
/// serialized here rebuild the same values in an array of any kind that
/// holds them, at whatever width.
pub proof fn lemma_native_chunks(a: PyArray, i: int)
    requires
        a.wf(),
        0 <= i < a@.items.len(),
    ensures
        ({
            let n = a.itemsize_of() as int;
            let m = native_format(a@.kind);
            let v = chunk_value(m, encode(a@.items, n as nat).subrange(i * n, i * n + n));
            &&& format_item_size(m) == n
            &&& is_int_kind(a@.kind) ==> v == ArrayValue::Int(int_of_raw(a@.kind, a@.items[i] as int) as i128)
            &&& a@.kind == ElementKind::PyUnicode ==> v == ArrayValue::Char(a@.items[i] as u32)
            &&& is_float_kind(a@.kind) ==> v == ArrayValue::Bits(a@.items[i])
        }),
{
    let k = a@.kind;
    let n = itemsize_spec(k);
    lemma_modulus_is_pow(k);
    crate::codec::lemma_encode_chunk(a@.items, n, i);
    crate::codec::lemma_le_round_trip(a@.items[i] as nat, n);
    reveal_with_fuel(pow, 9);
}

/// What a new array is seeded from.
#[derive(Debug)]
pub enum ArrayInit {
    /// Another array: copied when of the same kind, else converted item by item.
    Array(PyArray),
    /// Characters, for an array of kind `u` only.
    Text(Vec<char>),
    /// Raw bytes in the array's own layout.
    Bytes(Vec<u8>),
    /// Values converted one by one.
    Values(Vec<ArrayValue>),
}

/// The constructor's arguments: a type code and an optional seed.
#[derive(Debug)]
pub struct ArrayNewArgs {
    pub spec: char,
    pub init: Option<ArrayInit>,
}

impl PyArray {
    /// A new array of the kind `args.spec` names, seeded from `args.init`.
    pub fn py_new(args: ArrayNewArgs) -> (r: Result<PyArray, ArrayError>)
        requires
            args.init matches Some(ArrayInit::Array(a)) ==> a.wf(),
        ensures
            !(exists|k: ElementKind| typecode_spec(k) == args.spec) ==> r == Err::<PyArray, ArrayError>(ArrayError::BadTypecode),
            r matches Ok(a) ==> a.wf() && typecode_spec(a@.kind) == args.spec && a@.exports == 0,
            forall|k: ElementKind| typecode_spec(k) == args.spec ==> match args.init {
                None => r matches Ok(a) && a@.items.len() == 0,
                Some(ArrayInit::Array(src)) => if src@.kind == k {
                    r matches Ok(a) && a@.items == src@.items
                } else if src@.kind == ElementKind::PyUnicode {
                    r == Err::<PyArray, ArrayError>(ArrayError::TypeMismatch)
                } else {
                    &&& r is Ok <==> forall|j: int| 0 <= j < src@.items.len() ==>
                        #[trigger] convert_spec(k, value_spec(src@.kind, src@.items[j])->Ok_0) is Ok
                    &&& r matches Ok(a) ==> a@.items.len() == src@.items.len()
                        && forall|j: int| 0 <= j < src@.items.len() ==> Ok::<u64, ArrayError>(#[trigger] a@.items[j])
                            == convert_spec(k, value_spec(src@.kind, src@.items[j])->Ok_0)
                },
                Some(ArrayInit::Text(t)) => if k == ElementKind::PyUnicode {
                    t@.len() <= MAX_ITEMS ==> (r matches Ok(a) && a@.items == code_points(t@))
                } else {
                    r == Err::<PyArray, ArrayError>(ArrayError::TypeMismatch)
                },
                Some(ArrayInit::Bytes(b)) => if b@.len() % itemsize_spec(k) != 0 {
                    r == Err::<PyArray, ArrayError>(ArrayError::BadLength)
                } else {
                    b@.len() / itemsize_spec(k) <= MAX_ITEMS ==> (r matches Ok(a) && a@.items == decode(b@, itemsize_spec(k)))
                },
                Some(ArrayInit::Values(vs)) => {
                    &&& (r is Ok <==> (forall|j: int| 0 <= j < vs@.len() ==> #[trigger] convert_spec(k, vs@[j]) is Ok)
                        && vs@.len() <= MAX_ITEMS)
                    &&& r matches Ok(a) ==> a@.items.len() == vs@.len()
                        && forall|j: int| 0 <= j < vs@.len() ==> Ok::<u64, ArrayError>(#[trigger] a@.items[j]) == convert_spec(k, vs@[j])
                },
            },
    {
        let mut a = match Self::new(args.spec) {
            Ok(a) => a,
            Err(e) => return Err(e),
        };
        proof {
            assert forall|k2: ElementKind| typecode_spec(k2) == args.spec implies k2 == a.kind by {
                match k2 { _ => {} }
            }
        }
        match args.init {
            None => Ok(a),
            Some(ArrayInit::Array(src)) => {
                if src.kind == a.kind {
                    a.items = src.items;
                    Ok(a)
                } else if src.kind == ElementKind::PyUnicode {
                    Err(ArrayError::TypeMismatch)
                } else {
                    let values = match src.tolist() {
                        Ok(v) => v,
                        Err(e) => return Err(e),
                    };
                    let raws = match a.convert_all(&values) {
                        Ok(v) => v,
                        Err(e) => {
                            proof {
                                let j = choose|j: int| 0 <= j < values@.len() && convert_spec(a.kind, #[trigger] values@[j]) == Err::<u64, ArrayError>(e);
                                assert(values@[j] == value_spec(src@.kind, src@.items[j])->Ok_0);
                                assert(!(convert_spec(a.kind, value_spec(src@.kind, src@.items[j])->Ok_0) is Ok));
                            }
                            return Err(e);
                        }
                    };
                    proof {
                        assert forall|j: int| 0 <= j < src@.items.len() implies
                            #[trigger] convert_spec(a.kind, value_spec(src@.kind, src@.items[j])->Ok_0) is Ok by {
                            assert(values@[j] == value_spec(src@.kind, src@.items[j])->Ok_0);
                            assert(convert_spec(a.kind, values@[j]) is Ok);
                        }
                        assert forall|j: int| 0 <= j < src@.items.len() implies Ok::<u64, ArrayError>(#[trigger] raws@[j])
                            == convert_spec(a.kind, value_spec(src@.kind, src@.items[j])->Ok_0) by {
                            assert(values@[j] == value_spec(src@.kind, src@.items[j])->Ok_0);
                        }
                    }
                    a.items = raws;
                    Ok(a)
                }
            }
            Some(ArrayInit::Text(t)) => {
                if a.kind != ElementKind::PyUnicode {
                    return Err(ArrayError::TypeMismatch);
                }
                match a.fromunicode(&t) {
                    Ok(()) => {
                        proof { assert(Seq::<u64>::empty() + code_points(t@) =~= code_points(t@)); }
                        Ok(a)
                    }
                    Err(e) => Err(e),
                }
            }
            Some(ArrayInit::Bytes(b)) => {
                proof { lemma_modulus_is_pow(a.kind); }
                match a.frombytes(b.as_slice()) {
                    Ok(()) => {
                        proof { assert(Seq::<u64>::empty() + decode(b@, itemsize_spec(a.kind)) =~= decode(b@, itemsize_spec(a.kind))); }
                        Ok(a)
                    }
                    Err(e) => Err(e),
                }
            }
            Some(ArrayInit::Values(vs)) => {
                let ghost k = a.kind;
                match a.fromlist(&vs) {
                    Ok(()) => {
                        proof {
                            assert forall|j: int| 0 <= j < vs@.len() implies Ok::<u64, ArrayError>(#[trigger] a@.items[j]) == convert_spec(k, vs@[j]) by {
                                assert(a@.items[0 + j] == a@.items[j]);
                            }
                        }
                        Ok(a)
                    }
                    Err(e) => Err(e),
                }
            }
        }
    }
}

impl PyArray {
    /// How many bytes to read for `n` more items.
    pub fn fromfile_request(&self, n: i64) -> (r: Result<usize, ArrayError>)
        ensures
            n < 0 ==> r == Err::<usize, ArrayError>(ArrayError::NegativeCount),
            n >= 0 && n > MAX_ITEMS ==> r == Err::<usize, ArrayError>(ArrayError::MemoryError),
            r is Ok <==> 0 <= n <= MAX_ITEMS,
            r matches Ok(b) ==> b == n * self.itemsize_of(),
    {
        if n < 0 {
            return Err(ArrayError::NegativeCount);
        }
        if n as u64 > MAX_ITEMS as u64 {
            return Err(ArrayError::MemoryError);
        }
        let k = self.kind.itemsize();
        proof {
            assert(n * k <= MAX_ITEMS * 8) by (nonlinear_arith)
                requires 0 <= n <= MAX_ITEMS, k <= 8;
        }
        Ok((n as usize) * k)
    }

    /// Appends the bytes a reader returned for a request of `requested` bytes.
    /// What came back is kept even when it falls short, and the shortfall is
    /// then reported.
    pub fn fromfile_commit(&mut self, data: &[u8], requested: usize) -> (r: Result<(), ArrayError>)
        requires
            old(self).wf(),
        ensures
            final(self).wf(),
            final(self)@.kind == old(self)@.kind && final(self)@.exports == old(self)@.exports,
            data@.len() % old(self).itemsize_of() != 0 ==> r == Err::<(), ArrayError>(ArrayError::BadLength),
            data@.len() % old(self).itemsize_of() == 0 && data@.len() > 0 && old(self)@.exports > 0
                ==> r == Err::<(), ArrayError>(ArrayError::Exported),
            ({
                let stored = data@.len() % old(self).itemsize_of() == 0 && (data@.len() == 0 || old(self)@.exports == 0)
                    && old(self)@.items.len() + data@.len() / old(self).itemsize_of() <= MAX_ITEMS;
                &&& stored ==> final(self)@.items == old(self)@.items + decode(data@, old(self).itemsize_of())
                &&& !stored ==> final(self)@.items == old(self)@.items
                &&& r is Ok <==> stored && data@.len() == requested
                &&& stored && data@.len() != requested ==> r == Err::<(), ArrayError>(ArrayError::UnexpectedEof)
            }),
    {
        self.frombytes(data)?;
        if data.len() != requested {
            return Err(ArrayError::UnexpectedEof);
        }
        Ok(())
    }
}

/// The comparison keys of raw items of kind `k`.
pub open spec fn keys(k: ElementKind, items: Seq<u64>) -> Seq<(bool, int)> {
    items.map_values(|r: u64| item_key(k, r))
}

/// Lexicographic order of key sequences: the first pair that differs decides,
/// and a character never orders against a number; when one runs out first,
/// the shorter is less.
pub open spec fn lex_order(a: Seq<(bool, int)>, b: Seq<(bool, int)>) -> Result<std::cmp::Ordering, ArrayError>
    decreases a.len(),
{
    if a.len() == 0 || b.len() == 0 {
        Ok(if a.len() < b.len() {
            std::cmp::Ordering::Less
        } else if a.len() == b.len() {
            std::cmp::Ordering::Equal
        } else {
            std::cmp::Ordering::Greater
        })
    } else if a[0].0 != b[0].0 {
        Err(ArrayError::TypeMismatch)
    } else if a[0].1 < b[0].1 {
        Ok(std::cmp::Ordering::Less)
    } else if a[0].1 > b[0].1 {
        Ok(std::cmp::Ordering::Greater)
    } else {
        lex_order(a.drop_first(), b.drop_first())
    }
}

impl PyArray {
    /// How this array orders against `other`, item by item. `None` when
    /// either holds floating-point items, whose order is left to the caller.
    pub fn array_cmp(&self, other: &PyArray) -> (r: Option<Result<std::cmp::Ordering, ArrayError>>)
        requires
            self.wf(),
            other.wf(),
        ensures
            (is_float_kind(self@.kind) || is_float_kind(other@.kind)) <==> r is None,
            r matches Some(o) ==> o == lex_order(keys(self@.kind, self@.items), keys(other@.kind, other@.items)),
    {
        if self.kind.is_float() || other.kind.is_float() {
            return None;
        }
        let ghost ka = keys(self.kind, self.items@);
        let ghost kb = keys(other.kind, other.items@);
        let la = self.items.len();
        let lb = other.items.len();
        let mut i: usize = 0;
        proof {
            assert(ka.subrange(0, la as int) =~= ka);
            assert(kb.subrange(0, lb as int) =~= kb);
        }
        while i < la && i < lb
            invariant
                !is_float_kind(self.kind) && !is_float_kind(other.kind),
                la == self.items@.len() && lb == other.items@.len(),
                i <= la && i <= lb,
                ka == keys(self.kind, self.items@) && kb == keys(other.kind, other.items@),
                items_fit(self.kind, self.items@),
                items_fit(other.kind, other.items@),
                lex_order(ka, kb) == lex_order(ka.subrange(i as int, la as int), kb.subrange(i as int, lb as int)),
            decreases la - i,
        {
            let x = key_of(self.kind, self.items[i]);
            let y = key_of(other.kind, other.items[i]);
            let ghost sa = ka.subrange(i as int, la as int);
            let ghost sb = kb.subrange(i as int, lb as int);
            proof {
                assert(sa[0] == ka[i as int] && sb[0] == kb[i as int]);
            }
            if x.0 != y.0 {
                return Some(Err(ArrayError::TypeMismatch));
            }
            if x.1 < y.1 {
                return Some(Ok(std::cmp::Ordering::Less));
            }
            if x.1 > y.1 {
                return Some(Ok(std::cmp::Ordering::Greater));
            }
            proof {
                assert(sa.drop_first() =~= ka.subrange(i + 1, la as int));
                assert(sb.drop_first() =~= kb.subrange(i + 1, lb as int));
            }
            i = i + 1;
        }
        proof {
            assert(ka.subrange(i as int, la as int).len() == 0 || kb.subrange(i as int, lb as int).len() == 0);
        }
        Some(Ok(if la < lb {
            std::cmp::Ordering::Less
        } else if la == lb {
            std::cmp::Ordering::Equal
        } else {
            std::cmp::Ordering::Greater
        }))
    }
}

/// A forward cursor over an array's items. Once it has run past the end it
/// stays exhausted, even if the array grows; only a saved position given
/// back through `__setstate__` moves an active cursor.
#[derive(Clone, Copy, Debug, PartialEq, Eq, Structural)]
pub struct PyArrayIter {
    pub position: usize,
    pub exhausted: bool,
}

impl PyArrayIter {
    pub fn new() -> (r: PyArrayIter)
        ensures
            r.position == 0 && !r.exhausted,
    {
        PyArrayIter { position: 0, exhausted: false }
    }

    /// What the item at the cursor reads as, moving past it; `None` at the
    /// end, which exhausts the cursor.
    pub fn next(&mut self, array: &PyArray) -> (r: Option<Result<ArrayValue, ArrayError>>)
        requires
            array.wf(),
        ensures
            old(self).exhausted ==> r is None && *final(self) == *old(self),
            !old(self).exhausted && old(self).position < array@.items.len() ==> r == Some(value_spec(array@.kind,
                array@.items[old(self).position as int])) && final(self).position == old(self).position + 1
                && !final(self).exhausted,
            !old(self).exhausted && old(self).position >= array@.items.len() ==> r is None && final(self).exhausted
                && final(self).position == old(self).position,
    {
        if self.exhausted {
            return None;
        }
        if self.position < array.items.len() {
            let v = array.kind.value_of(array.items[self.position]);
            self.position = self.position + 1;
            Some(v)
        } else {
            self.exhausted = true;
            None
        }
    }

    /// Resumes an active cursor at a saved position, clamped to the length.
    pub fn __setstate__(&mut self, state: usize, array: &PyArray)
        ensures
            old(self).exhausted ==> *final(self) == *old(self),
            !old(self).exhausted ==> !final(self).exhausted && final(self).position
                == (if state < array@.items.len() { state as int } else { array@.items.len() as int }),
    {
        if !self.exhausted {
            self.position = if state < array.items.len() { state } else { array.items.len() };
        }
    }

    /// The position to save, or `None` once exhausted.
    pub fn __reduce__(&self) -> (r: Option<usize>)
        ensures
            r == (if self.exhausted { None } else { Some(self.position) }),
    {
        if self.exhausted { None } else { Some(self.position) }
    }
}

impl PyArray {
    /// The legacy form that rebuilds this array: its type code and what each
    /// item reads as.
    pub fn __reduce__(&self) -> (r: (char, Result<Vec<ArrayValue>, ArrayError>))
        requires
            self.wf(),
        ensures
            r.0 == typecode_spec(self@.kind),
            r.1 is Ok <==> forall|j: int| 0 <= j < self@.items.len() ==> #[trigger] value_spec(self@.kind, self@.items[j]) is Ok,
            r.1 matches Ok(v) ==> v@.len() == self@.items.len()
                && forall|j: int| 0 <= j < v@.len() ==> Ok::<ArrayValue, ArrayError>(#[trigger] v@[j]) == value_spec(self@.kind, self@.items[j]),
    {
        (self.kind.typecode(), self.tolist())
    }
}

/// What an item reads as is stored back as the same bits: the legacy form
/// of an array rebuilds its items exactly.
pub proof fn lemma_value_round_trip(k: ElementKind, raw: u64)
    requires
        (raw as int) < modulus(k),
        value_spec(k, raw) is Ok,
    ensures
        convert_spec(k, value_spec(k, raw)->Ok_0) == Ok::<u64, ArrayError>(raw),
{
}

/// One character item as stored: a 32-bit code unit, which may lie outside
/// the code points when it came in as raw bytes.
#[derive(Clone, Copy, Debug, PartialEq, Eq, Structural)]
pub struct WideChar(pub u32);

impl WideChar {
    /// The item holding `c`.
    pub fn from_char(c: char) -> (r: WideChar)
        ensures
            r.0 == c as u32,
    {
        WideChar(c as u32)
    }

    /// The item for a text of exactly one character; any other text is refused.
    pub fn from_text(text: &Vec<char>) -> (r: Result<WideChar, ArrayError>)
        ensures
            text@.len() == 1 ==> r == Ok::<WideChar, ArrayError>(WideChar(text@[0] as u32)),
            text@.len() != 1 ==> r == Err::<WideChar, ArrayError>(ArrayError::TypeMismatch),
    {
        if text.len() == 1 { Ok(WideChar(text[0] as u32)) } else { Err(ArrayError::TypeMismatch) }
    }

    /// The code point, refused above U+10FFFF.
    pub fn to_code_point(&self) -> (r: Result<u32, ArrayError>)
        ensures
            self.0 <= 0x10FFFF ==> r == Ok::<u32, ArrayError>(self.0),
            self.0 > 0x10FFFF ==> r == Err::<u32, ArrayError>(ArrayError::InvalidCodePoint),
    {
        if self.0 <= 0x10FFFF { Ok(self.0) } else { Err(ArrayError::InvalidCodePoint) }
    }

    /// The item with its four bytes in the opposite order.
    pub fn byteswap(&self) -> (r: WideChar)
        ensures
            r.0 == swapped(self.0 as nat, 4),
    {
        let v = swap_bytes(self.0 as u64, 4);
        proof {
            reveal_with_fuel(pow, 5);
        }
        WideChar(v as u32)
    }
}

/// Serialized in its own layout and rebuilt in any kind `k2`, each item of
/// `a` becomes exactly what its value converts to in `k2` (the same bits when
/// `k2` is `a`'s kind), save floats asked for at another width.
pub proof fn lemma_reconstruct_round_trip(a: PyArray, k2: ElementKind, i: int)
    requires
        a.wf(),
        0 <= i < a@.items.len(),
        value_spec(a@.kind, a@.items[i]) is Ok,
    ensures
        ({
            let m = native_format(a@.kind);
            let bytes = encode(a@.items, a.itemsize_of());
            let v = value_spec(a@.kind, a@.items[i])->Ok_0;
            &&& chunk_item(k2, m, bytes, i) == (if is_float_format(m) && is_float_kind(k2)
                    && format_item_size(m) != itemsize_spec(k2) {
                    Err(ArrayError::FloatWidth)
                } else {
                    convert_spec(k2, v)
                })
            &&& k2 == a@.kind ==> convert_spec(k2, v) == Ok::<u64, ArrayError>(a@.items[i])
        }),
{
    lemma_native_chunks(a, i);
    lemma_modulus_is_pow(a@.kind);
    lemma_value_round_trip(a@.kind, a@.items[i]);
}

impl PyArray {
    /// Some item equals `x` (floating-point items compare by their bits).
    pub fn __contains__(&self, x: ArrayValue) -> (r: bool)
        requires
            self.wf(),
        ensures
            r == (convert_spec(self@.kind, x) matches Ok(v) && self@.items.contains(v)),
    {
        match self.kind.convert(x) {
            Ok(v) => {
                let found = find_raw(&self.items, v, 0, self.items.len());
                proof {
                    if let Some(p) = found {
                        assert(self@.items[p as int] == v);
                    }
                    if self@.items.contains(v) {
                        let p = choose|p: int| 0 <= p < self@.items.len() && self@.items[p] == v;
                        assert(0 <= p < self.items@.len() && self.items@[p] == v);
                    }
                }
                found.is_some()
            }
            Err(_) => false,
        }
    }
}

pub open spec fn is_int_format(m: MachineFormatCode) -> bool {
    m matches MachineFormatCode::Int8 { .. } || m matches MachineFormatCode::Int16 { .. }
        || m matches MachineFormatCode::Int32 { .. } || m matches MachineFormatCode::Int64 { .. }
}

pub open spec fn format_is_signed(m: MachineFormatCode) -> bool {
    match m {
        MachineFormatCode::Int8 { signed } | MachineFormatCode::Int16 { signed, .. }
        | MachineFormatCode::Int32 { signed, .. } | MachineFormatCode::Int64 { signed, .. } => signed,
        _ => false,
    }
}

/// The integers an integer format can carry.
pub open spec fn format_int_in_range(m: MachineFormatCode, v: int) -> bool {
    let big = pow(256, format_item_size(m));
    if format_is_signed(m) { -big / 2 <= v < big / 2 } else { 0 <= v < big }
}

/// The bytes that carry `v` in integer format `m`: two's complement at the
/// format's width, in its byte order.
pub open spec fn encode_int(m: MachineFormatCode, v: int) -> Seq<u8> {
    let big = pow(256, format_item_size(m));
    let raw: int = if v < 0 { v + big } else { v };
    let le = le_bytes(raw as nat, format_item_size(m));
    if format_is_big_endian(m) { le.reverse() } else { le }
}

/// An integer serialized in any integer format, of any width, signedness
/// and byte order, reads back as itself; rebuilt into any integer kind that
/// holds it, it is stored so that it reads back as itself too. So integers
/// round-trip whatever widths the writer and the reader use.
pub proof fn lemma_int_format_round_trip(m: MachineFormatCode, v: int, k: ElementKind, bytes: Seq<u8>, i: int)
    requires
        is_int_format(m),
        format_int_in_range(m, v),
    ensures
        chunk_value(m, encode_int(m, v)) == ArrayValue::Int(v as i128),
        ({
            let n = format_item_size(m) as int;
            bytes.subrange(i * n, i * n + n) == encode_int(m, v)
                ==> chunk_item(k, m, bytes, i) == convert_spec(k, ArrayValue::Int(v as i128))
        }),
        is_int_kind(k) && int_in_range(k, v) ==> (convert_spec(k, ArrayValue::Int(v as i128)) matches Ok(raw)
            && value_spec(k, raw) == Ok::<ArrayValue, ArrayError>(ArrayValue::Int(v as i128))),
{
    let w = format_item_size(m);
    let big = pow(256, w);
    reveal_with_fuel(pow, 9);
    assert(w == 1 || w == 2 || w == 4 || w == 8);
    assert(big == 0x100 || big == 0x1_0000 || big == 0x1_0000_0000 || big == 0x1_0000_0000_0000_0000);
    let raw: int = if v < 0 { v + big } else { v };
    assert(0 <= raw < big);
    let le = le_bytes(raw as nat, w);
    crate::codec::lemma_le_round_trip(raw as nat, w);
    crate::codec::lemma_be_reverse(le);
    assert(chunk_raw(m, encode_int(m, v)) == raw);
    lemma_value_round_trip_int(k, v);
}

proof fn lemma_value_round_trip_int(k: ElementKind, v: int)
    ensures
        is_int_kind(k) && int_in_range(k, v) ==> (convert_spec(k, ArrayValue::Int(v as i128)) matches Ok(raw)
            && value_spec(k, raw) == Ok::<ArrayValue, ArrayError>(ArrayValue::Int(v as i128))),
{
}

impl PyArray {
    /// Extends by a sequence of values, as from any iterable: every value is
    /// converted before any is stored, so on an error the array is unchanged.
    pub fn extend_values(&mut self, values: &Vec<ArrayValue>) -> (r: Result<(), ArrayError>)
        requires
            old(self).wf(),
        ensures
            final(self).wf(),
            final(self)@.kind == old(self)@.kind && final(self)@.exports == old(self)@.exports,
            old(self)@.exports > 0 ==> r == Err::<(), ArrayError>(ArrayError::Exported),
            r is Ok <==> old(self)@.exports == 0
                && (forall|j: int| 0 <= j < values@.len() ==> #[trigger] convert_spec(old(self)@.kind, values@[j]) is Ok)
                && old(self)@.items.len() + values@.len() <= MAX_ITEMS,
            r is Ok ==> final(self)@.items.len() == old(self)@.items.len() + values@.len()
                && final(self)@.items.subrange(0, old(self)@.items.len() as int) == old(self)@.items
                && forall|j: int| 0 <= j < values@.len() ==> Ok::<u64, ArrayError>(#[trigger] final(self)@.items[old(self)@.items.len() + j])
                    == convert_spec(old(self)@.kind, values@[j]),
            r is Err ==> final(self)@.items == old(self)@.items,
    {
        self.fromlist(values)
    }
}

} // verus!
