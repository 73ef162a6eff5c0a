//! Fixed-width little-endian encoding of the scalar field types.
use vstd::prelude::*;

verus! {

/// The two little-endian bytes of `v`.
pub open spec fn le_bytes_u16(v: u16) -> Seq<u8> {
    seq![v as u8, (v >> 8u16) as u8]
}

/// The four little-endian bytes of `v`.
pub open spec fn le_bytes_u32(v: u32) -> Seq<u8> {
    seq![v as u8, (v >> 8u32) as u8, (v >> 16u32) as u8, (v >> 24u32) as u8]
}

/// The eight little-endian bytes of `v`.
pub open spec fn le_bytes_u64(v: u64) -> Seq<u8> {
    seq![
        v as u8, (v >> 8u64) as u8, (v >> 16u64) as u8, (v >> 24u64) as u8,
        (v >> 32u64) as u8, (v >> 40u64) as u8, (v >> 48u64) as u8, (v >> 56u64) as u8,
    ]
}

/// The `u16` whose little-endian bytes start `b`.
pub open spec fn le_u16(b: Seq<u8>) -> u16 {
    (b[0] as u16) | ((b[1] as u16) << 8u16)
}

/// The `u32` whose little-endian bytes start `b`.
pub open spec fn le_u32(b: Seq<u8>) -> u32 {
    (b[0] as u32) | ((b[1] as u32) << 8u32) | ((b[2] as u32) << 16u32) | ((b[3] as u32) << 24u32)
}

/// The `u64` whose little-endian bytes start `b`.
pub open spec fn le_u64(b: Seq<u8>) -> u64 {
    (b[0] as u64) | ((b[1] as u64) << 8u64) | ((b[2] as u64) << 16u64) | ((b[3] as u64) << 24u64)
        | ((b[4] as u64) << 32u64) | ((b[5] as u64) << 40u64) | ((b[6] as u64) << 48u64)
        | ((b[7] as u64) << 56u64)
}

/// Decoding the little-endian bytes of a `u16` gives it back.
pub proof fn lemma_u16_round_trip(v: u16)
    ensures
        le_bytes_u16(v).len() == 2,
        le_u16(le_bytes_u16(v)) == v,
{
    assert(((v as u8) as u16) | ((((v >> 8u16) as u8) as u16) << 8u16) == v) by (bit_vector);
}

/// Decoding the little-endian bytes of a `u32` gives it back.
pub proof fn lemma_u32_round_trip(v: u32)
    ensures
        le_bytes_u32(v).len() == 4,
        le_u32(le_bytes_u32(v)) == v,
{
    assert(((v as u8) as u32) | ((((v >> 8u32) as u8) as u32) << 8u32) | ((((v >> 16u32) as u8)
        as u32) << 16u32) | ((((v >> 24u32) as u8) as u32) << 24u32) == v) by (bit_vector);
}

/// Decoding the little-endian bytes of a `u64` gives it back.
pub proof fn lemma_u64_round_trip(v: u64)
    ensures
        le_bytes_u64(v).len() == 8,
        le_u64(le_bytes_u64(v)) == v,
{
    assert(((v as u8) as u64) | ((((v >> 8u64) as u8) as u64) << 8u64) | ((((v >> 16u64) as u8)
        as u64) << 16u64) | ((((v >> 24u64) as u8) as u64) << 24u64) | ((((v >> 32u64) as u8)
        as u64) << 32u64) | ((((v >> 40u64) as u8) as u64) << 40u64) | ((((v >> 48u64) as u8)
        as u64) << 48u64) | ((((v >> 56u64) as u8) as u64) << 56u64) == v) by (bit_vector);
}

/// Reads the little-endian `u16` at `pos`.
pub fn read_u16(b: &[u8], pos: usize) -> (r: u16)
    requires
        pos + 2 <= b@.len(),
    ensures
        r == le_u16(b@.subrange(pos as int, pos + 2)),
{
    (b[pos] as u16) | ((b[pos + 1] as u16) << 8u16)
}

/// Reads the little-endian `u32` at `pos`.
pub fn read_u32(b: &[u8], pos: usize) -> (r: u32)
    requires
        pos + 4 <= b@.len(),
    ensures
        r == le_u32(b@.subrange(pos as int, pos + 4)),
{
    (b[pos] as u32) | ((b[pos + 1] as u32) << 8u32) | ((b[pos + 2] as u32) << 16u32)
        | ((b[pos + 3] as u32) << 24u32)
}

/// Reads the little-endian `u64` at `pos`.
pub fn read_u64(b: &[u8], pos: usize) -> (r: u64)
    requires
        pos + 8 <= b@.len(),
    ensures
        r == le_u64(b@.subrange(pos as int, pos + 8)),
{
    (b[pos] as u64) | ((b[pos + 1] as u64) << 8u64) | ((b[pos + 2] as u64) << 16u64)
        | ((b[pos + 3] as u64) << 24u64) | ((b[pos + 4] as u64) << 32u64)
        | ((b[pos + 5] as u64) << 40u64) | ((b[pos + 6] as u64) << 48u64)
        | ((b[pos + 7] as u64) << 56u64)
}

/// A scalar that a field can hold: its width, its declared default, and its
/// little-endian encoding.
pub trait Scalar: Sized + Copy {
    /// Width in bytes.
    spec fn width() -> nat;

    /// The value a reader reconstructs for an absent field.
    spec fn zero() -> Self;

    /// Little-endian bytes of the value.
    spec fn encode(self) -> Seq<u8>;

    /// The value that the first `width()` bytes of `b` encode.
    spec fn decode(b: Seq<u8>) -> Self;

    fn size() -> (r: usize)
        ensures
            r as nat == Self::width(),
            r == 1 || r == 2 || r == 4 || r == 8,
    ;

    fn default_value() -> (r: Self)
        ensures
            r == Self::zero(),
    ;

    fn same(&self, other: &Self) -> (r: bool)
        ensures
            r == (*self == *other),
    ;

    fn to_le_vec(&self) -> (r: Vec<u8>)
        ensures
            r@ == self.encode(),
    ;

    fn read_le(b: &[u8], pos: usize) -> (r: Self)
        requires
            pos + Self::width() <= b@.len(),
        ensures
            r == Self::decode(b@.subrange(pos as int, pos + Self::width())),
    ;

    proof fn lemma_codec(v: Self)
        ensures
            v.encode().len() == Self::width(),
            Self::decode(v.encode()) == v,
    ;
}

impl Scalar for u8 {
    open spec fn width() -> nat { 1 }
    open spec fn zero() -> u8 { 0 }
    open spec fn encode(self) -> Seq<u8> { seq![self] }
    open spec fn decode(b: Seq<u8>) -> u8 { b[0] }

    fn size() -> (r: usize) { 1 }
    fn default_value() -> (r: u8) { 0 }
    fn same(&self, other: &u8) -> (r: bool) { *self == *other }
    fn to_le_vec(&self) -> (r: Vec<u8>) { vec![*self] }
    fn read_le(b: &[u8], pos: usize) -> (r: u8) { b[pos] }
    proof fn lemma_codec(v: u8) {}
}

impl Scalar for i8 {
    open spec fn width() -> nat { 1 }
    open spec fn zero() -> i8 { 0 }
    open spec fn encode(self) -> Seq<u8> { seq![self as u8] }
    open spec fn decode(b: Seq<u8>) -> i8 { b[0] as i8 }

    fn size() -> (r: usize) { 1 }
    fn default_value() -> (r: i8) { 0 }
    fn same(&self, other: &i8) -> (r: bool) { *self == *other }
    fn to_le_vec(&self) -> (r: Vec<u8>) { vec![*self as u8] }
    fn read_le(b: &[u8], pos: usize) -> (r: i8) { b[pos] as i8 }
    proof fn lemma_codec(v: i8) {
        assert(((v as u8) as i8) == v) by (bit_vector);
    }
}

impl Scalar for bool {
    open spec fn width() -> nat { 1 }
    open spec fn zero() -> bool { false }
    open spec fn encode(self) -> Seq<u8> { seq![if self { 1u8 } else { 0u8 }] }
    open spec fn decode(b: Seq<u8>) -> bool { b[0] != 0 }

    fn size() -> (r: usize) { 1 }
    fn default_value() -> (r: bool) { false }
    fn same(&self, other: &bool) -> (r: bool) { *self == *other }
    fn to_le_vec(&self) -> (r: Vec<u8>) { vec![if *self { 1u8 } else { 0u8 }] }
    fn read_le(b: &[u8], pos: usize) -> (r: bool) { b[pos] != 0 }
    proof fn lemma_codec(v: bool) {}
}

impl Scalar for u16 {
    open spec fn width() -> nat { 2 }
    open spec fn zero() -> u16 { 0 }
    open spec fn encode(self) -> Seq<u8> { le_bytes_u16(self) }
    open spec fn decode(b: Seq<u8>) -> u16 { le_u16(b) }

    fn size() -> (r: usize) { 2 }
    fn default_value() -> (r: u16) { 0 }
    fn same(&self, other: &u16) -> (r: bool) { *self == *other }
    fn to_le_vec(&self) -> (r: Vec<u8>) {
        let v = *self;
        vec![v as u8, (v >> 8u16) as u8]
    }
    fn read_le(b: &[u8], pos: usize) -> (r: u16) { read_u16(b, pos) }
    proof fn lemma_codec(v: u16) { lemma_u16_round_trip(v); }
}

impl Scalar for i16 {
    open spec fn width() -> nat { 2 }
    open spec fn zero() -> i16 { 0 }
    open spec fn encode(self) -> Seq<u8> { le_bytes_u16(self as u16) }
    open spec fn decode(b: Seq<u8>) -> i16 { le_u16(b) as i16 }

    fn size() -> (r: usize) { 2 }
    fn default_value() -> (r: i16) { 0 }
    fn same(&self, other: &i16) -> (r: bool) { *self == *other }
    fn to_le_vec(&self) -> (r: Vec<u8>) {
        let v = *self as u16;
        vec![v as u8, (v >> 8u16) as u8]
    }
    fn read_le(b: &[u8], pos: usize) -> (r: i16) { read_u16(b, pos) as i16 }
    proof fn lemma_codec(v: i16) {
        lemma_u16_round_trip(v as u16);
        assert(((v as u16) as i16) == v) by (bit_vector);
    }
}

impl Scalar for u32 {
    open spec fn width() -> nat { 4 }
    open spec fn zero() -> u32 { 0 }
    open spec fn encode(self) -> Seq<u8> { le_bytes_u32(self) }
    open spec fn decode(b: Seq<u8>) -> u32 { le_u32(b) }

    fn size() -> (r: usize) { 4 }
    fn default_value() -> (r: u32) { 0 }
    fn same(&self, other: &u32) -> (r: bool) { *self == *other }
    fn to_le_vec(&self) -> (r: Vec<u8>) {
        let v = *self;
        vec![v as u8, (v >> 8u32) as u8, (v >> 16u32) as u8, (v >> 24u32) as u8]
    }
    fn read_le(b: &[u8], pos: usize) -> (r: u32) { read_u32(b, pos) }
    proof fn lemma_codec(v: u32) { lemma_u32_round_trip(v); }
}

impl Scalar for i32 {
    open spec fn width() -> nat { 4 }
    open spec fn zero() -> i32 { 0 }
    open spec fn encode(self) -> Seq<u8> { le_bytes_u32(self as u32) }
    open spec fn decode(b: Seq<u8>) -> i32 { le_u32(b) as i32 }

    fn size() -> (r: usize) { 4 }
    fn default_value() -> (r: i32) { 0 }
    fn same(&self, other: &i32) -> (r: bool) { *self == *other }
    fn to_le_vec(&self) -> (r: Vec<u8>) {
        let v = *self as u32;
        vec![v as u8, (v >> 8u32) as u8, (v >> 16u32) as u8, (v >> 24u32) as u8]
    }
    fn read_le(b: &[u8], pos: usize) -> (r: i32) { read_u32(b, pos) as i32 }
    proof fn lemma_codec(v: i32) {
        lemma_u32_round_trip(v as u32);
        assert(((v as u32) as i32) == v) by (bit_vector);
    }
}

impl Scalar for u64 {
    open spec fn width() -> nat { 8 }
    open spec fn zero() -> u64 { 0 }
    open spec fn encode(self) -> Seq<u8> { le_bytes_u64(self) }
    open spec fn decode(b: Seq<u8>) -> u64 { le_u64(b) }

    fn size() -> (r: usize) { 8 }
    fn default_value() -> (r: u64) { 0 }
    fn same(&self, other: &u64) -> (r: bool) { *self == *other }
    fn to_le_vec(&self) -> (r: Vec<u8>) {
        let v = *self;
        vec![
            v as u8, (v >> 8u64) as u8, (v >> 16u64) as u8, (v >> 24u64) as u8,
            (v >> 32u64) as u8, (v >> 40u64) as u8, (v >> 48u64) as u8, (v >> 56u64) as u8,
        ]
    }
    fn read_le(b: &[u8], pos: usize) -> (r: u64) { read_u64(b, pos) }
    proof fn lemma_codec(v: u64) { lemma_u64_round_trip(v); }
}

impl Scalar for i64 {
    open spec fn width() -> nat { 8 }
    open spec fn zero() -> i64 { 0 }
    open spec fn encode(self) -> Seq<u8> { le_bytes_u64(self as u64) }
    open spec fn decode(b: Seq<u8>) -> i64 { le_u64(b) as i64 }

    fn size() -> (r: usize) { 8 }
    fn default_value() -> (r: i64) { 0 }
    fn same(&self, other: &i64) -> (r: bool) { *self == *other }
    fn to_le_vec(&self) -> (r: Vec<u8>) {
        let v = *self as u64;
        vec![
            v as u8, (v >> 8u64) as u8, (v >> 16u64) as u8, (v >> 24u64) as u8,
            (v >> 32u64) as u8, (v >> 40u64) as u8, (v >> 48u64) as u8, (v >> 56u64) as u8,
        ]
    }
    fn read_le(b: &[u8], pos: usize) -> (r: i64) { read_u64(b, pos) as i64 }
    proof fn lemma_codec(v: i64) {
        lemma_u64_round_trip(v as u64);
        assert(((v as u64) as i64) == v) by (bit_vector);
    }
}

} // verus!
