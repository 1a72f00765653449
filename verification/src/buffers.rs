//! Typed arrays stored in model binaries.

use crate::float_bits::{single_to_i64, single_to_i64_of};
use crate::json::{get, get_of, text_is, text_of, unsigned, unsigned_of, Json, Tree};
use crate::text::same_text;
use vstd::prelude::*;

verus! {

/// Why a typed array could not be read.
#[derive(Clone, Copy, Debug, PartialEq, Eq, Structural)]
pub enum BufferError {
    /// The definition names no size.
    MissingSize,
    /// The bytes end inside a variable-length integer.
    VarintEndedEarly,
    /// The type name is not one of the known ones.
    UnknownArrayType,
    /// The array does not lie within the bytes.
    OutOfRange,
    /// An animation names no array.
    MissingAnimationArray,
}

/// The components of a vertex attribute. Floating-point components are binary32 patterns.
#[derive(Debug)]
pub enum AttrData {
    F32(Vec<u32>),
    I32(Vec<i32>),
    U32(Vec<u32>),
    U16(Vec<u16>),
    U8(Vec<u8>),
    I16(Vec<i16>),
}

/// The mathematical counterpart of [`AttrData`].
#[verifier::ext_equal]
pub ghost enum Components {
    F32(Seq<u32>),
    I32(Seq<i32>),
    U32(Seq<u32>),
    U16(Seq<u16>),
    U8(Seq<u8>),
    I16(Seq<i16>),
}

impl View for AttrData {
    type V = Components;

    open spec fn view(&self) -> Components {
        match self {
            AttrData::F32(v) => Components::F32(v@),
            AttrData::I32(v) => Components::I32(v@),
            AttrData::U32(v) => Components::U32(v@),
            AttrData::U16(v) => Components::U16(v@),
            AttrData::U8(v) => Components::U8(v@),
            AttrData::I16(v) => Components::I16(v@),
        }
    }
}

impl Components {
    /// The number of components.
    pub open spec fn len(self) -> nat {
        match self {
            Components::F32(v) => v.len(),
            Components::I32(v) => v.len(),
            Components::U32(v) => v.len(),
            Components::U16(v) => v.len(),
            Components::U8(v) => v.len(),
            Components::I16(v) => v.len(),
        }
    }

    /// Component `i` as an integer; a floating-point number is cut toward zero.
    pub open spec fn integer(self, i: int) -> i64 {
        match self {
            Components::F32(v) => single_to_i64_of(v[i]),
            Components::I32(v) => v[i] as i64,
            Components::U32(v) => v[i] as i64,
            Components::U16(v) => v[i] as i64,
            Components::U8(v) => v[i] as i64,
            Components::I16(v) => v[i] as i64,
        }
    }

    /// All components as integers.
    pub open spec fn integers(self) -> Seq<i64> {
        Seq::new(self.len(), |i: int| self.integer(i))
    }
}

impl AttrData {
    /// The number of components.
    pub fn len(&self) -> (n: usize)
        ensures
            n == self@.len(),
    {
        match self {
            AttrData::F32(v) => v.len(),
            AttrData::I32(v) => v.len(),
            AttrData::U32(v) => v.len(),
            AttrData::U16(v) => v.len(),
            AttrData::U8(v) => v.len(),
            AttrData::I16(v) => v.len(),
        }
    }

    /// Component `i` as an integer.
    pub fn integer(&self, i: usize) -> (r: i64)
        requires
            i < self@.len(),
        ensures
            r == self@.integer(i as int),
    {
        match self {
            AttrData::F32(v) => single_to_i64(v[i]),
            AttrData::I32(v) => v[i] as i64,
            AttrData::U32(v) => v[i] as i64,
            AttrData::U16(v) => v[i] as i64,
            AttrData::U8(v) => v[i] as i64,
            AttrData::I16(v) => v[i] as i64,
        }
    }

    /// All components as integers; floating-point numbers are cut toward zero.
    pub fn as_i64_vec(&self) -> (r: Vec<i64>)
        ensures
            r@ == self@.integers(),
    {
        let n: usize = self.len();
        let mut r: Vec<i64> = Vec::new();
        let mut i: usize = 0;
        while i < n
            invariant
                i <= n,
                n == self@.len(),
                r@ == self@.integers().take(i as int),
            decreases n - i,
        {
            r.push(self.integer(i));
            i += 1;
            assert(r@ =~= self@.integers().take(i as int));
        }
        assert(self@.integers().take(n as int) =~= self@.integers());
        r
    }

    /// The same components again.
    pub fn duplicate(&self) -> (r: AttrData)
        ensures
            r@ == self@,
    {
        match self {
            AttrData::F32(v) => {
                let c = v.clone();
                assert(c@ =~= v@);
                AttrData::F32(c)
            },
            AttrData::I32(v) => {
                let c = v.clone();
                assert(c@ =~= v@);
                AttrData::I32(c)
            },
            AttrData::U32(v) => {
                let c = v.clone();
                assert(c@ =~= v@);
                AttrData::U32(c)
            },
            AttrData::U16(v) => {
                let c = v.clone();
                assert(c@ =~= v@);
                AttrData::U16(c)
            },
            AttrData::U8(v) => {
                let c = v.clone();
                assert(c@ =~= v@);
                AttrData::U8(c)
            },
            AttrData::I16(v) => {
                let c = v.clone();
                assert(c@ =~= v@);
                AttrData::I16(c)
            },
        }
    }
}

/// The two-byte little-endian number at `at`.
pub open spec fn le16(bytes: Seq<u8>, at: int) -> int {
    bytes[at] + 0x100 * bytes[at + 1]
}

/// The four-byte little-endian number at `at`.
pub open spec fn le32(bytes: Seq<u8>, at: int) -> int {
    bytes[at] + 0x100 * bytes[at + 1] + 0x1_0000 * bytes[at + 2] + 0x100_0000 * bytes[at + 3]
}

/// The value of a two's complement pattern of 16 bits.
pub open spec fn signed16(v: int) -> int {
    if v < 0x8000 {
        v
    } else {
        v - 0x1_0000
    }
}

/// The value of a two's complement pattern of 32 bits.
pub open spec fn signed32(v: int) -> int {
    if v < 0x8000_0000 {
        v
    } else {
        v - 0x1_0000_0000
    }
}

/// The value of a two's complement pattern of 64 bits.
pub open spec fn signed64(v: int) -> int {
    if v < 0x8000_0000_0000_0000 {
        v
    } else {
        v - 0x1_0000_0000_0000_0000
    }
}

/// How many items of `width` bytes are read when `count` are asked for.
pub open spec fn whole_items(len: int, width: int, count: int) -> int {
    if count <= len / width {
        count
    } else {
        len / width
    }
}

pub open spec fn u32s_of(bytes: Seq<u8>, count: int) -> Seq<u32> {
    Seq::new(whole_items(bytes.len() as int, 4, count) as nat, |i: int| le32(bytes, 4 * i) as u32)
}

pub open spec fn i32s_of(bytes: Seq<u8>, count: int) -> Seq<i32> {
    Seq::new(
        whole_items(bytes.len() as int, 4, count) as nat,
        |i: int| signed32(le32(bytes, 4 * i)) as i32,
    )
}

pub open spec fn u16s_of(bytes: Seq<u8>, count: int) -> Seq<u16> {
    Seq::new(whole_items(bytes.len() as int, 2, count) as nat, |i: int| le16(bytes, 2 * i) as u16)
}

pub open spec fn i16s_of(bytes: Seq<u8>, count: int) -> Seq<i16> {
    Seq::new(
        whole_items(bytes.len() as int, 2, count) as nat,
        |i: int| signed16(le16(bytes, 2 * i)) as i16,
    )
}

/// Reads up to `count` four-byte unsigned numbers.
pub fn read_u32(bytes: &[u8], count: usize) -> (r: Result<Vec<u32>, BufferError>)
    ensures
        r matches Ok(v) && v@ == u32s_of(bytes@, count as int),
{
    let mut out: Vec<u32> = Vec::new();
    let length: usize = bytes.len();
    let whole: usize = length / 4;
    let n: usize = if count <= whole {
        count
    } else {
        whole
    };
    let mut i: usize = 0;
    while i < n
        invariant
            i <= n,
            n == whole_items(bytes@.len() as int, 4, count as int),
            length == bytes@.len(),
            n * 4 <= length,
            out@ == u32s_of(bytes@, count as int).take(i as int),
        decreases n - i,
    {
        let at: usize = i * 4;
        out.push(
            bytes[at] as u32 + 0x100 * (bytes[at + 1] as u32) + 0x1_0000 * (bytes[at + 2] as u32)
                + 0x100_0000 * (bytes[at + 3] as u32),
        );
        i += 1;
        assert(out@ =~= u32s_of(bytes@, count as int).take(i as int));
    }
    assert(out@ =~= u32s_of(bytes@, count as int));
    Ok(out)
}

/// Reads up to `count` binary32 patterns.
pub fn read_f32(bytes: &[u8], count: usize) -> (r: Result<Vec<u32>, BufferError>)
    ensures
        r matches Ok(v) && v@ == u32s_of(bytes@, count as int),
{
    read_u32(bytes, count)
}

/// Reads up to `count` four-byte signed numbers.
pub fn read_i32(bytes: &[u8], count: usize) -> (r: Result<Vec<i32>, BufferError>)
    ensures
        r matches Ok(v) && v@ == i32s_of(bytes@, count as int),
{
    let mut out: Vec<i32> = Vec::new();
    let length: usize = bytes.len();
    let whole: usize = length / 4;
    let n: usize = if count <= whole {
        count
    } else {
        whole
    };
    let mut i: usize = 0;
    while i < n
        invariant
            i <= n,
            n == whole_items(bytes@.len() as int, 4, count as int),
            length == bytes@.len(),
            n * 4 <= length,
            out@ == i32s_of(bytes@, count as int).take(i as int),
        decreases n - i,
    {
        let at: usize = i * 4;
        let v: i64 = bytes[at] as i64 + 0x100 * (bytes[at + 1] as i64) + 0x1_0000 * (
        bytes[at + 2] as i64) + 0x100_0000 * (bytes[at + 3] as i64);
        out.push(
            if v < 0x8000_0000 {
                v as i32
            } else {
                (v - 0x1_0000_0000) as i32
            },
        );
        i += 1;
        assert(out@ =~= i32s_of(bytes@, count as int).take(i as int));
    }
    assert(out@ =~= i32s_of(bytes@, count as int));
    Ok(out)
}

/// Reads up to `count` two-byte unsigned numbers.
pub fn read_u16(bytes: &[u8], count: usize) -> (r: Result<Vec<u16>, BufferError>)
    ensures
        r matches Ok(v) && v@ == u16s_of(bytes@, count as int),
{
    let mut out: Vec<u16> = Vec::new();
    let length: usize = bytes.len();
    let whole: usize = length / 2;
    let n: usize = if count <= whole {
        count
    } else {
        whole
    };
    let mut i: usize = 0;
    while i < n
        invariant
            i <= n,
            n == whole_items(bytes@.len() as int, 2, count as int),
            length == bytes@.len(),
            n * 2 <= length,
            out@ == u16s_of(bytes@, count as int).take(i as int),
        decreases n - i,
    {
        let at: usize = i * 2;
        out.push(bytes[at] as u16 + 0x100 * (bytes[at + 1] as u16));
        i += 1;
        assert(out@ =~= u16s_of(bytes@, count as int).take(i as int));
    }
    assert(out@ =~= u16s_of(bytes@, count as int));
    Ok(out)
}

/// Reads up to `count` two-byte signed numbers.
pub fn read_i16(bytes: &[u8], count: usize) -> (r: Result<Vec<i16>, BufferError>)
    ensures
        r matches Ok(v) && v@ == i16s_of(bytes@, count as int),
{
    let mut out: Vec<i16> = Vec::new();
    let length: usize = bytes.len();
    let whole: usize = length / 2;
    let n: usize = if count <= whole {
        count
    } else {
        whole
    };
    let mut i: usize = 0;
    while i < n
        invariant
            i <= n,
            n == whole_items(bytes@.len() as int, 2, count as int),
            length == bytes@.len(),
            n * 2 <= length,
            out@ == i16s_of(bytes@, count as int).take(i as int),
        decreases n - i,
    {
        let at: usize = i * 2;
        let v: i32 = bytes[at] as i32 + 0x100 * (bytes[at + 1] as i32);
        out.push(
            if v < 0x8000 {
                v as i16
            } else {
                (v - 0x1_0000) as i16
            },
        );
        i += 1;
        assert(out@ =~= i16s_of(bytes@, count as int).take(i as int));
    }
    assert(out@ =~= i16s_of(bytes@, count as int));
    Ok(out)
}

/// The position after the variable-length integer that starts at `at`: after the first byte
/// without its top bit.
pub open spec fn varint_end(bytes: Seq<u8>, at: int) -> Option<int>
    decreases bytes.len() - at,
{
    if at < 0 || at >= bytes.len() {
        None
    } else if bytes[at] < 128 {
        Some(at + 1)
    } else {
        varint_end(bytes, at + 1)
    }
}

/// Where the bits of byte `n` of a variable-length integer go.
pub open spec fn varint_shift(n: nat) -> u64 {
    ((7 * n) % 64) as u64
}

/// The 64-bit pattern of the `n` bytes at `at`: seven bits of each, the first lowest.
pub open spec fn varint_bits(bytes: Seq<u8>, at: int, n: nat) -> u64
    decreases n,
{
    if n == 0 {
        0
    } else {
        varint_bits(bytes, at, (n - 1) as nat) | (((bytes[at + n - 1] % 128) as u64)
            << varint_shift((n - 1) as nat))
    }
}

/// The signed number that a zigzag number stands for: 0, -1, 1, -2, 2 and so on.
pub open spec fn unzigzag(v: int) -> int {
    if v % 2 == 0 {
        v / 2
    } else {
        -(v / 2) - 1
    }
}

/// The number with the given 64-bit pattern, zigzag decoded when it is signed.
pub open spec fn varint_number(bits: u64, signed: bool) -> i64 {
    if signed {
        unzigzag(signed64(bits as int)) as i64
    } else {
        signed64(bits as int) as i64
    }
}

/// The first `count` variable-length integers at `at`, or nothing if the bytes end first.
pub open spec fn varints_of(bytes: Seq<u8>, at: int, count: nat, signed: bool) -> Option<Seq<i64>>
    decreases count,
{
    if count == 0 {
        Some(Seq::empty())
    } else {
        match varint_end(bytes, at) {
            None => None,
            Some(end) => match varints_of(bytes, end, (count - 1) as nat, signed) {
                None => None,
                Some(rest) => Some(
                    seq![
                        varint_number(varint_bits(bytes, at, (end - at) as nat), signed),
                    ] + rest,
                ),
            },
        }
    }
}

/// The signed reading of a 64-bit pattern, zigzag decoded when it is signed.
fn number_from_bits(bits: u64, signed: bool) -> (r: i64)
    ensures
        r == varint_number(bits, signed),
{
    let negative = bits >= 0x8000_0000_0000_0000;
    let v: i64 = if negative {
        -((u64::MAX - bits) as i64) - 1
    } else {
        bits as i64
    };
    if !signed {
        return v;
    }
    let half: i64 = if negative {
        -((-(v + 1) as u64 / 2) as i64) - 1
    } else {
        (bits / 2) as i64
    };
    assert(half == v as int / 2);
    if bits % 2 == 0 {
        half
    } else {
        -half - 1
    }
}

/// One more byte of a variable-length integer.
proof fn lemma_varint_step(bytes: Seq<u8>, at: int, n: nat)
    ensures
        varint_bits(bytes, at, n + 1) == varint_bits(bytes, at, n) | (((bytes[at + n] % 128) as u64)
            << varint_shift(n)),
        varint_shift(n + 1) == (varint_shift(n) + 7) % 64,
{
}

/// Reads the variable-length integer at `at`: its 64-bit pattern and the position after it.
fn one_varint(bytes: &[u8], at: usize) -> (r: Option<(u64, usize)>)
    requires
        at <= bytes@.len(),
    ensures
        match r {
            Some((bits, end)) => at < end <= bytes@.len() && varint_end(bytes@, at as int) == Some(
                end as int,
            ) && bits == varint_bits(bytes@, at as int, (end - at) as nat),
            None => varint_end(bytes@, at as int) is None,
        },
{
    let mut bits: u64 = 0;
    let mut shift: u64 = 0;
    let mut off: usize = at;
    let mut k: Ghost<nat> = Ghost(0);
    while off < bytes.len()
        invariant
            at <= off <= bytes@.len(),
            shift == varint_shift(k@),
            shift < 64,
            k@ == off - at,
            bits == varint_bits(bytes@, at as int, k@),
            varint_end(bytes@, at as int) == varint_end(bytes@, off as int),
        decreases bytes@.len() - off,
    {
        let b: u8 = bytes[off];
        proof {
            lemma_varint_step(bytes@, at as int, k@);
        }
        bits = bits | (((b % 128) as u64) << shift);
        shift = (shift + 7) % 64;
        off += 1;
        proof {
            k@ = k@ + 1;
        }
        if b < 128 {
            return Some((bits, off));
        }
    }
    None
}

/// Decodes `count` variable-length integers.
pub fn decode_varint(bytes: &[u8], count: usize, signed: bool) -> (r: Result<
    Vec<i64>,
    BufferError,
>)
    ensures
        match varints_of(bytes@, 0, count as nat, signed) {
            Some(values) => r matches Ok(v) && v@ == values,
            None => r == Err::<Vec<i64>, BufferError>(BufferError::VarintEndedEarly),
        },
{
    let mut out: Vec<i64> = Vec::new();
    let mut off: usize = 0;
    let ghost goal = varints_of(bytes@, 0, count as nat, signed);
    while out.len() < count
        invariant
            off <= bytes@.len(),
            out@.len() <= count,
            goal == varints_of(bytes@, 0, count as nat, signed),
            match varints_of(bytes@, off as int, (count - out@.len()) as nat, signed) {
                Some(rest) => goal == Some(out@ + rest),
                None => goal is None,
            },
        decreases count - out@.len(),
    {
        match one_varint(bytes, off) {
            None => {
                return Err(BufferError::VarintEndedEarly);
            },
            Some((bits, end)) => {
                let ghost before = out@;
                out.push(number_from_bits(bits, signed));
                off = end;
                proof {
                    match varints_of(bytes@, off as int, (count - out@.len()) as nat, signed) {
                        Some(rest) => {
                            assert(out@ + rest =~= before + (seq![out@.last()] + rest));
                        },
                        None => {},
                    }
                }
            },
        }
    }
    assert(out@ + Seq::<i64>::empty() =~= out@);
    Ok(out)
}

/// The bytes of a number as a variable-length integer: seven bits in each, the lowest first, and
/// the top bit set in all but the last.
pub open spec fn varint_bytes(v: nat) -> Seq<u8>
    decreases v,
{
    if v < 128 {
        seq![v as u8]
    } else {
        seq![(v % 128 + 128) as u8] + varint_bytes(v / 128)
    }
}

/// The zigzag number of a signed number: even for those from zero up, odd for the others.
pub open spec fn zigzag_number(x: int) -> nat {
    if x >= 0 {
        (2 * x) as nat
    } else {
        (-2 * x - 1) as nat
    }
}

/// The bytes of signed numbers, one zigzag number after the other.
pub open spec fn zigzag_bytes(values: Seq<i32>) -> Seq<u8>
    decreases values.len(),
{
    if values.len() == 0 {
        Seq::empty()
    } else {
        varint_bytes(zigzag_number(values[0] as int)) + zigzag_bytes(values.skip(1))
    }
}

/// Whether a list holds another one from a position on.
pub open spec fn stands_at(bytes: Seq<u8>, at: int, part: Seq<u8>) -> bool {
    &&& 0 <= at
    &&& at + part.len() <= bytes.len()
    &&& forall|j: int| 0 <= j < part.len() ==> #[trigger] part[j] == bytes[at + j]
}

/// Seven more bits go above those that are there.
proof fn lemma_group_above(x: u64, d: u64, shift: u64, unit: u64)
    requires
        (shift == 0 && unit == 1) || (shift == 7 && unit == 0x80) || (shift == 14 && unit == 0x4000)
            || (shift == 21 && unit == 0x20_0000) || (shift == 28 && unit == 0x1000_0000),
        x < unit,
        d < 128,
    ensures
        x | (d << shift) == x + d * unit,
{
    assert(x | (d << shift) == x + d * unit) by (bit_vector)
        requires
            (shift == 0 && unit == 1) || (shift == 7 && unit == 0x80) || (shift == 14 && unit
                == 0x4000) || (shift == 21 && unit == 0x20_0000) || (shift == 28 && unit
                == 0x1000_0000),
            x < unit,
            d < 128,
    ;
}

/// After `n` bytes of a number below 2^32, reading the rest gives the number.
proof fn lemma_varint_reads(bytes: Seq<u8>, at: int, v: nat, n: nat, unit: u64, rest: nat)
    requires
        v <= u32::MAX,
        (n == 0 && unit == 1) || (n == 1 && unit == 0x80) || (n == 2 && unit == 0x4000) || (n == 3
            && unit == 0x20_0000) || (n == 4 && unit == 0x1000_0000),
        varint_bits(bytes, at, n) < unit,
        v == varint_bits(bytes, at, n) + rest * unit,
        0 <= at,
        stands_at(bytes, at + n, varint_bytes(rest)),
    ensures
        varint_end(bytes, at + n) == Some(at + n + varint_bytes(rest).len()),
        varint_bits(bytes, at, (n + varint_bytes(rest).len()) as nat) == v,
    decreases rest,
{
    let x = varint_bits(bytes, at, n);
    let d = (rest % 128) as u64;
    let own = varint_bytes(rest);
    assert(own[0] == bytes[at + n]);
    lemma_varint_step(bytes, at, n);
    lemma_group_above(x, d, varint_shift(n), unit);
    if rest < 128 {
        assert(own.len() == 1);
        assert(bytes[at + n] % 128 == d);
    } else {
        assert(n < 4) by (nonlinear_arith)
            requires
                rest >= 128,
                n >= 4 ==> unit == 0x1000_0000,
                v >= rest * unit,
                v <= 0xffff_ffff,
        ;
        let more = rest / 128;
        assert((bytes[at + n] % 128) as u64 == d);
        assert(rest * unit == d * unit + more * (128 * unit)) by (nonlinear_arith)
            requires
                rest == 128 * more + d,
        ;
        assert(x + d * unit < 128 * unit) by (nonlinear_arith)
            requires
                x < unit,
                d <= 127,
        ;
        let tail = varint_bytes(more);
        assert forall|j: int| 0 <= j < tail.len() implies #[trigger] tail[j] == bytes[at + (n + 1)
            + j] by {
            assert(own[j + 1] == tail[j]);
        }
        lemma_varint_reads(bytes, at, v, n + 1, (128 * unit) as u64, more);
    }
}

/// Signed numbers read back from their bytes, at any position and whatever follows.
proof fn lemma_numbers_read_back(values: Seq<i32>, bytes: Seq<u8>, at: int)
    requires
        stands_at(bytes, at, zigzag_bytes(values)),
    ensures
        varints_of(bytes, at, values.len(), true) == Some(
            Seq::new(values.len(), |i: int| values[i] as i64),
        ),
        varints_of(bytes, at, values.len(), false) == Some(
            Seq::new(values.len(), |i: int| zigzag_number(values[i] as int) as i64),
        ),
    decreases values.len(),
{
    let signed = Seq::new(values.len(), |i: int| values[i] as i64);
    let unsigned = Seq::new(values.len(), |i: int| zigzag_number(values[i] as int) as i64);
    if values.len() == 0 {
        assert(signed =~= Seq::<i64>::empty());
        assert(unsigned =~= Seq::<i64>::empty());
    } else {
        let v = zigzag_number(values[0] as int);
        let own = varint_bytes(v);
        let rest = values.skip(1);
        let all = zigzag_bytes(values);
        let after = zigzag_bytes(rest);
        assert forall|j: int| 0 <= j < own.len() implies #[trigger] own[j] == bytes[at + 0 + j] by {
            assert(all[j] == own[j]);
        }
        lemma_varint_reads(bytes, at, v, 0, 1, v);
        let end = at + own.len();
        assert forall|j: int| 0 <= j < after.len() implies #[trigger] after[j] == bytes[end
            + j] by {
            assert(all[own.len() + j] == after[j]);
        }
        lemma_numbers_read_back(rest, bytes, end);
        assert(varint_number(v as u64, true) == values[0]);
        assert(varint_number(v as u64, false) == v);
        assert(signed =~= seq![values[0] as i64] + Seq::new(rest.len(), |i: int| rest[i] as i64));
        assert(unsigned =~= seq![v as i64] + Seq::new(
            rest.len(),
            |i: int| zigzag_number(rest[i] as int) as i64,
        ));
    }
}

/// Decoding gives back the signed numbers whose zigzag numbers were written, or those zigzag
/// numbers where it is told that they are unsigned. What follows them does not matter.
pub proof fn law_varints_read_back(values: Seq<i32>, tail: Seq<u8>)
    ensures
        varints_of(zigzag_bytes(values) + tail, 0, values.len(), true) == Some(
            Seq::new(values.len(), |i: int| values[i] as i64),
        ),
        varints_of(zigzag_bytes(values) + tail, 0, values.len(), false) == Some(
            Seq::new(values.len(), |i: int| zigzag_number(values[i] as int) as i64),
        ),
{
    lemma_numbers_read_back(values, zigzag_bytes(values) + tail, 0);
}

/// The value modulo 2^32.
pub fn low32(v: i64) -> (r: u32)
    ensures
        r == v as int % 0x1_0000_0000,
{
    if v >= 0 {
        (v as u64 % 0x1_0000_0000) as u32
    } else {
        let m: u64 = (-(v + 1)) as u64 % 0x1_0000_0000;
        (0xffff_ffff - m) as u32
    }
}

/// The value modulo 2^16.
pub fn low16(v: i64) -> (r: u16)
    ensures
        r == v as int % 0x1_0000,
{
    if v >= 0 {
        (v as u64 % 0x1_0000) as u16
    } else {
        let m: u64 = (-(v + 1)) as u64 % 0x1_0000;
        (0xffff - m) as u16
    }
}

/// The 64-bit integers modulo 2^32.
pub open spec fn lows32(values: Seq<i64>) -> Seq<u32> {
    Seq::new(values.len(), |i: int| (values[i] as int % 0x1_0000_0000) as u32)
}

/// The 64-bit integers modulo 2^32, read as signed numbers.
pub open spec fn signed_lows32(values: Seq<i64>) -> Seq<i32> {
    Seq::new(values.len(), |i: int| signed32(values[i] as int % 0x1_0000_0000) as i32)
}

/// The 64-bit integers modulo 2^16.
pub open spec fn lows16(values: Seq<i64>) -> Seq<u16> {
    Seq::new(values.len(), |i: int| (values[i] as int % 0x1_0000) as u16)
}

/// Each value modulo 2^32.
pub fn all_low32(values: &[i64]) -> (r: Vec<u32>)
    ensures
        r@ == lows32(values@),
{
    let mut r: Vec<u32> = Vec::new();
    let mut i: usize = 0;
    while i < values.len()
        invariant
            i <= values@.len(),
            r@ == lows32(values@).take(i as int),
        decreases values@.len() - i,
    {
        r.push(low32(values[i]));
        i += 1;
        assert(r@ =~= lows32(values@).take(i as int));
    }
    assert(lows32(values@).take(i as int) =~= lows32(values@));
    r
}

/// Each value modulo 2^16.
pub fn all_low16(values: &[i64]) -> (r: Vec<u16>)
    ensures
        r@ == lows16(values@),
{
    let mut r: Vec<u16> = Vec::new();
    let mut i: usize = 0;
    while i < values.len()
        invariant
            i <= values@.len(),
            r@ == lows16(values@).take(i as int),
        decreases values@.len() - i,
    {
        r.push(low16(values[i]));
        i += 1;
        assert(r@ =~= lows16(values@).take(i as int));
    }
    assert(lows16(values@).take(i as int) =~= lows16(values@));
    r
}

/// Each value modulo 2^32, read as a signed number.
fn all_signed_low32(values: &[i64]) -> (r: Vec<i32>)
    ensures
        r@ == signed_lows32(values@),
{
    let mut r: Vec<i32> = Vec::new();
    let mut i: usize = 0;
    while i < values.len()
        invariant
            i <= values@.len(),
            r@ == signed_lows32(values@).take(i as int),
        decreases values@.len() - i,
    {
        let v: u32 = low32(values[i]);
        r.push(
            if v < 0x8000_0000 {
                v as i32
            } else {
                (v as i64 - 0x1_0000_0000) as i32
            },
        );
        i += 1;
        assert(r@ =~= signed_lows32(values@).take(i as int));
    }
    assert(signed_lows32(values@).take(i as int) =~= signed_lows32(values@));
    r
}

/// The numbers of a fixed-width array of the named type.
pub open spec fn plain_array_of(bytes: Seq<u8>, count: int, array_type: Seq<char>) -> Result<
    Components,
    BufferError,
> {
    if array_type == "Float32Array"@ {
        Ok(Components::F32(u32s_of(bytes, count)))
    } else if array_type == "Int32Array"@ {
        Ok(Components::I32(i32s_of(bytes, count)))
    } else if array_type == "Uint32Array"@ {
        Ok(Components::U32(u32s_of(bytes, count)))
    } else if array_type == "Uint16Array"@ {
        Ok(Components::U16(u16s_of(bytes, count)))
    } else if array_type == "Uint8Array"@ {
        if count <= bytes.len() {
            Ok(Components::U8(bytes.take(count)))
        } else {
            Err(BufferError::OutOfRange)
        }
    } else if array_type == "Int16Array"@ {
        Ok(Components::I16(i16s_of(bytes, count)))
    } else {
        Err(BufferError::UnknownArrayType)
    }
}

/// The numbers of an array of variable-length integers of the named type.
pub open spec fn varint_array_of(bytes: Seq<u8>, count: int, array_type: Seq<char>) -> Result<
    Components,
    BufferError,
> {
    let signed = !(array_type.len() > 0 && array_type[0] == 'U');
    match varints_of(bytes, 0, count as nat, signed) {
        None => Err(BufferError::VarintEndedEarly),
        Some(values) => if signed {
            Ok(Components::I32(signed_lows32(values)))
        } else {
            Ok(Components::U32(lows32(values)))
        },
    }
}

/// The array that `def` describes: `Size` items of `item_size` components at `Offset`, stored as
/// variable-length integers or at a fixed width.
pub open spec fn buffer_array_of(
    bin: Seq<u8>,
    def: Tree,
    item_size: int,
    array_type: Seq<char>,
) -> Result<Components, BufferError> {
    let offset = match unsigned_of(get_of(Some(def), "Offset"@)) {
        Some(o) => o as int,
        None => 0,
    };
    match unsigned_of(get_of(Some(def), "Size"@)) {
        None => Err(BufferError::MissingSize),
        Some(size) => if size * item_size > usize::MAX || offset > bin.len() {
            Err(BufferError::OutOfRange)
        } else {
            let bytes = bin.skip(offset);
            let count = size * item_size;
            if text_of(get_of(Some(def), "Encoding"@)) == Some("varint"@) {
                varint_array_of(bytes, count, array_type)
            } else {
                plain_array_of(bytes, count, array_type)
            }
        },
    }
}

/// A result with its array seen as a mathematical value.
pub open spec fn array_view(r: Result<AttrData, BufferError>) -> Result<Components, BufferError> {
    match r {
        Ok(a) => Ok(a@),
        Err(e) => Err(e),
    }
}

/// Reads `count` numbers of the named fixed-width type.
fn read_plain_array(bytes: &[u8], count: usize, array_type: &str) -> (r: Result<
    AttrData,
    BufferError,
>)
    ensures
        array_view(r) == plain_array_of(bytes@, count as int, array_type@),
{
    if same_text(array_type, "Float32Array") {
        return match read_f32(bytes, count) {
            Ok(v) => Ok(AttrData::F32(v)),
            Err(e) => Err(e),
        };
    }
    if same_text(array_type, "Int32Array") {
        return match read_i32(bytes, count) {
            Ok(v) => Ok(AttrData::I32(v)),
            Err(e) => Err(e),
        };
    }
    if same_text(array_type, "Uint32Array") {
        return match read_u32(bytes, count) {
            Ok(v) => Ok(AttrData::U32(v)),
            Err(e) => Err(e),
        };
    }
    if same_text(array_type, "Uint16Array") {
        return match read_u16(bytes, count) {
            Ok(v) => Ok(AttrData::U16(v)),
            Err(e) => Err(e),
        };
    }
    if same_text(array_type, "Uint8Array") {
        if count > bytes.len() {
            return Err(BufferError::OutOfRange);
        }
        let v = vstd::slice::slice_to_vec(&bytes[0..count]);
        assert(v@ =~= bytes@.take(count as int));
        return Ok(AttrData::U8(v));
    }
    if same_text(array_type, "Int16Array") {
        return match read_i16(bytes, count) {
            Ok(v) => Ok(AttrData::I16(v)),
            Err(e) => Err(e),
        };
    }
    Err(BufferError::UnknownArrayType)
}

/// Reads `count` variable-length integers, signed unless the type's name starts with `U`.
fn read_varint_array(bytes: &[u8], count: usize, array_type: &str) -> (r: Result<
    AttrData,
    BufferError,
>)
    ensures
        array_view(r) == varint_array_of(bytes@, count as int, array_type@),
{
    let name = crate::text::chars_of(array_type);
    let signed = !(name.len() > 0 && name[0] == 'U');
    let values = match decode_varint(bytes, count, signed) {
        Ok(v) => v,
        Err(e) => {
            return Err(e);
        },
    };
    if signed {
        Ok(AttrData::I32(all_signed_low32(values.as_slice())))
    } else {
        Ok(AttrData::U32(all_low32(values.as_slice())))
    }
}

/// The product of two sizes, when it fits.
pub fn checked_product(a: u64, b: usize) -> (r: Option<usize>)
    ensures
        match r {
            Some(p) => p == a * b,
            None => a * b > usize::MAX,
        },
{
    proof {
        assert(0 <= a * b <= 0xffff_ffff_ffff_ffff * 0xffff_ffff_ffff_ffff) by (nonlinear_arith)
            requires
                0 <= a <= 0xffff_ffff_ffff_ffff,
                0 <= b <= 0xffff_ffff_ffff_ffff,
        ;
    }
    let wide: u128 = a as u128 * b as u128;
    if wide > usize::MAX as u128 {
        None
    } else {
        Some(wide as usize)
    }
}

/// Reads the array that `def` describes.
pub fn read_buffer_array(bin: &[u8], def: &Json, item_size: usize, array_type: &str) -> (r: Result<
    AttrData,
    BufferError,
>)
    ensures
        array_view(r) == buffer_array_of(bin@, def@, item_size as int, array_type@),
{
    let offset: u64 = match unsigned(get(Some(def), "Offset")) {
        Some(o) => o,
        None => 0,
    };
    let size: u64 = match unsigned(get(Some(def), "Size")) {
        Some(s) => s,
        None => {
            return Err(BufferError::MissingSize);
        },
    };
    let count: usize = match checked_product(size, item_size) {
        Some(c) => c,
        None => {
            return Err(BufferError::OutOfRange);
        },
    };
    if offset > bin.len() as u64 {
        return Err(BufferError::OutOfRange);
    }
    let start: usize = offset as usize;
    let bytes = &bin[start..bin.len()];
    assert(bytes@ =~= bin@.skip(offset as int));
    if text_is(get(Some(def), "Encoding"), "varint") {
        read_varint_array(bytes, count, array_type)
    } else {
        read_plain_array(bytes, count, array_type)
    }
}

/// An array is read by the name of its type: from two or four bytes each, the lowest first, as
/// numbers with or without sign, and floating-point numbers as their patterns.
pub proof fn law_arrays_are_read_by_their_type(bytes: Seq<u8>, count: int, i: int)
    requires
        0 <= i < count,
    ensures
        4 * i + 3 < bytes.len() ==> {
            let word = bytes[4 * i] + 256 * bytes[4 * i + 1] + 65536 * bytes[4 * i + 2] + 16777216
                * bytes[4 * i + 3];
            &&& plain_array_of(bytes, count, "Float32Array"@) matches Ok(Components::F32(v)) && v[i]
                == word
            &&& plain_array_of(bytes, count, "Uint32Array"@) matches Ok(Components::U32(v)) && v[i]
                == word
            &&& plain_array_of(bytes, count, "Int32Array"@) matches Ok(Components::I32(v)) && (v[i]
                == word || (v[i] < 0 && v[i] == word - 4294967296))
        },
        2 * i + 1 < bytes.len() ==> {
            let half = bytes[2 * i] + 256 * bytes[2 * i + 1];
            &&& plain_array_of(bytes, count, "Uint16Array"@) matches Ok(Components::U16(v)) && v[i]
                == half
            &&& plain_array_of(bytes, count, "Int16Array"@) matches Ok(Components::I16(v)) && (v[i]
                == half || (v[i] < 0 && v[i] == half - 65536))
        },
        count <= bytes.len() ==> (plain_array_of(bytes, count, "Uint8Array"@) matches Ok(
            Components::U8(v),
        ) && v.len() == count && v[i] == bytes[i]),
{
    reveal_strlit("Float32Array");
    reveal_strlit("Int32Array");
    reveal_strlit("Uint32Array");
    reveal_strlit("Uint16Array");
    reveal_strlit("Uint8Array");
    reveal_strlit("Int16Array");
    assert("Float32Array"@.len() == 12);
    assert("Int32Array"@.len() == 10 && "Int32Array"@[0] == 'I' && "Int32Array"@[3] == '3');
    assert("Int16Array"@.len() == 10 && "Int16Array"@[0] == 'I' && "Int16Array"@[3] == '1');
    assert("Uint8Array"@.len() == 10 && "Uint8Array"@[0] == 'U');
    assert("Uint32Array"@.len() == 11 && "Uint32Array"@[4] == '3');
    assert("Uint16Array"@.len() == 11 && "Uint16Array"@[4] == '1');
    if 4 * i + 3 < bytes.len() {
        assert(i < bytes.len() as int / 4);
    }
    if 2 * i + 1 < bytes.len() {
        assert(i < bytes.len() as int / 2);
    }
}

/// An array is read from its offset on, from the start if it has none, as many numbers as its size
/// asks for; it must have a size. Variable-length integers have a sign unless the type's name
/// starts with a capital U.
pub proof fn law_array_is_cut_out(bin: Seq<u8>, def: Tree, item_size: int, kind: Seq<char>)
    requires
        item_size >= 0,
    ensures
        unsigned_of(get_of(Some(def), "Size"@)) is None ==> buffer_array_of(
            bin,
            def,
            item_size,
            kind,
        ) == Err::<Components, BufferError>(BufferError::MissingSize),
        unsigned_of(get_of(Some(def), "Size"@)) matches Some(size) ==> {
            let offset = match unsigned_of(get_of(Some(def), "Offset"@)) {
                Some(o) => o as int,
                None => 0,
            };
            let r = buffer_array_of(bin, def, item_size, kind);
            size * item_size <= usize::MAX && offset <= bin.len() ==> {
                &&& text_of(get_of(Some(def), "Encoding"@)) != Some("varint"@) ==> r
                    == plain_array_of(bin.skip(offset), size * item_size, kind)
                &&& text_of(get_of(Some(def), "Encoding"@)) == Some("varint"@) ==> {
                    let signed = !(kind.len() > 0 && kind[0] == 'U');
                    match varints_of(bin.skip(offset), 0, (size * item_size) as nat, signed) {
                        None => r == Err::<Components, BufferError>(BufferError::VarintEndedEarly),
                        Some(values) => {
                            &&& signed ==> (r matches Ok(Components::I32(v)) && v.len()
                                == values.len() && forall|i: int|
                                0 <= i < v.len() && i32::MIN <= values[i] <= i32::MAX
                                    ==> #[trigger] v[i] == values[i])
                            &&& !signed ==> (r matches Ok(Components::U32(v)) && v.len()
                                == values.len() && forall|i: int|
                                0 <= i < v.len() && 0 <= values[i] <= u32::MAX ==> #[trigger] v[i]
                                    == values[i])
                        },
                    }
                }
            }
        },
{
    match unsigned_of(get_of(Some(def), "Size"@)) {
        Some(size) => {
            assert(size * item_size >= 0) by (nonlinear_arith)
                requires
                    size >= 0,
                    item_size >= 0,
            ;
        },
        None => {},
    }
}

} // verus!
