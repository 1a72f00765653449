//! What is read out of a WebAssembly module before it runs, and how its memory grows.

use crate::buffers::{stands_at, varint_bytes};
use vstd::prelude::*;

verus! {

/// The position after the little-endian base-128 number at `at`: after the first byte without
/// its top bit, or at the end of the bytes.
pub open spec fn leb_end(bytes: Seq<u8>, at: int) -> int
    decreases bytes.len() - at,
{
    if at < 0 || at >= bytes.len() {
        at
    } else if bytes[at] < 128 {
        at + 1
    } else {
        leb_end(bytes, at + 1)
    }
}

/// Where the bits of byte `n` go.
pub open spec fn leb_shift(n: nat) -> u32 {
    ((7 * n) % 32) as u32
}

/// The 32-bit pattern of the `n` bytes at `at`: seven bits of each, the first lowest.
pub open spec fn leb_bits(bytes: Seq<u8>, at: int, n: nat) -> u32
    decreases n,
{
    if n == 0 {
        0
    } else {
        leb_bits(bytes, at, (n - 1) as nat) | (((bytes[at + n - 1] % 128) as u32) << leb_shift(
            (n - 1) as nat,
        ))
    }
}

/// The number at `at`.
pub open spec fn leb_value(bytes: Seq<u8>, at: int) -> u32 {
    leb_bits(bytes, at, (leb_end(bytes, at) - at) as nat)
}

/// One more byte of a number.
proof fn lemma_leb_step(bytes: Seq<u8>, at: int, n: nat)
    ensures
        leb_bits(bytes, at, n + 1) == leb_bits(bytes, at, n) | (((bytes[at + n] % 128) as u32)
            << leb_shift(n)),
        leb_shift(n + 1) == (leb_shift(n) + 7) % 32,
{
    reveal_with_fuel(leb_bits, 2);
    assert(7 * (n + 1) == 7 * n + 7);
    vstd::arithmetic::div_mod::lemma_add_mod_noop(7 * n as int, 7, 32);
}

/// A number ends where it starts or later, and within the bytes if it starts there.
proof fn lemma_leb_end(bytes: Seq<u8>, at: int)
    ensures
        leb_end(bytes, at) >= at,
        0 <= at < bytes.len() ==> at < leb_end(bytes, at) <= bytes.len(),
    decreases bytes.len() - at,
{
    if 0 <= at < bytes.len() && bytes[at] >= 128 {
        lemma_leb_end(bytes, at + 1);
    }
}

/// Reads the number at `start`, and where it ends.
fn leb_at(bytes: &[u8], start: usize) -> (r: (u32, usize))
    requires
        start <= bytes@.len(),
    ensures
        r.1 == leb_end(bytes@, start as int),
        start <= r.1,
        r.0 == leb_bits(bytes@, start as int, (r.1 - start) as nat),
{
    let mut at: usize = start;
    let mut n: u32 = 0;
    let mut shift: u32 = 0;
    let mut k: Ghost<nat> = Ghost(0);
    while at < bytes.len()
        invariant
            start <= at <= bytes@.len(),
            k@ == at - start,
            shift == leb_shift(k@),
            shift < 32,
            n == leb_bits(bytes@, start as int, k@),
            leb_end(bytes@, start as int) == leb_end(bytes@, at as int),
        decreases bytes@.len() - at,
    {
        let e: u8 = bytes[at];
        proof {
            lemma_leb_step(bytes@, start as int, k@);
        }
        n = n | (((e % 128) as u32) << shift);
        shift = (shift + 7) % 32;
        at += 1;
        proof {
            k@ = k@ + 1;
        }
        if e < 128 {
            return (n, at);
        }
    }
    (n, at)
}

/// Reads the number at `offset` and moves `offset` past it.
pub fn read_leb(bytes: &[u8], offset: &mut usize) -> (r: u32)
    ensures
        r == leb_value(bytes@, *old(offset) as int),
        *final(offset) == leb_end(bytes@, *old(offset) as int),
{
    if *offset >= bytes.len() {
        return 0;
    }
    let (value, end) = leb_at(bytes, *offset);
    *offset = end;
    value
}

/// The value of the last constant of the global section: past the count, two bytes of type, and
/// one number.
pub open spec fn global_value(bytes: Seq<u8>, at: int) -> u32 {
    leb_value(bytes, leb_end(bytes, leb_end(bytes, at) + 2))
}

/// Goes through the sections from `at` on and keeps the last global value. It stops at a section
/// with an unknown number, with no contents, or longer than the module.
pub open spec fn data_size_from(bytes: Seq<u8>, at: int, size: u32) -> u32
    decreases bytes.len() - at,
{
    if at < 0 || at >= bytes.len() {
        size
    } else {
        let section = leb_value(bytes, at);
        let length_at = leb_end(bytes, at);
        let length = leb_value(bytes, length_at);
        let body = leb_end(bytes, length_at);
        let next = body + length;
        if section > 11 || length == 0 || next > bytes.len() || next <= at {
            size
        } else {
            data_size_from(
                bytes,
                next,
                if section == 6 {
                    global_value(bytes, body)
                } else {
                    size
                },
            )
        }
    }
}

/// How far the module's static data reaches, 65536 if the module does not say.
pub open spec fn data_size_of(bytes: Seq<u8>) -> u32 {
    data_size_from(bytes, 8, 65536)
}

/// Reads the global value of the section whose body starts at `body`.
fn read_global(bytes: &[u8], body: usize) -> (r: u32)
    requires
        body <= bytes@.len(),
    ensures
        r == global_value(bytes@, body as int),
{
    let length: usize = bytes.len();
    let mut d: usize = body;
    let _ = read_leb(bytes, &mut d);
    proof {
        lemma_leb_end(bytes@, body as int);
    }
    if length - d < 2 {
        return 0;
    }
    d += 2;
    let _ = read_leb(bytes, &mut d);
    read_leb(bytes, &mut d)
}

/// Reads how far the module's static data reaches.
pub fn parse_wasm_data_size(bytes: &[u8]) -> (r: u32)
    ensures
        r == data_size_of(bytes@),
{
    let mut m: u32 = 65536;
    let mut d: usize = 8;
    while d < bytes.len()
        invariant
            data_size_of(bytes@) == data_size_from(bytes@, d as int, m),
        decreases bytes@.len() - d,
    {
        let length: usize = bytes.len();
        let mut at: usize = d;
        let section: u32 = read_leb(bytes, &mut at);
        proof {
            lemma_leb_end(bytes@, d as int);
            lemma_leb_end(bytes@, at as int);
        }
        let len: u32 = read_leb(bytes, &mut at);
        if section > 11 || len == 0 || len as u64 > (length - at) as u64 {
            return m;
        }
        if section == 6 {
            m = read_global(bytes, at);
        }
        d = at + len as usize;
    }
    m
}

/// The pages of 64 KiB that the memory starts with: four, and those that hold the static data.
/// The sum is cut to 32 bits, as the module's own arithmetic is.
pub open spec fn initial_pages_of(data_size: u32) -> int {
    (4 + ((data_size + 65535) % 0x1_0000_0000) / 65536) % 65536
}

/// The pages that the memory starts with.
pub fn initial_pages(data_size: u32) -> (r: u32)
    ensures
        r == initial_pages_of(data_size),
{
    let pages: u32 = data_size.wrapping_add(65535) / 65536;
    (4 + pages) % 65536
}

/// The break after a request for `inc` more bytes, modulo 2^32.
pub open spec fn next_break(current: u32, inc: i32) -> int {
    (current + inc) % 0x1_0000_0000
}

/// How many pages of 64 KiB must be added so that `size` bytes of memory reach the break.
pub open spec fn missing_pages(size: u64, brk: int) -> int {
    if brk > size {
        (brk - size + 65535) / 65536
    } else {
        0
    }
}

/// Moves the break: the new break, and the pages that the memory must grow by.
pub fn sbrk(current: u32, inc: i32, memory_size: u64) -> (r: (u32, u64))
    ensures
        r.0 == next_break(current, inc),
        r.1 == missing_pages(memory_size, next_break(current, inc)),
{
    let wide: i64 = current as i64 + inc as i64;
    let brk: u32 = crate::buffers::low32(wide);
    let pages: u64 = if brk as u64 > memory_size {
        (brk as u64 - memory_size + 65535) / 65536
    } else {
        0
    };
    (brk, pages)
}

/// After the memory has grown as asked, it reaches the break, with less than a page to spare.
pub proof fn law_sbrk_reaches_break(current: u32, inc: i32, size: u64)
    ensures
        size + 65536 * missing_pages(size, next_break(current, inc)) >= next_break(current, inc),
        missing_pages(size, next_break(current, inc)) > 0 ==> size + 65536 * missing_pages(
            size,
            next_break(current, inc),
        ) < next_break(current, inc) + 65536,
{
}

/// The memory that the module starts with holds its static data, unless the data comes within
/// five pages of the end of the address space.
pub proof fn law_initial_pages_hold_data(data_size: u32)
    requires
        data_size <= 0xfffa_0000,
    ensures
        65536 * initial_pages_of(data_size) >= data_size + 4 * 65536,
{
}

/// Seven more bits go above those that are there.
proof fn lemma_group_above(x: u32, d: u32, shift: u32, unit: u32)
    requires
        (shift == 0 && unit == 1) || (shift == 7 && unit == 0x80) || (shift == 14 && unit == 0x4000)
            || (shift == 21 && unit == 0x20_0000) || (shift == 28 && unit == 0x1000_0000 && d < 16),
        x < unit,
        d < 128,
    ensures
        x | (d << shift) == x + d * unit,
{
    assert(x | (d << shift) == x + d * unit) by (bit_vector)
        requires
            (shift == 0 && unit == 1) || (shift == 7 && unit == 0x80) || (shift == 14 && unit
                == 0x4000) || (shift == 21 && unit == 0x20_0000) || (shift == 28 && unit
                == 0x1000_0000 && d < 16),
            x < unit,
            d < 128,
    ;
}

/// After `n` bytes of a number below 2^32, reading the rest gives the number.
proof fn lemma_leb_reads(bytes: Seq<u8>, at: int, v: nat, n: nat, unit: u32, rest: nat)
    requires
        v <= u32::MAX,
        (n == 0 && unit == 1) || (n == 1 && unit == 0x80) || (n == 2 && unit == 0x4000) || (n == 3
            && unit == 0x20_0000) || (n == 4 && unit == 0x1000_0000),
        leb_bits(bytes, at, n) < unit,
        v == leb_bits(bytes, at, n) + rest * unit,
        0 <= at,
        stands_at(bytes, at + n, varint_bytes(rest)),
    ensures
        leb_end(bytes, at + n) == at + n + varint_bytes(rest).len(),
        leb_bits(bytes, at, (n + varint_bytes(rest).len()) as nat) == v,
    decreases rest,
{
    let x = leb_bits(bytes, at, n);
    let d = (rest % 128) as u32;
    let own = varint_bytes(rest);
    assert(own[0] == bytes[at + n]);
    if n == 4 {
        assert(rest < 16) by (nonlinear_arith)
            requires
                v >= rest * unit,
                unit == 0x1000_0000,
                v <= 0xffff_ffff,
        ;
    }
    lemma_group_above(x, d, leb_shift(n), unit);
    assert(leb_bits(bytes, at, n + 1) == x | (((bytes[at + n] % 128) as u32) << leb_shift(n)));
    if rest < 128 {
        assert(own.len() == 1);
        assert(bytes[at + n] % 128 == d);
    } else {
        assert(n < 4);
        let more = rest / 128;
        assert((bytes[at + n] % 128) as u32 == d);
        assert(rest * unit == d * unit + more * (128 * unit)) by (nonlinear_arith)
            requires
                rest == 128 * more + d,
        ;
        assert(x + d * unit < 128 * unit) by (nonlinear_arith)
            requires
                x < unit,
                d <= 127,
        ;
        let tail = varint_bytes(more);
        assert forall|j: int| 0 <= j < tail.len() implies #[trigger] tail[j] == bytes[at + (n + 1)
            + j] by {
            assert(own[j + 1] == tail[j]);
        }
        lemma_leb_reads(bytes, at, v, n + 1, (128 * unit) as u32, more);
    }
}

/// A number reads back from its bytes, at any position and whatever follows.
pub proof fn law_leb_reads_back(bytes: Seq<u8>, at: int, v: u32)
    requires
        0 <= at,
        stands_at(bytes, at, varint_bytes(v as nat)),
    ensures
        leb_value(bytes, at) == v,
        leb_end(bytes, at) == at + varint_bytes(v as nat).len(),
{
    let own = varint_bytes(v as nat);
    assert forall|j: int| 0 <= j < own.len() implies #[trigger] own[j] == bytes[at + 0 + j] by {}
    lemma_leb_reads(bytes, at, v as nat, 0, 1, v as nat);
}

/// The bytes of a number are some.
proof fn lemma_varint_bytes(v: nat)
    ensures
        varint_bytes(v).len() > 0,
{
}

/// The module is walked section by section: one whose number is not that of the globals is passed
/// over, and that of the globals says how large the static data is, by the first of them: behind
/// how many there are, its type and whether it changes, and the instruction, stands its value.
pub proof fn law_data_size_is_that_of_the_first_global(
    bytes: Seq<u8>,
    at: int,
    section: u32,
    length: u32,
    count: u32,
    kind: u8,
    change: u8,
    instruction: u32,
    value: u32,
    size: u32,
)
    requires
        0 <= at,
        section <= 11,
        length > 0,
        ({
            let length_at = at + varint_bytes(section as nat).len();
            let body = length_at + varint_bytes(length as nat).len();
            let mark = body + varint_bytes(count as nat).len();
            let code = mark + 2;
            let number = code + varint_bytes(instruction as nat).len();
            &&& stands_at(bytes, at, varint_bytes(section as nat))
            &&& stands_at(bytes, length_at, varint_bytes(length as nat))
            &&& body + length <= bytes.len()
            &&& section == 6 ==> {
                &&& stands_at(bytes, body, varint_bytes(count as nat))
                &&& stands_at(bytes, mark, seq![kind, change])
                &&& stands_at(bytes, code, varint_bytes(instruction as nat))
                &&& stands_at(bytes, number, varint_bytes(value as nat))
            }
        }),
    ensures
        ({
            let body = at + varint_bytes(section as nat).len() + varint_bytes(length as nat).len();
            data_size_from(bytes, at, size) == data_size_from(
                bytes,
                body + length,
                if section == 6 {
                    value
                } else {
                    size
                },
            )
        }),
        data_size_of(bytes) == data_size_from(bytes, 8, 65536),
        bytes.len() <= 8 ==> data_size_of(bytes) == 65536,
{
    let length_at = at + varint_bytes(section as nat).len();
    let body = length_at + varint_bytes(length as nat).len();
    lemma_varint_bytes(section as nat);
    law_leb_reads_back(bytes, at, section);
    law_leb_reads_back(bytes, length_at, length);
    if section == 6 {
        let mark = body + varint_bytes(count as nat).len();
        let code = mark + 2;
        let number = code + varint_bytes(instruction as nat).len();
        law_leb_reads_back(bytes, body, count);
        law_leb_reads_back(bytes, code, instruction);
        law_leb_reads_back(bytes, number, value);
    }
}

/// The memory that the module starts with has four pages besides those of its static data.
pub proof fn law_initial_pages(data_size: u32)
    requires
        data_size <= 0xfffa_0000,
    ensures
        65536 * (initial_pages_of(data_size) - 4) >= data_size,
        65536 * (initial_pages_of(data_size) - 4) < data_size + 65536,
{
}

/// The break moves by what is asked for, within the address space.
pub proof fn law_break_moves(current: u32, inc: i32)
    ensures
        0 <= current + inc <= u32::MAX ==> next_break(current, inc) == current + inc,
        0 <= next_break(current, inc) <= u32::MAX,
{
}

} // verus!
