//! The dialogue with the decryption module: what is written into it, in which order, and what is
//! collected from it.

use crate::outside::{base64_decode, base64_of, draw, gunzip, gunzip_of};
use crate::text::{
    chars_of, law_other_text_stays, law_text_is_replaced_where_it_stands, lower_char, lower_char_of,
    replace_text, replaced_of,
};
use vstd::prelude::*;

verus! {

/// Why a file could not be decrypted.
#[derive(Clone, Copy, Debug, PartialEq, Eq, Structural)]
pub enum DecryptError {
    /// The static key does not start with ten groups of four hexadecimal digits.
    MalformedKey,
    /// The per-model key is not base64.
    MalformedModelKey,
    /// What came out starts like a gzip member but is none.
    CorruptArchive,
    /// The module's answer does not belong to the question.
    UnexpectedAnswer,
}

/// The value of a hexadecimal digit in lower case.
pub open spec fn hex_digit_of(c: char) -> Option<u32> {
    if '0' <= c <= '9' {
        Some((c as u32 - 48) as u32)
    } else if 'a' <= c <= 'f' {
        Some((c as u32 - 87) as u32)
    } else {
        None
    }
}

/// The value of the digits of `s`, in base 16.
pub open spec fn hex_value_of(s: Seq<char>) -> Option<int>
    decreases s.len(),
{
    if s.len() == 0 {
        Some(0)
    } else {
        match (hex_value_of(s.drop_last()), hex_digit_of(s.last())) {
            (Some(v), Some(d)) => Some(16 * v + d),
            _ => None,
        }
    }
}

/// Group `i` of a key: four characters in lower case, which may start with a plus sign.
pub open spec fn key_group(key: Seq<char>, i: int) -> Option<int> {
    let group = crate::text::lower_of(key.subrange(4 * i, 4 * i + 4));
    if group[0] == '+' {
        hex_value_of(group.skip(1))
    } else {
        hex_value_of(group)
    }
}

/// Whether a key starts with ten well-formed groups.
pub open spec fn key_ok(key: Seq<char>) -> bool {
    key.len() >= 40 && forall|i: int| 0 <= i < 10 ==> (#[trigger] key_group(key, i)) is Some
}

/// The ten numbers of a key.
pub open spec fn key_words_of(key: Seq<char>) -> Seq<u32> {
    Seq::new(10, |i: int| key_group(key, i)->0 as u32)
}

/// The ASCII code of a hexadecimal digit.
pub open spec fn hex_code(d: int) -> u8 {
    if d < 10 {
        (48 + d) as u8
    } else {
        (87 + d) as u8
    }
}

/// The four hexadecimal digits of a 16-bit number, as ASCII codes.
pub open spec fn hex4(w: u32) -> Seq<u8> {
    seq![
        hex_code((w / 4096) as int),
        hex_code(((w / 256) % 16) as int),
        hex_code(((w / 16) % 16) as int),
        hex_code((w % 16) as int),
    ]
}

/// The digits of the first `n` words.
pub open spec fn hex_words(words: Seq<u32>, n: int) -> Seq<u8>
    decreases n,
{
    if n <= 0 {
        Seq::empty()
    } else {
        hex_words(words, n - 1) + hex4(words[n - 1])
    }
}

/// All words up to `n`, combined by exclusive or.
spec fn xor_words(words: Seq<u32>, n: int) -> u32
    decreases n,
{
    if n <= 0 {
        0
    } else {
        xor_words(words, n - 1) ^ words[n - 1]
    }
}

/// All words up to `n`, each masked with the seed, combined by exclusive or.
spec fn xor_masked(words: Seq<u32>, seed: u32, n: int) -> u32
    decreases n,
{
    if n <= 0 {
        0
    } else {
        xor_masked(words, seed, n - 1) ^ (words[n - 1] ^ seed)
    }
}

/// An even number of masks cancel out.
proof fn lemma_masks_cancel(words: Seq<u32>, seed: u32, n: int)
    requires
        n >= 0,
    ensures
        n % 2 == 0 ==> xor_masked(words, seed, n) == xor_words(words, n),
        n % 2 == 1 ==> xor_masked(words, seed, n) == xor_words(words, n) ^ seed,
    decreases n,
{
    if n > 0 {
        lemma_masks_cancel(words, seed, n - 1);
        let x = xor_words(words, n - 1);
        let w = words[n - 1];
        assert(x ^ (w ^ seed) == (x ^ w) ^ seed) by (bit_vector);
        assert((x ^ seed) ^ (w ^ seed) == x ^ w) by (bit_vector);
    } else {
        assert(0u32 ^ seed == seed) by (bit_vector);
    }
}

/// The value of a hexadecimal digit in lower case.
fn hex_digit(c: char) -> (r: Option<u32>)
    ensures
        r == hex_digit_of(c),
        r matches Some(d) ==> d < 16,
{
    if '0' <= c && c <= '9' {
        Some(c as u32 - 48)
    } else if 'a' <= c && c <= 'f' {
        Some(c as u32 - 87)
    } else {
        None
    }
}

/// Reads group `i` of a key.
fn read_group(key: &[char], i: usize) -> (r: Option<u32>)
    requires
        key@.len() >= 40,
        i < 10,
    ensures
        match r {
            Some(w) => key_group(key@, i as int) == Some(w as int) && w < 0x1_0000,
            None => key_group(key@, i as int) is None,
        },
{
    let ghost group = crate::text::lower_of(key@.subrange(4 * i, 4 * i + 4));
    let first: char = lower_char(key[4 * i]);
    let start: usize = if first == '+' {
        1
    } else {
        0
    };
    let ghost digits = group.skip(start as int);
    assert(group.skip(0) =~= group);
    let mut value: u32 = 0;
    let mut k: usize = start;
    assert(digits.take(0) =~= Seq::<char>::empty());
    while k < 4
        invariant
            start <= k <= 4,
            start <= 1,
            i < 10,
            key@.len() >= 40,
            group == crate::text::lower_of(key@.subrange(4 * i, 4 * i + 4)),
            digits == group.skip(start as int),
            key_group(key@, i as int) == hex_value_of(digits),
            hex_value_of(digits.take(k - start)) == Some(value as int),
            k == 0 ==> value < 1,
            k == 1 ==> value < 0x10,
            k == 2 ==> value < 0x100,
            k == 3 ==> value < 0x1000,
            k == 4 ==> value < 0x1_0000,
        decreases 4 - k,
    {
        let c: char = lower_char(key[4 * i + k]);
        proof {
            let next = digits.take(k - start + 1);
            assert(next.drop_last() =~= digits.take(k - start));
            assert(next.last() == c);
        }
        match hex_digit(c) {
            Some(d) => {
                value = 16 * value + d;
            },
            None => {
                proof {
                    lemma_hex_prefix(digits, k - start + 1);
                }
                return None;
            },
        }
        k += 1;
    }
    assert(digits.take(k - start) =~= digits);
    Some(value)
}

/// A numeral is one only if every prefix of it is.
proof fn lemma_hex_prefix(s: Seq<char>, n: int)
    requires
        0 <= n <= s.len(),
        hex_value_of(s.take(n)) is None,
    ensures
        hex_value_of(s) is None,
    decreases s.len() - n,
{
    if n == s.len() {
        assert(s.take(n) =~= s);
    } else {
        assert(s.take(n + 1).drop_last() =~= s.take(n));
        lemma_hex_prefix(s, n + 1);
    }
}

/// Reads the ten groups of a key.
fn read_key(static_key: &str) -> (r: Option<Vec<u32>>)
    ensures
        match r {
            Some(words) => key_ok(static_key@) && words@ == key_words_of(static_key@) && forall|
                k: int,
            |
                0 <= k < 10 ==> #[trigger] words@[k] < 0x1_0000,
            None => !key_ok(static_key@),
        },
{
    let key = chars_of(static_key);
    if key.len() < 40 {
        return None;
    }
    let mut words: Vec<u32> = Vec::new();
    let mut i: usize = 0;
    while i < 10
        invariant
            i <= 10,
            key@ == static_key@,
            key@.len() >= 40,
            words@.len() == i,
            forall|k: int|
                0 <= k < i ==> (#[trigger] key_group(key@, k)) == Some(words@[k] as int),
            forall|k: int| 0 <= k < i ==> #[trigger] words@[k] < 0x1_0000,
        decreases 10 - i,
    {
        match read_group(key.as_slice(), i) {
            Some(w) => {
                words.push(w);
            },
            None => {
                return None;
            },
        }
        i += 1;
    }
    assert(words@ =~= key_words_of(static_key@));
    Some(words)
}

/// The ASCII code of a hexadecimal digit.
fn code(d: u32) -> (r: u8)
    requires
        d < 16,
    ensures
        r == hex_code(d as int),
{
    if d < 10 {
        (48 + d) as u8
    } else {
        (87 + d) as u8
    }
}

/// Masks the key's words with the seed, takes the mask off again, and writes each word as four
/// hexadecimal digits.
fn schedule(words: &[u32], seed: u32) -> (r: Vec<u8>)
    requires
        words@.len() == 10,
        forall|k: int| 0 <= k < 10 ==> #[trigger] words@[k] < 0x1_0000,
    ensures
        r@ == hex_words(words@, 10),
{
    let mut masked: Vec<u32> = Vec::new();
    let mut running: u32 = seed;
    let mut i: usize = 0;
    assert(seed ^ 0u32 == seed) by (bit_vector);
    while i < 10
        invariant
            i <= 10,
            words@.len() == 10,
            masked@.len() == i,
            forall|k: int| 0 <= k < i ==> #[trigger] masked@[k] == words@[k] ^ seed,
            running == seed ^ xor_words(words@, i as int),
        decreases 10 - i,
    {
        let g: u32 = words[i];
        proof {
            let x = xor_words(words@, i as int);
            assert((seed ^ x) ^ g == seed ^ (x ^ g)) by (bit_vector);
        }
        running = running ^ g;
        masked.push(g ^ seed);
        i += 1;
    }
    let mut all: u32 = running;
    let mut t: usize = 0;
    proof {
        assert(running ^ 0u32 == running) by (bit_vector);
    }
    while t < 10
        invariant
            t <= 10,
            words@.len() == 10,
            masked@.len() == 10,
            forall|k: int| 0 <= k < 10 ==> #[trigger] masked@[k] == words@[k] ^ seed,
            all == running ^ xor_masked(words@, seed, t as int),
        decreases 10 - t,
    {
        let m: u32 = masked[t];
        proof {
            let x = xor_masked(words@, seed, t as int);
            assert((running ^ x) ^ m == running ^ (x ^ m)) by (bit_vector);
        }
        all = all ^ m;
        t += 1;
    }
    proof {
        lemma_masks_cancel(words@, seed, 10);
        let x = xor_words(words@, 10);
        assert((seed ^ x) ^ x == seed) by (bit_vector);
        assert(all == seed);
    }
    let mut out: Vec<u8> = Vec::new();
    let mut j: usize = 0;
    while j < 10
        invariant
            j <= 10,
            words@.len() == 10,
            masked@.len() == 10,
            all == seed,
            forall|k: int| 0 <= k < 10 ==> #[trigger] words@[k] < 0x1_0000,
            forall|k: int| 0 <= k < 10 ==> #[trigger] masked@[k] == words@[k] ^ seed,
            out@ == hex_words(words@, j as int),
        decreases 10 - j,
    {
        let ghost g = words@[j as int];
        let w: u32 = masked[j] ^ all;
        assert((g ^ seed) ^ seed == g) by (bit_vector);
        let ghost before = out@;
        out.push(code(w / 4096));
        out.push(code((w / 256) % 16));
        out.push(code((w / 16) % 16));
        out.push(code(w % 16));
        assert(out@ =~= before + hex4(w));
        j += 1;
    }
    out
}

/// The key as it is written into the module: whatever the seed, the digits of the key's ten
/// words.
pub fn key_schedule(static_key: &str, seed: i32) -> (r: Result<Vec<u8>, DecryptError>)
    ensures
        match r {
            Ok(bytes) => key_ok(static_key@) && bytes@ == hex_words(key_words_of(static_key@), 10),
            Err(e) => !key_ok(static_key@) && e == DecryptError::MalformedKey,
        },
{
    match read_key(static_key) {
        Some(words) => {
            let mask: u32 = crate::buffers::low32(seed as i64);
            Ok(schedule(words.as_slice(), mask))
        },
        None => Err(DecryptError::MalformedKey),
    }
}

/// The written key has four characters for each of its ten words.
pub proof fn law_written_key_has_forty_digits(words: Seq<u32>, n: int)
    requires
        0 <= n <= words.len(),
    ensures
        hex_words(words, n).len() == 4 * n,
        forall|k: int|
            0 <= k < n ==> #[trigger] hex_words(words, n).subrange(4 * k, 4 * k + 4) == hex4(
                words[k],
            ),
    decreases n,
{
    if n > 0 {
        law_written_key_has_forty_digits(words, n - 1);
        let before = hex_words(words, n - 1);
        let whole = hex_words(words, n);
        assert forall|k: int| 0 <= k < n implies #[trigger] whole.subrange(4 * k, 4 * k + 4)
            == hex4(words[k]) by {
            if k < n - 1 {
                assert(before.subrange(4 * k, 4 * k + 4) == hex4(words[k]));
                assert(whole.subrange(4 * k, 4 * k + 4) =~= before.subrange(4 * k, 4 * k + 4));
            } else {
                assert(whole.subrange(4 * k, 4 * k + 4) =~= hex4(words[k]));
            }
        }
    }
}

/// A hexadecimal digit is written as it is read.
proof fn lemma_digit_written(c: char)
    requires
        hex_digit_of(c) is Some,
    ensures
        hex_digit_of(c)->0 < 16,
        hex_code(hex_digit_of(c)->0 as int) == c as u8,
        c != '+',
{
}

/// The digits of a value in base 16.
proof fn lemma_digits_of(a: int, b: int, c: int, d: int)
    requires
        0 <= a < 16,
        0 <= b < 16,
        0 <= c < 16,
        0 <= d < 16,
    ensures
        ({
            let v = 16 * (16 * (16 * a + b) + c) + d;
            0 <= v < 0x1_0000 && v / 4096 == a && (v / 256) % 16 == b && (v / 16) % 16 == c && v
                % 16 == d
        }),
{
}

/// Four hexadecimal digits have a value, and its digits are they.
proof fn lemma_group_written(group: Seq<char>)
    requires
        group.len() == 4,
        forall|i: int| 0 <= i < 4 ==> hex_digit_of(#[trigger] group[i]) is Some,
    ensures
        hex_value_of(group) matches Some(v) && 0 <= v < 0x1_0000 && hex4(v as u32) == Seq::new(
            4,
            |i: int| group[i] as u8,
        ),
{
    lemma_digit_written(group[0]);
    lemma_digit_written(group[1]);
    lemma_digit_written(group[2]);
    lemma_digit_written(group[3]);
    let a = hex_digit_of(group[0])->0 as int;
    let b = hex_digit_of(group[1])->0 as int;
    let c = hex_digit_of(group[2])->0 as int;
    let d = hex_digit_of(group[3])->0 as int;
    let g3 = group.drop_last();
    let g2 = g3.drop_last();
    let g1 = g2.drop_last();
    assert(g1.drop_last() =~= Seq::<char>::empty());
    assert(hex_value_of(Seq::<char>::empty()) == Some(0int));
    assert(g1.last() == group[0] && g2.last() == group[1] && g3.last() == group[2]);
    assert(hex_value_of(g1) == Some(a));
    assert(hex_value_of(g2) == Some(16 * a + b));
    assert(hex_value_of(g3) == Some(16 * (16 * a + b) + c));
    let v = 16 * (16 * (16 * a + b) + c) + d;
    assert(hex_value_of(group) == Some(v));
    lemma_digits_of(a, b, c, d);
    let w = v as u32;
    assert(w == v);
    assert(hex4(w) =~= seq![hex_code(a), hex_code(b), hex_code(c), hex_code(d)]);
    assert(hex4(w) =~= Seq::new(4, |i: int| group[i] as u8));
}

/// A key that starts with forty hexadecimal digits is accepted, and is written as these digits in
/// lower case.
pub proof fn law_digits_are_written_in_lower_case(key: Seq<char>)
    requires
        key.len() >= 40,
        forall|i: int| 0 <= i < 40 ==> hex_digit_of(lower_char_of(#[trigger] key[i])) is Some,
    ensures
        key_ok(key),
        hex_words(key_words_of(key), 10) == Seq::new(40, |i: int| lower_char_of(key[i]) as u8),
{
    let words = key_words_of(key);
    let written = hex_words(words, 10);
    law_written_key_has_forty_digits(words, 10);
    assert forall|i: int| 0 <= i < 10 implies (#[trigger] key_group(key, i)) is Some && hex4(
        words[i],
    ) == Seq::new(4, |j: int| lower_char_of(key[4 * i + j]) as u8) by {
        let group = crate::text::lower_of(key.subrange(4 * i, 4 * i + 4));
        assert forall|j: int| 0 <= j < 4 implies hex_digit_of(#[trigger] group[j]) is Some by {
            assert(group[j] == lower_char_of(key[4 * i + j]));
        }
        lemma_digit_written(group[0]);
        lemma_group_written(group);
        assert(Seq::new(4, |j: int| group[j] as u8) =~= Seq::new(
            4,
            |j: int| lower_char_of(key[4 * i + j]) as u8,
        ));
    }
    let goal = Seq::new(40, |i: int| lower_char_of(key[i]) as u8);
    assert forall|i: int| 0 <= i < 40 implies #[trigger] written[i] == goal[i] by {
        let k = i / 4;
        assert(key_group(key, k) is Some);
        assert(written.subrange(4 * k, 4 * k + 4) == hex4(words[k]));
        assert(written.subrange(4 * k, 4 * k + 4)[i - 4 * k] == written[i]);
    }
    assert(written =~= goal);
}

/// A seed for one session: 1314 plus a number below 9999, drawn at random.
pub fn draw_seed() -> (r: i32)
    ensures
        1314 <= r < 11313,
{
    1314 + draw(0, 9999)
}

/// The model's key without its line breaks, written out or real.
pub open spec fn clean_model_key_of(text: Seq<char>) -> Seq<char> {
    replaced_of(replaced_of(text, "\\n"@, Seq::empty()), "\n"@, Seq::empty())
}

/// Takes the line breaks out of the model's key.
pub fn clean_model_key(text: &str) -> (r: String)
    ensures
        r@ == clean_model_key_of(text@),
{
    proof {
        reveal_strlit("\\n");
        reveal_strlit("\n");
        reveal_strlit("");
        assert(""@ =~= Seq::<char>::empty());
    }
    let once = replace_text(text, "\\n", "");
    replace_text(once.as_str(), "\n", "")
}

/// Decodes the model's key.
pub fn decode_model_key(text: &str) -> (r: Result<Vec<u8>, DecryptError>)
    ensures
        match r {
            Ok(bytes) => base64_of(clean_model_key_of(text@)) == Some(bytes@),
            Err(e) => base64_of(clean_model_key_of(text@)) is None && e
                == DecryptError::MalformedModelKey,
        },
{
    match base64_decode(clean_model_key(text).as_str()) {
        Some(bytes) => Ok(bytes),
        None => Err(DecryptError::MalformedModelKey),
    }
}

/// Whether bytes start like a gzip member.
pub open spec fn is_gzip(bytes: Seq<u8>) -> bool {
    bytes.len() >= 2 && bytes[0] == 0x1f && bytes[1] == 0x8b
}

/// What a decrypted file holds: the bytes themselves, or what they unpack to if they start like
/// a gzip member.
pub fn unpack(bytes: Vec<u8>) -> (r: Result<Vec<u8>, DecryptError>)
    ensures
        match r {
            Ok(out) => if is_gzip(bytes@) {
                gunzip_of(bytes@) == Some(out@)
            } else {
                out@ == bytes@
            },
            Err(e) => is_gzip(bytes@) && gunzip_of(bytes@) is None && e
                == DecryptError::CorruptArchive,
        },
{
    if bytes.len() >= 2 && bytes[0] == 0x1f && bytes[1] == 0x8b {
        match gunzip(bytes.as_slice()) {
            Some(out) => Ok(out),
            None => Err(DecryptError::CorruptArchive),
        }
    } else {
        Ok(bytes)
    }
}

/// Unpacks a downloaded animation.
pub fn unpack_animation(bytes: &[u8]) -> (r: Result<Vec<u8>, DecryptError>)
    ensures
        match r {
            Ok(out) => gunzip_of(bytes@) == Some(out@),
            Err(e) => gunzip_of(bytes@) is None && e == DecryptError::CorruptArchive,
        },
{
    match gunzip(bytes) {
        Some(out) => Ok(out),
        None => Err(DecryptError::CorruptArchive),
    }
}

/// How much of the encrypted file is handed over at a time.
pub const CHUNK: usize = 10240;

/// The piece of a file that starts at `at`.
pub open spec fn chunk_at(file: Seq<u8>, at: int) -> Seq<u8> {
    if at + CHUNK <= file.len() {
        file.subrange(at, at + CHUNK)
    } else {
        file.skip(at)
    }
}

/// The pieces of a file from `at` on, put together.
pub open spec fn chunks_from(file: Seq<u8>, at: int) -> Seq<u8>
    decreases file.len() - at,
{
    if at < 0 || at >= file.len() {
        Seq::empty()
    } else {
        chunk_at(file, at) + chunks_from(file, at + chunk_at(file, at).len())
    }
}

/// The pieces of a file make up the file: nothing is left out, repeated or reordered, and no
/// piece is empty or too long.
pub proof fn law_chunks_make_the_file(file: Seq<u8>, at: int)
    requires
        0 <= at <= file.len(),
    ensures
        chunks_from(file, at) == file.skip(at),
        at < file.len() ==> 0 < chunk_at(file, at).len() <= CHUNK,
    decreases file.len() - at,
{
    if at < file.len() {
        let piece = chunk_at(file, at);
        law_chunks_make_the_file(file, at + piece.len());
        assert(piece + file.skip(at + piece.len()) =~= file.skip(at));
    } else {
        assert(file.skip(at) =~= Seq::<u8>::empty());
    }
}

/// Where a session stands: which answer it waits for.
#[derive(Clone, Copy, Debug, PartialEq, Eq, Structural)]
pub enum Phase {
    Start,
    KeyOffset,
    KeyWritten,
    WasReset,
    ModelKeyOffset,
    ModelKeyWritten,
    ModelKeyProcessed,
    InputOffset,
    InputWritten,
    Processed,
    OutputStart,
    OutputLength(i32),
    Output,
    Advanced,
    Finished,
}

/// What the module is asked to do next.
#[derive(Debug)]
pub enum Action {
    /// Reserve room for a key of `length` digits, with the given seed.
    ReserveKey(i32, i32),
    /// Write the bytes at the offset.
    Write(i32, Vec<u8>),
    /// Reset the module.
    Reset,
    /// Reserve room for the model's key.
    ReserveModelKey(usize),
    /// Reserve room for a piece of the file.
    ReserveInput(usize),
    /// Process what was written.
    Process,
    /// Ask where the output starts.
    AskStart,
    /// Ask how long the output is.
    AskLength,
    /// Read that many bytes from the offset.
    Read(i32, i32),
    /// Drop the output that was read.
    Advance,
    /// The file is done: nothing is left to ask.
    Finish,
    /// The session cannot go on.
    Fail(DecryptError),
}

/// What the module answers.
#[derive(Debug)]
pub enum Answer {
    /// Nothing.
    Done,
    /// A number.
    Value(i32),
    /// The bytes that were read.
    Bytes(Vec<u8>),
}

/// The mathematical counterpart of [`Action`].
pub ghost enum ActionView {
    ReserveKey(i32, i32),
    Write(i32, Seq<u8>),
    Reset,
    ReserveModelKey(int),
    ReserveInput(int),
    Process,
    AskStart,
    AskLength,
    Read(i32, i32),
    Advance,
    Finish,
    Fail(DecryptError),
}

impl View for Action {
    type V = ActionView;

    open spec fn view(&self) -> ActionView {
        match self {
            Action::ReserveKey(seed, length) => ActionView::ReserveKey(*seed, *length),
            Action::Write(at, bytes) => ActionView::Write(*at, bytes@),
            Action::Reset => ActionView::Reset,
            Action::ReserveModelKey(n) => ActionView::ReserveModelKey(*n as int),
            Action::ReserveInput(n) => ActionView::ReserveInput(*n as int),
            Action::Process => ActionView::Process,
            Action::AskStart => ActionView::AskStart,
            Action::AskLength => ActionView::AskLength,
            Action::Read(at, n) => ActionView::Read(*at, *n),
            Action::Advance => ActionView::Advance,
            Action::Finish => ActionView::Finish,
            Action::Fail(e) => ActionView::Fail(*e),
        }
    }
}

/// The decryption of one file.
#[derive(Debug)]
pub struct Session {
    /// The seed of the key's mask.
    pub seed: i32,
    /// The key's digits.
    pub key: Vec<u8>,
    /// The model's key, once it is decoded.
    pub model_key: Vec<u8>,
    /// The model's key as text.
    pub model_key_text: String,
    /// The encrypted file.
    pub file: Vec<u8>,
    /// How much of the file was handed over.
    pub position: usize,
    /// What was collected.
    pub output: Vec<u8>,
    /// Where the session stands.
    pub phase: Phase,
}

/// The mathematical counterpart of [`Session`].
#[verifier::ext_equal]
pub ghost struct SessionView {
    pub seed: i32,
    pub key: Seq<u8>,
    pub model_key: Seq<u8>,
    pub model_key_text: Seq<char>,
    pub file: Seq<u8>,
    pub position: int,
    pub output: Seq<u8>,
    pub phase: Phase,
}

impl View for Session {
    type V = SessionView;

    open spec fn view(&self) -> SessionView {
        SessionView {
            seed: self.seed,
            key: self.key@,
            model_key: self.model_key@,
            model_key_text: self.model_key_text@,
            file: self.file@,
            position: self.position as int,
            output: self.output@,
            phase: self.phase,
        }
    }
}

impl SessionView {
    /// The same session in another phase.
    pub open spec fn to(self, phase: Phase) -> SessionView {
        SessionView { phase, ..self }
    }

    /// Goes on to the next piece of the file, or ends after the last one.
    pub open spec fn next_piece(self) -> (SessionView, ActionView) {
        if self.position >= self.file.len() {
            (self.to(Phase::Finished), ActionView::Finish)
        } else {
            (
                self.to(Phase::InputOffset),
                ActionView::ReserveInput(chunk_at(self.file, self.position).len() as int),
            )
        }
    }

    /// What follows an answer: the session afterwards, and what is asked next.
    pub open spec fn step(self, answer: Answer) -> (SessionView, ActionView) {
        match (self.phase, answer) {
            (Phase::Start, Answer::Done) => (
                self.to(Phase::KeyOffset),
                ActionView::ReserveKey(self.seed, 40),
            ),
            (Phase::KeyOffset, Answer::Value(at)) => (
                self.to(Phase::KeyWritten),
                ActionView::Write(at, self.key),
            ),
            (Phase::KeyWritten, Answer::Done) => match base64_of(
                clean_model_key_of(self.model_key_text),
            ) {
                Some(bytes) => (
                    SessionView { model_key: bytes, ..self }.to(Phase::WasReset),
                    ActionView::Reset,
                ),
                None => (
                    self.to(Phase::Finished),
                    ActionView::Fail(DecryptError::MalformedModelKey),
                ),
            },
            (Phase::WasReset, Answer::Done) => (
                self.to(Phase::ModelKeyOffset),
                ActionView::ReserveModelKey(self.model_key.len() as int),
            ),
            (Phase::ModelKeyOffset, Answer::Value(at)) => (
                self.to(Phase::ModelKeyWritten),
                ActionView::Write(at, self.model_key),
            ),
            (Phase::ModelKeyWritten, Answer::Done) => (
                self.to(Phase::ModelKeyProcessed),
                ActionView::Process,
            ),
            (Phase::ModelKeyProcessed, Answer::Value(_)) => self.next_piece(),
            (Phase::InputOffset, Answer::Value(at)) => {
                let piece = chunk_at(self.file, self.position);
                (
                    SessionView { position: self.position + piece.len(), ..self }.to(
                        Phase::InputWritten,
                    ),
                    ActionView::Write(at, piece),
                )
            },
            (Phase::InputWritten, Answer::Done) => (
                self.to(Phase::Processed),
                ActionView::Process,
            ),
            (Phase::Processed, Answer::Value(more)) => if more == 0 {
                self.next_piece()
            } else {
                (self.to(Phase::OutputStart), ActionView::AskStart)
            },
            (Phase::OutputStart, Answer::Value(at)) => (
                self.to(Phase::OutputLength(at)),
                ActionView::AskLength,
            ),
            (Phase::OutputLength(at), Answer::Value(length)) => (
                self.to(Phase::Output),
                ActionView::Read(at, length),
            ),
            (Phase::Output, Answer::Bytes(bytes)) => (
                SessionView { output: self.output + bytes@, ..self }.to(Phase::Advanced),
                ActionView::Advance,
            ),
            (Phase::Advanced, Answer::Done) => (self.to(Phase::Processed), ActionView::Process),
            _ => (
                self.to(Phase::Finished),
                ActionView::Fail(DecryptError::UnexpectedAnswer),
            ),
        }
    }
}

impl Session {
    /// Whether no more of the file was handed over than there is.
    pub open spec fn wf(&self) -> bool {
        self.position <= self.file@.len()
    }

    /// A session for one encrypted file.
    pub fn new(model_key: &str, static_key: &str, file: Vec<u8>, seed: i32) -> (r: Result<
        Session,
        DecryptError,
    >)
        ensures
            match r {
                Ok(s) => key_ok(static_key@) && s.wf() && s@ == (SessionView {
                    seed,
                    key: hex_words(key_words_of(static_key@), 10),
                    model_key: Seq::empty(),
                    model_key_text: model_key@,
                    file: file@,
                    position: 0,
                    output: Seq::empty(),
                    phase: Phase::Start,
                }),
                Err(e) => !key_ok(static_key@) && e == DecryptError::MalformedKey,
            },
    {
        match key_schedule(static_key, seed) {
            Ok(key) => {
                let s = Session {
                    seed,
                    key,
                    model_key: Vec::new(),
                    model_key_text: crate::text::string_of(chars_of(model_key).as_slice()),
                    file,
                    position: 0,
                    output: Vec::new(),
                    phase: Phase::Start,
                };
                Ok(s)
            },
            Err(e) => Err(e),
        }
    }

    /// Goes on to the next piece of the file, or ends after the last one.
    fn next_piece(&mut self) -> (r: Action)
        requires
            old(self).wf(),
        ensures
            final(self).wf(),
            (final(self)@, r@) == old(self)@.next_piece(),
    {
        if self.position >= self.file.len() {
            self.phase = Phase::Finished;
            Action::Finish
        } else {
            let left: usize = self.file.len() - self.position;
            self.phase = Phase::InputOffset;
            Action::ReserveInput(
                if left >= CHUNK {
                    CHUNK
                } else {
                    left
                },
            )
        }
    }

    /// Takes the module's answer to the last action and says what to ask next. The first answer,
    /// before any action, is [`Answer::Done`].
    pub fn step(&mut self, answer: Answer) -> (r: Action)
        requires
            old(self).wf(),
        ensures
            final(self).wf(),
            (final(self)@, r@) == old(self)@.step(answer),
    {
        match (self.phase, answer) {
            (Phase::Start, Answer::Done) => {
                self.phase = Phase::KeyOffset;
                Action::ReserveKey(self.seed, 40)
            },
            (Phase::KeyOffset, Answer::Value(at)) => {
                self.phase = Phase::KeyWritten;
                let key = vstd::slice::slice_to_vec(self.key.as_slice());
                assert(key@ =~= self.key@);
                Action::Write(at, key)
            },
            (Phase::KeyWritten, Answer::Done) => {
                match decode_model_key(self.model_key_text.as_str()) {
                    Ok(bytes) => {
                        self.model_key = bytes;
                        self.phase = Phase::WasReset;
                        Action::Reset
                    },
                    Err(e) => {
                        self.phase = Phase::Finished;
                        Action::Fail(e)
                    },
                }
            },
            (Phase::WasReset, Answer::Done) => {
                self.phase = Phase::ModelKeyOffset;
                Action::ReserveModelKey(self.model_key.len())
            },
            (Phase::ModelKeyOffset, Answer::Value(at)) => {
                self.phase = Phase::ModelKeyWritten;
                let key = vstd::slice::slice_to_vec(self.model_key.as_slice());
                assert(key@ =~= self.model_key@);
                Action::Write(at, key)
            },
            (Phase::ModelKeyWritten, Answer::Done) => {
                self.phase = Phase::ModelKeyProcessed;
                Action::Process
            },
            (Phase::ModelKeyProcessed, Answer::Value(_)) => self.next_piece(),
            (Phase::InputOffset, Answer::Value(at)) => {
                let total: usize = self.file.len();
                let end: usize = if total - self.position >= CHUNK {
                    self.position + CHUNK
                } else {
                    total
                };
                let piece = vstd::slice::slice_to_vec(
                    &self.file.as_slice()[self.position..end],
                );
                assert(piece@ =~= chunk_at(self.file@, self.position as int));
                self.position = end;
                self.phase = Phase::InputWritten;
                Action::Write(at, piece)
            },
            (Phase::InputWritten, Answer::Done) => {
                self.phase = Phase::Processed;
                Action::Process
            },
            (Phase::Processed, Answer::Value(more)) => if more == 0 {
                self.next_piece()
            } else {
                self.phase = Phase::OutputStart;
                Action::AskStart
            },
            (Phase::OutputStart, Answer::Value(at)) => {
                self.phase = Phase::OutputLength(at);
                Action::AskLength
            },
            (Phase::OutputLength(at), Answer::Value(length)) => {
                self.phase = Phase::Output;
                Action::Read(at, length)
            },
            (Phase::Output, Answer::Bytes(bytes)) => {
                let ghost before = self.output@;
                self.output.extend_from_slice(bytes.as_slice());
                assert(self.output@ =~= before + bytes@);
                self.phase = Phase::Advanced;
                Action::Advance
            },
            (Phase::Advanced, Answer::Done) => {
                self.phase = Phase::Processed;
                Action::Process
            },
            _ => {
                self.phase = Phase::Finished;
                Action::Fail(DecryptError::UnexpectedAnswer)
            },
        }
    }

    /// What the session collected, unpacked.
    pub fn finish(self) -> (r: Result<Vec<u8>, DecryptError>)
        ensures
            match r {
                Ok(out) => if is_gzip(self.output@) {
                    gunzip_of(self.output@) == Some(out@)
                } else {
                    out@ == self.output@
                },
                Err(e) => is_gzip(self.output@) && gunzip_of(self.output@) is None && e
                    == DecryptError::CorruptArchive,
            },
    {
        unpack(self.output)
    }
}

/// The file, its keys and the seed never change during a session, what was collected only grows,
/// and the position only moves forward.
pub proof fn law_session_keeps_its_inputs(s: SessionView, answer: Answer)
    requires
        0 <= s.position <= s.file.len(),
    ensures
        s.step(answer).0.file == s.file,
        s.step(answer).0.key == s.key,
        s.step(answer).0.seed == s.seed,
        s.step(answer).0.model_key_text == s.model_key_text,
        s.position <= s.step(answer).0.position <= s.file.len(),
        s.output.is_prefix_of(s.step(answer).0.output),
{
    law_chunks_make_the_file(s.file, s.position);
    let after = s.step(answer).0.output;
    assert(after == s.output || answer is Bytes);
    assert(s.output =~= after.take(s.output.len() as int));
}

/// Pieces of the file are written in order: a piece is written exactly when the position moves,
/// and it is what stands between the two positions.
pub proof fn law_session_hands_over_in_order(s: SessionView, at: i32)
    requires
        0 <= s.position < s.file.len(),
        s.phase == Phase::InputOffset,
    ensures
        s.step(Answer::Value(at)).1 == ActionView::Write(
            at,
            s.file.subrange(s.position, s.step(Answer::Value(at)).0.position),
        ),
        s.position < s.step(Answer::Value(at)).0.position,
{
    law_chunks_make_the_file(s.file, s.position);
    let piece = chunk_at(s.file, s.position);
    assert(piece =~= s.file.subrange(s.position, s.position + piece.len()));
}

/// A session ends well only when the whole file was handed over.
pub proof fn law_session_finishes_at_the_end(s: SessionView, answer: Answer)
    ensures
        s.step(answer).1 == ActionView::Finish ==> s.position >= s.file.len(),
{
}

/// A session opens by handing over the keys: room for forty digits is asked for with the seed, the
/// digits are written there, the module is reset, room for the model's key is asked for, its bytes
/// are written there, and it is processed; then comes the first piece of the file, or the end.
pub proof fn law_session_opens_with_the_keys(
    s: SessionView,
    first: i32,
    second: i32,
    answer: i32,
    model_key: Seq<u8>,
)
    requires
        s.phase == Phase::Start,
        0 <= s.position,
        base64_of(clean_model_key_of(s.model_key_text)) == Some(model_key),
    ensures
        ({
            let (s1, a1) = s.step(Answer::Done);
            let (s2, a2) = s1.step(Answer::Value(first));
            let (s3, a3) = s2.step(Answer::Done);
            let (s4, a4) = s3.step(Answer::Done);
            let (s5, a5) = s4.step(Answer::Value(second));
            let (s6, a6) = s5.step(Answer::Done);
            let (s7, a7) = s6.step(Answer::Value(answer));
            &&& a1 == ActionView::ReserveKey(s.seed, 40)
            &&& a2 == ActionView::Write(first, s.key)
            &&& a3 == ActionView::Reset
            &&& a4 == ActionView::ReserveModelKey(model_key.len() as int)
            &&& a5 == ActionView::Write(second, model_key)
            &&& a6 == ActionView::Process
            &&& s.position >= s.file.len() ==> a7 == ActionView::Finish
            &&& s.position < s.file.len() ==> (a7 matches ActionView::ReserveInput(n) && n == if s.position
                + 10240 <= s.file.len() {
                10240
            } else {
                s.file.len() - s.position
            })
            &&& s7.output == s.output
            &&& s7.position == s.position
        }),
{
}

/// A piece of the file is written where the module has room for it, and processed; as long as the
/// module has something to give, it is asked where that stands and how long it is, this is read and
/// collected, and the module goes on; then comes the next piece.
pub proof fn law_session_collects_what_the_module_gives(
    s: SessionView,
    room: i32,
    more: i32,
    place: i32,
    length: i32,
    bytes: Vec<u8>,
)
    requires
        s.phase == Phase::InputOffset,
        0 <= s.position < s.file.len(),
        more != 0,
    ensures
        ({
            let (s1, a1) = s.step(Answer::Value(room));
            let (s2, a2) = s1.step(Answer::Done);
            let (s3, a3) = s2.step(Answer::Value(more));
            let (s4, a4) = s3.step(Answer::Value(place));
            let (s5, a5) = s4.step(Answer::Value(length));
            let (s6, a6) = s5.step(Answer::Bytes(bytes));
            let (s7, a7) = s6.step(Answer::Done);
            let (s8, a8) = s7.step(Answer::Value(0));
            &&& a1 matches ActionView::Write(at, piece) && at == room && s1.position == s.position
                + piece.len() && piece == s.file.subrange(s.position, s1.position)
            &&& a2 == ActionView::Process
            &&& a3 == ActionView::AskStart
            &&& a4 == ActionView::AskLength
            &&& a5 == ActionView::Read(place, length)
            &&& a6 == ActionView::Advance
            &&& a7 == ActionView::Process
            &&& s7.output == s.output + bytes@
            &&& s1.position >= s.file.len() ==> a8 == ActionView::Finish
            &&& s1.position < s.file.len() ==> a8 is ReserveInput
            &&& s8.output == s7.output
        }),
{
    law_session_hands_over_in_order(s, room);
    law_chunks_make_the_file(s.file, s.position);
}

/// A model's key that is not base64 ends the session, and so does an answer that does not belong to
/// the question.
pub proof fn law_session_refuses_what_it_cannot_use(s: SessionView, at: i32)
    ensures
        s.phase == Phase::KeyWritten && base64_of(clean_model_key_of(s.model_key_text)) is None ==> s.step(
            Answer::Done,
        ).1 == ActionView::Fail(DecryptError::MalformedModelKey),
        s.phase == Phase::KeyWritten || s.phase == Phase::WasReset || s.phase == Phase::Start ==> s.step(
            Answer::Value(at),
        ).1 == ActionView::Fail(DecryptError::UnexpectedAnswer),
        s.phase == Phase::InputOffset || s.phase == Phase::KeyOffset || s.phase == Phase::Processed
            ==> s.step(Answer::Done).1 == ActionView::Fail(DecryptError::UnexpectedAnswer),
{
}

/// Line breaks are taken out of the model's key, real ones and written ones, and nothing else is.
pub proof fn law_model_key_loses_its_line_breaks(before: Seq<char>, after: Seq<char>)
    requires
        !before.contains('\\') && !before.contains('\n'),
        !after.contains('\\') && !after.contains('\n'),
    ensures
        clean_model_key_of(before + "\\n"@ + after) == before + after,
        clean_model_key_of(before + "\n"@ + after) == before + after,
        clean_model_key_of(before + after) == before + after,
{
    reveal_strlit("\\n");
    reveal_strlit("\n");
    let none = Seq::<char>::empty();
    let written = "\\n"@;
    let line = "\n"@;
    assert(written[0] == '\\' && written[1] == 'n' && written.len() == 2);
    assert(line[0] == '\n' && line.len() == 1);
    let plain = before + after;
    assert(!plain.contains('\\')) by {
        if plain.contains('\\') {
            let k = choose|k: int| 0 <= k < plain.len() && plain[k] == '\\';
            if k < before.len() {
                assert(before[k] == '\\');
            } else {
                assert(after[k - before.len()] == '\\');
            }
        }
    }
    assert(!plain.contains('\n')) by {
        if plain.contains('\n') {
            let k = choose|k: int| 0 <= k < plain.len() && plain[k] == '\n';
            if k < before.len() {
                assert(before[k] == '\n');
            } else {
                assert(after[k - before.len()] == '\n');
            }
        }
    }
    law_other_text_stays(plain, written, none);
    law_other_text_stays(plain, line, none);
    law_text_is_replaced_where_it_stands(before, written, after, none);
    law_other_text_stays(after, written, none);
    assert(before + none + after =~= plain);
    let broken = before + line + after;
    assert(!broken.contains('\\')) by {
        if broken.contains('\\') {
            let k = choose|k: int| 0 <= k < broken.len() && broken[k] == '\\';
            if k < before.len() {
                assert(before[k] == '\\');
            } else if k > before.len() {
                assert(after[k - before.len() - 1] == '\\');
            }
        }
    }
    law_other_text_stays(broken, written, none);
    law_text_is_replaced_where_it_stands(before, line, after, none);
    law_other_text_stays(after, line, none);
}

/// What comes out is unpacked if it starts with the mark of gzip, and used as it is otherwise.
pub proof fn law_only_archives_are_unpacked(bytes: Vec<u8>, r: Result<Vec<u8>, DecryptError>)
    requires
        call_ensures(unpack, (bytes,), r),
    ensures
        bytes@.len() >= 2 && bytes@[0] == 0x1f && bytes@[1] == 0x8b ==> match gunzip_of(bytes@) {
            Some(out) => r matches Ok(v) && v@ == out,
            None => r is Err,
        },
        !(bytes@.len() >= 2 && bytes@[0] == 0x1f && bytes@[1] == 0x8b) ==> (r matches Ok(v) && v@
            == bytes@),
{
}

} // verus!
