//! Text as sequences of characters.

use vstd::prelude::*;

verus! {

/// `String::push` appends one character.
pub assume_specification[ String::push ](s: &mut String, c: char)
    ensures
        final(s)@ == old(s)@.push(c),
;

/// The characters of a string.
pub fn chars_of(s: &str) -> (r: Vec<char>)
    ensures
        r@ == s@,
{
    let mut r: Vec<char> = Vec::new();
    for c in iter: s.chars()
        invariant
            r@ == iter.seq().take(iter.index()),
            iter.seq() == s@,
    {
        r.push(c);
        assert(r@ =~= iter.seq().take(iter.index() + 1));
    }
    r
}

/// The string made of the given characters.
pub fn string_of(chars: &[char]) -> (r: String)
    ensures
        r@ == chars@,
{
    let mut r = String::new();
    let mut i: usize = 0;
    while i < chars.len()
        invariant
            i <= chars@.len(),
            r@ == chars@.take(i as int),
        decreases chars@.len() - i,
    {
        r.push(chars[i]);
        i += 1;
        assert(r@ =~= chars@.take(i as int));
    }
    assert(chars@.take(i as int) =~= chars@);
    r
}

/// Whether two strings hold the same characters.
pub fn same_text(a: &str, b: &str) -> (r: bool)
    ensures
        r == (a@ == b@),
{
    let x = a.as_bytes();
    let y = b.as_bytes();
    proof {
        vstd::utf8::encode_utf8_decode_utf8(a@);
        vstd::utf8::encode_utf8_decode_utf8(b@);
    }
    if x.len() != y.len() {
        return false;
    }
    let mut i: usize = 0;
    while i < x.len()
        invariant
            i <= x@.len(),
            x@.len() == y@.len(),
            x@ == vstd::utf8::encode_utf8(a@),
            y@ == vstd::utf8::encode_utf8(b@),
            forall|k: int| 0 <= k < i ==> x@[k] == y@[k],
        decreases x@.len() - i,
    {
        if x[i] != y[i] {
            return false;
        }
        i += 1;
    }
    assert(x@ =~= y@);
    true
}

/// Whether `part` stands in `s` at position `at`.
pub open spec fn occurs_at(s: Seq<char>, part: Seq<char>, at: int) -> bool {
    0 <= at && at + part.len() <= s.len() && s.subrange(at, at + part.len()) == part
}

/// The first position at or after `from` at which `part` stands in `s`.
pub open spec fn find_of(s: Seq<char>, part: Seq<char>, from: int) -> Option<int>
    decreases s.len() - from + 1,
{
    if from < 0 || from > s.len() {
        None
    } else if occurs_at(s, part, from) {
        Some(from)
    } else {
        find_of(s, part, from + 1)
    }
}

/// The last position before `end` that holds `c`.
pub open spec fn rfind_of(s: Seq<char>, c: char, end: int) -> Option<int>
    decreases end,
{
    if end <= 0 || end > s.len() {
        None
    } else if s[end - 1] == c {
        Some(end - 1)
    } else {
        rfind_of(s, c, end - 1)
    }
}

/// `s` with every occurrence of `from`, taken from the left, replaced by `to`.
pub open spec fn replaced_of(s: Seq<char>, from: Seq<char>, to: Seq<char>) -> Seq<char>
    decreases s.len(),
{
    if from.len() == 0 || s.len() == 0 {
        s
    } else if occurs_at(s, from, 0) {
        to + replaced_of(s.skip(from.len() as int), from, to)
    } else {
        seq![s[0]] + replaced_of(s.skip(1), from, to)
    }
}

/// `s` without any copies of `part` at its start.
pub open spec fn trimmed_start_of(s: Seq<char>, part: Seq<char>) -> Seq<char>
    decreases s.len(),
{
    if part.len() > 0 && occurs_at(s, part, 0) {
        trimmed_start_of(s.skip(part.len() as int), part)
    } else {
        s
    }
}

/// `s` without any copies of `part` at its end.
pub open spec fn trimmed_end_of(s: Seq<char>, part: Seq<char>) -> Seq<char>
    decreases s.len(),
{
    if part.len() > 0 && occurs_at(s, part, s.len() - part.len()) {
        trimmed_end_of(s.take(s.len() - part.len()), part)
    } else {
        s
    }
}

/// Whether `s` starts with `part`.
pub open spec fn starts_of(s: Seq<char>, part: Seq<char>) -> bool {
    occurs_at(s, part, 0)
}

/// Whether `part` occurs in `s`.
pub open spec fn contains_of(s: Seq<char>, part: Seq<char>) -> bool {
    find_of(s, part, 0) is Some
}

/// What follows the last `c`, all of `s` if it holds none.
pub open spec fn after_last_of(s: Seq<char>, c: char) -> Seq<char> {
    match rfind_of(s, c, s.len() as int) {
        Some(i) => s.skip(i + 1),
        None => s,
    }
}

/// The lower case of an ASCII letter, any other character itself.
pub open spec fn lower_char_of(c: char) -> char {
    if 'A' <= c <= 'Z' {
        ((c as u8 + 32) as u8) as char
    } else {
        c
    }
}

/// `s` with its ASCII letters in lower case.
pub open spec fn lower_of(s: Seq<char>) -> Seq<char> {
    Seq::new(s.len(), |i: int| lower_char_of(s[i]))
}

/// Whether `part` stands in `s` at position `at`.
pub fn occurs(s: &[char], part: &[char], at: usize) -> (r: bool)
    ensures
        r == occurs_at(s@, part@, at as int),
{
    let total: usize = s.len();
    if at > total || part.len() > total - at {
        return false;
    }
    let mut i: usize = 0;
    while i < part.len()
        invariant
            i <= part@.len(),
            at + part@.len() <= total == s@.len(),
            forall|k: int| 0 <= k < i ==> s@[at + k] == part@[k],
        decreases part@.len() - i,
    {
        if s[at + i] != part[i] {
            assert(s@.subrange(at as int, at + part@.len())[i as int] != part@[i as int]);
            return false;
        }
        i += 1;
    }
    assert(s@.subrange(at as int, at + part@.len()) =~= part@);
    true
}

/// The first position at or after `from` at which `part` stands in `s`.
pub fn find_chars(s: &[char], part: &[char], from: usize) -> (r: Option<usize>)
    ensures
        match r {
            Some(i) => find_of(s@, part@, from as int) == Some(i as int) && from <= i && occurs_at(
                s@,
                part@,
                i as int,
            ),
            None => find_of(s@, part@, from as int) is None,
        },
{
    if from > s.len() {
        return None;
    }
    let mut at: usize = from;
    while at < s.len()
        invariant
            from <= at <= s@.len(),
            find_of(s@, part@, from as int) == find_of(s@, part@, at as int),
        decreases s@.len() - at,
    {
        if occurs(s, part, at) {
            return Some(at);
        }
        at += 1;
    }
    if occurs(s, part, at) {
        return Some(at);
    }
    assert(find_of(s@, part@, at + 1) is None);
    None
}

/// The last position before `end` that holds `c`.
pub fn rfind_char(s: &[char], c: char, end: usize) -> (r: Option<usize>)
    requires
        end <= s@.len(),
    ensures
        match r {
            Some(i) => rfind_of(s@, c, end as int) == Some(i as int) && i < end && s@[i as int]
                == c,
            None => rfind_of(s@, c, end as int) is None,
        },
{
    let mut at: usize = end;
    while at > 0
        invariant
            at <= end <= s@.len(),
            rfind_of(s@, c, end as int) == rfind_of(s@, c, at as int),
        decreases at,
    {
        if s[at - 1] == c {
            return Some(at - 1);
        }
        at -= 1;
    }
    None
}

/// `s` with every occurrence of `from`, taken from the left, replaced by `to`.
pub fn replace_chars(s: &[char], from: &[char], to: &[char]) -> (r: Vec<char>)
    requires
        from@.len() > 0,
    ensures
        r@ == replaced_of(s@, from@, to@),
{
    let mut out: Vec<char> = Vec::new();
    let mut at: usize = 0;
    assert(s@.skip(0) =~= s@);
    while at < s.len()
        invariant
            at <= s@.len(),
            from@.len() > 0,
            replaced_of(s@, from@, to@) == out@ + replaced_of(s@.skip(at as int), from@, to@),
        decreases s@.len() - at,
    {
        let ghost rest = s@.skip(at as int);
        let ghost before = out@;
        if occurs(s, from, at) {
            assert(rest.subrange(0, from@.len() as int) =~= s@.subrange(
                at as int,
                at + from@.len(),
            ));
            assert(rest.skip(from@.len() as int) =~= s@.skip(at + from@.len()));
            out.extend_from_slice(to);
            assert(out@ =~= before + to@);
            at += from.len();
            assert(before + (to@ + replaced_of(s@.skip(at as int), from@, to@)) =~= out@
                + replaced_of(s@.skip(at as int), from@, to@));
        } else {
            assert(!occurs_at(rest, from@, 0)) by {
                if occurs_at(rest, from@, 0) {
                    assert(rest.subrange(0, from@.len() as int) =~= s@.subrange(
                        at as int,
                        at + from@.len(),
                    ));
                }
            }
            assert(rest.skip(1) =~= s@.skip(at + 1));
            out.push(s[at]);
            at += 1;
            assert(before + (seq![rest[0]] + replaced_of(s@.skip(at as int), from@, to@)) =~= out@
                + replaced_of(s@.skip(at as int), from@, to@));
        }
    }
    assert(s@.skip(at as int).len() == 0);
    assert(out@ + s@.skip(at as int) =~= out@);
    out
}

/// `text` with every occurrence of `from`, taken from the left, replaced by `to`.
pub fn replace_text(text: &str, from: &str, to: &str) -> (r: String)
    requires
        from@.len() > 0,
    ensures
        r@ == replaced_of(text@, from@, to@),
{
    let s = chars_of(text);
    let f = chars_of(from);
    let t = chars_of(to);
    string_of(replace_chars(s.as_slice(), f.as_slice(), t.as_slice()).as_slice())
}

/// The characters of `s` from `start` up to `end`.
pub fn part_of(s: &[char], start: usize, end: usize) -> (r: Vec<char>)
    requires
        start <= end <= s@.len(),
    ensures
        r@ == s@.subrange(start as int, end as int),
{
    let mut r: Vec<char> = Vec::new();
    let mut i: usize = start;
    while i < end
        invariant
            start <= i <= end <= s@.len(),
            r@ == s@.subrange(start as int, i as int),
        decreases end - i,
    {
        r.push(s[i]);
        i += 1;
        assert(r@ =~= s@.subrange(start as int, i as int));
    }
    r
}

/// `text` without any copies of `part` at its start.
pub fn trim_start(text: &str, part: &str) -> (r: String)
    requires
        part@.len() > 0,
    ensures
        r@ == trimmed_start_of(text@, part@),
{
    let s = chars_of(text);
    let p = chars_of(part);
    let total: usize = s.len();
    let mut at: usize = 0;
    assert(s@.skip(0) =~= s@);
    while occurs(s.as_slice(), p.as_slice(), at)
        invariant
            at <= total == s@.len(),
            p@ == part@,
            s@ == text@,
            part@.len() > 0,
            trimmed_start_of(text@, part@) == trimmed_start_of(s@.skip(at as int), part@),
        decreases s@.len() - at,
    {
        let ghost rest = s@.skip(at as int);
        assert(rest.subrange(0, p@.len() as int) =~= s@.subrange(at as int, at + p@.len()));
        assert(rest.skip(p@.len() as int) =~= s@.skip(at + p@.len()));
        at += p.len();
    }
    proof {
        let rest = s@.skip(at as int);
        if occurs_at(rest, p@, 0) {
            assert(rest.subrange(0, p@.len() as int) =~= s@.subrange(at as int, at + p@.len()));
        }
        assert(s@.subrange(at as int, s@.len() as int) =~= rest);
    }
    string_of(part_of(s.as_slice(), at, s.len()).as_slice())
}

/// `text` without any copies of `part` at its end.
pub fn trim_end(text: &str, part: &str) -> (r: String)
    requires
        part@.len() > 0,
    ensures
        r@ == trimmed_end_of(text@, part@),
{
    let s = chars_of(text);
    let p = chars_of(part);
    let mut end: usize = s.len();
    assert(s@.take(end as int) =~= s@);
    while end >= p.len() && occurs(s.as_slice(), p.as_slice(), end - p.len())
        invariant
            end <= s@.len(),
            p@ == part@,
            s@ == text@,
            part@.len() > 0,
            trimmed_end_of(text@, part@) == trimmed_end_of(s@.take(end as int), part@),
        decreases end,
    {
        let ghost rest = s@.take(end as int);
        assert(rest.subrange(end - p@.len(), end as int) =~= s@.subrange(
            end - p@.len(),
            end as int,
        ));
        assert(rest.take(end - p@.len()) =~= s@.take(end - p@.len()));
        end -= p.len();
    }
    proof {
        let rest = s@.take(end as int);
        if occurs_at(rest, p@, rest.len() - p@.len()) {
            assert(rest.subrange(end - p@.len(), end as int) =~= s@.subrange(
                end - p@.len(),
                end as int,
            ));
        }
        assert(s@.subrange(0, end as int) =~= rest);
    }
    string_of(part_of(s.as_slice(), 0, end).as_slice())
}

/// Whether `text` starts with `part`.
pub fn starts_with(text: &str, part: &str) -> (r: bool)
    ensures
        r == starts_of(text@, part@),
{
    occurs(chars_of(text).as_slice(), chars_of(part).as_slice(), 0)
}

/// Whether `part` occurs in `text`.
pub fn contains(text: &str, part: &str) -> (r: bool)
    ensures
        r == contains_of(text@, part@),
{
    match find_chars(chars_of(text).as_slice(), chars_of(part).as_slice(), 0) {
        Some(_) => true,
        None => false,
    }
}

/// What follows the last `c`, all of `text` if it holds none.
pub fn after_last(text: &str, c: char) -> (r: String)
    ensures
        r@ == after_last_of(text@, c),
{
    let s = chars_of(text);
    let start: usize = match rfind_char(s.as_slice(), c, s.len()) {
        Some(i) => i + 1,
        None => 0,
    };
    assert(s@.subrange(start as int, s@.len() as int) =~= s@.skip(start as int));
    assert(s@.skip(0) =~= s@);
    string_of(part_of(s.as_slice(), start, s.len()).as_slice())
}

/// The lower case of an ASCII letter, any other character itself.
pub fn lower_char(c: char) -> (r: char)
    ensures
        r == lower_char_of(c),
{
    if 'A' <= c && c <= 'Z' {
        (c as u8 + 32) as char
    } else {
        c
    }
}

/// `text` with its ASCII letters in lower case.
pub fn lowercase(text: &str) -> (r: String)
    ensures
        r@ == lower_of(text@),
{
    let s = chars_of(text);
    let mut out = String::new();
    let mut i: usize = 0;
    while i < s.len()
        invariant
            i <= s@.len(),
            out@ == lower_of(s@).take(i as int),
        decreases s@.len() - i,
    {
        out.push(lower_char(s[i]));
        i += 1;
        assert(out@ =~= lower_of(s@).take(i as int));
    }
    assert(lower_of(s@).take(i as int) =~= lower_of(s@));
    out
}

/// Two texts, one after the other.
pub fn join(a: &str, b: &str) -> (r: String)
    ensures
        r@ == a@ + b@,
{
    let mut s = chars_of(a);
    let t = chars_of(b);
    s.extend_from_slice(t.as_slice());
    assert(s@ =~= a@ + b@);
    string_of(s.as_slice())
}

/// The decimal digit of a number below ten.
pub open spec fn digit_of(d: int) -> char {
    ((48 + d) as u8) as char
}

/// The decimal numeral of a number.
pub open spec fn decimal_of(n: nat) -> Seq<char>
    decreases n,
{
    if n < 10 {
        seq![digit_of(n as int)]
    } else {
        decimal_of(n / 10).push(digit_of((n % 10) as int))
    }
}

/// The decimal numeral of a number.
pub fn decimal(n: usize) -> (r: String)
    ensures
        r@ == decimal_of(n as nat),
    decreases n,
{
    let d: u8 = (n % 10) as u8;
    let c: char = (48 + d) as char;
    let mut s = if n < 10 {
        String::new()
    } else {
        decimal(n / 10)
    };
    s.push(c);
    if n < 10 {
        assert(s@ =~= seq![digit_of(n as int)]);
    }
    s
}

/// The value of a string of decimal digits, nothing if another character occurs.
pub open spec fn digits_value(s: Seq<char>) -> Option<nat>
    decreases s.len(),
{
    if s.len() == 0 {
        Some(0)
    } else {
        match digits_value(s.drop_last()) {
            Some(v) => if '0' <= s.last() <= '9' {
                Some((10 * v + (s.last() as int - 48)) as nat)
            } else {
                None
            },
            None => None,
        }
    }
}

/// The 32-bit number that a numeral denotes: digits, after at most one plus sign.
pub open spec fn parse_u32_of(s: Seq<char>) -> Option<u32> {
    let digits = if s.len() > 0 && s[0] == '+' {
        s.skip(1)
    } else {
        s
    };
    match digits_value(digits) {
        Some(v) => if digits.len() > 0 && v <= u32::MAX {
            Some(v as u32)
        } else {
            None
        },
        None => None,
    }
}

/// More digits never make a number smaller.
proof fn lemma_digits_grow(s: Seq<char>, n: int)
    requires
        0 <= n <= s.len(),
    ensures
        digits_value(s) matches Some(v) ==> digits_value(s.take(n)) matches Some(w) && w <= v,
    decreases s.len() - n,
{
    if n == s.len() {
        assert(s.take(n) =~= s);
    } else {
        lemma_digits_grow(s, n + 1);
        assert(s.take(n + 1).drop_last() =~= s.take(n));
    }
}

/// The 32-bit number that a numeral denotes.
pub fn parse_u32(text: &str) -> (r: Option<u32>)
    ensures
        r == parse_u32_of(text@),
{
    let s = chars_of(text);
    let start: usize = if s.len() > 0 && s[0] == '+' {
        1
    } else {
        0
    };
    let ghost digits = s@.skip(start as int);
    assert(s@.skip(0) =~= s@);
    if s.len() == start {
        return None;
    }
    let mut value: u32 = 0;
    let mut i: usize = start;
    assert(digits.take(0) =~= Seq::<char>::empty());
    while i < s.len()
        invariant
            start <= i <= s@.len(),
            digits == s@.skip(start as int),
            digits.len() > 0,
            parse_u32_of(text@) == (match digits_value(digits) {
                Some(v) => if v <= u32::MAX {
                    Some(v as u32)
                } else {
                    None
                },
                None => None,
            }),
            digits_value(digits.take(i - start)) == Some(value as nat),
        decreases s@.len() - i,
    {
        let c: char = s[i];
        proof {
            let next = digits.take(i - start + 1);
            assert(next.drop_last() =~= digits.take(i - start));
            assert(next.last() == c);
            lemma_digits_grow(digits, i - start + 1);
        }
        if c < '0' || c > '9' {
            return None;
        }
        let wide: u64 = 10 * value as u64 + (c as u32 - 48) as u64;
        if wide > 0xffff_ffff {
            return None;
        }
        value = wide as u32;
        i += 1;
    }
    assert(digits.take(i - start) =~= digits);
    Some(value)
}

/// Dictionary order of texts, by the numbers of their characters.
pub open spec fn text_lt(a: Seq<char>, b: Seq<char>) -> bool
    decreases a.len(),
{
    if b.len() == 0 {
        false
    } else if a.len() == 0 {
        true
    } else if a[0] != b[0] {
        a[0] < b[0]
    } else {
        text_lt(a.skip(1), b.skip(1))
    }
}

/// No text comes before itself.
pub proof fn lemma_text_lt_irreflexive(a: Seq<char>)
    ensures
        !text_lt(a, a),
    decreases a.len(),
{
    if a.len() > 0 {
        lemma_text_lt_irreflexive(a.skip(1));
    }
}

/// Dictionary order is transitive.
pub proof fn lemma_text_lt_transitive(a: Seq<char>, b: Seq<char>, c: Seq<char>)
    requires
        text_lt(a, b),
        text_lt(b, c),
    ensures
        text_lt(a, c),
    decreases a.len(),
{
    if a.len() > 0 && b.len() > 0 && c.len() > 0 && a[0] == b[0] && b[0] == c[0] {
        lemma_text_lt_transitive(a.skip(1), b.skip(1), c.skip(1));
    }
}

/// Of two different texts one comes first.
pub proof fn lemma_text_lt_total(a: Seq<char>, b: Seq<char>)
    ensures
        text_lt(a, b) || text_lt(b, a) || a == b,
    decreases a.len(),
{
    if a.len() == 0 || b.len() == 0 {
        if a.len() == 0 && b.len() == 0 {
            assert(a =~= b);
        }
    } else if a[0] == b[0] {
        lemma_text_lt_total(a.skip(1), b.skip(1));
        if a.skip(1) == b.skip(1) {
            assert(a =~= seq![a[0]] + a.skip(1));
            assert(b =~= seq![b[0]] + b.skip(1));
        }
    }
}

/// The first difference decides which of two texts comes first.
pub proof fn lemma_text_lt_at(a: Seq<char>, b: Seq<char>, k: int)
    requires
        0 <= k < a.len(),
        k < b.len(),
        forall|i: int| 0 <= i < k ==> a[i] == b[i],
        a[k] < b[k],
    ensures
        text_lt(a, b),
    decreases k,
{
    if k > 0 {
        assert(a[0] == b[0]);
        assert forall|i: int| 0 <= i < k - 1 implies a.skip(1)[i] == b.skip(1)[i] by {
            assert(a[i + 1] == b[i + 1]);
        }
        lemma_text_lt_at(a.skip(1), b.skip(1), k - 1);
    }
}

/// Whether `a` comes before `b` in dictionary order.
pub fn comes_before(a: &str, b: &str) -> (r: bool)
    ensures
        r == text_lt(a@, b@),
{
    let x = chars_of(a);
    let y = chars_of(b);
    let mut i: usize = 0;
    assert(x@.skip(0) =~= x@ && y@.skip(0) =~= y@);
    while i < x.len() && i < y.len()
        invariant
            i <= x@.len(),
            i <= y@.len(),
            x@ == a@,
            y@ == b@,
            text_lt(a@, b@) == text_lt(x@.skip(i as int), y@.skip(i as int)),
        decreases x@.len() - i,
    {
        assert(x@.skip(i as int)[0] == x@[i as int]);
        assert(y@.skip(i as int)[0] == y@[i as int]);
        if x[i] != y[i] {
            return x[i] < y[i];
        }
        assert(x@.skip(i as int).skip(1) =~= x@.skip(i + 1));
        assert(y@.skip(i as int).skip(1) =~= y@.skip(i + 1));
        i += 1;
    }
    i < y.len()
}

/// The contents of a list of strings.
pub open spec fn texts(list: Seq<String>) -> Seq<Seq<char>> {
    Seq::new(list.len(), |i: int| list[i]@)
}

/// Whether every text comes before all later ones.
pub open spec fn ascending(list: Seq<Seq<char>>) -> bool {
    forall|i: int, j: int|
        0 <= i < j < list.len() ==> text_lt(#[trigger] list[i], #[trigger] list[j])
}

/// An ascending list holds each of its texts once.
pub proof fn law_ascending_holds_each_once(list: Seq<Seq<char>>)
    requires
        ascending(list),
    ensures
        list.no_duplicates(),
{
    assert forall|i: int, j: int| 0 <= i < j < list.len() implies list[i] != list[j] by {
        assert(text_lt(list[i], list[j]));
        lemma_text_lt_irreflexive(list[i]);
    }
}

/// The texts of `list`, each once, in dictionary order.
pub fn sort_unique(list: &Vec<String>) -> (r: Vec<String>)
    ensures
        ascending(texts(r@)),
        forall|t: Seq<char>| texts(r@).contains(t) <==> texts(list@).contains(t),
{
    let mut out: Vec<String> = Vec::new();
    let mut i: usize = 0;
    while i < list.len()
        invariant
            i <= list@.len(),
            ascending(texts(out@)),
            forall|t: Seq<char>|
                texts(out@).contains(t) <==> #[trigger] texts(list@).take(i as int).contains(t),
        decreases list@.len() - i,
    {
        let ghost all = texts(list@);
        let ghost t = all[i as int];
        let ghost before = texts(out@);
        let mut at: usize = 0;
        while at < out.len() && comes_before(out[at].as_str(), list[i].as_str())
            invariant
                at <= out@.len(),
                i < list@.len(),
                before == texts(out@),
                t == list@[i as int]@,
                forall|k: int| 0 <= k < at ==> text_lt(#[trigger] before[k], t),
            decreases out@.len() - at,
        {
            assert(before[at as int] == out@[at as int]@);
            at += 1;
        }
        let present = at < out.len() && same_text(out[at].as_str(), list[i].as_str());
        proof {
            assert(all.take(i + 1) =~= all.take(i as int).push(t));
            if at < out@.len() {
                assert(before[at as int] == out@[at as int]@);
            }
        }
        if present {
            assert forall|u: Seq<char>|
                texts(out@).contains(u) <==> #[trigger] all.take(i + 1).contains(u) by {
                lemma_push_contains(all.take(i as int), t, u);
                assert(texts(out@).contains(u) <==> all.take(i as int).contains(u));
                assert(before.contains(before[at as int]));
                assert(texts(out@).contains(t) <==> all.take(i as int).contains(t));
            }
        } else {
            out.insert(at, list[i].clone());
            proof {
                let after = texts(out@);
                assert(after =~= before.insert(at as int, t));
                assert forall|p: int, q: int| 0 <= p < q < after.len() implies text_lt(
                    #[trigger] after[p],
                    #[trigger] after[q],
                ) by {
                    if at < before.len() {
                        lemma_text_lt_total(t, before[at as int]);
                    }
                    let p0 = if p < at {
                        p
                    } else {
                        p - 1
                    };
                    let q0 = if q < at {
                        q
                    } else {
                        q - 1
                    };
                    if p == at {
                        assert(after[q] == before[q0]);
                        if q0 > at {
                            assert(text_lt(before[at as int], before[q0]));
                            lemma_text_lt_transitive(t, before[at as int], before[q0]);
                        }
                    } else if q == at {
                        assert(after[p] == before[p]);
                    } else {
                        assert(after[p] == before[p0] && after[q] == before[q0]);
                    }
                }
                assert forall|u: Seq<char>|
                    after.contains(u) <==> #[trigger] all.take(i + 1).contains(u) by {
                    lemma_push_contains(all.take(i as int), t, u);
                    assert(before.contains(u) <==> all.take(i as int).contains(u));
                    lemma_insert_contains(before, at as int, t, u);
                }
            }
        }
        i += 1;
    }
    assert(texts(list@).take(i as int) =~= texts(list@));
    out
}

/// What a longer list holds.
proof fn lemma_push_contains(list: Seq<Seq<char>>, t: Seq<char>, u: Seq<char>)
    ensures
        list.push(t).contains(u) <==> list.contains(u) || u == t,
{
    let longer = list.push(t);
    if list.contains(u) {
        let k = choose|k: int| 0 <= k < list.len() && list[k] == u;
        assert(longer[k] == u);
    }
    if u == t {
        assert(longer[list.len() as int] == u);
    }
}

/// What a list holds after an insertion.
proof fn lemma_insert_contains(list: Seq<Seq<char>>, at: int, t: Seq<char>, u: Seq<char>)
    requires
        0 <= at <= list.len(),
    ensures
        list.insert(at, t).contains(u) <==> list.contains(u) || u == t,
{
    let longer = list.insert(at, t);
    if list.contains(u) {
        let k = choose|k: int| 0 <= k < list.len() && list[k] == u;
        if k < at {
            assert(longer[k] == u);
        } else {
            assert(longer[k + 1] == u);
        }
    }
    if u == t {
        assert(longer[at] == u);
    }
    if longer.contains(u) {
        let k = choose|k: int| 0 <= k < longer.len() && longer[k] == u;
        if k < at {
            assert(list[k] == u);
        } else if k > at {
            assert(list[k - 1] == u);
        }
    }
}

/// A text is found at the first place where it stands.
pub proof fn law_text_is_found_where_it_stands(s: Seq<char>, part: Seq<char>, from: int, at: int)
    requires
        0 <= from <= at,
        occurs_at(s, part, at),
        forall|k: int| from <= k < at ==> !#[trigger] occurs_at(s, part, k),
    ensures
        find_of(s, part, from) == Some(at),
    decreases at - from,
{
    if from < at {
        assert(!occurs_at(s, part, from));
        law_text_is_found_where_it_stands(s, part, from + 1, at);
    }
}

/// A text holds another if it stands anywhere in it.
pub proof fn law_text_holds_what_stands_in_it(s: Seq<char>, part: Seq<char>)
    ensures
        contains_of(s, part) <==> exists|at: int| #[trigger] occurs_at(s, part, at),
{
    lemma_found_stands(s, part, 0);
    if exists|at: int| #[trigger] occurs_at(s, part, at) {
        let at = choose|at: int| #[trigger] occurs_at(s, part, at);
        if find_of(s, part, 0) is None {
            assert(!occurs_at(s, part, at));
        }
    }
}

/// What is found stands there, and where nothing is found nothing stands.
proof fn lemma_found_stands(s: Seq<char>, part: Seq<char>, from: int)
    requires
        0 <= from,
    ensures
        match find_of(s, part, from) {
            Some(at) => occurs_at(s, part, at),
            None => forall|k: int| from <= k ==> !#[trigger] occurs_at(s, part, k),
        },
    decreases s.len() - from + 1,
{
    if from <= s.len() && !occurs_at(s, part, from) {
        lemma_found_stands(s, part, from + 1);
    }
}

/// A text in which the first character of what is replaced does not occur stays as it is.
pub proof fn law_other_text_stays(s: Seq<char>, from: Seq<char>, to: Seq<char>)
    requires
        from.len() > 0,
        !s.contains(from[0]),
    ensures
        replaced_of(s, from, to) == s,
    decreases s.len(),
{
    if s.len() > 0 {
        assert(s[0] != from[0]);
        if occurs_at(s, from, 0) {
            assert(s.subrange(0, from.len() as int)[0] == from[0]);
        }
        let rest = s.skip(1);
        assert(!rest.contains(from[0])) by {
            if rest.contains(from[0]) {
                let k = choose|k: int| 0 <= k < rest.len() && rest[k] == from[0];
                assert(s[k + 1] == from[0]);
            }
        }
        law_other_text_stays(rest, from, to);
        assert(seq![s[0]] + rest =~= s);
    }
}

/// A text is replaced where it stands, and what is around it stays.
pub proof fn law_text_is_replaced_where_it_stands(
    before: Seq<char>,
    from: Seq<char>,
    after: Seq<char>,
    to: Seq<char>,
)
    requires
        from.len() > 0,
        !before.contains(from[0]),
    ensures
        replaced_of(before + from + after, from, to) == before + to + replaced_of(after, from, to),
    decreases before.len(),
{
    let s = before + from + after;
    if before.len() == 0 {
        assert(s.subrange(0, from.len() as int) =~= from);
        assert(s.skip(from.len() as int) =~= after);
        assert(before + to =~= to);
    } else {
        assert(before[0] != from[0]);
        assert(s[0] == before[0]);
        if occurs_at(s, from, 0) {
            assert(s.subrange(0, from.len() as int)[0] == s[0]);
        }
        let rest = before.skip(1);
        assert(!rest.contains(from[0])) by {
            if rest.contains(from[0]) {
                let k = choose|k: int| 0 <= k < rest.len() && rest[k] == from[0];
                assert(before[k + 1] == from[0]);
            }
        }
        assert(s.skip(1) =~= rest + from + after);
        law_text_is_replaced_where_it_stands(rest, from, after, to);
        assert(seq![s[0]] + (rest + to + replaced_of(after, from, to)) =~= before + to
            + replaced_of(after, from, to));
    }
}

/// The letters of a text become small, whatever they were, and nothing else changes.
pub proof fn law_letters_become_small(s: Seq<char>, i: int)
    requires
        0 <= i < s.len(),
    ensures
        lower_of(s).len() == s.len(),
        !('A' <= lower_of(s)[i] <= 'Z'),
        !('A' <= s[i] <= 'Z') ==> lower_of(s)[i] == s[i],
        'A' <= s[i] <= 'Z' ==> lower_of(s)[i] as int == s[i] as int + 32,
        lower_of(lower_of(s)) == lower_of(s),
{
    assert(lower_of(lower_of(s)) =~= lower_of(s));
}

} // verus!
