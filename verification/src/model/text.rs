//! Text that messages and identifiers are made of: decimal numbers, hexadecimal bytes.
use vstd::prelude::*;
use vstd::string::{StrSliceExecFns, StringExecFns};
use crate::model::bytes::{be32_bytes, same_bytes};

verus! {

/// The character of one decimal digit.
pub open spec fn digit_char(d: nat) -> char {
    (48 + d) as char
}

/// The decimal notation of a natural number, without leading zeros.
pub open spec fn dec(n: nat) -> Seq<char>
    decreases n,
{
    if n < 10 {
        seq![digit_char(n)]
    } else {
        dec(n / 10).push(digit_char(n % 10))
    }
}

/// The decimal notation of an integer, with a leading minus sign when it is negative.
pub open spec fn dec_int(n: int) -> Seq<char> {
    if n < 0 {
        seq!['-'] + dec((-n) as nat)
    } else {
        dec(n as nat)
    }
}

/// `n` zeros.
pub open spec fn zeros(n: nat) -> Seq<char> {
    Seq::new(n, |i: int| '0')
}

/// The decimal notation of `n`, filled up with leading zeros to `width` characters.
pub open spec fn dec_padded(n: nat, width: nat) -> Seq<char> {
    let d = dec(n);
    if d.len() < width {
        zeros((width - d.len()) as nat) + d
    } else {
        d
    }
}

/// `String::push` appends one character.
pub assume_specification[ String::push ](s: &mut String, ch: char)
    ensures
        final(s)@ == old(s)@.push(ch),
;

/// Appends the decimal notation of `n`.
pub fn push_dec(out: &mut String, n: u64)
    ensures
        final(out)@ == old(out)@ + dec(n as nat),
    decreases n,
{
    if n >= 10 {
        push_dec(out, n / 10);
    }
    let d: u8 = (n % 10) as u8;
    let c: char = (48 + d) as char;
    out.push(c);
    proof {
        assert(out@ =~= old(out)@ + dec(n as nat));
    }
}

/// Appends the decimal notation of `n`, with its sign.
pub fn push_int(out: &mut String, n: i64)
    ensures
        final(out)@ == old(out)@ + dec_int(n as int),
{
    let ghost before = out@;
    if n < 0 {
        out.push('-');
        if n == i64::MIN {
            push_dec(out, 0x8000_0000_0000_0000);
        } else {
            push_dec(out, (-n) as u64);
        }
    } else {
        push_dec(out, n as u64);
    }
    proof {
        assert(out@ =~= before + dec_int(n as int));
    }
}

/// How many digits the decimal notation of `n` has.
fn dec_len(n: u64) -> (k: usize)
    ensures
        k == dec(n as nat).len(),
        k <= 20,
{
    proof {
        lemma_dec_len(n as nat, 20);
    }
    let mut rest: u64 = n;
    let mut k: usize = 1;
    while rest >= 10
        invariant
            k + dec(rest as nat).len() == 1 + dec(n as nat).len(),
            dec(n as nat).len() <= 20,
            k <= 20,
        decreases rest,
    {
        proof {
            assert(dec(rest as nat / 10).len() >= 1);
        }
        rest = rest / 10;
        k += 1;
    }
    k
}

pub open spec fn pow10(n: nat) -> nat
    decreases n,
{
    if n == 0 {
        1
    } else {
        10 * pow10((n - 1) as nat)
    }
}

proof fn lemma_dec_len(n: nat, k: nat)
    requires
        k > 0,
    ensures
        n < pow10(k) ==> dec(n).len() <= k,
        k == 20 ==> pow10(k) > u64::MAX,
    decreases n,
{
    reveal_with_fuel(pow10, 21);
    if n >= 10 && n < pow10(k) && k > 1 {
        lemma_dec_len(n / 10, (k - 1) as nat);
    }
}

/// Appends `n` with leading zeros up to `width` characters.
pub fn push_dec_padded(out: &mut String, n: u64, width: usize)
    ensures
        final(out)@ == old(out)@ + dec_padded(n as nat, width as nat),
{
    let ghost before = out@;
    let k: usize = dec_len(n);
    let mut i: usize = k;
    while i < width
        invariant
            k <= i,
            i <= width || i == k,
            out@ == before + zeros((i - k) as nat),
        decreases width - i,
    {
        out.push('0');
        i += 1;
        proof {
            assert(out@ =~= before + zeros((i - k) as nat));
        }
    }
    push_dec(out, n);
    proof {
        assert(out@ =~= before + dec_padded(n as nat, width as nat));
    }
}

/// The character of one hexadecimal digit, in lower case.
pub open spec fn hex_digit(d: nat) -> char {
    if d < 10 {
        (48 + d) as char
    } else {
        (87 + d) as char
    }
}

/// Two lower-case hexadecimal digits for each byte.
pub open spec fn hex(b: Seq<u8>) -> Seq<char> {
    Seq::new(
        2 * b.len(),
        |i: int|
            if i % 2 == 0 {
                hex_digit((b[i / 2] / 16) as nat)
            } else {
                hex_digit((b[i / 2] % 16) as nat)
            },
    )
}

/// A hexadecimal digit, in either case.
pub open spec fn is_hex_char(c: char) -> bool {
    ('0' <= c && c <= '9') || ('a' <= c && c <= 'f') || ('A' <= c && c <= 'F')
}

/// What a hexadecimal digit stands for.
pub open spec fn hex_value(c: char) -> nat {
    if '0' <= c && c <= '9' {
        (c as u32 - 48) as nat
    } else if 'a' <= c && c <= 'f' {
        (c as u32 - 87) as nat
    } else {
        (c as u32 - 55) as nat
    }
}

/// Pairs of hexadecimal digits and nothing else.
pub open spec fn is_hex(s: Seq<char>) -> bool {
    &&& s.len() % 2 == 0
    &&& forall|i: int| 0 <= i < s.len() ==> is_hex_char(#[trigger] s[i])
}

/// The bytes that pairs of hexadecimal digits stand for.
pub open spec fn unhex(s: Seq<char>) -> Seq<u8> {
    Seq::new(s.len() / 2, |i: int| (hex_value(s[2 * i]) * 16 + hex_value(s[2 * i + 1])) as u8)
}

/// Hexadecimal notation is read back as the bytes it was made from.
pub proof fn hex_roundtrip(b: Seq<u8>)
    ensures
        is_hex(hex(b)),
        unhex(hex(b)) == b,
{
    let s = hex(b);
    assert forall|i: int| 0 <= i < s.len() implies is_hex_char(#[trigger] s[i]) by {}
    assert forall|i: int| 0 <= i < b.len() implies unhex(s)[i] == b[i] by {
        assert(s[2 * i] == hex_digit((b[i] / 16) as nat));
        assert(s[2 * i + 1] == hex_digit((b[i] % 16) as nat));
    }
    assert(unhex(s) =~= b);
}

/// Appends the eight hexadecimal digits of a 32-bit word.
pub fn push_hex32(out: &mut String, n: u32)
    ensures
        final(out)@ == old(out)@ + hex(be32_bytes(n)),
{
    let ghost before = out@;
    let mut k: usize = 0;
    let mut w: u32 = n;
    let parts: [u8; 4] = [
        (n / 0x100_0000) as u8,
        (n / 0x1_0000 % 0x100) as u8,
        (n / 0x100 % 0x100) as u8,
        (n % 0x100) as u8,
    ];
    let ghost bs = be32_bytes(n);
    assert(parts@ =~= bs);
    while k < 4
        invariant
            k <= 4,
            parts@ == bs,
            bs.len() == 4,
            out@ == before + hex(bs).take(2 * k as int),
        decreases 4 - k,
    {
        let b: u8 = parts[k];
        push_hex_digit(out, b / 16);
        push_hex_digit(out, b % 16);
        k += 1;
        proof {
            assert(out@ =~= before + hex(bs).take(2 * k as int));
        }
    }
    proof {
        assert(hex(bs).take(8) =~= hex(bs));
    }
}

/// Appends one hexadecimal digit.
pub fn push_hex_digit(out: &mut String, d: u8)
    requires
        d < 16,
    ensures
        final(out)@ == old(out)@.push(hex_digit(d as nat)),
{
    if d < 10 {
        out.push((48 + d) as char);
    } else {
        out.push((87 + d) as char);
    }
}

/// The hexadecimal notation of a natural number, without leading zeros.
pub open spec fn hexa(n: nat) -> Seq<char>
    decreases n,
{
    if n < 16 {
        seq![hex_digit(n)]
    } else {
        hexa(n / 16).push(hex_digit(n % 16))
    }
}

/// Appends the hexadecimal notation of `n`.
pub fn push_hexa(out: &mut String, n: u64)
    ensures
        final(out)@ == old(out)@ + hexa(n as nat),
    decreases n,
{
    if n >= 16 {
        push_hexa(out, n / 16);
    }
    push_hex_digit(out, (n % 16) as u8);
    proof {
        assert(out@ =~= old(out)@ + hexa(n as nat));
    }
}

/// Whether two texts are the same.
pub fn same_text(a: &str, b: &str) -> (r: bool)
    ensures
        r == (a@ == b@),
{
    let r: bool = same_bytes(a.as_bytes(), b.as_bytes());
    proof {
        vstd::utf8::encode_utf8_decode_utf8(a@);
        vstd::utf8::encode_utf8_decode_utf8(b@);
    }
    r
}

/// The parts of `parts`, with `sep` between neighbours.
pub open spec fn joined(parts: Seq<Seq<char>>, sep: Seq<char>) -> Seq<char>
    decreases parts.len(),
{
    if parts.len() == 0 {
        Seq::empty()
    } else if parts.len() == 1 {
        parts[0]
    } else {
        joined(parts.drop_last(), sep) + sep + parts.last()
    }
}

/// The texts of a list of strings.
pub open spec fn texts(v: Seq<String>) -> Seq<Seq<char>> {
    v.map_values(|s: String| s@)
}

/// Joins the parts with `sep` between neighbours.
pub fn join(parts: &Vec<String>, sep: &str) -> (out: String)
    ensures
        out@ == joined(texts(parts@), sep@),
{
    let mut out = String::new();
    let mut i: usize = 0;
    while i < parts.len()
        invariant
            i <= parts@.len(),
            out@ == joined(texts(parts@.take(i as int)), sep@),
        decreases parts@.len() - i,
    {
        if i > 0 {
            out.append(sep);
        }
        out.append(parts[i].as_str());
        proof {
            let now = texts(parts@.take(i + 1));
            assert(now.drop_last() =~= texts(parts@.take(i as int)));
            assert(now.last() == parts@[i as int]@);
            if i == 0 {
                assert(out@ =~= now[0]);
            }
        }
        i += 1;
    }
    assert(parts@.take(i as int) =~= parts@);
    out
}

/// Appends one text to a list.
pub fn push_part(out: &mut Vec<String>, part: String)
    ensures
        texts(final(out)@) == texts(old(out)@).push(part@),
{
    let ghost before = texts(out@);
    out.push(part);
    assert(texts(out@) =~= before.push(part@));
}

/// Whether a text has no characters.
pub fn is_empty(s: &str) -> (r: bool)
    ensures
        r == (s@.len() == 0),
{
    s.unicode_len() == 0
}

/// The number that decimal digits stand for.
pub open spec fn digits_value(s: Seq<u8>) -> nat
    decreases s.len(),
{
    if s.len() == 0 {
        0
    } else {
        (digits_value(s.drop_last()) * 10 + (s.last() - 48)) as nat
    }
}

pub open spec fn is_digit(b: u8) -> bool {
    48 <= b <= 57
}

/// One or more decimal digits and nothing else.
pub open spec fn all_digits(s: Seq<u8>) -> bool {
    &&& s.len() > 0
    &&& forall|i: int| 0 <= i < s.len() ==> is_digit(#[trigger] s[i])
}

/// The digits of an unsigned number, which may be preceded by a plus sign.
pub open spec fn after_plus(s: Seq<u8>) -> Seq<u8> {
    if s.len() > 0 && s[0] == 43 {
        s.skip(1)
    } else {
        s
    }
}

/// What a decimal unsigned number up to `max` is read as.
pub open spec fn decimal(s: Seq<u8>, max: nat) -> Option<nat> {
    let d = after_plus(s);
    if all_digits(d) && digits_value(d) <= max {
        Some(digits_value(d))
    } else {
        None
    }
}

proof fn lemma_digits_monotone(s: Seq<u8>, k: int)
    requires
        0 <= k <= s.len(),
        all_digits(s),
    ensures
        digits_value(s.take(k)) <= digits_value(s),
    decreases s.len(),
{
    if k < s.len() {
        assert(is_digit(s[s.len() - 1]));
        if s.len() > 1 {
            assert(all_digits(s.drop_last())) by {
                assert forall|i: int| 0 <= i < s.len() - 1 implies is_digit(#[trigger] s.drop_last()[i]) by {
                    assert(is_digit(s[i]));
                }
            }
            lemma_digits_monotone(s.drop_last(), k);
            assert(s.drop_last().take(k) =~= s.take(k));
        }
    } else {
        assert(s.take(k) =~= s);
    }
}

/// Reads a decimal unsigned number that fits in 64 bits.
pub fn parse_decimal(s: &[u8]) -> (r: Option<u64>)
    ensures
        r matches Some(v) ==> decimal(s@, u64::MAX as nat) == Some(v as nat),
        r is None ==> decimal(s@, u64::MAX as nat) is None,
{
    let mut i: usize = 0;
    if s.len() > 0 && s[0] == 43 {
        i = 1;
    }
    let start: usize = i;
    let ghost d = after_plus(s@);
    assert(d =~= s@.skip(start as int));
    if i >= s.len() {
        return None;
    }
    let mut v: u64 = 0;
    while i < s.len()
        invariant
            start <= i <= s@.len(),
            start < s@.len(),
            d == after_plus(s@),
            d == s@.skip(start as int),
            forall|j: int| 0 <= j < i - start ==> is_digit(#[trigger] d[j]),
            v == digits_value(d.take(i - start)),
        decreases s@.len() - i,
    {
        let b: u8 = s[i];
        assert(b == d[i - start]);
        if b < 48 || b > 57 {
            assert(!is_digit(d[i - start]));
            return None;
        }
        let x: u64 = (b - 48) as u64;
        proof {
            assert(d.take(i - start + 1).drop_last() =~= d.take(i - start));
            assert(d.take(i - start + 1).last() == b);
            if all_digits(d) {
                lemma_digits_monotone(d, i - start + 1);
            }
        }
        if v > (u64::MAX - x) / 10 {
            return None;
        }
        v = v * 10 + x;
        i += 1;
    }
    assert(d.take(i - start) =~= d);
    Some(v)
}

/// Where `c` first stands in `s`, or the length of `s` when it does not.
pub open spec fn char_at(s: Seq<char>, c: char) -> nat
    decreases s.len(),
{
    if s.len() == 0 || s[0] == c {
        0
    } else {
        1 + char_at(s.skip(1), c)
    }
}

pub proof fn lemma_char_at_is(s: Seq<char>, c: char, k: nat)
    requires
        k <= s.len(),
        forall|i: int| 0 <= i < k ==> s[i] != c,
        k == s.len() || s[k as int] == c,
    ensures
        char_at(s, c) == k,
    decreases s.len(),
{
    if k > 0 {
        let t = s.skip(1);
        assert forall|i: int| 0 <= i < k - 1 implies t[i] != c by {
            assert(t[i] == s[i + 1]);
        }
        lemma_char_at_is(t, c, (k - 1) as nat);
    }
}

/// The part of `s` before its first `c`.
pub open spec fn before(s: Seq<char>, c: char) -> Seq<char> {
    s.take(char_at(s, c) as int)
}

/// The part of `s` after its first `c`; nothing when there is none.
pub open spec fn after(s: Seq<char>, c: char) -> Option<Seq<char>> {
    if char_at(s, c) < s.len() {
        Some(s.skip(char_at(s, c) as int + 1))
    } else {
        None
    }
}

/// `part` stands somewhere in `s`.
pub open spec fn has_part(s: Seq<char>, part: Seq<char>) -> bool {
    exists|i: int| 0 <= i <= s.len() - part.len() && #[trigger] s.subrange(i, i + part.len()) == part
}

/// Whether `part` stands somewhere in `s`.
pub fn contains_text(s: &str, part: &str) -> (r: bool)
    ensures
        r == has_part(s@, part@),
{
    let n: usize = s.unicode_len();
    let k: usize = part.unicode_len();
    if k > n {
        return false;
    }
    let mut i: usize = 0;
    while i <= n - k
        invariant
            n == s@.len(),
            k == part@.len(),
            k <= n,
            i <= n - k + 1,
            forall|j: int| 0 <= j < i ==> #[trigger] s@.subrange(j, j + part@.len()) != part@,
        decreases n - k + 1 - i,
    {
        let mut j: usize = 0;
        while j < k && s.get_char(i + j) == part.get_char(j)
            invariant
                n == s@.len(),
                k == part@.len(),
                k <= n,
                i <= n - k,
                j <= k,
                forall|t: int| 0 <= t < j ==> s@[i + t] == part@[t],
            decreases k - j,
        {
            j += 1;
        }
        if j == k {
            assert(s@.subrange(i as int, i + part@.len()) =~= part@);
            return true;
        }
        assert(s@.subrange(i as int, i + part@.len())[j as int] != part@[j as int]);
        if i == usize::MAX {
            return false;
        }
        i += 1;
    }
    false
}

/// Whether `s` begins with `part`.
pub fn starts_with(s: &str, part: &str) -> (r: bool)
    ensures
        r == part@.is_prefix_of(s@),
{
    let n: usize = s.unicode_len();
    let k: usize = part.unicode_len();
    if k > n {
        return false;
    }
    let mut j: usize = 0;
    while j < k
        invariant
            n == s@.len(),
            k == part@.len(),
            j <= k <= n,
            forall|t: int| 0 <= t < j ==> s@[t] == part@[t],
        decreases k - j,
    {
        if s.get_char(j) != part.get_char(j) {
            assert(s@.subrange(0, k as int)[j as int] != part@[j as int]);
            return false;
        }
        j += 1;
    }
    assert(part@ =~= s@.subrange(0, k as int));
    true
}

/// How many bytes a character takes in UTF-8.
pub open spec fn char_width(c: char) -> nat {
    if (c as u32) < 0x80 {
        1
    } else if (c as u32) < 0x800 {
        2
    } else if (c as u32) < 0x1_0000 {
        3
    } else {
        4
    }
}

/// The characters that take the first `n` bytes of `s`; nothing when `s` is too short or a
/// character crosses that boundary.
pub open spec fn byte_prefix(s: Seq<char>, n: nat) -> Option<Seq<char>>
    decreases s.len(),
{
    if n == 0 {
        Some(Seq::empty())
    } else if s.len() == 0 || char_width(s[0]) > n {
        None
    } else {
        match byte_prefix(s.skip(1), (n - char_width(s[0])) as nat) {
            Some(t) => Some(seq![s[0]] + t),
            None => None,
        }
    }
}

/// Appends the characters that take the first `n` bytes of `s`.
pub fn push_byte_prefix(out: &mut String, s: &str, n: usize)
    requires
        byte_prefix(s@, n as nat) is Some,
    ensures
        final(out)@ == old(out)@ + byte_prefix(s@, n as nat)->0,
{
    let ghost before = out@;
    let mut left: usize = n;
    let mut i: usize = 0;
    assert(s@.skip(0) =~= s@);
    while left > 0
        invariant
            i <= s@.len(),
            byte_prefix(s@, n as nat) is Some,
            byte_prefix(s@.skip(i as int), left as nat) is Some,
            before + byte_prefix(s@, n as nat)->0 == out@ + byte_prefix(s@.skip(i as int), left as nat)->0,
        decreases left,
    {
        let total: usize = s.unicode_len();
        let ghost rest = s@.skip(i as int);
        assert(rest[0] == s@[i as int]);
        let c: char = s.get_char(i);
        let w: usize = if (c as u32) < 0x80 {
            1
        } else if (c as u32) < 0x800 {
            2
        } else if (c as u32) < 0x1_0000 {
            3
        } else {
            4
        };
        let ghost was = out@;
        out.push(c);
        proof {
            assert(rest.skip(1) =~= s@.skip(i + 1));
            let t = byte_prefix(s@.skip(i + 1), (left - w) as nat)->0;
            assert(was + (seq![c] + t) =~= was.push(c) + t);
        }
        left -= w;
        i += 1;
    }
    assert(out@ + Seq::<char>::empty() =~= out@);
}

/// Splits a text at its first `c`.
pub fn split_once(s: &str, c: char) -> (r: (String, Option<String>))
    ensures
        r.0@ == before(s@, c),
        match r.1 {
            Some(t) => after(s@, c) == Some(t@),
            None => after(s@, c) is None,
        },
{
    let n: usize = s.unicode_len();
    let mut head = String::new();
    let mut i: usize = 0;
    while i < n && s.get_char(i) != c
        invariant
            n == s@.len(),
            i <= n,
            head@ == s@.take(i as int),
            forall|j: int| 0 <= j < i ==> s@[j] != c,
        decreases n - i,
    {
        head.push(s.get_char(i));
        i += 1;
        assert(head@ =~= s@.take(i as int));
    }
    proof {
        lemma_char_at_is(s@, c, i as nat);
    }
    if i >= n {
        return (head, None);
    }
    let mut tail = String::new();
    let start: usize = i + 1;
    let mut j: usize = start;
    assert(tail@ =~= s@.subrange(start as int, j as int));
    while j < n
        invariant
            n == s@.len(),
            start <= j <= n,
            tail@ == s@.subrange(start as int, j as int),
        decreases n - j,
    {
        tail.push(s.get_char(j));
        j += 1;
        assert(tail@ =~= s@.subrange(start as int, j as int));
    }
    assert(tail@ =~= s@.skip(start as int));
    (head, Some(tail))
}

/// Where `c` last stands among the first `n` characters of `s`.
pub open spec fn last_at(s: Seq<char>, c: char, n: nat) -> Option<nat>
    decreases n,
{
    if n == 0 {
        None
    } else if s[n - 1] == c {
        Some((n - 1) as nat)
    } else {
        last_at(s, c, (n - 1) as nat)
    }
}

/// The characters of `s` from place `from` up to place `to`.
pub fn part_of(s: &str, from: usize, to: usize) -> (r: String)
    requires
        from <= to <= s@.len(),
    ensures
        r@ == s@.subrange(from as int, to as int),
{
    let mut r = String::new();
    let mut i: usize = from;
    assert(r@ =~= s@.subrange(from as int, from as int));
    while i < to
        invariant
            from <= i <= to <= s@.len(),
            r@ == s@.subrange(from as int, i as int),
        decreases to - i,
    {
        r.push(s.get_char(i));
        i += 1;
        assert(r@ =~= s@.subrange(from as int, i as int));
    }
    r
}

/// Where `c` last stands in `s`.
pub fn find_last(s: &str, c: char) -> (r: Option<usize>)
    ensures
        match r {
            Some(k) => last_at(s@, c, s@.len()) == Some(k as nat) && k < s@.len(),
            None => last_at(s@, c, s@.len()) is None,
        },
{
    let mut n: usize = s.unicode_len();
    while n > 0
        invariant
            n <= s@.len(),
            last_at(s@, c, s@.len()) == last_at(s@, c, n as nat),
        decreases n,
    {
        n -= 1;
        if s.get_char(n) == c {
            return Some(n);
        }
    }
    None
}

/// A character with an upper-case ASCII letter made lower-case.
pub open spec fn lower(c: char) -> char {
    if 'A' <= c && c <= 'Z' {
        (c as u32 + 32) as char
    } else {
        c
    }
}

/// `s` ends with `part`, up to the case of ASCII letters in `s`.
pub open spec fn lower_ends_with(s: Seq<char>, part: Seq<char>) -> bool {
    &&& s.len() >= part.len()
    &&& forall|i: int|
        0 <= i < part.len() ==> lower(s[s.len() - part.len() + i]) == #[trigger] part[i]
}

pub fn to_lower(c: char) -> (r: char)
    ensures
        r == lower(c),
{
    if 'A' <= c && c <= 'Z' {
        let b: u8 = c as u8;
        (b + 32) as char
    } else {
        c
    }
}

/// A text in lower case, as far as it is ASCII.
pub open spec fn lowered(s: Seq<char>) -> Seq<char> {
    s.map_values(|c: char| lower(c))
}

/// Compares two texts without regard to the case of ASCII letters.
pub fn same_lower(a: &str, b: &str) -> (r: bool)
    ensures
        r == (lowered(a@) == lowered(b@)),
{
    let n: usize = a.unicode_len();
    if n != b.unicode_len() {
        assert(lowered(a@).len() != lowered(b@).len());
        return false;
    }
    let mut i: usize = 0;
    while i < n
        invariant
            i <= n,
            n == a@.len(),
            n == b@.len(),
            forall|j: int| 0 <= j < i ==> lowered(a@)[j] == lowered(b@)[j],
        decreases n - i,
    {
        if to_lower(a.get_char(i)) != to_lower(b.get_char(i)) {
            assert(lowered(a@)[i as int] != lowered(b@)[i as int]);
            return false;
        }
        i += 1;
    }
    assert(lowered(a@) =~= lowered(b@));
    true
}

/// Whether `s` ends with `part`, up to the case of ASCII letters in `s`.
pub fn ends_with_lower(s: &str, part: &str) -> (r: bool)
    ensures
        r == lower_ends_with(s@, part@),
{
    let n: usize = s.unicode_len();
    let k: usize = part.unicode_len();
    if k > n {
        return false;
    }
    let mut j: usize = 0;
    while j < k
        invariant
            n == s@.len(),
            k == part@.len(),
            j <= k <= n,
            forall|t: int| 0 <= t < j ==> lower(s@[n - k + t]) == #[trigger] part@[t],
        decreases k - j,
    {
        if to_lower(s.get_char(n - k + j)) != part.get_char(j) {
            assert(lower(s@[n - k + j]) != part@[j as int]);
            return false;
        }
        j += 1;
    }
    true
}

/// `s` without any number of `tail` at its end.
pub open spec fn stem(s: Seq<char>, tail: Seq<char>) -> Seq<char>
    decreases s.len(),
{
    if tail.len() > 0 && tail.is_suffix_of(s) {
        stem(s.take(s.len() - tail.len()), tail)
    } else {
        s
    }
}

/// `s` without any number of `tail` at its end.
pub fn stem_of(s: &str, tail: &str) -> (r: String)
    ensures
        r@ == stem(s@, tail@),
{
    let k: usize = tail.unicode_len();
    let mut n: usize = s.unicode_len();
    assert(s@.take(n as int) =~= s@);
    loop
        invariant
            n <= s@.len(),
            k == tail@.len(),
            stem(s@, tail@) == stem(s@.take(n as int), tail@),
        ensures
            n <= s@.len(),
            stem(s@, tail@) == s@.take(n as int),
        decreases n,
    {
        let ghost now = s@.take(n as int);
        if k == 0 || k > n {
            break;
        }
        let mut j: usize = 0;
        while j < k && s.get_char(n - k + j) == tail.get_char(j)
            invariant
                n <= s@.len(),
                k == tail@.len(),
                j <= k <= n,
                forall|t: int| 0 <= t < j ==> s@[n - k + t] == #[trigger] tail@[t],
            decreases k - j,
        {
            j += 1;
        }
        if j < k {
            proof {
                if tail@.is_suffix_of(now) {
                    assert(now.subrange(n - k, n as int)[j as int] == tail@[j as int]);
                }
            }
            break;
        }
        proof {
            assert(tail@ =~= now.subrange(n - k, n as int));
            assert(now.take(n - k) =~= s@.take(n - k));
        }
        n -= k;
    }
    let mut r = String::new();
    let mut i: usize = 0;
    assert(r@ =~= s@.take(0));
    while i < n
        invariant
            i <= n <= s@.len(),
            r@ == s@.take(i as int),
        decreases n - i,
    {
        r.push(s.get_char(i));
        i += 1;
        assert(r@ =~= s@.take(i as int));
    }
    r
}

} // verus!
