//! Numbers that change between signed and unsigned, and their texts.
use vstd::prelude::*;
use vstd::utf8::is_ascii_chars;
use crate::model::sort::{bytes_less, lemma_less_concat};
use crate::model::text::{dec, dec_int, dec_padded, digit_char, push_dec_padded};

verus! {

/// A signed number read as an unsigned one of the same bits.
pub open spec fn unsigned(x: i64) -> nat {
    if x < 0 {
        (x + 0x1_0000_0000_0000_0000) as nat
    } else {
        x as nat
    }
}

/// An unsigned 64-bit number read as a signed one of the same bits.
pub open spec fn signed(n: nat) -> i64 {
    if n < 0x8000_0000_0000_0000 {
        n as i64
    } else {
        (n - 0x1_0000_0000_0000_0000) as i64
    }
}

pub fn to_unsigned(x: i64) -> (r: u64)
    ensures
        r == unsigned(x),
{
    if x < 0 {
        (x as i128 + 0x1_0000_0000_0000_0000) as u64
    } else {
        x as u64
    }
}

pub fn to_signed(n: u64) -> (r: i64)
    ensures
        r == signed(n as nat),
{
    if n < 0x8000_0000_0000_0000 {
        n as i64
    } else {
        (n as i128 - 0x1_0000_0000_0000_0000) as i64
    }
}

fn push_wide_dec(out: &mut String, n: u128)
    ensures
        final(out)@ == old(out)@ + dec(n as nat),
    decreases n,
{
    if n >= 10 {
        push_wide_dec(out, n / 10);
    }
    let d: u8 = (n % 10) as u8;
    let c: char = (48 + d) as char;
    out.push(c);
    proof {
        assert(out@ =~= old(out)@ + dec(n as nat));
    }
}

/// Appends the decimal notation of a wide number, with its sign.
pub fn push_wide(out: &mut String, n: i128)
    ensures
        final(out)@ == old(out)@ + dec_int(n as int),
{
    let ghost before = out@;
    if n < 0 {
        out.push('-');
        if n == i128::MIN {
            push_wide_dec(out, 0x8000_0000_0000_0000_0000_0000_0000_0000);
        } else {
            push_wide_dec(out, (-n) as u128);
        }
    } else {
        push_wide_dec(out, n as u128);
    }
    proof {
        assert(out@ =~= before + dec_int(n as int));
    }
}

/// The decimal notation of `n`, filled up with zeros behind its sign to `width` characters.
pub open spec fn int_padded(n: int, width: nat) -> Seq<char> {
    if n < 0 {
        seq!['-'] + dec_padded((-n) as nat, (width - 1) as nat)
    } else {
        dec_padded(n as nat, width)
    }
}

/// Appends `n` with zeros up to `width` characters.
pub fn push_int_padded(out: &mut String, n: i64, width: usize)
    requires
        width > 0,
    ensures
        final(out)@ == old(out)@ + int_padded(n as int, width as nat),
{
    let ghost before = out@;
    if n < 0 {
        out.push('-');
        if n == i64::MIN {
            push_dec_padded(out, 0x8000_0000_0000_0000, width - 1);
        } else {
            push_dec_padded(out, (-n) as u64, width - 1);
        }
    } else {
        push_dec_padded(out, n as u64, width);
    }
    proof {
        assert(out@ =~= before + int_padded(n as int, width as nat));
    }
}

/// Ten to the power of `w`.
pub open spec fn ten_to(w: nat) -> nat
    decreases w,
{
    if w == 0 {
        1
    } else {
        10 * ten_to((w - 1) as nat)
    }
}

/// The bytes of ASCII characters.
pub open spec fn ascii_bytes(s: Seq<char>) -> Seq<u8> {
    s.map_values(|c: char| c as u8)
}

proof fn lemma_dec_width(n: nat, w: nat)
    requires
        n < ten_to(w),
        w > 0,
    ensures
        0 < dec(n).len() <= w,
    decreases w,
{
    if n >= 10 {
        assert(w > 1) by {
            reveal_with_fuel(ten_to, 2);
        }
        lemma_dec_width(n / 10, (w - 1) as nat);
    }
}

proof fn lemma_padded_step(n: nat, w: nat)
    requires
        n < ten_to(w),
        w > 1,
    ensures
        dec_padded(n, w) == dec_padded(n / 10, (w - 1) as nat).push(digit_char(n % 10)),
{
    lemma_dec_width(n, w);
    lemma_dec_width(n / 10, (w - 1) as nat);
    assert(dec_padded(n, w) =~= dec_padded(n / 10, (w - 1) as nat).push(digit_char(n % 10)));
}

/// Numbers that are filled up to one width stand in the order of their texts.
pub proof fn padded_numbers_keep_their_order(n: nat, m: nat, w: nat)
    requires
        n < ten_to(w),
        m < ten_to(w),
        w > 0,
    ensures
        dec_padded(n, w).len() == w,
        is_ascii_chars(dec_padded(n, w)),
        bytes_less(ascii_bytes(dec_padded(n, w)), ascii_bytes(dec_padded(m, w))) <==> n < m,
        dec_padded(n, w) == dec_padded(m, w) <==> n == m,
        ascii_bytes(dec_padded(n, w)) == ascii_bytes(dec_padded(m, w)) <==> n == m,
    decreases w,
{
    let a = dec_padded(n, w);
    let b = dec_padded(m, w);
    if w == 1 {
        reveal_with_fuel(ten_to, 2);
        assert(a =~= seq![digit_char(n)]);
        assert(b =~= seq![digit_char(m)]);
        let x = ascii_bytes(a);
        let y = ascii_bytes(b);
        assert(x[0] == 48 + n && y[0] == 48 + m);
        if x == y {
            assert(n == m);
        }
        reveal_with_fuel(bytes_less, 2);
        assert(a[0] == digit_char(n) && b[0] == digit_char(m));
    } else {
        let v = (w - 1) as nat;
        padded_numbers_keep_their_order(n / 10, m / 10, v);
        padded_numbers_keep_their_order(m / 10, n / 10, v);
        lemma_padded_step(n, w);
        lemma_padded_step(m, w);
        let p = dec_padded(n / 10, v);
        let q = dec_padded(m / 10, v);
        let c = digit_char(n % 10);
        let d = digit_char(m % 10);
        assert(a == p.push(c) && b == q.push(d));
        let x = seq![c as u8];
        let y = seq![d as u8];
        assert(ascii_bytes(a) =~= ascii_bytes(p) + x);
        assert(ascii_bytes(b) =~= ascii_bytes(q) + y);
        lemma_less_concat(ascii_bytes(p), ascii_bytes(q), x, y);
        assert(x[0] == 48 + n % 10 && y[0] == 48 + m % 10);
        reveal_with_fuel(bytes_less, 2);
        assert(bytes_less(x, y) <==> n % 10 < m % 10);
        assert(ascii_bytes(p) == ascii_bytes(q) <==> n / 10 == m / 10);
        if ascii_bytes(a) == ascii_bytes(b) {
            assert(ascii_bytes(a).take(v as int) =~= ascii_bytes(p));
            assert(ascii_bytes(b).take(v as int) =~= ascii_bytes(q));
            assert(ascii_bytes(a)[v as int] == 48 + n % 10);
            assert(ascii_bytes(b)[v as int] == 48 + m % 10);
        }
        assert forall|i: int| 0 <= i < a.len() implies '\0' <= #[trigger] a[i] <= '\u{7f}' by {
            if i < v {
                assert(a[i] == p[i]);
            } else {
                assert(a[i] == c);
            }
        }
    }
}

} // verus!
