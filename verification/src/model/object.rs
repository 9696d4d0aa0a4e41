//! The framed form of an object: its type name, its length, a NUL and its content.
use vstd::prelude::*;
use vstd::utf8::{
    decode_utf8, encode_utf8, encode_utf8_decode_utf8, encode_utf8_valid_utf8, is_ascii_chars,
    is_ascii_chars_encode_utf8, valid_utf8,
};
use crate::model::bytes::{first_at, lemma_first_at_is, push_all};
use crate::model::num::ascii_bytes;
use crate::model::text::{
    after, after_plus, all_digits, before, dec, decimal, digits_value, is_digit, lemma_char_at_is,
};

verus! {

/// The decimal notation of `n` as ASCII bytes.
pub open spec fn dec_bytes(n: nat) -> Seq<u8>
    decreases n,
{
    if n < 10 {
        seq![(48 + n) as u8]
    } else {
        dec_bytes(n / 10).push((48 + n % 10) as u8)
    }
}

/// `"<type> <length>\0<content>"`.
pub open spec fn object_frame(name: Seq<char>, content: Seq<u8>) -> Seq<u8> {
    encode_utf8(name) + seq![32u8] + dec_bytes(content.len()) + seq![0u8] + content
}

/// The bytes of the four type names.
pub open spec fn commit_bytes() -> Seq<u8> {
    seq![99u8, 111, 109, 109, 105, 116]
}

pub open spec fn tree_bytes() -> Seq<u8> {
    seq![116u8, 114, 101, 101]
}

pub open spec fn blob_bytes() -> Seq<u8> {
    seq![98u8, 108, 111, 98]
}

pub open spec fn tag_bytes() -> Seq<u8> {
    seq![116u8, 97, 103]
}

/// A decimal length is read back as the number it was written from.
pub proof fn dec_bytes_roundtrip(n: nat)
    ensures
        all_digits(dec_bytes(n)),
        digits_value(dec_bytes(n)) == n,
        decimal(dec_bytes(n), n) == Some(n),
    decreases n,
{
    let s = dec_bytes(n);
    if n < 10 {
        assert(s.drop_last().len() == 0);
        assert(digits_value(s.drop_last()) == 0);
        assert(is_digit(s[0]));
    } else {
        dec_bytes_roundtrip(n / 10);
        assert(s.drop_last() =~= dec_bytes(n / 10));
        assert forall|i: int| 0 <= i < s.len() implies is_digit(#[trigger] s[i]) by {
            if i < s.len() - 1 {
                assert(is_digit(dec_bytes(n / 10)[i]));
            }
        }
    }
    assert(is_digit(s[0]));
    assert(after_plus(s) == s);
}

/// Appends the decimal notation of `n`.
pub fn push_dec_bytes(out: &mut Vec<u8>, n: u64)
    ensures
        final(out)@ == old(out)@ + dec_bytes(n as nat),
    decreases n,
{
    if n >= 10 {
        push_dec_bytes(out, n / 10);
    }
    out.push(48 + (n % 10) as u8);
    proof {
        assert(out@ =~= old(out)@ + dec_bytes(n as nat));
    }
}

/// Frames `content` as an object of type `name`.
pub fn frame(name: &str, content: &[u8]) -> (out: Vec<u8>)
    ensures
        out@ == object_frame(name@, content@),
{
    let mut out: Vec<u8> = Vec::new();
    push_all(&mut out, name.as_bytes());
    out.push(32);
    push_dec_bytes(&mut out, content.len() as u64);
    out.push(0);
    push_all(&mut out, content);
    proof {
        assert(out@ =~= object_frame(name@, content@));
    }
    out
}

pub proof fn lemma_type_names()
    ensures
        encode_utf8("commit"@) == commit_bytes(),
        encode_utf8("tree"@) == tree_bytes(),
        encode_utf8("blob"@) == blob_bytes(),
        encode_utf8("tag"@) == tag_bytes(),
{
    reveal_strlit("commit");
    reveal_strlit("tree");
    reveal_strlit("blob");
    reveal_strlit("tag");
    vstd::utf8::is_ascii_chars_encode_utf8("commit"@);
    vstd::utf8::is_ascii_chars_encode_utf8("tree"@);
    vstd::utf8::is_ascii_chars_encode_utf8("blob"@);
    vstd::utf8::is_ascii_chars_encode_utf8("tag"@);
    assert(encode_utf8("commit"@) =~= commit_bytes());
    assert(encode_utf8("tree"@) =~= tree_bytes());
    assert(encode_utf8("blob"@) =~= blob_bytes());
    assert(encode_utf8("tag"@) =~= tag_bytes());
}

proof fn lemma_dec_ascii(n: nat)
    ensures
        ascii_bytes(dec(n)) == dec_bytes(n),
        is_ascii_chars(dec(n)),
        encode_utf8(dec(n)) == dec_bytes(n),
    decreases n,
{
    if n >= 10 {
        lemma_dec_ascii(n / 10);
        let d = dec(n / 10);
        assert forall|i: int| 0 <= i < dec(n).len() implies '\0' <= #[trigger] dec(n)[i] <= '\u{7f}' by {
            if i < d.len() {
                assert(dec(n)[i] == d[i]);
            }
        }
    }
    assert(ascii_bytes(dec(n)) =~= dec_bytes(n));
    is_ascii_chars_encode_utf8(dec(n));
    assert(encode_utf8(dec(n)) =~= dec_bytes(n));
}

/// A word that can name a type: characters of ASCII, none of them a space or a NUL.
pub open spec fn is_word(name: Seq<char>) -> bool {
    is_ascii_chars(name) && forall|i: int|
        0 <= i < name.len() ==> #[trigger] name[i] != ' ' && name[i] != '\0'
}

/// The header of a frame ends at its first NUL and spells the name, a space and the length.
pub proof fn lemma_frame_head(name: Seq<char>, n: nat, body: Seq<u8>)
    requires
        is_word(name),
    ensures
        ({
            let f = encode_utf8(name) + seq![32u8] + dec_bytes(n) + seq![0u8] + body;
            let k = first_at(f, 0);
            let head = decode_utf8(f.take(k as int));
            &&& k < f.len()
            &&& valid_utf8(f.take(k as int))
            &&& before(head, ' ') == name
            &&& after(head, ' ') == Some(dec(n))
            &&& before(dec(n), ' ') == dec(n)
            &&& encode_utf8(dec(n)) == dec_bytes(n)
            &&& f.take(k as int) == encode_utf8(name) + seq![32u8] + dec_bytes(n)
            &&& f.skip(k as int + 1) == body
        }),
{
    let f = encode_utf8(name) + seq![32u8] + dec_bytes(n) + seq![0u8] + body;
    let h = name + seq![' '] + dec(n);
    let k = h.len();
    lemma_dec_ascii(n);
    dec_bytes_roundtrip(n);
    is_ascii_chars_encode_utf8(name);
    assert(dec(n).len() == dec_bytes(n).len()) by {
        assert(ascii_bytes(dec(n)).len() == dec(n).len());
    }
    assert forall|i: int| 0 <= i < h.len() implies '\0' <= #[trigger] h[i] <= '\u{7f}' by {
        if i < name.len() {
            assert(h[i] == name[i]);
        } else if i > name.len() {
            assert(h[i] == dec(n)[i - name.len() - 1]);
        }
    }
    is_ascii_chars_encode_utf8(h);
    encode_utf8_valid_utf8(h);
    encode_utf8_decode_utf8(h);
    assert(f.take(k as int) =~= encode_utf8(h)) by {
        assert forall|i: int| 0 <= i < k implies #[trigger] f[i] == encode_utf8(h)[i] by {
            assert(encode_utf8(h)[i] == h[i] as u8);
            if i < name.len() {
                assert(h[i] == name[i]);
                assert(f[i] == encode_utf8(name)[i]);
            } else if i > name.len() {
                assert(h[i] == dec(n)[i - name.len() - 1]);
                assert(f[i] == ascii_bytes(dec(n))[i - name.len() - 1]);
            }
        }
    }
    assert forall|i: int| 0 <= i < k implies f[i] != 0 by {
        if i < name.len() {
            assert(name[i] != '\0');
            assert(f[i] == encode_utf8(name)[i]);
            assert(encode_utf8(name)[i] == name[i] as u8);
        } else if i > name.len() {
            assert(f[i] == dec_bytes(n)[i - name.len() - 1]);
            assert(is_digit(dec_bytes(n)[i - name.len() - 1]));
        }
    }
    lemma_first_at_is(f, 0, k);
    assert forall|i: int| 0 <= i < name.len() implies h[i] != ' ' by {
        assert(h[i] == name[i]);
    }
    lemma_char_at_is(h, ' ', name.len());
    assert(before(h, ' ') =~= name);
    assert(h.skip(name.len() as int + 1) =~= dec(n));
    assert(f.take(k as int) =~= encode_utf8(name) + seq![32u8] + dec_bytes(n));
    assert forall|i: int| 0 <= i < dec(n).len() implies dec(n)[i] != ' ' by {
        assert(ascii_bytes(dec(n))[i] == dec(n)[i] as u8);
        assert(is_digit(dec_bytes(n)[i]));
    }
    lemma_char_at_is(dec(n), ' ', dec(n).len());
    assert(before(dec(n), ' ') =~= dec(n));
    assert(f.skip(k as int + 1) =~= body);
}

/// The names of the four types are words, and differ.
pub proof fn lemma_names_are_words()
    ensures
        is_word("commit"@),
        is_word("tree"@),
        is_word("blob"@),
        is_word("tag"@),
        "commit"@ != "tree"@,
        "commit"@ != "blob"@,
        "commit"@ != "tag"@,
        "tree"@ != "blob"@,
        "tree"@ != "tag"@,
        "blob"@ != "tag"@,
{
    reveal_strlit("commit");
    reveal_strlit("tree");
    reveal_strlit("blob");
    reveal_strlit("tag");
    assert("commit"@.len() == 6 && "tree"@.len() == 4 && "blob"@.len() == 4 && "tag"@.len() == 3);
    assert("tree"@[0] == 't' && "blob"@[0] == 'b');
}

} // verus!
