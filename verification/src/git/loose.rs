//! Loose (zlib compressed) objects.
use vstd::prelude::*;
use vstd::string::StringExecFns;
use vstd::utf8::{decode_utf8, encode_utf8, valid_utf8};
use crate::git::{git_object_id, inflate_one, inflate_run, GitType};
use crate::model::bytes::{copy_range, find_byte, first_at};
use crate::model::object::{dec_bytes_roundtrip, lemma_frame_head, lemma_names_are_words, object_frame};
use crate::model::outside::{debug_text, lossy_text, quoted, sha1_smol_of, utf8_lossy, zlib_packed};
use crate::model::text::{after, before, dec, decimal, parse_decimal, push_dec, split_once};

verus! {

#[derive(Debug)]
pub struct LooseParse {
    pub kind_name: String,
    pub data: Vec<u8>,
    pub declared_size: usize,
    pub computed_oid: [u8; 20],
    pub error: Option<String>,
}

/// A record that only holds an error.
pub open spec fn only_error(p: LooseParse, m: Seq<char>) -> bool {
    &&& p.kind_name@.len() == 0
    &&& p.data@.len() == 0
    &&& p.declared_size == 0
    &&& p.computed_oid@ == Seq::new(20, |i: int| 0u8)
    &&& p.error matches Some(e) && e@ == m
}

/// The size that a header declares; the largest word when it is not a number.
pub open spec fn declared(header: Seq<char>) -> nat {
    match after(header, ' ') {
        None => usize::MAX as nat,
        Some(rest) => match decimal(encode_utf8(before(rest, ' ')), usize::MAX as nat) {
            None => usize::MAX as nat,
            Some(n) => n,
        },
    }
}

/// What an inflated payload holds.
pub open spec fn is_payload(p: LooseParse, payload: Seq<u8>) -> bool {
    let nul = first_at(payload, 0);
    let header = lossy_text(payload.take(nul as int));
    let body = payload.skip(nul as int + 1);
    let name = before(header, ' ');
    if nul == payload.len() {
        only_error(p, "loose object missing NUL header terminator"@)
    } else {
        &&& p.kind_name@ == name
        &&& p.data@ == body
        &&& p.declared_size == declared(header)
        &&& p.computed_oid@ == sha1_smol_of(object_frame(name, body))
        &&& if declared(header) != body.len() {
            p.error matches Some(e) && e@ == "size spoof: loose header declares "@ + dec(declared(header))
                + " but body is "@ + dec(body.len()) + " bytes"@
        } else if GitType::of_text(name) is None {
            p.error matches Some(e) && e@ == "unknown loose object type "@ + debug_text(name)
        } else {
            p.error is None
        }
    }
}

fn failed(m: String) -> (p: LooseParse)
    ensures
        only_error(p, m@),
{
    let p = LooseParse {
        kind_name: String::new(),
        data: Vec::new(),
        declared_size: 0,
        computed_oid: [0u8; 20],
        error: Some(m),
    };
    assert(p.computed_oid@ =~= Seq::new(20, |i: int| 0u8));
    p
}

/// What is read of a framed object: its type, its content and its id, and no error.
pub open spec fn is_object(p: LooseParse, kind: GitType, body: Seq<u8>) -> bool {
    &&& p.kind_name@ == kind.text()
    &&& p.data@ == body
    &&& p.declared_size == body.len()
    &&& p.computed_oid@ == sha1_smol_of(object_frame(kind.text(), body))
    &&& p.error is None
}

/// Interprets an inflated payload: the type, the declared size, the body and its id. A framed
/// object is read for what it was made of.
pub fn read_payload(payload: &[u8]) -> (p: LooseParse)
    ensures
        is_payload(p, payload@),
        forall|kind: GitType, body: Seq<u8>|
            !kind.delta() && payload@ == #[trigger] object_frame(kind.text(), body) ==> is_object(p, kind, body),
{
    proof {
        assert forall|kind: GitType, body: Seq<u8>|
            !kind.delta() && payload@ == #[trigger] object_frame(kind.text(), body) implies {
            let k = first_at(payload@, 0);
            let head = decode_utf8(payload@.take(k as int));
            &&& k < payload@.len()
            &&& valid_utf8(payload@.take(k as int))
            &&& before(head, ' ') == kind.text()
            &&& declared(head) == body.len()
            &&& payload@.skip(k as int + 1) == body
            &&& GitType::of_text(kind.text()) == Some(kind)
        } by {
            lemma_names_are_words();
            lemma_frame_head(kind.text(), body.len(), body);
            dec_bytes_roundtrip(body.len());
            assert(payload@.len() == payload.len());
            assert(body.len() <= payload@.len());
        }
    }
    let nul: usize = find_byte(payload, 0);
    if nul >= payload.len() {
        return failed("loose object missing NUL header terminator".to_owned());
    }
    let head = vstd::slice::slice_subrange(payload, 0, nul);
    assert(head@ =~= payload@.take(nul as int));
    let header = utf8_lossy(head);
    let (kind_name, rest) = split_once(header.as_str(), ' ');
    let body = copy_range(payload, nul + 1, payload.len());
    assert(body@ =~= payload@.skip(nul as int + 1));
    let declared_size: usize = match rest {
        None => usize::MAX,
        Some(t) => {
            let (word, _) = split_once(t.as_str(), ' ');
            match parse_decimal(word.as_str().as_bytes()) {
                None => usize::MAX,
                Some(v) => if v <= usize::MAX as u64 {
                    v as usize
                } else {
                    usize::MAX
                },
            }
        },
    };
    let mut error: Option<String> = None;
    if GitType::from_name(kind_name.as_str()).is_none() {
        let mut m = "unknown loose object type ".to_owned();
        m.append(quoted(kind_name.as_str()).as_str());
        error = Some(m);
    }
    if declared_size != body.len() {
        let mut m = "size spoof: loose header declares ".to_owned();
        push_dec(&mut m, declared_size as u64);
        m.append(" but body is ");
        push_dec(&mut m, body.len() as u64);
        m.append(" bytes");
        error = Some(m);
    }
    let computed_oid = git_object_id(kind_name.as_str(), body.as_slice());
    LooseParse { kind_name, data: body, declared_size, computed_oid, error }
}

/// Inflates and interprets a loose object. What was framed and compressed is read back.
pub fn parse_loose(data: &[u8]) -> (p: LooseParse)
    ensures
        match inflate_run(data@, Seq::empty()) {
            Err(m) => only_error(p, "zlib error: "@ + m),
            Ok((payload, _)) => is_payload(p, payload),
        },
        forall|x: Seq<u8>| #[trigger]
            zlib_packed(x).is_prefix_of(data@) ==> is_payload(p, x),
        forall|kind: GitType, body: Seq<u8>|
            !kind.delta() && zlib_packed(#[trigger] object_frame(kind.text(), body)).is_prefix_of(data@)
                ==> is_object(p, kind, body),
{
    assert(data@.skip(0) =~= data@);
    match inflate_one(data, 0) {
        Err(e) => {
            let mut m = "zlib error: ".to_owned();
            m.append(e.as_str());
            failed(m)
        },
        Ok((payload, _)) => read_payload(payload.as_slice()),
    }
}

} // verus!
