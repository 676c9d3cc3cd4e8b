//! The wire protocol surface: the fixed set of endpoints, the request
//! bodies, the per-request decisions and the response bodies.
//!
//! The transport (sockets, HTTP framing) stays outside; everything here
//! works on plain values. A request is routed to a tagged endpoint,
//! matched exhaustively with an explicit unhandled variant; a publish is
//! verified (the submitted public key must hash to the record's id and
//! the signature must check) before anything reaches the log; reads
//! never verify.

use vstd::prelude::*;
use vstd::string::StringSliceAdditionalSpecFns;

use crate::codec::json_of;
use crate::crypto::{b64_dec_of, pem_pubkey_of, sha256_of, PublicKey, MAX_B64_LEN};
use crate::log::{storable, Log};
use crate::reid::{spec_verify, Reid, ReidV};

verus! {

/// A parsed publish request: the record and the base64 PEM of the
/// submitted public key.
pub struct ReidMessage {
    pub reid: Reid,
    pub pub_key: String,
}

/// A parsed lookup request: the base64 of the id looked for.
pub struct IdMessage {
    pub id_b64: String,
}

/// The endpoints the server serves, plus an explicit unhandled variant.
#[derive(Debug, PartialEq, Eq)]
pub enum Endpoint {
    Publish,
    Tail,
    TailN(u64),
    TailAll,
    LookUp,
    Unhandled,
}

// Request lines are ASCII byte sequences.
pub open spec fn method_post() -> Seq<u8> {
    seq![0x50u8, 0x4Fu8, 0x53u8, 0x54u8]
}

pub open spec fn method_get() -> Seq<u8> {
    seq![0x47u8, 0x45u8, 0x54u8]
}

/// `/publish`
pub open spec fn path_publish() -> Seq<u8> {
    seq![0x2Fu8, 0x70u8, 0x75u8, 0x62u8, 0x6Cu8, 0x69u8, 0x73u8, 0x68u8]
}

/// `/tail`
pub open spec fn path_tail() -> Seq<u8> {
    seq![0x2Fu8, 0x74u8, 0x61u8, 0x69u8, 0x6Cu8]
}

/// `/tail_`
pub open spec fn path_tail_prefix() -> Seq<u8> {
    seq![0x2Fu8, 0x74u8, 0x61u8, 0x69u8, 0x6Cu8, 0x5Fu8]
}

/// `all`
pub open spec fn word_all() -> Seq<u8> {
    seq![0x61u8, 0x6Cu8, 0x6Cu8]
}

/// `/look_up`
pub open spec fn path_look_up() -> Seq<u8> {
    seq![0x2Fu8, 0x6Cu8, 0x6Fu8, 0x6Fu8, 0x6Bu8, 0x5Fu8, 0x75u8, 0x70u8]
}

/// Which endpoint a method and path name.
pub open spec fn spec_route(m: Seq<u8>, p: Seq<u8>) -> Endpoint {
    if m == method_post() && p == path_publish() {
        Endpoint::Publish
    } else if m == method_post() && p == path_look_up() {
        Endpoint::LookUp
    } else if m == method_get() && p == path_tail() {
        Endpoint::Tail
    } else if m == method_get() && p.len() > path_tail_prefix().len() && p.subrange(
        0,
        path_tail_prefix().len() as int,
    ) == path_tail_prefix() {
        let arg = p.skip(path_tail_prefix().len() as int);
        if arg == word_all() {
            Endpoint::TailAll
        } else {
            match crate::digits::spec_parse_nat(p, path_tail_prefix().len() as int, u64::MAX as int) {
                Some((v, j)) => if j == p.len() {
                    Endpoint::TailN(v as u64)
                } else {
                    Endpoint::Unhandled
                },
                None => Endpoint::Unhandled,
            }
        }
    } else {
        Endpoint::Unhandled
    }
}

/// Asking for the whole log is recognized, not dropped: the `all`
/// argument routes to its own endpoint, which the dispatcher answers
/// with the not-implemented status and leaves the log unchanged. A
/// count that is neither `all` nor a canonical numeral routes to the
/// unhandled endpoint and is answered as malformed.
pub proof fn lemma_route_tail_all()
    ensures
        spec_route(method_get(), path_tail_prefix() + word_all()) == Endpoint::TailAll,
{
    let p = path_tail_prefix() + word_all();
    assert(p.len() == 9);
    assert(p.subrange(0, path_tail_prefix().len() as int) =~= path_tail_prefix());
    assert(p.skip(path_tail_prefix().len() as int) =~= word_all());
    assert(method_get() != method_post()) by {
        assert(method_get().len() != method_post().len());
    }
    assert(p != path_tail()) by {
        assert(p.len() != path_tail().len());
    }
}

fn bytes_eq(a: &[u8], b: &[u8]) -> (r: bool)
    ensures
        r == (a@ == b@),
{
    if a.len() != b.len() {
        proof {
            assert(a@.len() != b@.len());
        }
        return false;
    }
    let n = a.len();
    let mut i: usize = 0;
    while i < n
        invariant
            i <= n,
            n == a@.len(),
            n == b@.len(),
            forall|k: int| 0 <= k < i ==> a@[k] == b@[k],
        decreases n - i,
    {
        if a[i] != b[i] {
            return false;
        }
        i = i + 1;
    }
    proof {
        assert(a@ =~= b@);
    }
    true
}

fn path_tail_prefix_vec() -> (v: Vec<u8>)
    ensures
        v@ == path_tail_prefix(),
{
    let mut v: Vec<u8> = Vec::new();
    v.push(0x2F);
    v.push(0x74);
    v.push(0x61);
    v.push(0x69);
    v.push(0x6C);
    v.push(0x5F);
    proof {
        assert(v@ =~= path_tail_prefix());
    }
    v
}

/// Routes a request line's method and path to an endpoint.
pub fn route(method: &[u8], path: &Vec<u8>) -> (r: Endpoint)
    ensures
        r == spec_route(method@, path@),
{
    let post: [u8; 4] = [0x50, 0x4F, 0x53, 0x54];
    let get: [u8; 3] = [0x47, 0x45, 0x54];
    let publish: [u8; 8] = [0x2F, 0x70, 0x75, 0x62, 0x6C, 0x69, 0x73, 0x68];
    let look_up: [u8; 8] = [0x2F, 0x6C, 0x6F, 0x6F, 0x6B, 0x5F, 0x75, 0x70];
    let tail: [u8; 5] = [0x2F, 0x74, 0x61, 0x69, 0x6C];
    let all: [u8; 3] = [0x61, 0x6C, 0x6C];
    proof {
        assert(post@ =~= method_post());
        assert(get@ =~= method_get());
        assert(publish@ =~= path_publish());
        assert(look_up@ =~= path_look_up());
        assert(tail@ =~= path_tail());
        assert(all@ =~= word_all());
    }
    let is_post = bytes_eq(method, post.as_slice());
    let is_get = bytes_eq(method, get.as_slice());
    if is_post && bytes_eq(path.as_slice(), publish.as_slice()) {
        Endpoint::Publish
    } else if is_post && bytes_eq(path.as_slice(), look_up.as_slice()) {
        Endpoint::LookUp
    } else if is_get && bytes_eq(path.as_slice(), tail.as_slice()) {
        Endpoint::Tail
    } else {
        let pre = path_tail_prefix_vec();
        if is_get && path.len() > pre.len() {
            let head = vstd::slice::slice_subrange(path.as_slice(), 0, pre.len());
            if bytes_eq(head, pre.as_slice()) {
                let arg = vstd::slice::slice_subrange(path.as_slice(), pre.len(), path.len());
                if bytes_eq(arg, all.as_slice()) {
                    proof {
                        assert(path@.skip(path_tail_prefix().len() as int) == word_all());
                    }
                    Endpoint::TailAll
                } else {
                    proof {
                        assert(path@.skip(path_tail_prefix().len() as int) != word_all());
                    }
                    match crate::digits::parse_nat_run(path, pre.len(), u64::MAX) {
                        Some((v, j)) => {
                            if j == path.len() {
                                Endpoint::TailN(v)
                            } else {
                                Endpoint::Unhandled
                            }
                        }
                        None => Endpoint::Unhandled,
                    }
                }
            } else {
                proof {
                    assert(path@.subrange(0, path_tail_prefix().len() as int) != path_tail_prefix());
                }
                Endpoint::Unhandled
            }
        } else {
            Endpoint::Unhandled
        }
    }
}

// ---------------------------------------------------------------------
// Request bodies. A body is an exact byte frame: the fields in a fixed
// order, no whitespace, each value a quote-delimited run of bytes that
// hold no quote. This frame is the wire syntax: JSON emitters that
// reorder fields or insert whitespace are rejected as malformed.
// ---------------------------------------------------------------------

/// `{"reid":"`
pub open spec fn lit_body_reid() -> Seq<u8> {
    seq![
        0x7Bu8,
        0x22u8,
        0x72u8,
        0x65u8,
        0x69u8,
        0x64u8,
        0x22u8,
        0x3Au8,
        0x22u8,
    ]
}

/// `","pubk":"`
pub open spec fn lit_body_pubk() -> Seq<u8> {
    seq![
        0x22u8,
        0x2Cu8,
        0x22u8,
        0x70u8,
        0x75u8,
        0x62u8,
        0x6Bu8,
        0x22u8,
        0x3Au8,
        0x22u8,
    ]
}

/// `"}`
pub open spec fn lit_body_end() -> Seq<u8> {
    seq![0x22u8, 0x7Du8]
}

/// `{"id_b64":"`
pub open spec fn lit_body_id() -> Seq<u8> {
    seq![
        0x7Bu8,
        0x22u8,
        0x69u8,
        0x64u8,
        0x5Fu8,
        0x62u8,
        0x36u8,
        0x34u8,
        0x22u8,
        0x3Au8,
        0x22u8,
    ]
}

/// Where the quoted run starting at `i` ends: the first quote at or
/// after `i`.
pub open spec fn quote_end(s: Seq<u8>, i: int) -> int
    decreases s.len() - i,
{
    if 0 <= i && i < s.len() && s[i] != 0x22 {
        quote_end(s, i + 1)
    } else {
        i
    }
}

pub proof fn lemma_quote_end(s: Seq<u8>, i: int)
    requires
        0 <= i <= s.len(),
    ensures
        i <= quote_end(s, i) <= s.len(),
        forall|k: int| i <= k < quote_end(s, i) ==> #[trigger] s[k] != 0x22,
        quote_end(s, i) == s.len() || s[quote_end(s, i)] == 0x22,
    decreases s.len() - i,
{
    if i < s.len() && s[i] != 0x22 {
        lemma_quote_end(s, i + 1);
    }
}

pub proof fn lemma_quote_end_exact(s: Seq<u8>, i: int, j: int)
    requires
        0 <= i <= j <= s.len(),
        forall|k: int| i <= k < j ==> #[trigger] s[k] != 0x22,
        j == s.len() || s[j] == 0x22,
    ensures
        quote_end(s, i) == j,
    decreases j - i,
{
    if i < j {
        lemma_quote_end_exact(s, i + 1, j);
    }
}

/// Parses a quoted value: the bytes up to the next quote, which is
/// consumed.
pub open spec fn parse_quoted(s: Seq<u8>, i: int) -> Option<(Seq<u8>, int)> {
    let j = quote_end(s, i);
    if j < s.len() {
        Some((s.subrange(i, j), j + 1))
    } else {
        None
    }
}

/// The publish body: the record's wire form and the base64 PEM of the
/// public key, neither of which can hold a quote.
pub open spec fn publish_body_of(reid_b64: Seq<u8>, pubk_b64: Seq<u8>) -> Seq<u8> {
    lit_body_reid() + reid_b64 + lit_body_pubk() + pubk_b64 + lit_body_end()
}

/// The lookup body: the base64 of the id looked for.
pub open spec fn lookup_body_of(id_b64: Seq<u8>) -> Seq<u8> {
    lit_body_id() + id_b64 + lit_body_end()
}

pub open spec fn quote_free(s: Seq<u8>) -> bool {
    forall|k: int| 0 <= k < s.len() ==> #[trigger] s[k] != 0x22
}

/// Parses a publish body.
pub open spec fn spec_parse_publish_body(s: Seq<u8>) -> Option<(Seq<u8>, Seq<u8>)> {
    match crate::codec::spec_match_lit(s, 0, lit_body_reid()) {
        None => None,
        Some(i1) => match parse_quoted(s, i1) {
            None => None,
            Some((reid_b64, i2)) => match crate::codec::spec_match_lit(
                s,
                i2 - 1,
                lit_body_pubk(),
            ) {
                None => None,
                Some(i3) => match parse_quoted(s, i3) {
                    None => None,
                    Some((pubk_b64, i4)) => match crate::codec::spec_match_lit(
                        s,
                        i4 - 1,
                        lit_body_end(),
                    ) {
                        None => None,
                        Some(i5) => if i5 == s.len() {
                            Some((reid_b64, pubk_b64))
                        } else {
                            None
                        },
                    },
                },
            },
        },
    }
}

/// Parses a lookup body.
pub open spec fn spec_parse_lookup_body(s: Seq<u8>) -> Option<Seq<u8>> {
    match crate::codec::spec_match_lit(s, 0, lit_body_id()) {
        None => None,
        Some(i1) => match parse_quoted(s, i1) {
            None => None,
            Some((id_b64, i2)) => match crate::codec::spec_match_lit(s, i2 - 1, lit_body_end()) {
                None => None,
                Some(i3) => if i3 == s.len() {
                    Some(id_b64)
                } else {
                    None
                },
            },
        },
    }
}

/// Building a publish body and parsing it gives the fields back, as long
/// as neither holds a quote.
pub proof fn lemma_publish_body_round_trip(reid_b64: Seq<u8>, pubk_b64: Seq<u8>)
    requires
        quote_free(reid_b64),
        quote_free(pubk_b64),
    ensures
        spec_parse_publish_body(publish_body_of(reid_b64, pubk_b64)) == Some(
            (reid_b64, pubk_b64),
        ),
{
    let s = publish_body_of(reid_b64, pubk_b64);
    let g1 = lit_body_reid();
    let g3 = lit_body_pubk();
    let g5 = lit_body_end();
    let i1 = g1.len() as int;
    let j1 = i1 + reid_b64.len() as int;
    let i3 = j1 + g3.len() as int;
    let j2 = i3 + pubk_b64.len() as int;
    assert(s.subrange(0, i1) =~= g1);
    assert(forall|k: int| i1 <= k < j1 ==> #[trigger] s[k] == reid_b64[k - i1]);
    assert(s[j1] == 0x22);
    lemma_quote_end_exact(s, i1, j1);
    assert(s.subrange(i1, j1) =~= reid_b64);
    assert(s.subrange(j1, i3) =~= g3);
    assert(forall|k: int| i3 <= k < j2 ==> #[trigger] s[k] == pubk_b64[k - i3]);
    assert(s[j2] == 0x22);
    lemma_quote_end_exact(s, i3, j2);
    assert(s.subrange(i3, j2) =~= pubk_b64);
    assert(s.subrange(j2, j2 + 2) =~= g5);
}

/// Building a lookup body and parsing it gives the field back.
pub proof fn lemma_lookup_body_round_trip(id_b64: Seq<u8>)
    requires
        quote_free(id_b64),
    ensures
        spec_parse_lookup_body(lookup_body_of(id_b64)) == Some(id_b64),
{
    let s = lookup_body_of(id_b64);
    let g1 = lit_body_id();
    let g3 = lit_body_end();
    let i1 = g1.len() as int;
    let j1 = i1 + id_b64.len() as int;
    assert(s.subrange(0, i1) =~= g1);
    assert(forall|k: int| i1 <= k < j1 ==> #[trigger] s[k] == id_b64[k - i1]);
    assert(s[j1] == 0x22);
    lemma_quote_end_exact(s, i1, j1);
    assert(s.subrange(i1, j1) =~= id_b64);
    assert(s.subrange(j1, j1 + 2) =~= g3);
}

/// Parses a quoted value: the bytes up to the next quote.
fn parse_quoted_exec(s: &Vec<u8>, i: usize) -> (r: Option<(Vec<u8>, usize)>)
    requires
        i <= s@.len(),
    ensures
        match r {
            Some((v, j)) => parse_quoted(s@, i as int) == Some((v@, j as int)) && i < j
                <= s@.len(),
            None => parse_quoted(s@, i as int) is None,
        },
{
    let len = s.len();
    let mut pos = i;
    while pos < len && s[pos] != 0x22
        invariant
            i <= pos <= len,
            len == s@.len(),
            quote_end(s@, i as int) == quote_end(s@, pos as int),
        decreases len - pos,
    {
        pos = pos + 1;
    }
    proof {
        assert(quote_end(s@, pos as int) == pos);
    }
    if pos < len {
        let v = vstd::slice::slice_to_vec(
            vstd::slice::slice_subrange(s.as_slice(), i, pos),
        );
        Some((v, pos + 1))
    } else {
        None
    }
}

fn lit_body_reid_vec() -> (v: Vec<u8>)
    ensures
        v@ == lit_body_reid(),
{
    let mut v: Vec<u8> = Vec::new();
    v.push(0x7B);
    v.push(0x22);
    v.push(0x72);
    v.push(0x65);
    v.push(0x69);
    v.push(0x64);
    v.push(0x22);
    v.push(0x3A);
    v.push(0x22);
    proof {
        assert(v@ =~= lit_body_reid());
    }
    v
}

fn lit_body_pubk_vec() -> (v: Vec<u8>)
    ensures
        v@ == lit_body_pubk(),
{
    let mut v: Vec<u8> = Vec::new();
    v.push(0x22);
    v.push(0x2C);
    v.push(0x22);
    v.push(0x70);
    v.push(0x75);
    v.push(0x62);
    v.push(0x6B);
    v.push(0x22);
    v.push(0x3A);
    v.push(0x22);
    proof {
        assert(v@ =~= lit_body_pubk());
    }
    v
}

fn lit_body_end_vec() -> (v: Vec<u8>)
    ensures
        v@ == lit_body_end(),
{
    let mut v: Vec<u8> = Vec::new();
    v.push(0x22);
    v.push(0x7D);
    proof {
        assert(v@ =~= lit_body_end());
    }
    v
}

fn lit_body_id_vec() -> (v: Vec<u8>)
    ensures
        v@ == lit_body_id(),
{
    let mut v: Vec<u8> = Vec::new();
    v.push(0x7B);
    v.push(0x22);
    v.push(0x69);
    v.push(0x64);
    v.push(0x5F);
    v.push(0x62);
    v.push(0x36);
    v.push(0x34);
    v.push(0x22);
    v.push(0x3A);
    v.push(0x22);
    proof {
        assert(v@ =~= lit_body_id());
    }
    v
}

fn match_lit_wire(s: &Vec<u8>, i: usize, l: &Vec<u8>) -> (r: Option<usize>)
    requires
        i <= s@.len(),
    ensures
        match r {
            Some(j) => crate::codec::spec_match_lit(s@, i as int, l@) == Some(j as int) && i <= j
                <= s@.len(),
            None => crate::codec::spec_match_lit(s@, i as int, l@) is None,
        },
{
    let ll = l.len();
    let len = s.len();
    if ll > len - i {
        return None;
    }
    let mut k: usize = 0;
    while k < ll
        invariant
            0 <= k <= ll,
            ll == l@.len(),
            len == s@.len(),
            i + ll <= len,
            forall|p: int| 0 <= p < k ==> s@[i + p] == l@[p],
        decreases ll - k,
    {
        if s[i + k] != l[k] {
            proof {
                assert(s@.subrange(i as int, i + ll)[k as int] == s@[i + k]);
                assert(s@.subrange(i as int, i + ll) != l@);
            }
            return None;
        }
        k = k + 1;
    }
    proof {
        assert(s@.subrange(i as int, i + ll) =~= l@);
    }
    Some(i + ll)
}

/// Parses the publish frame: the two quoted fields, with the whole body
/// consumed.
fn parse_publish_frame(body: &Vec<u8>) -> (r: Option<(Vec<u8>, Vec<u8>)>)
    ensures
        match r {
            Some((rb, pk)) => spec_parse_publish_body(body@) == Some((rb@, pk@)),
            None => spec_parse_publish_body(body@) is None,
        },
{
    let l1 = lit_body_reid_vec();
    let i1 = match match_lit_wire(body, 0, &l1) {
        None => {
            return None;
        }
        Some(p) => p,
    };
    let (rb, i2) = match parse_quoted_exec(body, i1) {
        None => {
            return None;
        }
        Some(p) => p,
    };
    let l2 = lit_body_pubk_vec();
    let i3 = match match_lit_wire(body, i2 - 1, &l2) {
        None => {
            return None;
        }
        Some(p) => p,
    };
    let (pk, i4) = match parse_quoted_exec(body, i3) {
        None => {
            return None;
        }
        Some(p) => p,
    };
    let l3 = lit_body_end_vec();
    let i5 = match match_lit_wire(body, i4 - 1, &l3) {
        None => {
            return None;
        }
        Some(p) => p,
    };
    if i5 != body.len() {
        return None;
    }
    Some((rb, pk))
}

/// Parses the publish body: the record is decoded from its wire form,
/// the submitted key stays as quoted text (base64 PEM, or raw PEM).
/// Succeeds on every body that frames the wire form of a well-formed
/// record and a quote-free key field.
#[verifier::rlimit(100)]
#[verifier::spinoff_prover]
pub fn parse_publish_body(body: &Vec<u8>) -> (r: Option<ReidMessage>)
    ensures
        match r {
            Some(msg) => match spec_parse_publish_body(body@) {
                Some((rb, pk)) => {
                    &&& vstd::utf8::valid_utf8(rb)
                    &&& vstd::utf8::valid_utf8(pk)
                    &&& crate::codec::parse_record(
                        b64_dec_of(vstd::utf8::decode_utf8(rb)),
                    ) == Some(msg.reid@)
                    &&& storable(msg.reid@)
                    &&& msg.pub_key@ == vstd::utf8::decode_utf8(pk)
                },
                None => false,
            },
            None => true,
        },
        forall|rb: Seq<u8>, pk: Seq<u8>|
            #![trigger publish_body_of(rb, pk)]
            {
                &&& body@ == publish_body_of(rb, pk)
                &&& quote_free(rb)
                &&& quote_free(pk)
                &&& vstd::utf8::valid_utf8(rb)
                &&& vstd::utf8::valid_utf8(pk)
                &&& rb.len() <= MAX_B64_LEN
                &&& exists|rv: ReidV|
                    rv.wf() && vstd::utf8::decode_utf8(rb) == crate::crypto::b64_of(json_of(rv))
            } ==> r is Some,
{
    let (rb, pk) = match parse_publish_frame(body) {
        None => {
            proof {
                assert forall|rb: Seq<u8>, pk: Seq<u8>|
                    body@ == publish_body_of(rb, pk) && quote_free(rb) && quote_free(
                        pk,
                    ) implies false by {
                    lemma_publish_body_round_trip(rb, pk);
                }
            }
            return None;
        }
        Some(p) => p,
    };
    proof {
        assert forall|rb0: Seq<u8>, pk0: Seq<u8>|
            body@ == publish_body_of(rb0, pk0) && quote_free(rb0) && quote_free(
                pk0,
            ) implies rb0 == rb@ && pk0 == pk@ by {
            lemma_publish_body_round_trip(rb0, pk0);
        }
    }
    let reid_b64 = match crate::crypto::string_from_utf8(rb) {
        None => {
            return None;
        }
        Some(t) => t,
    };
    let pub_key = match crate::crypto::string_from_utf8(pk) {
        None => {
            return None;
        }
        Some(t) => t,
    };
    if reid_b64.as_str().as_bytes().len() > MAX_B64_LEN {
        proof {
            vstd::utf8::decode_utf8_encode_utf8(rb@);
        }
        return None;
    }
    proof {
        vstd::utf8::decode_utf8_encode_utf8(rb@);
    }
    let reid = match Reid::decode(reid_b64.as_str()) {
        None => {
            return None;
        }
        Some(rec) => rec,
    };
    Some(ReidMessage { reid, pub_key })
}

/// Parses the lookup frame: the quoted id field, with the whole body
/// consumed.
fn parse_lookup_frame(body: &Vec<u8>) -> (r: Option<Vec<u8>>)
    ensures
        match r {
            Some(ib) => spec_parse_lookup_body(body@) == Some(ib@),
            None => spec_parse_lookup_body(body@) is None,
        },
{
    let l1 = lit_body_id_vec();
    let i1 = match match_lit_wire(body, 0, &l1) {
        None => {
            return None;
        }
        Some(p) => p,
    };
    let (ib, i2) = match parse_quoted_exec(body, i1) {
        None => {
            return None;
        }
        Some(p) => p,
    };
    let l3 = lit_body_end_vec();
    let i3 = match match_lit_wire(body, i2 - 1, &l3) {
        None => {
            return None;
        }
        Some(p) => p,
    };
    if i3 != body.len() {
        return None;
    }
    Some(ib)
}

/// Parses the lookup body into its base64 id field. Succeeds on every
/// body that frames a quote-free field of valid UTF-8.
pub fn parse_lookup_body(body: &Vec<u8>) -> (r: Option<IdMessage>)
    ensures
        match r {
            Some(msg) => match spec_parse_lookup_body(body@) {
                Some(ib) => vstd::utf8::valid_utf8(ib) && msg.id_b64@ == vstd::utf8::decode_utf8(
                    ib,
                ),
                None => false,
            },
            None => true,
        },
        forall|ib: Seq<u8>|
            #![trigger lookup_body_of(ib)]
            {
                &&& body@ == lookup_body_of(ib)
                &&& quote_free(ib)
                &&& vstd::utf8::valid_utf8(ib)
            } ==> r is Some,
{
    let ib = match parse_lookup_frame(body) {
        None => {
            proof {
                assert forall|ib0: Seq<u8>|
                    body@ == lookup_body_of(ib0) && quote_free(ib0) implies false by {
                    lemma_lookup_body_round_trip(ib0);
                }
            }
            return None;
        }
        Some(p) => p,
    };
    proof {
        assert forall|ib0: Seq<u8>|
            body@ == lookup_body_of(ib0) && quote_free(ib0) implies ib0 == ib@ by {
            lemma_lookup_body_round_trip(ib0);
        }
    }
    match crate::crypto::string_from_utf8(ib) {
        None => None,
        Some(t) => Some(IdMessage { id_b64: t }),
    }
}

// ---------------------------------------------------------------------
// The per-request decisions.
// ---------------------------------------------------------------------

/// What the dispatcher answers; each variant maps onto one entry of the
/// status vocabulary.
#[derive(Debug, PartialEq, Eq)]
pub enum Reply {
    /// The record was verified and appended.
    Accepted,
    /// The signature did not check, or the key does not hash to the id.
    RejectedSignature,
    /// The submitted public key could not be decoded.
    MalformedKey,
    /// A cryptographic call reported an internal error.
    Internal,
    /// The tail of the log.
    TailRecord(Reid),
    /// The log is empty.
    NoContent,
    /// The last entries, oldest to newest.
    Records(Vec<Reid>),
    /// Serving the whole log is explicitly unsupported.
    NotImplemented,
    /// The latest record with the looked-up id.
    Found(Reid),
    /// No record carries the looked-up id.
    NotFound,
    /// The request matched no endpoint or its body did not parse.
    Malformed,
}

/// Verifies a publish: the submitted PEM public key must decode, hash to
/// the record's id and verify its signature; only then is the record
/// appended. Nothing is ever appended on a failed publish.
pub fn publish(log: &mut Log, reid: Reid, pem: &Vec<u8>) -> (r: Reply)
    requires
        old(log).wf(),
        storable(reid@),
    ensures
        final(log).wf(),
        final(log).spec_path() == old(log).spec_path(),
        final(log).spec_flushed() == old(log).spec_flushed(),
        match r {
            Reply::Accepted => match pem_pubkey_of(pem@) {
                Some(k) => sha256_of(k) == reid@.id && spec_verify(reid@, k) && final(log).spec_entries() == old(log).spec_entries().push(reid@),
                None => false,
            },
            Reply::MalformedKey => pem_pubkey_of(pem@) is None && final(log).spec_entries()
                == old(log).spec_entries(),
            Reply::RejectedSignature => match pem_pubkey_of(pem@) {
                Some(k) => (sha256_of(k) != reid@.id || !spec_verify(reid@, k)) && final(log).spec_entries() == old(log).spec_entries(),
                None => false,
            },
            Reply::Internal => final(log).spec_entries() == old(log).spec_entries(),
            _ => false,
        },
        // an undecodable key is answered with exactly the malformed-key
        // status, and the internal-error escape is confined to a failure
        // of the digest call, after the key has decoded
        pem_pubkey_of(pem@) is None <==> r is MalformedKey,
        r is Internal ==> pem_pubkey_of(pem@) is Some,
        // a key that decodes, hashes to the id and verifies is owed
        // acceptance, unless the digest call itself failed
        match pem_pubkey_of(pem@) {
            Some(k) => (sha256_of(k) == reid@.id && spec_verify(reid@, k)) ==> (r is Accepted
                || r is Internal),
            None => true,
        },
{
    let pk = match PublicKey::from_pem(pem) {
        None => {
            return Reply::MalformedKey;
        }
        Some(k) => k,
    };
    let digest = match crate::crypto::sha256(pk.as_bytes()) {
        None => {
            return Reply::Internal;
        }
        Some(d) => d,
    };
    if !crate::common::id_equal(digest, reid.get_id()) {
        return Reply::RejectedSignature;
    }
    if !reid.verify_sig(&pk) {
        return Reply::RejectedSignature;
    }
    log.append(reid);
    Reply::Accepted
}

/// Serves the tail of the log, or reports that it is empty.
pub fn tail(log: &Log) -> (r: Reply)
    ensures
        match r {
            Reply::TailRecord(rec) => log.spec_entries().len() > 0 && rec@ == log.spec_entries().last(),
            Reply::NoContent => log.spec_entries().len() == 0,
            _ => false,
        },
{
    match log.tail() {
        None => Reply::NoContent,
        Some(rec) => Reply::TailRecord(rec.clone()),
    }
}

/// Serves the last `n` entries, oldest to newest within the slice.
pub fn tail_num(log: &Log, n: u64) -> (r: Reply)
    ensures
        match r {
            Reply::Records(v) => v@.map_values(|x: Reid| x@) == log.spec_entries().skip(
                if n <= log.spec_entries().len() {
                    log.spec_entries().len() - n
                } else {
                    0
                },
            ),
            _ => false,
        },
{
    let len = log.len();
    let m: usize = if n < len as u64 {
        n as usize
    } else {
        len
    };
    let v = log.tailn(m);
    proof {
        if n <= log.spec_entries().len() {
            assert(m as int == n as int);
        } else {
            assert(m as int == log.spec_entries().len());
        }
    }
    Reply::Records(v)
}

/// Looks up the most recent record with the given id.
pub fn lookup(log: &Log, id: &Vec<u8>) -> (r: Reply)
    ensures
        match r {
            Reply::Found(rec) => exists|i: int|
                0 <= i < log.spec_entries().len() && rec@ == log.spec_entries()[i] && rec@.id
                    == id@ && forall|j: int|
                    i < j < log.spec_entries().len() ==> (#[trigger] log.spec_entries()[j]).id
                        != id@,
            Reply::NotFound => forall|j: int|
                0 <= j < log.spec_entries().len() ==> (#[trigger] log.spec_entries()[j]).id
                    != id@,
            _ => false,
        },
{
    match log.search_id(id) {
        None => Reply::NotFound,
        Some(rec) => Reply::Found(rec.clone()),
    }
}

/// A parsed request: one tagged variant per endpoint, matched
/// exhaustively by the dispatcher, with an explicit unhandled variant.
#[derive(Debug, PartialEq, Eq)]
pub enum Request {
    Publish(Reid, Vec<u8>),
    Tail,
    TailN(u64),
    TailAll,
    LookUp(Vec<u8>),
    Unhandled,
}

/// Reads a publish body into a request. `None` means the body was
/// malformed; the key field is taken as base64 PEM when it decodes as
/// base64, and as raw PEM text otherwise.
#[verifier::rlimit(100)]
#[verifier::spinoff_prover]
fn read_publish_request(body: &Vec<u8>) -> (r: Option<Request>)
    ensures
        match r {
            Some(req) => match req {
                Request::Publish(rec, pem) => storable(rec@) && exists|rb: Seq<u8>, pk: Seq<u8>|
                    {
                        &&& #[trigger] spec_parse_publish_body(body@) == Some((rb, pk))
                        &&& vstd::utf8::valid_utf8(rb)
                        &&& vstd::utf8::valid_utf8(pk)
                        &&& crate::codec::parse_record(
                            b64_dec_of(vstd::utf8::decode_utf8(rb)),
                        ) == Some(rec@)
                        &&& (pem@ == b64_dec_of(vstd::utf8::decode_utf8(pk)) || pem@ == pk)
                    },
                _ => false,
            },
            None => true,
        },
        forall|rb: Seq<u8>, pk: Seq<u8>|
            #![trigger publish_body_of(rb, pk)]
            {
                &&& body@ == publish_body_of(rb, pk)
                &&& quote_free(rb)
                &&& quote_free(pk)
                &&& vstd::utf8::valid_utf8(rb)
                &&& vstd::utf8::valid_utf8(pk)
                &&& rb.len() <= MAX_B64_LEN
                &&& exists|rv: ReidV|
                    rv.wf() && vstd::utf8::decode_utf8(rb) == crate::crypto::b64_of(json_of(rv))
            } ==> r is Some,
{
    let msg = match parse_publish_body(body) {
        None => {
            return None;
        }
        Some(m) => m,
    };
    proof {
        let (rb, pk) = spec_parse_publish_body(body@)->Some_0;
        vstd::utf8::decode_utf8_encode_utf8(pk);
    }
    let pem: Vec<u8> = if msg.pub_key.as_str().as_bytes().len() <= MAX_B64_LEN {
        match crate::crypto::b64_decode(msg.pub_key.as_str()) {
            Some(p) => p,
            None => {
                // not base64: take the field as raw PEM text
                vstd::slice::slice_to_vec(msg.pub_key.as_str().as_bytes())
            }
        }
    } else {
        vstd::slice::slice_to_vec(msg.pub_key.as_str().as_bytes())
    };
    Some(Request::Publish(msg.reid, pem))
}

/// Reads a lookup body into a request. `None` means the body was
/// malformed or the id field was not base64.
#[verifier::rlimit(100)]
#[verifier::spinoff_prover]
fn read_lookup_request(body: &Vec<u8>) -> (r: Option<Request>)
    ensures
        match r {
            Some(req) => match req {
                Request::LookUp(id) => exists|ib: Seq<u8>|
                    {
                        &&& #[trigger] spec_parse_lookup_body(body@) == Some(ib)
                        &&& vstd::utf8::valid_utf8(ib)
                        &&& id@ == b64_dec_of(vstd::utf8::decode_utf8(ib))
                    },
                _ => false,
            },
            None => true,
        },
        forall|ib: Seq<u8>|
            #![trigger lookup_body_of(ib)]
            {
                &&& body@ == lookup_body_of(ib)
                &&& quote_free(ib)
                &&& vstd::utf8::valid_utf8(ib)
                &&& ib.len() <= MAX_B64_LEN
                &&& exists|x: Seq<u8>| vstd::utf8::decode_utf8(ib) == crate::crypto::b64_of(x)
            } ==> r is Some,
{
    let msg = match parse_lookup_body(body) {
        None => {
            return None;
        }
        Some(m) => m,
    };
    proof {
        let ib0 = spec_parse_lookup_body(body@)->Some_0;
        vstd::utf8::decode_utf8_encode_utf8(ib0);
    }
    if msg.id_b64.as_str().as_bytes().len() > MAX_B64_LEN {
        proof {
            assert forall|ib: Seq<u8>|
                body@ == lookup_body_of(ib) && quote_free(ib) implies ib
                == spec_parse_lookup_body(body@)->Some_0 by {
                lemma_lookup_body_round_trip(ib);
            }
        }
        return None;
    }
    let id = match crate::crypto::b64_decode(msg.id_b64.as_str()) {
        None => {
            proof {
                assert forall|ib: Seq<u8>|
                    body@ == lookup_body_of(ib) && quote_free(ib) implies ib
                    == spec_parse_lookup_body(body@)->Some_0 by {
                    lemma_lookup_body_round_trip(ib);
                }
            }
            return None;
        }
        Some(p) => p,
    };
    Some(Request::LookUp(id))
}

/// Reads a routed request's body into a request value. `None` means the
/// body was malformed for that endpoint; a publish body must carry the
/// wire form of a record and the PEM of a key — either base64-encoded or
/// raw — and a lookup body the base64 of an id.
pub fn read_request(ep: Endpoint, body: &Vec<u8>) -> (r: Option<Request>)
    ensures
        match r {
            Some(req) => match req {
                Request::Publish(rec, pem) => ep is Publish && storable(rec@) && exists|
                    rb: Seq<u8>,
                    pk: Seq<u8>,
                |
                    {
                        &&& #[trigger] spec_parse_publish_body(body@) == Some((rb, pk))
                        &&& vstd::utf8::valid_utf8(rb)
                        &&& vstd::utf8::valid_utf8(pk)
                        &&& crate::codec::parse_record(
                            b64_dec_of(vstd::utf8::decode_utf8(rb)),
                        ) == Some(rec@)
                        &&& (pem@ == b64_dec_of(vstd::utf8::decode_utf8(pk)) || pem@ == pk)
                    },
                Request::LookUp(id) => ep is LookUp && exists|ib: Seq<u8>|
                    {
                        &&& #[trigger] spec_parse_lookup_body(body@) == Some(ib)
                        &&& vstd::utf8::valid_utf8(ib)
                        &&& id@ == b64_dec_of(vstd::utf8::decode_utf8(ib))
                    },
                Request::Tail => ep is Tail,
                Request::TailN(n) => ep matches Endpoint::TailN(m) && n == m,
                Request::TailAll => ep is TailAll,
                Request::Unhandled => ep is Unhandled,
            },
            None => ep is Publish || ep is LookUp,
        },
        forall|rb: Seq<u8>, pk: Seq<u8>|
            #![trigger publish_body_of(rb, pk)]
            {
                &&& ep is Publish
                &&& body@ == publish_body_of(rb, pk)
                &&& quote_free(rb)
                &&& quote_free(pk)
                &&& vstd::utf8::valid_utf8(rb)
                &&& vstd::utf8::valid_utf8(pk)
                &&& rb.len() <= MAX_B64_LEN
                &&& exists|rv: ReidV|
                    rv.wf() && vstd::utf8::decode_utf8(rb) == crate::crypto::b64_of(json_of(rv))
            } ==> r is Some,
        forall|ib: Seq<u8>|
            #![trigger lookup_body_of(ib)]
            {
                &&& ep is LookUp
                &&& body@ == lookup_body_of(ib)
                &&& quote_free(ib)
                &&& vstd::utf8::valid_utf8(ib)
                &&& ib.len() <= MAX_B64_LEN
                &&& exists|x: Seq<u8>| vstd::utf8::decode_utf8(ib) == crate::crypto::b64_of(x)
            } ==> r is Some,
{
    match ep {
        Endpoint::Publish => read_publish_request(body),
        Endpoint::LookUp => read_lookup_request(body),
        Endpoint::Tail => Some(Request::Tail),
        Endpoint::TailN(n) => Some(Request::TailN(n)),
        Endpoint::TailAll => Some(Request::TailAll),
        Endpoint::Unhandled => Some(Request::Unhandled),
    }
}

/// The per-request decision: from the state of the log and a parsed
/// request to the next state and the reply. A failed publish never
/// changes the log; reads never change it; serving the whole log is
/// explicitly not implemented.
pub fn handle_request(log: &mut Log, req: Request) -> (r: Reply)
    requires
        old(log).wf(),
        match req {
            Request::Publish(reid, _) => storable(reid@),
            _ => true,
        },
    ensures
        final(log).wf(),
        final(log).spec_path() == old(log).spec_path(),
        final(log).spec_flushed() == old(log).spec_flushed(),
        !(r is Accepted) ==> final(log).spec_entries() == old(log).spec_entries(),
        match req {
            Request::Publish(reid, pem) => {
                &&& (r is Accepted || r is RejectedSignature || r is MalformedKey
                    || r is Internal)
                &&& (r is Accepted ==> match pem_pubkey_of(pem@) {
                    Some(k) => sha256_of(k) == reid@.id && spec_verify(reid@, k) && final(log).spec_entries() == old(log).spec_entries().push(reid@),
                    None => false,
                })
                &&& (pem_pubkey_of(pem@) is None <==> r is MalformedKey)
                &&& (r is RejectedSignature ==> match pem_pubkey_of(pem@) {
                    Some(k) => sha256_of(k) != reid@.id || !spec_verify(reid@, k),
                    None => false,
                })
                &&& (r is Internal ==> pem_pubkey_of(pem@) is Some)
                &&& (match pem_pubkey_of(pem@) {
                    Some(k) => (sha256_of(k) == reid@.id && spec_verify(reid@, k)) ==> (
                    r is Accepted || r is Internal),
                    None => true,
                })
            },
            Request::Tail => (r is TailRecord || r is NoContent) && (r matches Reply::TailRecord(
                rec,
            ) ==> old(log).spec_entries().len() > 0 && rec@ == old(log).spec_entries().last()) && (
            r is NoContent ==> old(log).spec_entries().len() == 0),
            Request::TailN(n) => r matches Reply::Records(v) && v@.map_values(|x: Reid| x@) == old(log).spec_entries().skip(
                if n <= old(log).spec_entries().len() {
                    old(log).spec_entries().len() - n
                } else {
                    0
                },
            ),
            Request::TailAll => r is NotImplemented,
            Request::LookUp(id) => (r matches Reply::Found(rec) ==> exists|i: int|
                0 <= i < old(log).spec_entries().len() && rec@ == old(log).spec_entries()[i]
                    && rec@.id == id@ && forall|j: int|
                    i < j < old(log).spec_entries().len() ==> (#[trigger] old(log).spec_entries()[j]).id != id@) && (r is NotFound ==> forall|j: int|
                0 <= j < old(log).spec_entries().len() ==> (#[trigger] old(log).spec_entries()[j]).id != id@) && (r is Found || r is NotFound),
            Request::Unhandled => r is Malformed,
        },
{
    match req {
        Request::Publish(reid, pem) => publish(log, reid, &pem),
        Request::Tail => tail(log),
        Request::TailN(n) => tail_num(log, n),
        Request::TailAll => Reply::NotImplemented,
        Request::LookUp(id) => lookup(log, &id),
        Request::Unhandled => Reply::Malformed,
    }
}

} // verus!
