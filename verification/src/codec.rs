//! The record's textual form and its parser.
//!
//! A record is rendered as one canonical JSON object whose fields appear
//! in a fixed order; byte sequences and text (as UTF-8 bytes) are decimal
//! arrays. The parser accepts exactly these canonical renderings, which
//! gives the round trip: decoding an encoded record returns it unchanged,
//! and every accepted input is the rendering of the record returned.
//!
//! The wire and storage form of a record is the base64 encoding of this
//! rendering.
//!
//! The textual form is this crate's own: byte sequences and text become
//! decimal arrays and the claim, key and anchor kinds become numeric
//! tags. Only texts produced by this encoder decode; logs persisted in
//! any other rendering of the record do not load.

use vstd::prelude::*;
use vstd::string::StringSliceAdditionalSpecFns;
use vstd::utf8::{decode_utf8, encode_utf8, valid_utf8};

use crate::common::{
    spec_anchor_of_tag, spec_anchor_tag, spec_claim_of_tag, spec_claim_tag, spec_key_of_tag,
    spec_key_tag, AnchorType, ClaimType, KeyType,
};
use crate::crypto::{MAX_EXPIRATION, MIN_EXPIRATION};
use crate::digits::{dec_digits, spec_parse_nat};
use crate::reid::ReidV;

verus! {

pub open spec fn lit_id() -> Seq<u8> {
    seq![0x7Bu8, 0x22u8, 0x69u8, 0x64u8, 0x22u8, 0x3Au8]
}

pub open spec fn lit_pow() -> Seq<u8> {
    seq![0x2Cu8, 0x22u8, 0x70u8, 0x6Fu8, 0x77u8, 0x22u8, 0x3Au8]
}

pub open spec fn lit_expiration() -> Seq<u8> {
    seq![
        0x2Cu8,
        0x22u8,
        0x65u8,
        0x78u8,
        0x70u8,
        0x69u8,
        0x72u8,
        0x61u8,
        0x74u8,
        0x69u8,
        0x6Fu8,
        0x6Eu8,
        0x22u8,
        0x3Au8,
    ]
}

pub open spec fn lit_sig() -> Seq<u8> {
    seq![0x2Cu8, 0x22u8, 0x73u8, 0x69u8, 0x67u8, 0x22u8, 0x3Au8]
}

pub open spec fn lit_claims() -> Seq<u8> {
    seq![0x2Cu8, 0x22u8, 0x63u8, 0x6Cu8, 0x61u8, 0x69u8, 0x6Du8, 0x73u8, 0x22u8, 0x3Au8]
}

pub open spec fn lit_anchors() -> Seq<u8> {
    seq![0x2Cu8, 0x22u8, 0x61u8, 0x6Eu8, 0x63u8, 0x68u8, 0x6Fu8, 0x72u8, 0x73u8, 0x22u8, 0x3Au8]
}

pub open spec fn lit_revoked() -> Seq<u8> {
    seq![0x2Cu8, 0x22u8, 0x72u8, 0x65u8, 0x76u8, 0x6Fu8, 0x6Bu8, 0x65u8, 0x64u8, 0x22u8, 0x3Au8]
}

pub open spec fn lit_null() -> Seq<u8> {
    seq![0x6Eu8, 0x75u8, 0x6Cu8, 0x6Cu8]
}

pub open spec fn lit_true() -> Seq<u8> {
    seq![0x74u8, 0x72u8, 0x75u8, 0x65u8]
}

pub open spec fn lit_false() -> Seq<u8> {
    seq![0x66u8, 0x61u8, 0x6Cu8, 0x73u8, 0x65u8]
}

pub open spec fn lit_close() -> Seq<u8> {
    seq![0x7Du8]
}

// ---------------------------------------------------------------------
// The rendering.
// ---------------------------------------------------------------------

/// The items of a decimal array, separated by commas.
pub open spec fn enc_bytes_items(s: Seq<u8>) -> Seq<u8>
    decreases s.len(),
{
    if s.len() == 0 {
        Seq::empty()
    } else if s.len() == 1 {
        dec_digits(s[0] as nat)
    } else {
        dec_digits(s[0] as nat) + seq![0x2Cu8] + enc_bytes_items(s.drop_first())
    }
}

/// A byte sequence as a decimal array, e.g. `[1,2,255]`.
pub open spec fn enc_bytes(s: Seq<u8>) -> Seq<u8> {
    seq![0x5Bu8] + enc_bytes_items(s) + seq![0x5Du8]
}

pub open spec fn enc_opt_bytes(o: Option<Seq<u8>>) -> Seq<u8> {
    match o {
        None => lit_null(),
        Some(s) => enc_bytes(s),
    }
}

/// A timestamp: decimal digits, with a leading minus sign if negative.
pub open spec fn enc_i64(n: int) -> Seq<u8> {
    if n < 0 {
        seq![0x2Du8] + dec_digits((-n) as nat)
    } else {
        dec_digits(n as nat)
    }
}

/// Text as the decimal array of its UTF-8 bytes.
pub open spec fn enc_string(s: Seq<char>) -> Seq<u8> {
    enc_bytes(encode_utf8(s))
}

/// One claim: `[claim-tag,key-tag,value]`.
pub open spec fn enc_claim(c: (ClaimType, (KeyType, Seq<char>))) -> Seq<u8> {
    seq![0x5Bu8] + dec_digits(spec_claim_tag(c.0) as nat) + seq![0x2Cu8] + dec_digits(
        spec_key_tag(c.1.0) as nat,
    ) + seq![0x2Cu8] + enc_string(c.1.1) + seq![0x5Du8]
}

pub open spec fn enc_claims_items(cs: Seq<(ClaimType, (KeyType, Seq<char>))>) -> Seq<u8>
    decreases cs.len(),
{
    if cs.len() == 0 {
        Seq::empty()
    } else if cs.len() == 1 {
        enc_claim(cs[0])
    } else {
        enc_claim(cs[0]) + seq![0x2Cu8] + enc_claims_items(cs.drop_first())
    }
}

pub open spec fn enc_claims(o: Option<Seq<(ClaimType, (KeyType, Seq<char>))>>) -> Seq<u8> {
    match o {
        None => lit_null(),
        Some(cs) => seq![0x5Bu8] + enc_claims_items(cs) + seq![0x5Du8],
    }
}

/// One anchor: `[anchor-tag,value]`.
pub open spec fn enc_anchor(a: (AnchorType, Seq<char>)) -> Seq<u8> {
    seq![0x5Bu8] + dec_digits(spec_anchor_tag(a.0) as nat) + seq![0x2Cu8] + enc_string(a.1)
        + seq![0x5Du8]
}

pub open spec fn enc_anchors_items(an: Seq<(AnchorType, Seq<char>)>) -> Seq<u8>
    decreases an.len(),
{
    if an.len() == 0 {
        Seq::empty()
    } else if an.len() == 1 {
        enc_anchor(an[0])
    } else {
        enc_anchor(an[0]) + seq![0x2Cu8] + enc_anchors_items(an.drop_first())
    }
}

pub open spec fn enc_anchors(o: Option<Seq<(AnchorType, Seq<char>)>>) -> Seq<u8> {
    match o {
        None => lit_null(),
        Some(an) => seq![0x5Bu8] + enc_anchors_items(an) + seq![0x5Du8],
    }
}

pub open spec fn enc_bool(b: bool) -> Seq<u8> {
    if b {
        lit_true()
    } else {
        lit_false()
    }
}

/// The textual form of a record.
pub open spec fn json_of(r: ReidV) -> Seq<u8> {
    lit_id() + enc_bytes(r.id) + lit_pow() + enc_opt_bytes(r.pow) + lit_expiration() + enc_i64(
        r.expiration,
    ) + lit_sig() + enc_bytes(r.sig) + lit_claims() + enc_claims(r.claims) + lit_anchors()
        + enc_anchors(r.anchors) + lit_revoked() + enc_bool(r.revoked) + lit_close()
}

// ---------------------------------------------------------------------
// The parser.
// ---------------------------------------------------------------------

/// Matches a fixed literal at position `i`; the position just past it.
pub open spec fn spec_match_lit(s: Seq<u8>, i: int, l: Seq<u8>) -> Option<int> {
    if 0 <= i && i + l.len() <= s.len() && s.subrange(i, i + l.len()) == l {
        Some(i + l.len())
    } else {
        None
    }
}

/// Parses the nonempty items of a decimal array, through the closing
/// bracket.
pub open spec fn parse_bytes_items(s: Seq<u8>, i: int) -> Option<(Seq<u8>, int)>
    decreases s.len() - i,
{
    match spec_parse_nat(s, i, 255) {
        None => None,
        Some((v, j)) => if i < j && j < s.len() {
            if s[j] == 0x5Du8 {
                Some((seq![v as u8], j + 1))
            } else if s[j] == 0x2Cu8 {
                match parse_bytes_items(s, j + 1) {
                    None => None,
                    Some((tail, k)) => Some((seq![v as u8] + tail, k)),
                }
            } else {
                None
            }
        } else {
            None
        },
    }
}

/// Parses a decimal array.
pub open spec fn parse_bytes(s: Seq<u8>, i: int) -> Option<(Seq<u8>, int)> {
    if 0 <= i && i < s.len() && s[i] == 0x5Bu8 {
        if i + 1 < s.len() && s[i + 1] == 0x5Du8 {
            Some((Seq::empty(), i + 2))
        } else {
            parse_bytes_items(s, i + 1)
        }
    } else {
        None
    }
}

/// Parses `null` or a decimal array.
pub open spec fn parse_opt_bytes(s: Seq<u8>, i: int) -> Option<(Option<Seq<u8>>, int)> {
    match spec_match_lit(s, i, lit_null()) {
        Some(j) => Some((None, j)),
        None => match parse_bytes(s, i) {
            Some((b, j)) => Some((Some(b), j)),
            None => None,
        },
    }
}

/// Parses a timestamp in the accepted expiration range.
pub open spec fn parse_expiration(s: Seq<u8>, i: int) -> Option<(int, int)> {
    if 0 <= i && i < s.len() && s[i] == 0x2Du8 {
        match spec_parse_nat(s, i + 1, -(MIN_EXPIRATION as int)) {
            None => None,
            Some((v, j)) => if v > 0 {
                Some((-v, j))
            } else {
                None
            },
        }
    } else {
        match spec_parse_nat(s, i, MAX_EXPIRATION as int) {
            None => None,
            Some((v, j)) => Some((v, j)),
        }
    }
}

/// Parses text: a decimal array that must hold valid UTF-8.
pub open spec fn parse_string(s: Seq<u8>, i: int) -> Option<(Seq<char>, int)> {
    match parse_bytes(s, i) {
        None => None,
        Some((b, j)) => if valid_utf8(b) {
            Some((decode_utf8(b), j))
        } else {
            None
        },
    }
}

/// Parses one claim.
pub open spec fn parse_claim(s: Seq<u8>, i: int) -> Option<((ClaimType, (KeyType, Seq<char>)), int)> {
    if 0 <= i && i < s.len() && s[i] == 0x5Bu8 {
        match spec_parse_nat(s, i + 1, 255) {
            None => None,
            Some((ct, j)) => if j < s.len() && s[j] == 0x2Cu8 {
                match spec_parse_nat(s, j + 1, 255) {
                    None => None,
                    Some((kt, k)) => if k < s.len() && s[k] == 0x2Cu8 {
                        match parse_string(s, k + 1) {
                            None => None,
                            Some((v, m)) => if m < s.len() && s[m] == 0x5Du8 {
                                match (spec_claim_of_tag(ct as u8), spec_key_of_tag(kt as u8)) {
                                    (Some(c), Some(kty)) => Some(((c, (kty, v)), m + 1)),
                                    _ => None,
                                }
                            } else {
                                None
                            },
                        }
                    } else {
                        None
                    },
                }
            } else {
                None
            },
        }
    } else {
        None
    }
}

/// Parses the nonempty items of a claims array, through the closing
/// bracket.
pub open spec fn parse_claims_items(s: Seq<u8>, i: int) -> Option<
    (Seq<(ClaimType, (KeyType, Seq<char>))>, int),
>
    decreases s.len() - i,
{
    match parse_claim(s, i) {
        None => None,
        Some((c, j)) => if i < j && j < s.len() {
            if s[j] == 0x5Du8 {
                Some((seq![c], j + 1))
            } else if s[j] == 0x2Cu8 {
                match parse_claims_items(s, j + 1) {
                    None => None,
                    Some((tail, k)) => Some((seq![c] + tail, k)),
                }
            } else {
                None
            }
        } else {
            None
        },
    }
}

/// Parses `null` or a claims array.
pub open spec fn parse_claims(s: Seq<u8>, i: int) -> Option<
    (Option<Seq<(ClaimType, (KeyType, Seq<char>))>>, int),
> {
    match spec_match_lit(s, i, lit_null()) {
        Some(j) => Some((None, j)),
        None => if 0 <= i && i < s.len() && s[i] == 0x5Bu8 {
            if i + 1 < s.len() && s[i + 1] == 0x5Du8 {
                Some((Some(Seq::empty()), i + 2))
            } else {
                match parse_claims_items(s, i + 1) {
                    None => None,
                    Some((cs, j)) => Some((Some(cs), j)),
                }
            }
        } else {
            None
        },
    }
}

/// Parses one anchor.
pub open spec fn parse_anchor(s: Seq<u8>, i: int) -> Option<((AnchorType, Seq<char>), int)> {
    if 0 <= i && i < s.len() && s[i] == 0x5Bu8 {
        match spec_parse_nat(s, i + 1, 255) {
            None => None,
            Some((at, j)) => if j < s.len() && s[j] == 0x2Cu8 {
                match parse_string(s, j + 1) {
                    None => None,
                    Some((v, m)) => if m < s.len() && s[m] == 0x5Du8 {
                        match spec_anchor_of_tag(at as u8) {
                            Some(a) => Some(((a, v), m + 1)),
                            None => None,
                        }
                    } else {
                        None
                    },
                }
            } else {
                None
            },
        }
    } else {
        None
    }
}

/// Parses the nonempty items of an anchors array, through the closing
/// bracket.
pub open spec fn parse_anchors_items(s: Seq<u8>, i: int) -> Option<
    (Seq<(AnchorType, Seq<char>)>, int),
>
    decreases s.len() - i,
{
    match parse_anchor(s, i) {
        None => None,
        Some((a, j)) => if i < j && j < s.len() {
            if s[j] == 0x5Du8 {
                Some((seq![a], j + 1))
            } else if s[j] == 0x2Cu8 {
                match parse_anchors_items(s, j + 1) {
                    None => None,
                    Some((tail, k)) => Some((seq![a] + tail, k)),
                }
            } else {
                None
            }
        } else {
            None
        },
    }
}

/// Parses `null` or an anchors array.
pub open spec fn parse_anchors(s: Seq<u8>, i: int) -> Option<
    (Option<Seq<(AnchorType, Seq<char>)>>, int),
> {
    match spec_match_lit(s, i, lit_null()) {
        Some(j) => Some((None, j)),
        None => if 0 <= i && i < s.len() && s[i] == 0x5Bu8 {
            if i + 1 < s.len() && s[i + 1] == 0x5Du8 {
                Some((Some(Seq::empty()), i + 2))
            } else {
                match parse_anchors_items(s, i + 1) {
                    None => None,
                    Some((an, j)) => Some((Some(an), j)),
                }
            }
        } else {
            None
        },
    }
}

/// Parses `true` or `false`.
pub open spec fn parse_bool(s: Seq<u8>, i: int) -> Option<(bool, int)> {
    match spec_match_lit(s, i, lit_true()) {
        Some(j) => Some((true, j)),
        None => match spec_match_lit(s, i, lit_false()) {
            Some(j) => Some((false, j)),
            None => None,
        },
    }
}

/// Parses the record's first fields: the id, the proof of work and the
/// expiration.
pub open spec fn parse_head(s: Seq<u8>, i: int) -> Option<((Seq<u8>, Option<Seq<u8>>, int), int)> {
    match spec_match_lit(s, i, lit_id()) {
        None => None,
        Some(i1) => match parse_bytes(s, i1) {
            None => None,
            Some((id, i2)) => match spec_match_lit(s, i2, lit_pow()) {
                None => None,
                Some(i3) => match parse_opt_bytes(s, i3) {
                    None => None,
                    Some((pow, i4)) => match spec_match_lit(s, i4, lit_expiration()) {
                        None => None,
                        Some(i5) => match parse_expiration(s, i5) {
                            None => None,
                            Some((exp, i6)) => Some(((id, pow, exp), i6)),
                        },
                    },
                },
            },
        },
    }
}

/// The rendering of the record's first fields.
pub open spec fn enc_head(id: Seq<u8>, pow: Option<Seq<u8>>, exp: int) -> Seq<u8> {
    lit_id() + enc_bytes(id) + lit_pow() + enc_opt_bytes(pow) + lit_expiration() + enc_i64(exp)
}

/// Parses the record's last fields: the signature, the claims, the
/// anchors and the revocation flag.
pub open spec fn parse_rear(s: Seq<u8>, i: int) -> Option<
    (
        (
            Seq<u8>,
            Option<Seq<(ClaimType, (KeyType, Seq<char>))>>,
            Option<Seq<(AnchorType, Seq<char>)>>,
            bool,
        ),
        int,
    ),
> {
    match spec_match_lit(s, i, lit_sig()) {
        None => None,
        Some(i7) => match parse_bytes(s, i7) {
            None => None,
            Some((sig, i8)) => match spec_match_lit(s, i8, lit_claims()) {
                None => None,
                Some(i9) => match parse_claims(s, i9) {
                    None => None,
                    Some((claims, i10)) => match spec_match_lit(s, i10, lit_anchors()) {
                        None => None,
                        Some(i11) => match parse_anchors(s, i11) {
                            None => None,
                            Some((anchors, i12)) => match spec_match_lit(s, i12, lit_revoked()) {
                                None => None,
                                Some(i13) => match parse_bool(s, i13) {
                                    None => None,
                                    Some((revoked, i14)) => Some(
                                        ((sig, claims, anchors, revoked), i14),
                                    ),
                                },
                            },
                        },
                    },
                },
            },
        },
    }
}

/// The rendering of the record's last fields.
pub open spec fn enc_rear(
    sig: Seq<u8>,
    claims: Option<Seq<(ClaimType, (KeyType, Seq<char>))>>,
    anchors: Option<Seq<(AnchorType, Seq<char>)>>,
    revoked: bool,
) -> Seq<u8> {
    lit_sig() + enc_bytes(sig) + lit_claims() + enc_claims(claims) + lit_anchors() + enc_anchors(
        anchors,
    ) + lit_revoked() + enc_bool(revoked)
}

/// Parses a whole record: the fields in order, consuming the entire
/// input.
pub open spec fn parse_record(s: Seq<u8>) -> Option<ReidV> {
    match parse_head(s, 0) {
        None => None,
        Some(((id, pow, exp), i)) => match parse_rear(s, i) {
            None => None,
            Some(((sig, claims, anchors, revoked), j)) => match spec_match_lit(s, j, lit_close()) {
                None => None,
                Some(k) => if k == s.len() {
                    Some(ReidV { id, pow, expiration: exp, sig, claims, anchors, revoked })
                } else {
                    None
                },
            },
        },
    }
}


// ---------------------------------------------------------------------
// Completeness: the parser accepts every rendering and returns what was
// rendered. Soundness: whatever the parser accepts is the rendering of
// what it returns. Together these give the round trip both ways.
// ---------------------------------------------------------------------

pub proof fn lemma_match_lit_complete(pre: Seq<u8>, l: Seq<u8>, rest: Seq<u8>)
    ensures
        spec_match_lit(pre + l + rest, pre.len() as int, l) == Some(pre.len() + l.len() as int),
{
    let s = pre + l + rest;
    let i = pre.len() as int;
    assert(s.subrange(i, i + l.len()) =~= l);
}

pub proof fn lemma_parse_bytes_items_complete(pre: Seq<u8>, b: Seq<u8>, rest: Seq<u8>)
    requires
        b.len() >= 1,
    ensures
        parse_bytes_items(pre + enc_bytes_items(b) + seq![0x5Du8] + rest, pre.len() as int)
            == Some((b, pre.len() + enc_bytes_items(b).len() + 1 as int)),
    decreases b.len(),
{
    let s = pre + enc_bytes_items(b) + seq![0x5Du8] + rest;
    let i = pre.len() as int;
    let n = b[0] as nat;
    let d = dec_digits(n);
    crate::digits::lemma_dec_digits_canonical(n);
    if b.len() == 1 {
        let rest1 = seq![0x5Du8] + rest;
        assert(s =~= pre + d + rest1);
        crate::digits::lemma_parse_nat_complete(pre, n, 255, rest1);
        let j = i + d.len() as int;
        assert(s[j] == 0x5Du8);
        assert(seq![b[0]] =~= b);
    } else {
        let tail = b.drop_first();
        assert(enc_bytes_items(b) == d + seq![0x2Cu8] + enc_bytes_items(tail));
        let rest1 = seq![0x2Cu8] + enc_bytes_items(tail) + seq![0x5Du8] + rest;
        assert(s =~= pre + d + rest1);
        crate::digits::lemma_parse_nat_complete(pre, n, 255, rest1);
        let j = i + d.len() as int;
        assert(s[j] == 0x2Cu8);
        let pre1 = pre + d + seq![0x2Cu8];
        assert(s =~= pre1 + enc_bytes_items(tail) + seq![0x5Du8] + rest);
        lemma_parse_bytes_items_complete(pre1, tail, rest);
        assert(seq![b[0]] + tail =~= b);
    }
}

pub proof fn lemma_parse_bytes_complete(pre: Seq<u8>, b: Seq<u8>, rest: Seq<u8>)
    ensures
        parse_bytes(pre + enc_bytes(b) + rest, pre.len() as int) == Some(
            (b, pre.len() + enc_bytes(b).len() as int),
        ),
{
    let s = pre + enc_bytes(b) + rest;
    let i = pre.len() as int;
    assert(s[i] == 0x5Bu8);
    if b.len() == 0 {
        assert(enc_bytes(b) =~= seq![0x5Bu8, 0x5Du8]);
        assert(s[i + 1] == 0x5Du8);
        assert(b =~= Seq::<u8>::empty());
    } else {
        crate::digits::lemma_dec_digits_canonical(b[0] as nat);
        assert(enc_bytes_items(b)[0] == dec_digits(b[0] as nat)[0]);
        assert(s[i + 1] == enc_bytes_items(b)[0]);
        assert(s[i + 1] != 0x5Du8);
        let pre1 = pre + seq![0x5Bu8];
        assert(s =~= pre1 + enc_bytes_items(b) + seq![0x5Du8] + rest);
        lemma_parse_bytes_items_complete(pre1, b, rest);
    }
}

pub proof fn lemma_parse_bytes_items_sound(s: Seq<u8>, i: int)
    requires
        0 <= i <= s.len(),
        parse_bytes_items(s, i) is Some,
    ensures
        ({
            let (b, j) = parse_bytes_items(s, i)->Some_0;
            &&& i < j <= s.len()
            &&& b.len() >= 1
            &&& s.subrange(i, j) == enc_bytes_items(b) + seq![0x5Du8]
        }),
    decreases s.len() - i,
{
    let (v, j0) = spec_parse_nat(s, i, 255)->Some_0;
    crate::digits::lemma_parse_nat_sound(s, i, 255);
    let d = dec_digits(v as nat);
    assert(d == dec_digits((v as u8) as nat));
    if s[j0] == 0x5Du8 {
        let b = seq![v as u8];
        assert(enc_bytes_items(b) == dec_digits(b[0] as nat));
        assert(s.subrange(i, j0 + 1) =~= s.subrange(i, j0) + seq![s[j0]]);
        assert(s.subrange(i, j0 + 1) =~= enc_bytes_items(b) + seq![0x5Du8]);
    } else {
        lemma_parse_bytes_items_sound(s, j0 + 1);
        let (tail, k) = parse_bytes_items(s, j0 + 1)->Some_0;
        let b = seq![v as u8] + tail;
        assert(b[0] == v as u8);
        assert(b.drop_first() =~= tail);
        assert(enc_bytes_items(b) == dec_digits(v as nat) + seq![0x2Cu8] + enc_bytes_items(tail));
        assert(s.subrange(i, k) =~= s.subrange(i, j0) + seq![s[j0]] + s.subrange(j0 + 1, k));
        assert(s.subrange(i, k) =~= enc_bytes_items(b) + seq![0x5Du8]);
    }
}

pub proof fn lemma_parse_bytes_sound(s: Seq<u8>, i: int)
    requires
        0 <= i <= s.len(),
        parse_bytes(s, i) is Some,
    ensures
        ({
            let (b, j) = parse_bytes(s, i)->Some_0;
            &&& i < j <= s.len()
            &&& s.subrange(i, j) == enc_bytes(b)
        }),
{
    if i + 1 < s.len() && s[i + 1] == 0x5Du8 {
        let b = parse_bytes(s, i)->Some_0.0;
        assert(s.subrange(i, i + 2) =~= seq![s[i], s[i + 1]]);
        assert(enc_bytes(b) =~= seq![0x5Bu8, 0x5Du8]);
    } else {
        lemma_parse_bytes_items_sound(s, i + 1);
        let (b, j) = parse_bytes_items(s, i + 1)->Some_0;
        assert(s.subrange(i, j) =~= seq![s[i]] + s.subrange(i + 1, j));
        assert(s.subrange(i, j) =~= seq![0x5Bu8] + (enc_bytes_items(b) + seq![0x5Du8]));
        assert(s.subrange(i, j) =~= enc_bytes(b));
    }
}

#[verifier::rlimit(100)]
#[verifier::spinoff_prover]
pub proof fn lemma_parse_opt_bytes_complete(pre: Seq<u8>, o: Option<Seq<u8>>, rest: Seq<u8>)
    ensures
        parse_opt_bytes(pre + enc_opt_bytes(o) + rest, pre.len() as int) == Some(
            (o, pre.len() + enc_opt_bytes(o).len() as int),
        ),
{
    let s = pre + enc_opt_bytes(o) + rest;
    let i = pre.len() as int;
    match o {
        None => {
            lemma_match_lit_complete(pre, lit_null(), rest);
        }
        Some(b) => {
            assert(s[i] == 0x5Bu8);
            assert(spec_match_lit(s, i, lit_null()) is None) by {
                if spec_match_lit(s, i, lit_null()) is Some {
                    assert(s.subrange(i, i + 4)[0] == lit_null()[0]);
                }
            }
            lemma_parse_bytes_complete(pre, b, rest);
        }
    }
}

#[verifier::rlimit(100)]
#[verifier::spinoff_prover]
pub proof fn lemma_parse_opt_bytes_sound(s: Seq<u8>, i: int)
    requires
        0 <= i <= s.len(),
        parse_opt_bytes(s, i) is Some,
    ensures
        ({
            let (o, j) = parse_opt_bytes(s, i)->Some_0;
            &&& i < j <= s.len()
            &&& s.subrange(i, j) == enc_opt_bytes(o)
        }),
{
    match spec_match_lit(s, i, lit_null()) {
        Some(j) => {
        }
        None => {
            lemma_parse_bytes_sound(s, i);
        }
    }
}

pub proof fn lemma_parse_expiration_complete(pre: Seq<u8>, n: int, rest: Seq<u8>)
    requires
        crate::reid::valid_expiration(n),
        rest.len() == 0 || !crate::digits::is_digit(rest[0]),
    ensures
        parse_expiration(pre + enc_i64(n) + rest, pre.len() as int) == Some(
            (n, pre.len() + enc_i64(n).len() as int),
        ),
{
    let s = pre + enc_i64(n) + rest;
    let i = pre.len() as int;
    if n < 0 {
        assert(s[i] == 0x2Du8);
        let m = (-n) as nat;
        let pre1 = pre + seq![0x2Du8];
        assert(s =~= pre1 + dec_digits(m) + rest);
        crate::digits::lemma_parse_nat_complete(pre1, m, -(MIN_EXPIRATION as int), rest);
    } else {
        crate::digits::lemma_dec_digits_canonical(n as nat);
        assert(s[i] == dec_digits(n as nat)[0]);
        assert(s[i] != 0x2Du8);
        assert(s =~= pre + dec_digits(n as nat) + rest);
        crate::digits::lemma_parse_nat_complete(pre, n as nat, MAX_EXPIRATION as int, rest);
    }
}

pub proof fn lemma_parse_expiration_sound(s: Seq<u8>, i: int)
    requires
        0 <= i <= s.len(),
        parse_expiration(s, i) is Some,
    ensures
        ({
            let (n, j) = parse_expiration(s, i)->Some_0;
            &&& i < j <= s.len()
            &&& crate::reid::valid_expiration(n)
            &&& s.subrange(i, j) == enc_i64(n)
        }),
{
    if i < s.len() && s[i] == 0x2Du8 {
        crate::digits::lemma_parse_nat_sound(s, i + 1, -(MIN_EXPIRATION as int));
        let (v, j) = spec_parse_nat(s, i + 1, -(MIN_EXPIRATION as int))->Some_0;
        assert(s.subrange(i, j) =~= seq![s[i]] + s.subrange(i + 1, j));
        assert(s.subrange(i, j) =~= enc_i64(-v));
    } else {
        crate::digits::lemma_parse_nat_sound(s, i, MAX_EXPIRATION as int);
    }
}

pub proof fn lemma_parse_string_complete(pre: Seq<u8>, t: Seq<char>, rest: Seq<u8>)
    ensures
        parse_string(pre + enc_string(t) + rest, pre.len() as int) == Some(
            (t, pre.len() + enc_string(t).len() as int),
        ),
{
    let b = encode_utf8(t);
    vstd::utf8::encode_utf8_valid_utf8(t);
    vstd::utf8::encode_utf8_decode_utf8(t);
    lemma_parse_bytes_complete(pre, b, rest);
}

pub proof fn lemma_parse_string_sound(s: Seq<u8>, i: int)
    requires
        0 <= i <= s.len(),
        parse_string(s, i) is Some,
    ensures
        ({
            let (t, j) = parse_string(s, i)->Some_0;
            &&& i < j <= s.len()
            &&& s.subrange(i, j) == enc_string(t)
        }),
{
    lemma_parse_bytes_sound(s, i);
    let (b, j) = parse_bytes(s, i)->Some_0;
    vstd::utf8::decode_utf8_encode_utf8(b);
}

pub proof fn lemma_parse_bool_complete(pre: Seq<u8>, b: bool, rest: Seq<u8>)
    ensures
        parse_bool(pre + enc_bool(b) + rest, pre.len() as int) == Some(
            (b, pre.len() + enc_bool(b).len() as int),
        ),
{
    let s = pre + enc_bool(b) + rest;
    let i = pre.len() as int;
    if b {
        lemma_match_lit_complete(pre, lit_true(), rest);
    } else {
        lemma_match_lit_complete(pre, lit_false(), rest);
        assert(s[i] == 0x66u8);
        assert(spec_match_lit(s, i, lit_true()) is None) by {
            if spec_match_lit(s, i, lit_true()) is Some {
                assert(s.subrange(i, i + 4)[0] == lit_true()[0]);
            }
        }
    }
}

pub proof fn lemma_parse_bool_sound(s: Seq<u8>, i: int)
    requires
        0 <= i <= s.len(),
        parse_bool(s, i) is Some,
    ensures
        ({
            let (b, j) = parse_bool(s, i)->Some_0;
            &&& i < j <= s.len()
            &&& s.subrange(i, j) == enc_bool(b)
        }),
{
}

#[verifier::rlimit(100)]
#[verifier::spinoff_prover]
pub proof fn lemma_parse_claim_complete(
    pre: Seq<u8>,
    c: (ClaimType, (KeyType, Seq<char>)),
    rest: Seq<u8>,
)
    ensures
        parse_claim(pre + enc_claim(c) + rest, pre.len() as int) == Some(
            (c, pre.len() + enc_claim(c).len() as int),
        ),
{
    let s = pre + enc_claim(c) + rest;
    let i = pre.len() as int;
    let dct = dec_digits(spec_claim_tag(c.0) as nat);
    let dkt = dec_digits(spec_key_tag(c.1.0) as nat);
    let ev = enc_string(c.1.1);
    assert(s[i] == 0x5Bu8);
    let pre1 = pre + seq![0x5Bu8];
    let rest1 = seq![0x2Cu8] + dkt + seq![0x2Cu8] + ev + seq![0x5Du8] + rest;
    assert(s =~= pre1 + dct + rest1);
    crate::digits::lemma_parse_nat_complete(pre1, spec_claim_tag(c.0) as nat, 255, rest1);
    let j = i + 1 + dct.len() as int;
    assert(s[j] == 0x2Cu8);
    let pre2 = pre1 + dct + seq![0x2Cu8];
    let rest2 = seq![0x2Cu8] + ev + seq![0x5Du8] + rest;
    assert(s =~= pre2 + dkt + rest2);
    crate::digits::lemma_parse_nat_complete(pre2, spec_key_tag(c.1.0) as nat, 255, rest2);
    let k = j + 1 + dkt.len() as int;
    assert(s[k] == 0x2Cu8);
    let pre3 = pre2 + dkt + seq![0x2Cu8];
    let rest3 = seq![0x5Du8] + rest;
    assert(s =~= pre3 + ev + rest3);
    lemma_parse_string_complete(pre3, c.1.1, rest3);
    let m = k + 1 + ev.len() as int;
    assert(s[m] == 0x5Du8);
    crate::common::lemma_claim_tag_round_trip(c.0);
    crate::common::lemma_key_tag_round_trip(c.1.0);
    assert(m + 1 == i + enc_claim(c).len());
}

#[verifier::rlimit(100)]
#[verifier::spinoff_prover]
pub proof fn lemma_parse_claim_sound(s: Seq<u8>, i: int)
    requires
        0 <= i <= s.len(),
        parse_claim(s, i) is Some,
    ensures
        ({
            let (c, j) = parse_claim(s, i)->Some_0;
            &&& i < j <= s.len()
            &&& s.subrange(i, j) == enc_claim(c)
        }),
{
    let (ct, j) = spec_parse_nat(s, i + 1, 255)->Some_0;
    crate::digits::lemma_parse_nat_sound(s, i + 1, 255);
    let (kt, k) = spec_parse_nat(s, j + 1, 255)->Some_0;
    crate::digits::lemma_parse_nat_sound(s, j + 1, 255);
    let (v, m) = parse_string(s, k + 1)->Some_0;
    lemma_parse_string_sound(s, k + 1);
    let c = parse_claim(s, i)->Some_0.0;
    assert(spec_claim_tag(c.0) == ct as u8);
    assert(spec_key_tag(c.1.0) == kt as u8);
    assert(dec_digits(ct as nat) == dec_digits(spec_claim_tag(c.0) as nat));
    assert(dec_digits(kt as nat) == dec_digits(spec_key_tag(c.1.0) as nat));
    assert(s.subrange(i, m + 1) =~= seq![s[i]] + s.subrange(i + 1, j) + seq![s[j]] + s.subrange(
        j + 1,
        k,
    ) + seq![s[k]] + s.subrange(k + 1, m) + seq![s[m]]);
    assert(s.subrange(i, m + 1) =~= enc_claim(c));
}

#[verifier::rlimit(100)]
#[verifier::spinoff_prover]
pub proof fn lemma_parse_claims_items_complete(
    pre: Seq<u8>,
    cs: Seq<(ClaimType, (KeyType, Seq<char>))>,
    rest: Seq<u8>,
)
    requires
        cs.len() >= 1,
    ensures
        parse_claims_items(pre + enc_claims_items(cs) + seq![0x5Du8] + rest, pre.len() as int)
            == Some((cs, pre.len() + enc_claims_items(cs).len() + 1 as int)),
    decreases cs.len(),
{
    let s = pre + enc_claims_items(cs) + seq![0x5Du8] + rest;
    let i = pre.len() as int;
    let e = enc_claim(cs[0]);
    if cs.len() == 1 {
        let rest1 = seq![0x5Du8] + rest;
        assert(s =~= pre + e + rest1);
        lemma_parse_claim_complete(pre, cs[0], rest1);
        let j = i + e.len() as int;
        assert(s[j] == 0x5Du8);
        assert(seq![cs[0]] =~= cs);
    } else {
        let tail = cs.drop_first();
        assert(enc_claims_items(cs) == e + seq![0x2Cu8] + enc_claims_items(tail));
        let rest1 = seq![0x2Cu8] + enc_claims_items(tail) + seq![0x5Du8] + rest;
        assert(s =~= pre + e + rest1);
        lemma_parse_claim_complete(pre, cs[0], rest1);
        let j = i + e.len() as int;
        assert(s[j] == 0x2Cu8);
        let pre1 = pre + e + seq![0x2Cu8];
        assert(s =~= pre1 + enc_claims_items(tail) + seq![0x5Du8] + rest);
        lemma_parse_claims_items_complete(pre1, tail, rest);
        assert(seq![cs[0]] + tail =~= cs);
    }
}

#[verifier::rlimit(100)]
#[verifier::spinoff_prover]
pub proof fn lemma_parse_claims_items_sound(s: Seq<u8>, i: int)
    requires
        0 <= i <= s.len(),
        parse_claims_items(s, i) is Some,
    ensures
        ({
            let (cs, j) = parse_claims_items(s, i)->Some_0;
            &&& i < j <= s.len()
            &&& cs.len() >= 1
            &&& s.subrange(i, j) == enc_claims_items(cs) + seq![0x5Du8]
        }),
    decreases s.len() - i,
{
    let (c, j0) = parse_claim(s, i)->Some_0;
    lemma_parse_claim_sound(s, i);
    if s[j0] == 0x5Du8 {
        let cs = seq![c];
        assert(enc_claims_items(cs) == enc_claim(cs[0]));
        assert(s.subrange(i, j0 + 1) =~= s.subrange(i, j0) + seq![s[j0]]);
        assert(s.subrange(i, j0 + 1) =~= enc_claims_items(cs) + seq![0x5Du8]);
    } else {
        lemma_parse_claims_items_sound(s, j0 + 1);
        let (tail, k) = parse_claims_items(s, j0 + 1)->Some_0;
        let cs = seq![c] + tail;
        assert(cs[0] == c);
        assert(cs.drop_first() =~= tail);
        assert(enc_claims_items(cs) == enc_claim(c) + seq![0x2Cu8] + enc_claims_items(tail));
        assert(s.subrange(i, k) =~= s.subrange(i, j0) + seq![s[j0]] + s.subrange(j0 + 1, k));
        assert(s.subrange(i, k) =~= enc_claims_items(cs) + seq![0x5Du8]);
    }
}

#[verifier::rlimit(100)]
#[verifier::spinoff_prover]
pub proof fn lemma_parse_claims_complete(
    pre: Seq<u8>,
    o: Option<Seq<(ClaimType, (KeyType, Seq<char>))>>,
    rest: Seq<u8>,
)
    ensures
        parse_claims(pre + enc_claims(o) + rest, pre.len() as int) == Some(
            (o, pre.len() + enc_claims(o).len() as int),
        ),
{
    let s = pre + enc_claims(o) + rest;
    let i = pre.len() as int;
    match o {
        None => {
            lemma_match_lit_complete(pre, lit_null(), rest);
        }
        Some(cs) => {
            assert(s[i] == 0x5Bu8);
            assert(spec_match_lit(s, i, lit_null()) is None) by {
                if spec_match_lit(s, i, lit_null()) is Some {
                    assert(s.subrange(i, i + 4)[0] == lit_null()[0]);
                }
            }
            if cs.len() == 0 {
                assert(enc_claims(o) =~= seq![0x5Bu8, 0x5Du8]);
                assert(s[i + 1] == 0x5Du8);
                assert(cs =~= Seq::<(ClaimType, (KeyType, Seq<char>))>::empty());
            } else {
                assert(enc_claims_items(cs)[0] == enc_claim(cs[0])[0]);
                assert(s[i + 1] == enc_claims_items(cs)[0]);
                assert(s[i + 1] == 0x5Bu8);
                let pre1 = pre + seq![0x5Bu8];
                assert(s =~= pre1 + enc_claims_items(cs) + seq![0x5Du8] + rest);
                lemma_parse_claims_items_complete(pre1, cs, rest);
            }
        }
    }
}

#[verifier::rlimit(100)]
#[verifier::spinoff_prover]
pub proof fn lemma_parse_claims_sound(s: Seq<u8>, i: int)
    requires
        0 <= i <= s.len(),
        parse_claims(s, i) is Some,
    ensures
        ({
            let (o, j) = parse_claims(s, i)->Some_0;
            &&& i < j <= s.len()
            &&& s.subrange(i, j) == enc_claims(o)
        }),
{
    match spec_match_lit(s, i, lit_null()) {
        Some(j) => {
        }
        None => {
            if i + 1 < s.len() && s[i + 1] == 0x5Du8 {
                let o = parse_claims(s, i)->Some_0.0;
                assert(s.subrange(i, i + 2) =~= seq![s[i], s[i + 1]]);
                assert(enc_claims(o) =~= seq![0x5Bu8, 0x5Du8]);
            } else {
                lemma_parse_claims_items_sound(s, i + 1);
                let (cs, j) = parse_claims_items(s, i + 1)->Some_0;
                assert(s.subrange(i, j) =~= seq![s[i]] + s.subrange(i + 1, j));
                assert(s.subrange(i, j) =~= seq![0x5Bu8] + (enc_claims_items(cs) + seq![0x5Du8]));
                assert(s.subrange(i, j) =~= enc_claims(Some(cs)));
            }
        }
    }
}

#[verifier::rlimit(100)]
#[verifier::spinoff_prover]
pub proof fn lemma_parse_anchor_complete(pre: Seq<u8>, a: (AnchorType, Seq<char>), rest: Seq<u8>)
    ensures
        parse_anchor(pre + enc_anchor(a) + rest, pre.len() as int) == Some(
            (a, pre.len() + enc_anchor(a).len() as int),
        ),
{
    let s = pre + enc_anchor(a) + rest;
    let i = pre.len() as int;
    let dat = dec_digits(spec_anchor_tag(a.0) as nat);
    let ev = enc_string(a.1);
    assert(s[i] == 0x5Bu8);
    let pre1 = pre + seq![0x5Bu8];
    let rest1 = seq![0x2Cu8] + ev + seq![0x5Du8] + rest;
    assert(s =~= pre1 + dat + rest1);
    crate::digits::lemma_parse_nat_complete(pre1, spec_anchor_tag(a.0) as nat, 255, rest1);
    let j = i + 1 + dat.len() as int;
    assert(s[j] == 0x2Cu8);
    let pre2 = pre1 + dat + seq![0x2Cu8];
    let rest2 = seq![0x5Du8] + rest;
    assert(s =~= pre2 + ev + rest2);
    lemma_parse_string_complete(pre2, a.1, rest2);
    let m = j + 1 + ev.len() as int;
    assert(s[m] == 0x5Du8);
    crate::common::lemma_anchor_tag_round_trip(a.0);
    assert(m + 1 == i + enc_anchor(a).len());
}

#[verifier::rlimit(100)]
#[verifier::spinoff_prover]
pub proof fn lemma_parse_anchor_sound(s: Seq<u8>, i: int)
    requires
        0 <= i <= s.len(),
        parse_anchor(s, i) is Some,
    ensures
        ({
            let (a, j) = parse_anchor(s, i)->Some_0;
            &&& i < j <= s.len()
            &&& s.subrange(i, j) == enc_anchor(a)
        }),
{
    let (at, j) = spec_parse_nat(s, i + 1, 255)->Some_0;
    crate::digits::lemma_parse_nat_sound(s, i + 1, 255);
    let (v, m) = parse_string(s, j + 1)->Some_0;
    lemma_parse_string_sound(s, j + 1);
    let a = parse_anchor(s, i)->Some_0.0;
    assert(spec_anchor_tag(a.0) == at as u8);
    assert(dec_digits(at as nat) == dec_digits(spec_anchor_tag(a.0) as nat));
    assert(s.subrange(i, m + 1) =~= seq![s[i]] + s.subrange(i + 1, j) + seq![s[j]] + s.subrange(
        j + 1,
        m,
    ) + seq![s[m]]);
    assert(s.subrange(i, m + 1) =~= enc_anchor(a));
}

#[verifier::rlimit(100)]
#[verifier::spinoff_prover]
pub proof fn lemma_parse_anchors_items_complete(
    pre: Seq<u8>,
    an: Seq<(AnchorType, Seq<char>)>,
    rest: Seq<u8>,
)
    requires
        an.len() >= 1,
    ensures
        parse_anchors_items(pre + enc_anchors_items(an) + seq![0x5Du8] + rest, pre.len() as int)
            == Some((an, pre.len() + enc_anchors_items(an).len() + 1 as int)),
    decreases an.len(),
{
    let s = pre + enc_anchors_items(an) + seq![0x5Du8] + rest;
    let i = pre.len() as int;
    let e = enc_anchor(an[0]);
    if an.len() == 1 {
        let rest1 = seq![0x5Du8] + rest;
        assert(s =~= pre + e + rest1);
        lemma_parse_anchor_complete(pre, an[0], rest1);
        let j = i + e.len() as int;
        assert(s[j] == 0x5Du8);
        assert(seq![an[0]] =~= an);
    } else {
        let tail = an.drop_first();
        assert(enc_anchors_items(an) == e + seq![0x2Cu8] + enc_anchors_items(tail));
        let rest1 = seq![0x2Cu8] + enc_anchors_items(tail) + seq![0x5Du8] + rest;
        assert(s =~= pre + e + rest1);
        lemma_parse_anchor_complete(pre, an[0], rest1);
        let j = i + e.len() as int;
        assert(s[j] == 0x2Cu8);
        let pre1 = pre + e + seq![0x2Cu8];
        assert(s =~= pre1 + enc_anchors_items(tail) + seq![0x5Du8] + rest);
        lemma_parse_anchors_items_complete(pre1, tail, rest);
        assert(seq![an[0]] + tail =~= an);
    }
}

#[verifier::rlimit(100)]
#[verifier::spinoff_prover]
pub proof fn lemma_parse_anchors_items_sound(s: Seq<u8>, i: int)
    requires
        0 <= i <= s.len(),
        parse_anchors_items(s, i) is Some,
    ensures
        ({
            let (an, j) = parse_anchors_items(s, i)->Some_0;
            &&& i < j <= s.len()
            &&& an.len() >= 1
            &&& s.subrange(i, j) == enc_anchors_items(an) + seq![0x5Du8]
        }),
    decreases s.len() - i,
{
    let (a, j0) = parse_anchor(s, i)->Some_0;
    lemma_parse_anchor_sound(s, i);
    if s[j0] == 0x5Du8 {
        let an = seq![a];
        assert(enc_anchors_items(an) == enc_anchor(an[0]));
        assert(s.subrange(i, j0 + 1) =~= s.subrange(i, j0) + seq![s[j0]]);
        assert(s.subrange(i, j0 + 1) =~= enc_anchors_items(an) + seq![0x5Du8]);
    } else {
        lemma_parse_anchors_items_sound(s, j0 + 1);
        let (tail, k) = parse_anchors_items(s, j0 + 1)->Some_0;
        let an = seq![a] + tail;
        assert(an[0] == a);
        assert(an.drop_first() =~= tail);
        assert(enc_anchors_items(an) == enc_anchor(a) + seq![0x2Cu8] + enc_anchors_items(tail));
        assert(s.subrange(i, k) =~= s.subrange(i, j0) + seq![s[j0]] + s.subrange(j0 + 1, k));
        assert(s.subrange(i, k) =~= enc_anchors_items(an) + seq![0x5Du8]);
    }
}

#[verifier::rlimit(100)]
#[verifier::spinoff_prover]
pub proof fn lemma_parse_anchors_complete(
    pre: Seq<u8>,
    o: Option<Seq<(AnchorType, Seq<char>)>>,
    rest: Seq<u8>,
)
    ensures
        parse_anchors(pre + enc_anchors(o) + rest, pre.len() as int) == Some(
            (o, pre.len() + enc_anchors(o).len() as int),
        ),
{
    let s = pre + enc_anchors(o) + rest;
    let i = pre.len() as int;
    match o {
        None => {
            lemma_match_lit_complete(pre, lit_null(), rest);
        }
        Some(an) => {
            assert(s[i] == 0x5Bu8);
            assert(spec_match_lit(s, i, lit_null()) is None) by {
                if spec_match_lit(s, i, lit_null()) is Some {
                    assert(s.subrange(i, i + 4)[0] == lit_null()[0]);
                }
            }
            if an.len() == 0 {
                assert(enc_anchors(o) =~= seq![0x5Bu8, 0x5Du8]);
                assert(s[i + 1] == 0x5Du8);
                assert(an =~= Seq::<(AnchorType, Seq<char>)>::empty());
            } else {
                assert(enc_anchors_items(an)[0] == enc_anchor(an[0])[0]);
                assert(s[i + 1] == enc_anchors_items(an)[0]);
                assert(s[i + 1] == 0x5Bu8);
                let pre1 = pre + seq![0x5Bu8];
                assert(s =~= pre1 + enc_anchors_items(an) + seq![0x5Du8] + rest);
                lemma_parse_anchors_items_complete(pre1, an, rest);
            }
        }
    }
}

#[verifier::rlimit(100)]
#[verifier::spinoff_prover]
pub proof fn lemma_parse_anchors_sound(s: Seq<u8>, i: int)
    requires
        0 <= i <= s.len(),
        parse_anchors(s, i) is Some,
    ensures
        ({
            let (o, j) = parse_anchors(s, i)->Some_0;
            &&& i < j <= s.len()
            &&& s.subrange(i, j) == enc_anchors(o)
        }),
{
    match spec_match_lit(s, i, lit_null()) {
        Some(j) => {
        }
        None => {
            if i + 1 < s.len() && s[i + 1] == 0x5Du8 {
                let o = parse_anchors(s, i)->Some_0.0;
                assert(s.subrange(i, i + 2) =~= seq![s[i], s[i + 1]]);
                assert(enc_anchors(o) =~= seq![0x5Bu8, 0x5Du8]);
            } else {
                lemma_parse_anchors_items_sound(s, i + 1);
                let (an, j) = parse_anchors_items(s, i + 1)->Some_0;
                assert(s.subrange(i, j) =~= seq![s[i]] + s.subrange(i + 1, j));
                assert(s.subrange(i, j) =~= seq![0x5Bu8] + (enc_anchors_items(an) + seq![0x5Du8]));
                assert(s.subrange(i, j) =~= enc_anchors(Some(an)));
            }
        }
    }
}

#[verifier::rlimit(100)]
#[verifier::spinoff_prover]
pub proof fn lemma_parse_head_complete(
    pre: Seq<u8>,
    id: Seq<u8>,
    pow: Option<Seq<u8>>,
    exp: int,
    rest: Seq<u8>,
)
    requires
        crate::reid::valid_expiration(exp),
        rest.len() == 0 || !crate::digits::is_digit(rest[0]),
    ensures
        parse_head(pre + enc_head(id, pow, exp) + rest, pre.len() as int) == Some(
            ((id, pow, exp), pre.len() + enc_head(id, pow, exp).len() as int),
        ),
{
    let s = pre + enc_head(id, pow, exp) + rest;
    let g1 = lit_id();
    let g2 = enc_bytes(id);
    let g3 = lit_pow();
    let g4 = enc_opt_bytes(pow);
    let g5 = lit_expiration();
    let g6 = enc_i64(exp);
    let r6 = rest;
    let r5 = g6 + r6;
    let r4 = g5 + r5;
    let r3 = g4 + r4;
    let r2 = g3 + r3;
    let r1 = g2 + r2;
    let p1 = pre;
    let p2 = p1 + g1;
    let p3 = p2 + g2;
    let p4 = p3 + g3;
    let p5 = p4 + g4;
    let p6 = p5 + g5;
    assert(s =~= p1 + g1 + r1);
    assert(p1 + g1 + r1 =~= p2 + g2 + r2);
    assert(p2 + g2 + r2 =~= p3 + g3 + r3);
    assert(p3 + g3 + r3 =~= p4 + g4 + r4);
    assert(p4 + g4 + r4 =~= p5 + g5 + r5);
    assert(p5 + g5 + r5 =~= p6 + g6 + r6);
    lemma_match_lit_complete(p1, g1, r1);
    lemma_parse_bytes_complete(p2, id, r2);
    lemma_match_lit_complete(p3, g3, r3);
    lemma_parse_opt_bytes_complete(p4, pow, r4);
    lemma_match_lit_complete(p5, g5, r5);
    lemma_parse_expiration_complete(p6, exp, r6);
    assert(p6.len() + g6.len() == pre.len() + enc_head(id, pow, exp).len());
}

#[verifier::rlimit(100)]
#[verifier::spinoff_prover]
pub proof fn lemma_parse_head_sound(s: Seq<u8>, i: int)
    requires
        0 <= i <= s.len(),
        parse_head(s, i) is Some,
    ensures
        ({
            let ((id, pow, exp), j) = parse_head(s, i)->Some_0;
            &&& i < j <= s.len()
            &&& crate::reid::valid_expiration(exp)
            &&& s.subrange(i, j) == enc_head(id, pow, exp)
        }),
{
    let ((id, pow, exp), j) = parse_head(s, i)->Some_0;
    let i1 = spec_match_lit(s, i, lit_id())->Some_0;
    assert(s.subrange(i, i1) == lit_id());
    let (_, i2) = parse_bytes(s, i1)->Some_0;
    lemma_parse_bytes_sound(s, i1);
    let i3 = spec_match_lit(s, i2, lit_pow())->Some_0;
    assert(s.subrange(i2, i3) == lit_pow());
    let (_, i4) = parse_opt_bytes(s, i3)->Some_0;
    lemma_parse_opt_bytes_sound(s, i3);
    let i5 = spec_match_lit(s, i4, lit_expiration())->Some_0;
    assert(s.subrange(i4, i5) == lit_expiration());
    lemma_parse_expiration_sound(s, i5);
    assert(s.subrange(i, i2) =~= s.subrange(i, i1) + s.subrange(i1, i2));
    assert(s.subrange(i, i3) =~= s.subrange(i, i2) + s.subrange(i2, i3));
    assert(s.subrange(i, i4) =~= s.subrange(i, i3) + s.subrange(i3, i4));
    assert(s.subrange(i, i5) =~= s.subrange(i, i4) + s.subrange(i4, i5));
    assert(s.subrange(i, j) =~= s.subrange(i, i5) + s.subrange(i5, j));
    assert(s.subrange(i, j) =~= enc_head(id, pow, exp));
}

#[verifier::rlimit(100)]
#[verifier::spinoff_prover]
pub proof fn lemma_parse_rear_complete(
    pre: Seq<u8>,
    sig: Seq<u8>,
    claims: Option<Seq<(ClaimType, (KeyType, Seq<char>))>>,
    anchors: Option<Seq<(AnchorType, Seq<char>)>>,
    revoked: bool,
    rest: Seq<u8>,
)
    ensures
        parse_rear(pre + enc_rear(sig, claims, anchors, revoked) + rest, pre.len() as int)
            == Some(
            (
                (sig, claims, anchors, revoked),
                pre.len() + enc_rear(sig, claims, anchors, revoked).len() as int,
            ),
        ),
{
    let s = pre + enc_rear(sig, claims, anchors, revoked) + rest;
    let g1 = lit_sig();
    let g2 = enc_bytes(sig);
    let g3 = lit_claims();
    let g4 = enc_claims(claims);
    let g5 = lit_anchors();
    let g6 = enc_anchors(anchors);
    let g7 = lit_revoked();
    let g8 = enc_bool(revoked);
    let r8 = rest;
    let r7 = g8 + r8;
    let r6 = g7 + r7;
    let r5 = g6 + r6;
    let r4 = g5 + r5;
    let r3 = g4 + r4;
    let r2 = g3 + r3;
    let r1 = g2 + r2;
    let p1 = pre;
    let p2 = p1 + g1;
    let p3 = p2 + g2;
    let p4 = p3 + g3;
    let p5 = p4 + g4;
    let p6 = p5 + g5;
    let p7 = p6 + g6;
    let p8 = p7 + g7;
    assert(s =~= p1 + g1 + r1);
    assert(p1 + g1 + r1 =~= p2 + g2 + r2);
    assert(p2 + g2 + r2 =~= p3 + g3 + r3);
    assert(p3 + g3 + r3 =~= p4 + g4 + r4);
    assert(p4 + g4 + r4 =~= p5 + g5 + r5);
    assert(p5 + g5 + r5 =~= p6 + g6 + r6);
    assert(p6 + g6 + r6 =~= p7 + g7 + r7);
    assert(p7 + g7 + r7 =~= p8 + g8 + r8);
    lemma_match_lit_complete(p1, g1, r1);
    lemma_parse_bytes_complete(p2, sig, r2);
    lemma_match_lit_complete(p3, g3, r3);
    lemma_parse_claims_complete(p4, claims, r4);
    lemma_match_lit_complete(p5, g5, r5);
    lemma_parse_anchors_complete(p6, anchors, r6);
    lemma_match_lit_complete(p7, g7, r7);
    lemma_parse_bool_complete(p8, revoked, r8);
    assert(p8.len() + g8.len() == pre.len() + enc_rear(sig, claims, anchors, revoked).len());
}

#[verifier::rlimit(100)]
#[verifier::spinoff_prover]
pub proof fn lemma_parse_rear_sound(s: Seq<u8>, i: int)
    requires
        0 <= i <= s.len(),
        parse_rear(s, i) is Some,
    ensures
        ({
            let ((sig, claims, anchors, revoked), j) = parse_rear(s, i)->Some_0;
            &&& i < j <= s.len()
            &&& s.subrange(i, j) == enc_rear(sig, claims, anchors, revoked)
        }),
{
    let ((sig, claims, anchors, revoked), j) = parse_rear(s, i)->Some_0;
    let i7 = spec_match_lit(s, i, lit_sig())->Some_0;
    assert(s.subrange(i, i7) == lit_sig());
    let (_, i8) = parse_bytes(s, i7)->Some_0;
    lemma_parse_bytes_sound(s, i7);
    let i9 = spec_match_lit(s, i8, lit_claims())->Some_0;
    assert(s.subrange(i8, i9) == lit_claims());
    let (_, i10) = parse_claims(s, i9)->Some_0;
    lemma_parse_claims_sound(s, i9);
    let i11 = spec_match_lit(s, i10, lit_anchors())->Some_0;
    assert(s.subrange(i10, i11) == lit_anchors());
    let (_, i12) = parse_anchors(s, i11)->Some_0;
    lemma_parse_anchors_sound(s, i11);
    let i13 = spec_match_lit(s, i12, lit_revoked())->Some_0;
    assert(s.subrange(i12, i13) == lit_revoked());
    lemma_parse_bool_sound(s, i13);
    assert(s.subrange(i, i8) =~= s.subrange(i, i7) + s.subrange(i7, i8));
    assert(s.subrange(i, i9) =~= s.subrange(i, i8) + s.subrange(i8, i9));
    assert(s.subrange(i, i10) =~= s.subrange(i, i9) + s.subrange(i9, i10));
    assert(s.subrange(i, i11) =~= s.subrange(i, i10) + s.subrange(i10, i11));
    assert(s.subrange(i, i12) =~= s.subrange(i, i11) + s.subrange(i11, i12));
    assert(s.subrange(i, i13) =~= s.subrange(i, i12) + s.subrange(i12, i13));
    assert(s.subrange(i, j) =~= s.subrange(i, i13) + s.subrange(i13, j));
    assert(s.subrange(i, j) =~= enc_rear(sig, claims, anchors, revoked));
}

/// The rendering splits into its head, its rear and the closing brace.
#[verifier::rlimit(100)]
#[verifier::spinoff_prover]
pub proof fn lemma_json_split(r: ReidV)
    ensures
        json_of(r) == enc_head(r.id, r.pow, r.expiration) + enc_rear(
            r.sig,
            r.claims,
            r.anchors,
            r.revoked,
        ) + lit_close(),
{
    assert(json_of(r) =~= enc_head(r.id, r.pow, r.expiration) + enc_rear(
        r.sig,
        r.claims,
        r.anchors,
        r.revoked,
    ) + lit_close());
}

proof fn lemma_chunks(h: Seq<u8>, t: Seq<u8>, g: Seq<u8>)
    ensures
        h + t + g == Seq::<u8>::empty() + h + (t + g),
        h + t + g == (Seq::<u8>::empty() + h) + t + g,
        h + t + g == ((Seq::<u8>::empty() + h) + t) + g + Seq::<u8>::empty(),
        (Seq::<u8>::empty() + h).len() == h.len(),
        ((Seq::<u8>::empty() + h) + t).len() == h.len() + t.len(),
        t.len() > 0 ==> (t + g)[0] == t[0],
{
    assert(h + t + g =~= Seq::<u8>::empty() + h + (t + g));
    assert(h + t + g =~= (Seq::<u8>::empty() + h) + t + g);
    assert(h + t + g =~= ((Seq::<u8>::empty() + h) + t) + g + Seq::<u8>::empty());
}

/// Round trip: parsing the rendering of any well-formed record model
/// gives that model back, field for field.
#[verifier::rlimit(100)]
#[verifier::spinoff_prover]
pub proof fn lemma_json_round_trip(r: ReidV)
    requires
        r.wf(),
    ensures
        parse_record(json_of(r)) == Some(r),
{
    let s = json_of(r);
    let h = enc_head(r.id, r.pow, r.expiration);
    let t = enc_rear(r.sig, r.claims, r.anchors, r.revoked);
    let g = lit_close();
    lemma_json_split(r);
    lemma_chunks(h, t, g);
    let e = Seq::<u8>::empty();
    assert(t[0] == 0x2Cu8) by {
        assert(t == lit_sig() + enc_bytes(r.sig) + lit_claims() + enc_claims(r.claims)
            + lit_anchors() + enc_anchors(r.anchors) + lit_revoked() + enc_bool(r.revoked));
    }
    lemma_parse_head_complete(e, r.id, r.pow, r.expiration, t + g);
    assert(parse_head(s, 0) == Some(((r.id, r.pow, r.expiration), h.len() as int)));
    lemma_parse_rear_complete(e + h, r.sig, r.claims, r.anchors, r.revoked, g);
    assert(parse_rear(s, h.len() as int) == Some(
        ((r.sig, r.claims, r.anchors, r.revoked), h.len() + t.len() as int),
    ));
    lemma_match_lit_complete((e + h) + t, g, e);
    assert(spec_match_lit(s, h.len() + t.len() as int, g) == Some(
        h.len() + t.len() + g.len() as int,
    ));
    assert(h.len() + t.len() + g.len() == s.len());
}

/// Soundness: an accepted input is exactly the rendering of the record
/// returned, and that record is well-formed.
#[verifier::rlimit(100)]
#[verifier::spinoff_prover]
pub proof fn lemma_parse_record_sound(s: Seq<u8>)
    requires
        parse_record(s) is Some,
    ensures
        ({
            let r = parse_record(s)->Some_0;
            &&& json_of(r) == s
            &&& r.wf()
        }),
{
    let r = parse_record(s)->Some_0;
    let ((id, pow, exp), i) = parse_head(s, 0)->Some_0;
    assert(spec_match_lit(s, 0, lit_id()) is Some);
    lemma_parse_head_sound(s, 0);
    let ((sig, claims, anchors, revoked), j) = parse_rear(s, i)->Some_0;
    lemma_parse_rear_sound(s, i);
    let k = spec_match_lit(s, j, lit_close())->Some_0;
    assert(s.subrange(j, k) == lit_close());
    assert(k == s.len());
    assert(s.subrange(0, j) =~= s.subrange(0, i) + s.subrange(i, j));
    assert(s.subrange(0, k) =~= s.subrange(0, j) + s.subrange(j, k));
    assert(s.subrange(0, k) =~= s);
    assert(s == enc_head(id, pow, exp) + enc_rear(sig, claims, anchors, revoked) + lit_close());
    lemma_json_split(r);
    assert(json_of(r) == s);
}

// ---------------------------------------------------------------------
// The executable encoder.
// ---------------------------------------------------------------------

/// Rendering one more item extends the rendered items by a comma and
/// that item.
proof fn lemma_enc_bytes_items_push(u: Seq<u8>, x: u8)
    ensures
        enc_bytes_items(u.push(x)) == if u.len() == 0 {
            dec_digits(x as nat)
        } else {
            enc_bytes_items(u) + seq![0x2Cu8] + dec_digits(x as nat)
        },
    decreases u.len(),
{
    let w = u.push(x);
    if u.len() == 0 {
        assert(w.len() == 1 && w[0] == x);
    } else {
        assert(w.len() >= 2 && w[0] == u[0]);
        assert(w.drop_first() =~= u.drop_first().push(x));
        lemma_enc_bytes_items_push(u.drop_first(), x);
        if u.len() == 1 {
            assert(enc_bytes_items(w) =~= enc_bytes_items(u) + seq![0x2Cu8] + dec_digits(
                x as nat,
            ));
        } else {
            assert(enc_bytes_items(w) =~= enc_bytes_items(u) + seq![0x2Cu8] + dec_digits(
                x as nat,
            ));
        }
    }
}

proof fn lemma_enc_claims_items_push(u: Seq<(ClaimType, (KeyType, Seq<char>))>, x: (ClaimType, (KeyType, Seq<char>)))
    ensures
        enc_claims_items(u.push(x)) == if u.len() == 0 {
            enc_claim(x)
        } else {
            enc_claims_items(u) + seq![0x2Cu8] + enc_claim(x)
        },
    decreases u.len(),
{
    let w = u.push(x);
    if u.len() == 0 {
        assert(w.len() == 1 && w[0] == x);
    } else {
        assert(w.len() >= 2 && w[0] == u[0]);
        assert(w.drop_first() =~= u.drop_first().push(x));
        lemma_enc_claims_items_push(u.drop_first(), x);
        assert(enc_claims_items(w) =~= enc_claims_items(u) + seq![0x2Cu8] + enc_claim(x));
    }
}

proof fn lemma_enc_anchors_items_push(u: Seq<(AnchorType, Seq<char>)>, x: (AnchorType, Seq<char>))
    ensures
        enc_anchors_items(u.push(x)) == if u.len() == 0 {
            enc_anchor(x)
        } else {
            enc_anchors_items(u) + seq![0x2Cu8] + enc_anchor(x)
        },
    decreases u.len(),
{
    let w = u.push(x);
    if u.len() == 0 {
        assert(w.len() == 1 && w[0] == x);
    } else {
        assert(w.len() >= 2 && w[0] == u[0]);
        assert(w.drop_first() =~= u.drop_first().push(x));
        lemma_enc_anchors_items_push(u.drop_first(), x);
        assert(enc_anchors_items(w) =~= enc_anchors_items(u) + seq![0x2Cu8] + enc_anchor(x));
    }
}

/// Appends a byte sequence rendered as a decimal array.
fn push_bytes_list(out: &mut Vec<u8>, v: &[u8])
    ensures
        final(out)@ == old(out)@ + enc_bytes(v@),
{
    out.push(0x5B);
    let n = v.len();
    let mut i: usize = 0;
    while i < n
        invariant
            i <= n,
            n == v@.len(),
            out@ == old(out)@ + seq![0x5Bu8] + enc_bytes_items(v@.take(i as int)),
        decreases n - i,
    {
        if i > 0 {
            out.push(0x2C);
        }
        let b = v[i];
        crate::digits::push_u64_dec(out, b as u64);
        proof {
            assert(v@.take(i + 1) =~= v@.take(i as int).push(v@[i as int]));
            lemma_enc_bytes_items_push(v@.take(i as int), v@[i as int]);
            assert(out@ =~= old(out)@ + seq![0x5Bu8] + enc_bytes_items(v@.take(i + 1)));
        }
        i = i + 1;
    }
    out.push(0x5D);
    proof {
        assert(v@.take(n as int) =~= v@);
        assert(out@ =~= old(out)@ + enc_bytes(v@));
    }
}

/// Appends text rendered as the decimal array of its UTF-8 bytes.
fn push_string(out: &mut Vec<u8>, s: &str)
    ensures
        final(out)@ == old(out)@ + enc_string(s@),
{
    push_bytes_list(out, s.as_bytes());
}

/// Appends a timestamp in the accepted range.
fn push_expiration(out: &mut Vec<u8>, n: i64)
    requires
        crate::reid::valid_expiration(n as int),
    ensures
        final(out)@ == old(out)@ + enc_i64(n as int),
{
    if n < 0 {
        out.push(0x2D);
        crate::digits::push_u64_dec(out, (-n) as u64);
        proof {
            assert(out@ =~= old(out)@ + enc_i64(n as int));
        }
    } else {
        crate::digits::push_u64_dec(out, n as u64);
    }
}

fn push_lit(out: &mut Vec<u8>, l: &Vec<u8>)
    ensures
        final(out)@ == old(out)@ + l@,
{
    let n = l.len();
    let mut i: usize = 0;
    while i < n
        invariant
            i <= n,
            n == l@.len(),
            out@ == old(out)@ + l@.take(i as int),
        decreases n - i,
    {
        out.push(l[i]);
        proof {
            assert(l@.take(i + 1) =~= l@.take(i as int).push(l@[i as int]));
            assert(out@ =~= old(out)@ + l@.take(i + 1));
        }
        i = i + 1;
    }
    proof {
        assert(l@.take(n as int) =~= l@);
    }
}

fn lit_null_vec() -> (v: Vec<u8>)
    ensures
        v@ == lit_null(),
{
    let mut v: Vec<u8> = Vec::new();
    v.push(0x6E);
    v.push(0x75);
    v.push(0x6C);
    v.push(0x6C);
    proof {
        assert(v@ =~= lit_null());
    }
    v
}

/// Appends `null` or a decimal array.
fn push_opt_bytes(out: &mut Vec<u8>, o: &Option<Vec<u8>>)
    ensures
        final(out)@ == old(out)@ + enc_opt_bytes(crate::reid::opt_bytes_view(*o)),
{
    match o {
        None => {
            let l = lit_null_vec();
            push_lit(out, &l);
        }
        Some(v) => {
            push_bytes_list(out, v.as_slice());
        }
    }
}

/// Appends one claim.
fn push_claim(out: &mut Vec<u8>, c: &(ClaimType, (KeyType, String)))
    ensures
        final(out)@ == old(out)@ + enc_claim(crate::reid::claim_view(*c)),
{
    out.push(0x5B);
    crate::digits::push_u64_dec(out, crate::common::claim_tag(c.0) as u64);
    out.push(0x2C);
    crate::digits::push_u64_dec(out, crate::common::key_tag(c.1.0) as u64);
    out.push(0x2C);
    push_string(out, c.1.1.as_str());
    out.push(0x5D);
    proof {
        assert(out@ =~= old(out)@ + enc_claim(crate::reid::claim_view(*c)));
    }
}

/// Appends `null` or the claims array.
fn push_claims(out: &mut Vec<u8>, o: &Option<Vec<(ClaimType, (KeyType, String))>>)
    ensures
        final(out)@ == old(out)@ + enc_claims(crate::reid::claims_view(*o)),
{
    match o {
        None => {
            let l = lit_null_vec();
            push_lit(out, &l);
        }
        Some(v) => {
            let ghost m = v@.map_values(|cl: (ClaimType, (KeyType, String))|
                crate::reid::claim_view(cl));
            out.push(0x5B);
            let n = v.len();
            let mut i: usize = 0;
            while i < n
                invariant
                    i <= n,
                    n == v@.len(),
                    m == v@.map_values(|cl: (ClaimType, (KeyType, String))|
                        crate::reid::claim_view(cl)),
                    m.len() == n,
                    forall|k: int| 0 <= k < n ==> m[k] == crate::reid::claim_view(#[trigger] v@[k]),
                    out@ == old(out)@ + seq![0x5Bu8] + enc_claims_items(m.take(i as int)),
                decreases n - i,
            {
                if i > 0 {
                    out.push(0x2C);
                }
                push_claim(out, &v[i]);
                proof {
                    assert(m.take(i + 1) =~= m.take(i as int).push(m[i as int]));
                    lemma_enc_claims_items_push(m.take(i as int), m[i as int]);
                    assert(out@ =~= old(out)@ + seq![0x5Bu8] + enc_claims_items(m.take(i + 1)));
                }
                i = i + 1;
            }
            out.push(0x5D);
            proof {
                assert(m.take(n as int) =~= m);
                assert(out@ =~= old(out)@ + enc_claims(crate::reid::claims_view(*o)));
            }
        }
    }
}

/// Appends one anchor.
fn push_anchor(out: &mut Vec<u8>, a: &(AnchorType, String))
    ensures
        final(out)@ == old(out)@ + enc_anchor(crate::reid::anchor_view(*a)),
{
    out.push(0x5B);
    crate::digits::push_u64_dec(out, crate::common::anchor_tag(a.0) as u64);
    out.push(0x2C);
    push_string(out, a.1.as_str());
    out.push(0x5D);
    proof {
        assert(out@ =~= old(out)@ + enc_anchor(crate::reid::anchor_view(*a)));
    }
}

/// Appends `null` or the anchors array.
fn push_anchors(out: &mut Vec<u8>, o: &Option<Vec<(AnchorType, String)>>)
    ensures
        final(out)@ == old(out)@ + enc_anchors(crate::reid::anchors_view(*o)),
{
    match o {
        None => {
            let l = lit_null_vec();
            push_lit(out, &l);
        }
        Some(v) => {
            let ghost m = v@.map_values(|an: (AnchorType, String)| crate::reid::anchor_view(an));
            out.push(0x5B);
            let n = v.len();
            let mut i: usize = 0;
            while i < n
                invariant
                    i <= n,
                    n == v@.len(),
                    m == v@.map_values(|an: (AnchorType, String)| crate::reid::anchor_view(an)),
                    m.len() == n,
                    forall|k: int| 0 <= k < n ==> m[k] == crate::reid::anchor_view(
                        #[trigger] v@[k],
                    ),
                    out@ == old(out)@ + seq![0x5Bu8] + enc_anchors_items(m.take(i as int)),
                decreases n - i,
            {
                if i > 0 {
                    out.push(0x2C);
                }
                push_anchor(out, &v[i]);
                proof {
                    assert(m.take(i + 1) =~= m.take(i as int).push(m[i as int]));
                    lemma_enc_anchors_items_push(m.take(i as int), m[i as int]);
                    assert(out@ =~= old(out)@ + seq![0x5Bu8] + enc_anchors_items(m.take(i + 1)));
                }
                i = i + 1;
            }
            out.push(0x5D);
            proof {
                assert(m.take(n as int) =~= m);
                assert(out@ =~= old(out)@ + enc_anchors(crate::reid::anchors_view(*o)));
            }
        }
    }
}

/// Appends `true` or `false`.
fn push_bool(out: &mut Vec<u8>, b: bool)
    ensures
        final(out)@ == old(out)@ + enc_bool(b),
{
    if b {
        out.push(0x74);
        out.push(0x72);
        out.push(0x75);
        out.push(0x65);
        proof {
            assert(out@ =~= old(out)@ + lit_true());
        }
    } else {
        out.push(0x66);
        out.push(0x61);
        out.push(0x6C);
        out.push(0x73);
        out.push(0x65);
        proof {
            assert(out@ =~= old(out)@ + lit_false());
        }
    }
}

fn lit_id_vec() -> (v: Vec<u8>)
    ensures
        v@ == lit_id(),
{
    let mut v: Vec<u8> = Vec::new();
    v.push(0x7B);
    v.push(0x22);
    v.push(0x69);
    v.push(0x64);
    v.push(0x22);
    v.push(0x3A);
    proof {
        assert(v@ =~= lit_id());
    }
    v
}

fn lit_pow_vec() -> (v: Vec<u8>)
    ensures
        v@ == lit_pow(),
{
    let mut v: Vec<u8> = Vec::new();
    v.push(0x2C);
    v.push(0x22);
    v.push(0x70);
    v.push(0x6F);
    v.push(0x77);
    v.push(0x22);
    v.push(0x3A);
    proof {
        assert(v@ =~= lit_pow());
    }
    v
}

fn lit_expiration_vec() -> (v: Vec<u8>)
    ensures
        v@ == lit_expiration(),
{
    let mut v: Vec<u8> = Vec::new();
    v.push(0x2C);
    v.push(0x22);
    v.push(0x65);
    v.push(0x78);
    v.push(0x70);
    v.push(0x69);
    v.push(0x72);
    v.push(0x61);
    v.push(0x74);
    v.push(0x69);
    v.push(0x6F);
    v.push(0x6E);
    v.push(0x22);
    v.push(0x3A);
    proof {
        assert(v@ =~= lit_expiration());
    }
    v
}

fn lit_sig_vec() -> (v: Vec<u8>)
    ensures
        v@ == lit_sig(),
{
    let mut v: Vec<u8> = Vec::new();
    v.push(0x2C);
    v.push(0x22);
    v.push(0x73);
    v.push(0x69);
    v.push(0x67);
    v.push(0x22);
    v.push(0x3A);
    proof {
        assert(v@ =~= lit_sig());
    }
    v
}

fn lit_claims_vec() -> (v: Vec<u8>)
    ensures
        v@ == lit_claims(),
{
    let mut v: Vec<u8> = Vec::new();
    v.push(0x2C);
    v.push(0x22);
    v.push(0x63);
    v.push(0x6C);
    v.push(0x61);
    v.push(0x69);
    v.push(0x6D);
    v.push(0x73);
    v.push(0x22);
    v.push(0x3A);
    proof {
        assert(v@ =~= lit_claims());
    }
    v
}

fn lit_anchors_vec() -> (v: Vec<u8>)
    ensures
        v@ == lit_anchors(),
{
    let mut v: Vec<u8> = Vec::new();
    v.push(0x2C);
    v.push(0x22);
    v.push(0x61);
    v.push(0x6E);
    v.push(0x63);
    v.push(0x68);
    v.push(0x6F);
    v.push(0x72);
    v.push(0x73);
    v.push(0x22);
    v.push(0x3A);
    proof {
        assert(v@ =~= lit_anchors());
    }
    v
}

fn lit_revoked_vec() -> (v: Vec<u8>)
    ensures
        v@ == lit_revoked(),
{
    let mut v: Vec<u8> = Vec::new();
    v.push(0x2C);
    v.push(0x22);
    v.push(0x72);
    v.push(0x65);
    v.push(0x76);
    v.push(0x6F);
    v.push(0x6B);
    v.push(0x65);
    v.push(0x64);
    v.push(0x22);
    v.push(0x3A);
    proof {
        assert(v@ =~= lit_revoked());
    }
    v
}

impl crate::reid::Reid {
    /// Renders the record as its canonical textual form.
    #[verifier::rlimit(100)]
    pub fn to_json(&self) -> (out: Vec<u8>)
        requires
            self@.wf(),
        ensures
            out@ == json_of(self@),
    {
        let mut out: Vec<u8> = Vec::new();
        let l1 = lit_id_vec();
        push_lit(&mut out, &l1);
        push_bytes_list(&mut out, self.id_ref().as_slice());
        let l2 = lit_pow_vec();
        push_lit(&mut out, &l2);
        push_opt_bytes(&mut out, self.pow_ref());
        let l3 = lit_expiration_vec();
        push_lit(&mut out, &l3);
        push_expiration(&mut out, self.expiration_value());
        let l4 = lit_sig_vec();
        push_lit(&mut out, &l4);
        push_bytes_list(&mut out, self.sig_ref().as_slice());
        let l5 = lit_claims_vec();
        push_lit(&mut out, &l5);
        push_claims(&mut out, self.claims_ref());
        let l6 = lit_anchors_vec();
        push_lit(&mut out, &l6);
        push_anchors(&mut out, self.anchors_ref());
        let l7 = lit_revoked_vec();
        push_lit(&mut out, &l7);
        push_bool(&mut out, self.revoked_value());
        out.push(0x7D);
        proof {
            assert(out@ =~= json_of(self@));
        }
        out
    }
}

// ---------------------------------------------------------------------
// The executable parser.
// ---------------------------------------------------------------------

fn lit_true_vec() -> (v: Vec<u8>)
    ensures
        v@ == lit_true(),
{
    let mut v: Vec<u8> = Vec::new();
    v.push(0x74);
    v.push(0x72);
    v.push(0x75);
    v.push(0x65);
    proof {
        assert(v@ =~= lit_true());
    }
    v
}

fn lit_false_vec() -> (v: Vec<u8>)
    ensures
        v@ == lit_false(),
{
    let mut v: Vec<u8> = Vec::new();
    v.push(0x66);
    v.push(0x61);
    v.push(0x6C);
    v.push(0x73);
    v.push(0x65);
    proof {
        assert(v@ =~= lit_false());
    }
    v
}

/// Matches a fixed literal at position `i`.
fn match_lit_exec(s: &Vec<u8>, i: usize, l: &Vec<u8>) -> (r: Option<usize>)
    requires
        i <= s@.len(),
    ensures
        match r {
            Some(j) => spec_match_lit(s@, i as int, l@) == Some(j as int) && i <= j <= s@.len(),
            None => spec_match_lit(s@, i as int, l@) is None,
        },
{
    let ll = l.len();
    let len = s.len();
    if ll > len - i {
        return None;
    }
    let mut k: usize = 0;
    while k < ll
        invariant
            0 <= k <= ll,
            ll == l@.len(),
            len == s@.len(),
            i + ll <= len,
            forall|p: int| 0 <= p < k ==> s@[i + p] == l@[p],
        decreases ll - k,
    {
        if s[i + k] != l[k] {
            proof {
                assert(s@.subrange(i as int, i + ll)[k as int] == s@[i + k]);
                assert(s@.subrange(i as int, i + ll) != l@);
            }
            return None;
        }
        k = k + 1;
    }
    proof {
        assert(s@.subrange(i as int, i + ll) =~= l@);
    }
    Some(i + ll)
}

/// Parses the nonempty items of a decimal array.
fn parse_bytes_items_exec(s: &Vec<u8>, start: usize) -> (r: Option<(Vec<u8>, usize)>)
    requires
        start <= s@.len(),
    ensures
        match r {
            Some((b, j)) => parse_bytes_items(s@, start as int) == Some((b@, j as int)) && start
                < j <= s@.len(),
            None => parse_bytes_items(s@, start as int) is None,
        },
{
    let len = s.len();
    let mut acc: Vec<u8> = Vec::new();
    let mut pos = start;
    proof {
        if parse_bytes_items(s@, start as int) is Some {
            lemma_parse_bytes_items_sound(s@, start as int);
            let (tail, k) = parse_bytes_items(s@, start as int)->Some_0;
            assert(Seq::<u8>::empty() + tail =~= tail);
        }
    }
    loop
        invariant
            start <= pos <= len,
            len == s@.len(),
            match parse_bytes_items(s@, pos as int) {
                Some((tail, k)) => parse_bytes_items(s@, start as int) == Some(
                    (acc@ + tail, k),
                ) && pos < k <= len,
                None => parse_bytes_items(s@, start as int) is None,
            },
        decreases len - pos,
    {
        match crate::digits::parse_nat_run(s, pos, 255) {
            None => {
                return None;
            }
            Some((v, j)) => {
                if j < len && s[j] == 0x5D {
                    acc.push(v as u8);
                    proof {
                        assert(parse_bytes_items(s@, pos as int) == Some(
                            (seq![v as u8], j + 1 as int),
                        ));
                        assert(acc@ =~= acc@.drop_last() + seq![v as u8]);
                    }
                    return Some((acc, j + 1));
                } else if j < len && s[j] == 0x2C {
                    acc.push(v as u8);
                    proof {
                        let ghost prev = acc@.drop_last();
                        assert(acc@ =~= prev + seq![v as u8]);
                        match parse_bytes_items(s@, j + 1 as int) {
                            Some((tail, k)) => {
                                lemma_parse_bytes_items_sound(s@, j + 1 as int);
                                assert(parse_bytes_items(s@, pos as int) == Some(
                                    (seq![v as u8] + tail, k),
                                ));
                                assert(prev + (seq![v as u8] + tail) =~= acc@ + tail);
                            }
                            None => {
                                assert(parse_bytes_items(s@, pos as int) is None);
                            }
                        }
                    }
                    pos = j + 1;
                } else {
                    proof {
                        assert(parse_bytes_items(s@, pos as int) is None);
                    }
                    return None;
                }
            }
        }
    }
}

/// Parses a decimal array.
fn parse_bytes_exec(s: &Vec<u8>, i: usize) -> (r: Option<(Vec<u8>, usize)>)
    requires
        i <= s@.len(),
    ensures
        match r {
            Some((b, j)) => parse_bytes(s@, i as int) == Some((b@, j as int)) && i < j
                <= s@.len(),
            None => parse_bytes(s@, i as int) is None,
        },
{
    let len = s.len();
    if i < len && s[i] == 0x5B {
        if i + 1 < len && s[i + 1] == 0x5D {
            let b: Vec<u8> = Vec::new();
            proof {
                assert(b@ =~= Seq::<u8>::empty());
            }
            Some((b, i + 2))
        } else {
            parse_bytes_items_exec(s, i + 1)
        }
    } else {
        None
    }
}

/// Parses `null` or a decimal array.
fn parse_opt_bytes_exec(s: &Vec<u8>, i: usize) -> (r: Option<(Option<Vec<u8>>, usize)>)
    requires
        i <= s@.len(),
    ensures
        match r {
            Some((o, j)) => parse_opt_bytes(s@, i as int) == Some(
                (crate::reid::opt_bytes_view(o), j as int),
            ) && i <= j <= s@.len(),
            None => parse_opt_bytes(s@, i as int) is None,
        },
{
    let nul = lit_null_vec();
    match match_lit_exec(s, i, &nul) {
        Some(j) => Some((None, j)),
        None => match parse_bytes_exec(s, i) {
            Some((b, j)) => Some((Some(b), j)),
            None => None,
        },
    }
}

/// Parses a timestamp in the accepted expiration range.
fn parse_expiration_exec(s: &Vec<u8>, i: usize) -> (r: Option<(i64, usize)>)
    requires
        i <= s@.len(),
    ensures
        match r {
            Some((n, j)) => parse_expiration(s@, i as int) == Some((n as int, j as int)) && i < j
                <= s@.len(),
            None => parse_expiration(s@, i as int) is None,
        },
{
    let len = s.len();
    if i < len && s[i] == 0x2D {
        match crate::digits::parse_nat_run(s, i + 1, 62167219200u64) {
            None => None,
            Some((v, j)) => if v > 0 {
                Some((-(v as i64), j))
            } else {
                None
            },
        }
    } else {
        match crate::digits::parse_nat_run(s, i, 253402300799u64) {
            None => None,
            Some((v, j)) => Some((v as i64, j)),
        }
    }
}

/// Parses text: a decimal array holding valid UTF-8.
fn parse_string_exec(s: &Vec<u8>, i: usize) -> (r: Option<(String, usize)>)
    requires
        i <= s@.len(),
    ensures
        match r {
            Some((t, j)) => parse_string(s@, i as int) == Some((t@, j as int)) && i < j
                <= s@.len(),
            None => parse_string(s@, i as int) is None,
        },
{
    match parse_bytes_exec(s, i) {
        None => None,
        Some((b, j)) => match crate::crypto::string_from_utf8(b) {
            None => None,
            Some(t) => Some((t, j)),
        },
    }
}

/// Parses one claim.
fn parse_claim_exec(s: &Vec<u8>, i: usize) -> (r: Option<((ClaimType, (KeyType, String)), usize)>)
    requires
        i <= s@.len(),
    ensures
        match r {
            Some((c, j)) => parse_claim(s@, i as int) == Some(
                (crate::reid::claim_view(c), j as int),
            ) && i < j <= s@.len(),
            None => parse_claim(s@, i as int) is None,
        },
{
    let len = s.len();
    if !(i < len && s[i] == 0x5B) {
        return None;
    }
    let (ct, j) = match crate::digits::parse_nat_run(s, i + 1, 255) {
        None => {
            return None;
        }
        Some(p) => p,
    };
    if !(j < len && s[j] == 0x2C) {
        return None;
    }
    let (kt, k) = match crate::digits::parse_nat_run(s, j + 1, 255) {
        None => {
            return None;
        }
        Some(p) => p,
    };
    if !(k < len && s[k] == 0x2C) {
        return None;
    }
    let (v, m) = match parse_string_exec(s, k + 1) {
        None => {
            return None;
        }
        Some(p) => p,
    };
    if !(m < len && s[m] == 0x5D) {
        return None;
    }
    let c = match crate::common::claim_of_tag(ct as u8) {
        None => {
            return None;
        }
        Some(c) => c,
    };
    let kty = match crate::common::key_of_tag(kt as u8) {
        None => {
            return None;
        }
        Some(k) => k,
    };
    Some(((c, (kty, v)), m + 1))
}

/// Parses one anchor.
fn parse_anchor_exec(s: &Vec<u8>, i: usize) -> (r: Option<((AnchorType, String), usize)>)
    requires
        i <= s@.len(),
    ensures
        match r {
            Some((a, j)) => parse_anchor(s@, i as int) == Some(
                (crate::reid::anchor_view(a), j as int),
            ) && i < j <= s@.len(),
            None => parse_anchor(s@, i as int) is None,
        },
{
    let len = s.len();
    if !(i < len && s[i] == 0x5B) {
        return None;
    }
    let (at, j) = match crate::digits::parse_nat_run(s, i + 1, 255) {
        None => {
            return None;
        }
        Some(p) => p,
    };
    if !(j < len && s[j] == 0x2C) {
        return None;
    }
    let (v, m) = match parse_string_exec(s, j + 1) {
        None => {
            return None;
        }
        Some(p) => p,
    };
    if !(m < len && s[m] == 0x5D) {
        return None;
    }
    let a = match crate::common::anchor_of_tag(at as u8) {
        None => {
            return None;
        }
        Some(a) => a,
    };
    Some(((a, v), m + 1))
}

/// Parses the nonempty items of a claims array.
fn parse_claims_items_exec(s: &Vec<u8>, start: usize) -> (r: Option<
    (Vec<(ClaimType, (KeyType, String))>, usize),
>)
    requires
        start <= s@.len(),
    ensures
        match r {
            Some((cs, j)) => parse_claims_items(s@, start as int) == Some(
                (
                    cs@.map_values(
                        |cl: (ClaimType, (KeyType, String))| crate::reid::claim_view(cl),
                    ),
                    j as int,
                ),
            ) && start < j <= s@.len(),
            None => parse_claims_items(s@, start as int) is None,
        },
{
    let len = s.len();
    let mut acc: Vec<(ClaimType, (KeyType, String))> = Vec::new();
    let mut pos = start;
    proof {
        if parse_claims_items(s@, start as int) is Some {
            lemma_parse_claims_items_sound(s@, start as int);
            let (tail, k) = parse_claims_items(s@, start as int)->Some_0;
            assert(acc@.map_values(
                |cl: (ClaimType, (KeyType, String))| crate::reid::claim_view(cl),
            ) + tail =~= tail);
        }
    }
    loop
        invariant
            start <= pos <= len,
            len == s@.len(),
            match parse_claims_items(s@, pos as int) {
                Some((tail, k)) => parse_claims_items(s@, start as int) == Some(
                    (
                        acc@.map_values(
                            |cl: (ClaimType, (KeyType, String))| crate::reid::claim_view(cl),
                        ) + tail,
                        k,
                    ),
                ) && pos < k <= len,
                None => parse_claims_items(s@, start as int) is None,
            },
        decreases len - pos,
    {
        let ghost f = |cl: (ClaimType, (KeyType, String))| crate::reid::claim_view(cl);
        match parse_claim_exec(s, pos) {
            None => {
                return None;
            }
            Some((c, j)) => {
                if j < len && s[j] == 0x5D {
                    proof {
                        assert(parse_claims_items(s@, pos as int) == Some(
                            (seq![crate::reid::claim_view(c)], j + 1 as int),
                        ));
                    }
                    let ghost prev = acc@;
                    acc.push(c);
                    proof {
                        assert(acc@ =~= prev.push(c));
                        assert(acc@.map_values(f) =~= prev.map_values(f) + seq![
                            crate::reid::claim_view(c),
                        ]);
                    }
                    return Some((acc, j + 1));
                } else if j < len && s[j] == 0x2C {
                    let ghost prev = acc@;
                    acc.push(c);
                    proof {
                        assert(acc@ =~= prev.push(c));
                        assert(acc@.map_values(f) =~= prev.map_values(f) + seq![
                            crate::reid::claim_view(c),
                        ]);
                        match parse_claims_items(s@, j + 1 as int) {
                            Some((tail, k)) => {
                                lemma_parse_claims_items_sound(s@, j + 1 as int);
                                assert(parse_claims_items(s@, pos as int) == Some(
                                    (seq![crate::reid::claim_view(c)] + tail, k),
                                ));
                                assert(prev.map_values(f) + (seq![crate::reid::claim_view(c)]
                                    + tail) =~= acc@.map_values(f) + tail);
                            }
                            None => {
                                assert(parse_claims_items(s@, pos as int) is None);
                            }
                        }
                    }
                    pos = j + 1;
                } else {
                    proof {
                        assert(parse_claims_items(s@, pos as int) is None);
                    }
                    return None;
                }
            }
        }
    }
}

/// Parses the nonempty items of an anchors array.
fn parse_anchors_items_exec(s: &Vec<u8>, start: usize) -> (r: Option<
    (Vec<(AnchorType, String)>, usize),
>)
    requires
        start <= s@.len(),
    ensures
        match r {
            Some((an, j)) => parse_anchors_items(s@, start as int) == Some(
                (
                    an@.map_values(|a: (AnchorType, String)| crate::reid::anchor_view(a)),
                    j as int,
                ),
            ) && start < j <= s@.len(),
            None => parse_anchors_items(s@, start as int) is None,
        },
{
    let len = s.len();
    let mut acc: Vec<(AnchorType, String)> = Vec::new();
    let mut pos = start;
    proof {
        if parse_anchors_items(s@, start as int) is Some {
            lemma_parse_anchors_items_sound(s@, start as int);
            let (tail, k) = parse_anchors_items(s@, start as int)->Some_0;
            assert(acc@.map_values(|a: (AnchorType, String)| crate::reid::anchor_view(a)) + tail
                =~= tail);
        }
    }
    loop
        invariant
            start <= pos <= len,
            len == s@.len(),
            match parse_anchors_items(s@, pos as int) {
                Some((tail, k)) => parse_anchors_items(s@, start as int) == Some(
                    (
                        acc@.map_values(|a: (AnchorType, String)| crate::reid::anchor_view(a))
                            + tail,
                        k,
                    ),
                ) && pos < k <= len,
                None => parse_anchors_items(s@, start as int) is None,
            },
        decreases len - pos,
    {
        let ghost f = |a: (AnchorType, String)| crate::reid::anchor_view(a);
        match parse_anchor_exec(s, pos) {
            None => {
                return None;
            }
            Some((a, j)) => {
                if j < len && s[j] == 0x5D {
                    proof {
                        assert(parse_anchors_items(s@, pos as int) == Some(
                            (seq![crate::reid::anchor_view(a)], j + 1 as int),
                        ));
                    }
                    let ghost prev = acc@;
                    acc.push(a);
                    proof {
                        assert(acc@ =~= prev.push(a));
                        assert(acc@.map_values(f) =~= prev.map_values(f) + seq![
                            crate::reid::anchor_view(a),
                        ]);
                    }
                    return Some((acc, j + 1));
                } else if j < len && s[j] == 0x2C {
                    let ghost prev = acc@;
                    acc.push(a);
                    proof {
                        assert(acc@ =~= prev.push(a));
                        assert(acc@.map_values(f) =~= prev.map_values(f) + seq![
                            crate::reid::anchor_view(a),
                        ]);
                        match parse_anchors_items(s@, j + 1 as int) {
                            Some((tail, k)) => {
                                lemma_parse_anchors_items_sound(s@, j + 1 as int);
                                assert(parse_anchors_items(s@, pos as int) == Some(
                                    (seq![crate::reid::anchor_view(a)] + tail, k),
                                ));
                                assert(prev.map_values(f) + (seq![crate::reid::anchor_view(a)]
                                    + tail) =~= acc@.map_values(f) + tail);
                            }
                            None => {
                                assert(parse_anchors_items(s@, pos as int) is None);
                            }
                        }
                    }
                    pos = j + 1;
                } else {
                    proof {
                        assert(parse_anchors_items(s@, pos as int) is None);
                    }
                    return None;
                }
            }
        }
    }
}

/// Parses `null` or a claims array.
fn parse_claims_exec(s: &Vec<u8>, i: usize) -> (r: Option<
    (Option<Vec<(ClaimType, (KeyType, String))>>, usize),
>)
    requires
        i <= s@.len(),
    ensures
        match r {
            Some((o, j)) => parse_claims(s@, i as int) == Some(
                (crate::reid::claims_view(o), j as int),
            ) && i <= j <= s@.len(),
            None => parse_claims(s@, i as int) is None,
        },
{
    let len = s.len();
    let nul = lit_null_vec();
    match match_lit_exec(s, i, &nul) {
        Some(j) => Some((None, j)),
        None => {
            if i < len && s[i] == 0x5B {
                if i + 1 < len && s[i + 1] == 0x5D {
                    let cs: Vec<(ClaimType, (KeyType, String))> = Vec::new();
                    proof {
                        assert(cs@.map_values(
                            |cl: (ClaimType, (KeyType, String))| crate::reid::claim_view(cl),
                        ) =~= Seq::<(ClaimType, (KeyType, Seq<char>))>::empty());
                    }
                    Some((Some(cs), i + 2))
                } else {
                    match parse_claims_items_exec(s, i + 1) {
                        None => None,
                        Some((cs, j)) => Some((Some(cs), j)),
                    }
                }
            } else {
                None
            }
        }
    }
}

/// Parses `null` or an anchors array.
fn parse_anchors_exec(s: &Vec<u8>, i: usize) -> (r: Option<
    (Option<Vec<(AnchorType, String)>>, usize),
>)
    requires
        i <= s@.len(),
    ensures
        match r {
            Some((o, j)) => parse_anchors(s@, i as int) == Some(
                (crate::reid::anchors_view(o), j as int),
            ) && i <= j <= s@.len(),
            None => parse_anchors(s@, i as int) is None,
        },
{
    let len = s.len();
    let nul = lit_null_vec();
    match match_lit_exec(s, i, &nul) {
        Some(j) => Some((None, j)),
        None => {
            if i < len && s[i] == 0x5B {
                if i + 1 < len && s[i + 1] == 0x5D {
                    let an: Vec<(AnchorType, String)> = Vec::new();
                    proof {
                        assert(an@.map_values(
                            |a: (AnchorType, String)| crate::reid::anchor_view(a),
                        ) =~= Seq::<(AnchorType, Seq<char>)>::empty());
                    }
                    Some((Some(an), i + 2))
                } else {
                    match parse_anchors_items_exec(s, i + 1) {
                        None => None,
                        Some((an, j)) => Some((Some(an), j)),
                    }
                }
            } else {
                None
            }
        }
    }
}

/// Parses `true` or `false`.
fn parse_bool_exec(s: &Vec<u8>, i: usize) -> (r: Option<(bool, usize)>)
    requires
        i <= s@.len(),
    ensures
        match r {
            Some((b, j)) => parse_bool(s@, i as int) == Some((b, j as int)) && i < j <= s@.len(),
            None => parse_bool(s@, i as int) is None,
        },
{
    let t = lit_true_vec();
    match match_lit_exec(s, i, &t) {
        Some(j) => Some((true, j)),
        None => {
            let f = lit_false_vec();
            match match_lit_exec(s, i, &f) {
                Some(j) => Some((false, j)),
                None => None,
            }
        }
    }
}

/// Parses the record's first fields.
fn parse_head_exec(s: &Vec<u8>) -> (r: Option<((Vec<u8>, Option<Vec<u8>>, i64), usize)>)
    ensures
        match r {
            Some(((id, pow, exp), j)) => parse_head(s@, 0) == Some(
                ((id@, crate::reid::opt_bytes_view(pow), exp as int), j as int),
            ) && j <= s@.len(),
            None => parse_head(s@, 0) is None,
        },
{
    let l1 = lit_id_vec();
    let i1 = match match_lit_exec(s, 0, &l1) {
        None => {
            return None;
        }
        Some(p) => p,
    };
    let (id, i2) = match parse_bytes_exec(s, i1) {
        None => {
            return None;
        }
        Some(p) => p,
    };
    let l2 = lit_pow_vec();
    let i3 = match match_lit_exec(s, i2, &l2) {
        None => {
            return None;
        }
        Some(p) => p,
    };
    let (pow, i4) = match parse_opt_bytes_exec(s, i3) {
        None => {
            return None;
        }
        Some(p) => p,
    };
    let l3 = lit_expiration_vec();
    let i5 = match match_lit_exec(s, i4, &l3) {
        None => {
            return None;
        }
        Some(p) => p,
    };
    let (exp, i6) = match parse_expiration_exec(s, i5) {
        None => {
            return None;
        }
        Some(p) => p,
    };
    Some(((id, pow, exp), i6))
}

/// Parses the record's last fields.
fn parse_rear_exec(s: &Vec<u8>, i: usize) -> (r: Option<
    (
        (
            Vec<u8>,
            Option<Vec<(ClaimType, (KeyType, String))>>,
            Option<Vec<(AnchorType, String)>>,
            bool,
        ),
        usize,
    ),
>)
    requires
        i <= s@.len(),
    ensures
        match r {
            Some(((sig, claims, anchors, revoked), j)) => parse_rear(s@, i as int) == Some(
                (
                    (
                        sig@,
                        crate::reid::claims_view(claims),
                        crate::reid::anchors_view(anchors),
                        revoked,
                    ),
                    j as int,
                ),
            ) && j <= s@.len(),
            None => parse_rear(s@, i as int) is None,
        },
{
    let l4 = lit_sig_vec();
    let i7 = match match_lit_exec(s, i, &l4) {
        None => {
            return None;
        }
        Some(p) => p,
    };
    let (sig, i8) = match parse_bytes_exec(s, i7) {
        None => {
            return None;
        }
        Some(p) => p,
    };
    let l5 = lit_claims_vec();
    let i9 = match match_lit_exec(s, i8, &l5) {
        None => {
            return None;
        }
        Some(p) => p,
    };
    let (claims, i10) = match parse_claims_exec(s, i9) {
        None => {
            return None;
        }
        Some(p) => p,
    };
    let l6 = lit_anchors_vec();
    let i11 = match match_lit_exec(s, i10, &l6) {
        None => {
            return None;
        }
        Some(p) => p,
    };
    let (anchors, i12) = match parse_anchors_exec(s, i11) {
        None => {
            return None;
        }
        Some(p) => p,
    };
    let l7 = lit_revoked_vec();
    let i13 = match match_lit_exec(s, i12, &l7) {
        None => {
            return None;
        }
        Some(p) => p,
    };
    let (revoked, i14) = match parse_bool_exec(s, i13) {
        None => {
            return None;
        }
        Some(p) => p,
    };
    Some(((sig, claims, anchors, revoked), i14))
}

fn lit_close_vec() -> (v: Vec<u8>)
    ensures
        v@ == lit_close(),
{
    let mut v: Vec<u8> = Vec::new();
    v.push(0x7D);
    proof {
        assert(v@ =~= lit_close());
    }
    v
}

impl crate::reid::Reid {
    /// Parses a record from its canonical textual form; accepts exactly
    /// the renderings produced by `to_json`.
    pub fn from_json(s: &Vec<u8>) -> (r: Option<Self>)
        ensures
            match r {
                Some(rec) => parse_record(s@) == Some(rec@) && rec@.wf() && json_of(rec@) == s@,
                None => parse_record(s@) is None,
            },
    {
        let (h, i) = match parse_head_exec(s) {
            None => {
                return None;
            }
            Some(p) => p,
        };
        let (id, pow, exp) = h;
        let (t, j) = match parse_rear_exec(s, i) {
            None => {
                return None;
            }
            Some(p) => p,
        };
        let (sig, claims, anchors, revoked) = t;
        let lc = lit_close_vec();
        let k = match match_lit_exec(s, j, &lc) {
            None => {
                return None;
            }
            Some(p) => p,
        };
        if k != s.len() {
            return None;
        }
        let rec = Self::assemble(id, pow, exp, sig, claims, anchors, revoked);
        proof {
            assert(parse_record(s@) == Some(rec@));
            lemma_parse_record_sound(s@);
        }
        Some(rec)
    }

    /// The wire and storage form of the record: the base64 encoding of
    /// its textual form. The result stays on one line, so it fits the
    /// one-record-per-line persisted format.
    pub fn encode(&self) -> (r: String)
        requires
            self@.wf(),
            json_of(self@).len() <= crate::crypto::MAX_ENCODABLE_LEN,
        ensures
            r@ == crate::crypto::b64_of(json_of(self@)),
            crate::crypto::single_line(r@),
            // ASCII with a known length: the result is always short
            // enough, in bytes, for `decode` to take back
            vstd::utf8::encode_utf8(r@).len() == 4 * ((json_of(self@).len() + 2) / 3),
            vstd::utf8::encode_utf8(r@).len() <= crate::crypto::MAX_B64_LEN,
    {
        let j = self.to_json();
        let r = crate::crypto::b64_encode(&j);
        proof {
            vstd::utf8::is_ascii_chars_encode_utf8(r@);
        }
        r
    }

    /// Decodes a record from its wire form. Succeeds on the encoding of
    /// any well-formed record and returns it unchanged; a corrupt or
    /// non-base64 input yields `None`, never a partial record.
    pub fn decode(text: &str) -> (r: Option<Self>)
        requires
            text.spec_bytes().len() <= crate::crypto::MAX_B64_LEN,
        ensures
            forall|rv: ReidV| #![auto]
                rv.wf() && text@ == crate::crypto::b64_of(json_of(rv)) ==> r is Some
                    && r->Some_0@ == rv,
            match r {
                Some(rec) => {
                    &&& rec@.wf()
                    &&& parse_record(crate::crypto::b64_dec_of(text@)) == Some(rec@)
                    &&& json_of(rec@) == crate::crypto::b64_dec_of(text@)
                    &&& json_of(rec@).len() <= (text.spec_bytes().len() / 4) * 3
                },
                None => true,
            },
    {
        let bytes = match crate::crypto::b64_decode(text) {
            None => {
                proof {
                    assert forall|rv: ReidV|
                        rv.wf() && text@ == crate::crypto::b64_of(json_of(rv)) implies false by {}
                }
                return None;
            }
            Some(b) => b,
        };
        let r = Self::from_json(&bytes);
        proof {
            assert forall|rv: ReidV|
                rv.wf() && text@ == crate::crypto::b64_of(json_of(rv)) implies r is Some
                && r->Some_0@ == rv by {
                assert(bytes@ == json_of(rv));
                lemma_json_round_trip(rv);
            }
        }
        r
    }
}

} // verus!
