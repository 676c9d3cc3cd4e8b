//! The identity record: a signed binding of a public key (through its
//! SHA-256 hash) to an expiration, claims and anchors.

use vstd::prelude::*;
use vstd::utf8::encode_utf8;

use crate::common::{
    spec_anchor_tag, spec_claim_tag, spec_key_tag, AnchorType, ClaimType, Id, Key, KeyType, Sig,
};
use crate::crypto::{
    ed25519_ok, ed25519_public_of, ed25519_sig_of, rfc3339_of, sha256_of, MAX_EXPIRATION,
    MIN_EXPIRATION,
};

verus! {

/// The mathematical model of a record.
pub struct ReidV {
    pub id: Seq<u8>,
    pub pow: Option<Seq<u8>>,
    pub expiration: int,
    pub sig: Seq<u8>,
    pub claims: Option<Seq<(ClaimType, (KeyType, Seq<char>))>>,
    pub anchors: Option<Seq<(AnchorType, Seq<char>)>>,
    pub revoked: bool,
}

/// Whether a timestamp lies in the range the protocol accepts as an
/// expiration (the RFC 3339 four-digit-year range).
pub open spec fn valid_expiration(e: int) -> bool {
    MIN_EXPIRATION <= e <= MAX_EXPIRATION
}

impl ReidV {
    /// A well-formed record model: its expiration can be rendered.
    pub open spec fn wf(&self) -> bool {
        valid_expiration(self.expiration)
    }
}

/// The model of one claim.
pub open spec fn claim_view(c: (ClaimType, Key)) -> (ClaimType, (KeyType, Seq<char>)) {
    (c.0, (c.1.0, c.1.1@))
}

/// The model of one anchor.
pub open spec fn anchor_view(a: (AnchorType, String)) -> (AnchorType, Seq<char>) {
    (a.0, a.1@)
}

/// The model of an optional claims sequence.
pub open spec fn claims_view(c: Option<Vec<(ClaimType, Key)>>) -> Option<
    Seq<(ClaimType, (KeyType, Seq<char>))>,
> {
    match c {
        None => None,
        Some(v) => Some(v@.map_values(|cl: (ClaimType, Key)| claim_view(cl))),
    }
}

/// The model of an optional anchors sequence.
pub open spec fn anchors_view(a: Option<Vec<(AnchorType, String)>>) -> Option<
    Seq<(AnchorType, Seq<char>)>,
> {
    match a {
        None => None,
        Some(v) => Some(v@.map_values(|an: (AnchorType, String)| anchor_view(an))),
    }
}

/// The model of an optional byte sequence.
pub open spec fn opt_bytes_view(o: Option<Vec<u8>>) -> Option<Seq<u8>> {
    match o {
        None => None,
        Some(v) => Some(v@),
    }
}

/// An identity record.
#[derive(Debug, PartialEq, Eq)]
pub struct Reid {
    id: Id,
    pow: Option<Vec<u8>>,
    expiration: i64,
    sig: Sig,
    claims: Option<Vec<(ClaimType, Key)>>,
    anchors: Option<Vec<(AnchorType, String)>>,
    revoked: bool,
}

impl View for Reid {
    type V = ReidV;

    closed spec fn view(&self) -> ReidV {
        ReidV {
            id: self.id@,
            pow: opt_bytes_view(self.pow),
            expiration: self.expiration as int,
            sig: self.sig@,
            claims: claims_view(self.claims),
            anchors: anchors_view(self.anchors),
            revoked: self.revoked,
        }
    }
}

impl Reid {
    /// Builds a record from its parts; the expiration must lie in the
    /// accepted range.
    pub fn new(
        id: Id,
        pow: Option<Vec<u8>>,
        expiration: i64,
        sig: Sig,
        claims: Option<Vec<(ClaimType, Key)>>,
        anchors: Option<Vec<(AnchorType, String)>>,
        revoked: bool,
    ) -> (r: Option<Reid>)
        ensures
            match r {
                Some(rec) => rec@ == (ReidV {
                    id: id@,
                    pow: opt_bytes_view(pow),
                    expiration: expiration as int,
                    sig: sig@,
                    claims: claims_view(claims),
                    anchors: anchors_view(anchors),
                    revoked,
                }) && rec@.wf(),
                None => !valid_expiration(expiration as int),
            },
    {
        if MIN_EXPIRATION <= expiration && expiration <= MAX_EXPIRATION {
            Some(Reid { id, pow, expiration, sig, claims, anchors, revoked })
        } else {
            None
        }
    }

    /// Builds a record without the expiration check; the caller proves it.
    pub(crate) fn assemble(
        id: Id,
        pow: Option<Vec<u8>>,
        expiration: i64,
        sig: Sig,
        claims: Option<Vec<(ClaimType, Key)>>,
        anchors: Option<Vec<(AnchorType, String)>>,
        revoked: bool,
    ) -> (r: Reid)
        ensures
            r@ == (ReidV {
                id: id@,
                pow: opt_bytes_view(pow),
                expiration: expiration as int,
                sig: sig@,
                claims: claims_view(claims),
                anchors: anchors_view(anchors),
                revoked,
            }),
    {
        Reid { id, pow, expiration, sig, claims, anchors, revoked }
    }

    /// A copy of the record's id.
    pub fn get_id(&self) -> (r: Id)
        ensures
            r@ == self@.id,
    {
        vstd::slice::slice_to_vec(self.id.as_slice())
    }

    pub fn id_ref(&self) -> (r: &Vec<u8>)
        ensures
            r@ == self@.id,
    {
        &self.id
    }

    pub fn pow_ref(&self) -> (r: &Option<Vec<u8>>)
        ensures
            opt_bytes_view(*r) == self@.pow,
    {
        &self.pow
    }

    pub fn expiration_value(&self) -> (r: i64)
        ensures
            r as int == self@.expiration,
    {
        self.expiration
    }

    pub fn sig_ref(&self) -> (r: &Vec<u8>)
        ensures
            r@ == self@.sig,
    {
        &self.sig
    }

    pub fn claims_ref(&self) -> (r: &Option<Vec<(ClaimType, Key)>>)
        ensures
            claims_view(*r) == self@.claims,
    {
        &self.claims
    }

    pub fn anchors_ref(&self) -> (r: &Option<Vec<(AnchorType, String)>>)
        ensures
            anchors_view(*r) == self@.anchors,
    {
        &self.anchors
    }

    pub fn revoked_value(&self) -> (r: bool)
        ensures
            r == self@.revoked,
    {
        self.revoked
    }

    /// Marks the record revoked. The signature is untouched: the flag is
    /// not part of the signed payload.
    pub fn revoke(&mut self)
        ensures
            final(self)@ == (ReidV { revoked: true, ..old(self)@ }),
    {
        self.revoked = true;
    }

    /// Appends a claim; the signature is not recomputed, so the record
    /// stops verifying until it is re-signed.
    pub fn append_claim(&mut self, claim_type: ClaimType, claim_value: Key)
        ensures
            final(self)@ == (ReidV {
                claims: Some(
                    (match old(self)@.claims {
                        None => Seq::empty(),
                        Some(cs) => cs,
                    }).push(claim_view((claim_type, claim_value))),
                ),
                ..old(self)@
            }),
    {
        let mut cs: Vec<(ClaimType, Key)> = match self.claims.take() {
            None => Vec::new(),
            Some(v) => v,
        };
        let ghost f = |cl: (ClaimType, Key)| claim_view(cl);
        let ghost prior = cs@;
        let ghost cv = claim_view((claim_type, claim_value));
        proof {
            assert(prior.map_values(f) =~= (match old(self)@.claims {
                None => Seq::<(ClaimType, (KeyType, Seq<char>))>::empty(),
                Some(cs0) => cs0,
            }));
        }
        cs.push((claim_type, claim_value));
        proof {
            assert(cs@.map_values(f) =~= prior.map_values(f).push(cv));
        }
        self.claims = Some(cs);
    }

    /// Appends an anchor; the signature is not recomputed, so the record
    /// stops verifying until it is re-signed.
    pub fn append_anchor(&mut self, anchor_type: AnchorType, anchor_value: String)
        ensures
            final(self)@ == (ReidV {
                anchors: Some(
                    (match old(self)@.anchors {
                        None => Seq::empty(),
                        Some(an) => an,
                    }).push(anchor_view((anchor_type, anchor_value))),
                ),
                ..old(self)@
            }),
    {
        let mut an: Vec<(AnchorType, String)> = match self.anchors.take() {
            None => Vec::new(),
            Some(v) => v,
        };
        let ghost f = |a: (AnchorType, String)| anchor_view(a);
        let ghost prior = an@;
        let ghost av = anchor_view((anchor_type, anchor_value));
        proof {
            assert(prior.map_values(f) =~= (match old(self)@.anchors {
                None => Seq::<(AnchorType, Seq<char>)>::empty(),
                Some(an0) => an0,
            }));
        }
        an.push((anchor_type, anchor_value));
        proof {
            assert(an@.map_values(f) =~= prior.map_values(f).push(av));
        }
        self.anchors = Some(an);
    }

    /// The textual form of a claimed key. The only supported key type
    /// stores its value as PEM text already.
    pub fn key_to_pem(key: &Key) -> (r: String)
        ensures
            r@ == key.1@,
    {
        match key.0 {
            KeyType::ED25519 => key.1.clone(),
        }
    }
}

impl Clone for Reid {
    /// A clone carries the same model: every field is copied.
    fn clone(&self) -> (res: Self)
        ensures
            res@ == self@,
    {
        let id = vstd::slice::slice_to_vec(self.id.as_slice());
        let pow: Option<Vec<u8>> = match &self.pow {
            None => None,
            Some(v) => Some(vstd::slice::slice_to_vec(v.as_slice())),
        };
        let sig = vstd::slice::slice_to_vec(self.sig.as_slice());
        let claims: Option<Vec<(ClaimType, Key)>> = match &self.claims {
            None => None,
            Some(v) => {
                let mut out: Vec<(ClaimType, Key)> = Vec::new();
                let n = v.len();
                let mut i: usize = 0;
                while i < n
                    invariant
                        i <= n,
                        n == v@.len(),
                        out@.len() == i,
                        forall|k: int| 0 <= k < i ==> claim_view(#[trigger] out@[k]) == claim_view(
                            v@[k],
                        ),
                    decreases n - i,
                {
                    let s: String = v[i].1.1.clone();
                    out.push((v[i].0, (v[i].1.0, s)));
                    i = i + 1;
                }
                proof {
                    assert(out@.map_values(|cl: (ClaimType, Key)| claim_view(cl))
                        =~= v@.map_values(|cl: (ClaimType, Key)| claim_view(cl)));
                }
                Some(out)
            }
        };
        let anchors: Option<Vec<(AnchorType, String)>> = match &self.anchors {
            None => None,
            Some(v) => {
                let mut out: Vec<(AnchorType, String)> = Vec::new();
                let n = v.len();
                let mut i: usize = 0;
                while i < n
                    invariant
                        i <= n,
                        n == v@.len(),
                        out@.len() == i,
                        forall|k: int| 0 <= k < i ==> anchor_view(#[trigger] out@[k])
                            == anchor_view(v@[k]),
                    decreases n - i,
                {
                    let s: String = v[i].1.clone();
                    out.push((v[i].0, s));
                    i = i + 1;
                }
                proof {
                    assert(out@.map_values(|a: (AnchorType, String)| anchor_view(a))
                        =~= v@.map_values(|a: (AnchorType, String)| anchor_view(a)));
                }
                Some(out)
            }
        };
        Reid {
            id,
            pow,
            expiration: self.expiration,
            sig,
            claims,
            anchors,
            revoked: self.revoked,
        }
    }
}

// ---------------------------------------------------------------------
// The canonical signed bytes (the signable form) and the signature
// operations.
// ---------------------------------------------------------------------

/// The signable bytes of the claims: for each claim in order, the claim
/// tag, the key tag, then the UTF-8 bytes of the value.
pub open spec fn claims_signable(cs: Seq<(ClaimType, (KeyType, Seq<char>))>) -> Seq<u8>
    decreases cs.len(),
{
    if cs.len() == 0 {
        Seq::empty()
    } else {
        seq![spec_claim_tag(cs[0].0), spec_key_tag(cs[0].1.0)] + encode_utf8(cs[0].1.1)
            + claims_signable(cs.drop_first())
    }
}

/// The signable bytes of the anchors: for each anchor in order, the
/// anchor tag, then the UTF-8 bytes of the value.
pub open spec fn anchors_signable(an: Seq<(AnchorType, Seq<char>)>) -> Seq<u8>
    decreases an.len(),
{
    if an.len() == 0 {
        Seq::empty()
    } else {
        seq![spec_anchor_tag(an[0].0)] + encode_utf8(an[0].1) + anchors_signable(an.drop_first())
    }
}

/// The canonical signed bytes of a record's parts: the raw id, the
/// tagged claims, the tagged anchors, and the RFC 3339 rendering of the
/// expiration, with no delimiters or length prefixes between fields.
/// The lack of framing means two different field combinations can in
/// principle share one byte sequence; that is a deliberate, accepted
/// limitation of the protocol, kept for compatibility. The revocation
/// flag and the signature itself are not part of the signed bytes.
pub open spec fn signable_parts(
    id: Seq<u8>,
    expiration: int,
    claims: Option<Seq<(ClaimType, (KeyType, Seq<char>))>>,
    anchors: Option<Seq<(AnchorType, Seq<char>)>>,
) -> Seq<u8> {
    id + (match claims {
        None => Seq::empty(),
        Some(cs) => claims_signable(cs),
    }) + (match anchors {
        None => Seq::empty(),
        Some(an) => anchors_signable(an),
    }) + rfc3339_of(expiration)
}

/// The canonical signed bytes of a record.
pub open spec fn signable_of(r: ReidV) -> Seq<u8> {
    signable_parts(r.id, r.expiration, r.claims, r.anchors)
}

/// Whether the record's signature verifies under the given raw public
/// key: the signature must match the record's current canonical bytes.
pub open spec fn spec_verify(r: ReidV, pubk: Seq<u8>) -> bool {
    ed25519_ok(pubk, signable_of(r), r.sig)
}

/// Revoking a record never changes what its canonical bytes are, nor its
/// signature, so it never changes the result of verification: the flag
/// is deliberately outside the signed payload.
pub proof fn lemma_revoke_preserves_verify(r: ReidV, pubk: Seq<u8>)
    ensures
        spec_verify((ReidV { revoked: true, ..r }), pubk) == spec_verify(r, pubk),
{
}

/// Re-signing only replaces the signature; on the new record the fresh
/// signature verifies under the public key matching the signing key.
pub proof fn lemma_resign_verifies(r: ReidV, prv: Seq<u8>)
    requires
        ed25519_ok(
            ed25519_public_of(prv),
            signable_of(r),
            ed25519_sig_of(prv, signable_of(r)),
        ),
    ensures
        spec_verify(
            (ReidV { sig: ed25519_sig_of(prv, signable_of(r)), ..r }),
            ed25519_public_of(prv),
        ),
{
}

proof fn lemma_claims_signable_push(
    u: Seq<(ClaimType, (KeyType, Seq<char>))>,
    x: (ClaimType, (KeyType, Seq<char>)),
)
    ensures
        claims_signable(u.push(x)) == claims_signable(u) + (seq![
            spec_claim_tag(x.0),
            spec_key_tag(x.1.0),
        ] + encode_utf8(x.1.1)),
    decreases u.len(),
{
    let w = u.push(x);
    if u.len() == 0 {
        assert(w.len() == 1 && w[0] == x);
        assert(w.drop_first() =~= Seq::<(ClaimType, (KeyType, Seq<char>))>::empty());
        let xe = seq![spec_claim_tag(x.0), spec_key_tag(x.1.0)] + encode_utf8(x.1.1);
        assert(claims_signable(w) == seq![spec_claim_tag(w[0].0), spec_key_tag(w[0].1.0)]
            + encode_utf8(w[0].1.1) + claims_signable(w.drop_first()));
        assert(claims_signable(w.drop_first()) == Seq::<u8>::empty());
        assert(claims_signable(u) == Seq::<u8>::empty());
        assert(claims_signable(w) =~= claims_signable(u) + xe);
    } else {
        assert(w[0] == u[0]);
        assert(w.drop_first() =~= u.drop_first().push(x));
        lemma_claims_signable_push(u.drop_first(), x);
        let hd = seq![spec_claim_tag(u[0].0), spec_key_tag(u[0].1.0)] + encode_utf8(u[0].1.1);
        let xe = seq![spec_claim_tag(x.0), spec_key_tag(x.1.0)] + encode_utf8(x.1.1);
        assert(claims_signable(w) == hd + claims_signable(w.drop_first()));
        assert(claims_signable(w.drop_first()) == claims_signable(u.drop_first()) + xe);
        assert(claims_signable(u) == hd + claims_signable(u.drop_first()));
        assert(hd + (claims_signable(u.drop_first()) + xe) =~= (hd + claims_signable(
            u.drop_first(),
        )) + xe);
    }
}

proof fn lemma_anchors_signable_push(u: Seq<(AnchorType, Seq<char>)>, x: (AnchorType, Seq<char>))
    ensures
        anchors_signable(u.push(x)) == anchors_signable(u) + (seq![spec_anchor_tag(x.0)]
            + encode_utf8(x.1)),
    decreases u.len(),
{
    let w = u.push(x);
    if u.len() == 0 {
        assert(w.len() == 1 && w[0] == x);
        assert(w.drop_first() =~= Seq::<(AnchorType, Seq<char>)>::empty());
        let xe = seq![spec_anchor_tag(x.0)] + encode_utf8(x.1);
        assert(anchors_signable(w) == seq![spec_anchor_tag(w[0].0)] + encode_utf8(w[0].1)
            + anchors_signable(w.drop_first()));
        assert(anchors_signable(w.drop_first()) == Seq::<u8>::empty());
        assert(anchors_signable(u) == Seq::<u8>::empty());
        assert(anchors_signable(w) =~= anchors_signable(u) + xe);
    } else {
        assert(w[0] == u[0]);
        assert(w.drop_first() =~= u.drop_first().push(x));
        lemma_anchors_signable_push(u.drop_first(), x);
        let hd = seq![spec_anchor_tag(u[0].0)] + encode_utf8(u[0].1);
        let xe = seq![spec_anchor_tag(x.0)] + encode_utf8(x.1);
        assert(anchors_signable(w) == hd + anchors_signable(w.drop_first()));
        assert(anchors_signable(w.drop_first()) == anchors_signable(u.drop_first()) + xe);
        assert(anchors_signable(u) == hd + anchors_signable(u.drop_first()));
        assert(hd + (anchors_signable(u.drop_first()) + xe) =~= (hd + anchors_signable(
            u.drop_first(),
        )) + xe);
    }
}

/// Appends a byte slice.
fn push_slice(out: &mut Vec<u8>, v: &[u8])
    ensures
        final(out)@ == old(out)@ + v@,
{
    let n = v.len();
    let mut i: usize = 0;
    while i < n
        invariant
            i <= n,
            n == v@.len(),
            out@ == old(out)@ + v@.take(i as int),
        decreases n - i,
    {
        out.push(v[i]);
        proof {
            assert(v@.take(i + 1) =~= v@.take(i as int).push(v@[i as int]));
            assert(out@ =~= old(out)@ + v@.take(i + 1));
        }
        i = i + 1;
    }
    proof {
        assert(v@.take(n as int) =~= v@);
    }
}

impl Reid {
    /// Builds the canonical signed bytes from a record's parts, exactly
    /// as used for both signing and verification.
    pub fn args_to_signable(
        id: &Vec<u8>,
        expiration: i64,
        claims: &Option<Vec<(ClaimType, Key)>>,
        anchors: &Option<Vec<(AnchorType, String)>>,
    ) -> (out: Vec<u8>)
        requires
            valid_expiration(expiration as int),
        ensures
            out@ == signable_parts(id@, expiration as int, claims_view(*claims), anchors_view(*anchors)),
    {
        let mut out: Vec<u8> = Vec::new();
        push_slice(&mut out, id.as_slice());
        let ghost base = out@;
        match claims {
            None => {
                proof {
                    assert(out@ =~= id@ + Seq::<u8>::empty());
                }
            }
            Some(v) => {
                let ghost m = v@.map_values(|cl: (ClaimType, Key)| claim_view(cl));
                let n = v.len();
                let mut i: usize = 0;
                while i < n
                    invariant
                        i <= n,
                        n == v@.len(),
                        m == v@.map_values(|cl: (ClaimType, Key)| claim_view(cl)),
                        m.len() == n,
                        forall|k: int| 0 <= k < n ==> m[k] == claim_view(#[trigger] v@[k]),
                        base == id@,
                        out@ == base + claims_signable(m.take(i as int)),
                    decreases n - i,
                {
                    out.push(crate::common::claim_tag(v[i].0));
                    out.push(crate::common::key_tag(v[i].1.0));
                    push_slice(&mut out, v[i].1.1.as_str().as_bytes());
                    proof {
                        assert(m.take(i + 1) =~= m.take(i as int).push(m[i as int]));
                        lemma_claims_signable_push(m.take(i as int), m[i as int]);
                        assert(out@ =~= base + claims_signable(m.take(i + 1)));
                    }
                    i = i + 1;
                }
                proof {
                    assert(m.take(n as int) =~= m);
                }
            }
        }
        let ghost base2 = out@;
        match anchors {
            None => {
                proof {
                    assert(out@ =~= base2 + Seq::<u8>::empty());
                }
            }
            Some(v) => {
                let ghost m = v@.map_values(|a: (AnchorType, String)| anchor_view(a));
                let n = v.len();
                let mut i: usize = 0;
                while i < n
                    invariant
                        i <= n,
                        n == v@.len(),
                        m == v@.map_values(|a: (AnchorType, String)| anchor_view(a)),
                        m.len() == n,
                        forall|k: int| 0 <= k < n ==> m[k] == anchor_view(#[trigger] v@[k]),
                        out@ == base2 + anchors_signable(m.take(i as int)),
                    decreases n - i,
                {
                    out.push(crate::common::anchor_tag(v[i].0));
                    push_slice(&mut out, v[i].1.as_str().as_bytes());
                    proof {
                        assert(m.take(i + 1) =~= m.take(i as int).push(m[i as int]));
                        lemma_anchors_signable_push(m.take(i as int), m[i as int]);
                        assert(out@ =~= base2 + anchors_signable(m.take(i + 1)));
                    }
                    i = i + 1;
                }
                proof {
                    assert(m.take(n as int) =~= m);
                }
            }
        }
        let stamp = crate::crypto::rfc3339_format(expiration);
        push_slice(&mut out, stamp.as_slice());
        proof {
            assert(out@ =~= signable_parts(
                id@,
                expiration as int,
                claims_view(*claims),
                anchors_view(*anchors),
            ));
        }
        out
    }

    /// The canonical signed bytes of this record.
    pub fn reid_to_signable(&self) -> (out: Vec<u8>)
        requires
            self@.wf(),
        ensures
            out@ == signable_of(self@),
    {
        Reid::args_to_signable(
            self.id_ref(),
            self.expiration_value(),
            self.claims_ref(),
            self.anchors_ref(),
        )
    }

    /// Checks the record's signature against the given public key, over
    /// the record's current canonical bytes.
    pub fn verify_sig(&self, pub_key: &crate::crypto::PublicKey) -> (r: bool)
        requires
            self@.wf(),
            pub_key.wf(),
        ensures
            r == spec_verify(self@, pub_key@),
    {
        let data = self.reid_to_signable();
        crate::crypto::ed25519_verify(pub_key, &data, self.sig_ref())
    }

    /// Recomputes and overwrites the signature from the record's current
    /// field values. On success the record verifies under the public key
    /// belonging to the signing key; on failure of the signing call —
    /// the only way this fails — the record is unchanged.
    pub fn update_sig(&mut self, prv_key: &crate::crypto::PrivateKey) -> (r: Option<Sig>)
        requires
            old(self)@.wf(),
            prv_key.wf(),
        ensures
            match r {
                Some(sig) => {
                    &&& final(self)@ == (ReidV { sig: sig@, ..old(self)@ })
                    &&& sig@ == ed25519_sig_of(prv_key@, signable_of(old(self)@))
                    &&& spec_verify(final(self)@, ed25519_public_of(prv_key@))
                },
                None => final(self)@ == old(self)@,
            },
    {
        let data = self.reid_to_signable();
        match crate::crypto::ed25519_sign(prv_key, &data) {
            None => None,
            Some(sig) => {
                let copy = vstd::slice::slice_to_vec(sig.as_slice());
                self.sig = sig;
                Some(copy)
            }
        }
    }

    /// Builds and signs a fresh record: the id is the SHA-256 hash of the
    /// raw public key, and the signature covers the canonical bytes of
    /// the given fields. Fails on an expiration outside the accepted
    /// range, or if an openssl call reports an internal error; `None`
    /// conflates the two, so a caller that wants to tell them apart
    /// checks the expiration against the accepted range first.
    pub fn new_with_keys(
        pub_key: &crate::crypto::PublicKey,
        prv_key: &crate::crypto::PrivateKey,
        expiration: i64,
        pow: Option<Vec<u8>>,
        claims: Option<Vec<(ClaimType, Key)>>,
        anchors: Option<Vec<(AnchorType, String)>>,
        revoked: bool,
    ) -> (r: Option<Reid>)
        requires
            pub_key.wf(),
            prv_key.wf(),
        ensures
            match r {
                Some(rec) => {
                    &&& rec@ == (ReidV {
                        id: sha256_of(pub_key@),
                        pow: opt_bytes_view(pow),
                        expiration: expiration as int,
                        sig: ed25519_sig_of(prv_key@, signable_of(rec@)),
                        claims: claims_view(claims),
                        anchors: anchors_view(anchors),
                        revoked,
                    })
                    &&& rec@.wf()
                    &&& pub_key@ == ed25519_public_of(prv_key@) ==> spec_verify(rec@, pub_key@)
                },
                None => true,
            },
            !valid_expiration(expiration as int) ==> r is None,
    {
        if !(MIN_EXPIRATION <= expiration && expiration <= MAX_EXPIRATION) {
            return None;
        }
        let id = match crate::crypto::sha256(pub_key.as_bytes()) {
            None => {
                return None;
            }
            Some(d) => d,
        };
        let data = Reid::args_to_signable(&id, expiration, &claims, &anchors);
        let sig = match crate::crypto::ed25519_sign(prv_key, &data) {
            None => {
                return None;
            }
            Some(s) => s,
        };
        let rec = Reid::assemble(id, pow, expiration, sig, claims, anchors, revoked);
        proof {
            assert(signable_of(rec@) == data@);
        }
        Some(rec)
    }

    /// Builds and signs a fresh record from a private key alone,
    /// deriving and returning the matching public key; the new record
    /// verifies under it.
    pub fn new_with_private(
        prv_key: &crate::crypto::PrivateKey,
        expiration: i64,
        pow: Option<Vec<u8>>,
        claims: Option<Vec<(ClaimType, Key)>>,
        anchors: Option<Vec<(AnchorType, String)>>,
        revoked: bool,
    ) -> (r: Option<(Reid, crate::crypto::PublicKey)>)
        requires
            prv_key.wf(),
        ensures
            match r {
                Some((rec, pk)) => {
                    &&& pk@ == ed25519_public_of(prv_key@)
                    &&& pk.wf()
                    &&& rec@ == (ReidV {
                        id: sha256_of(pk@),
                        pow: opt_bytes_view(pow),
                        expiration: expiration as int,
                        sig: ed25519_sig_of(prv_key@, signable_of(rec@)),
                        claims: claims_view(claims),
                        anchors: anchors_view(anchors),
                        revoked,
                    })
                    &&& rec@.wf()
                    &&& spec_verify(rec@, pk@)
                },
                None => true,
            },
            !valid_expiration(expiration as int) ==> r is None,
    {
        let pk = match crate::crypto::public_key_of(prv_key) {
            None => {
                return None;
            }
            Some(k) => k,
        };
        match Reid::new_with_keys(&pk, prv_key, expiration, pow, claims, anchors, revoked) {
            None => None,
            Some(rec) => Some((rec, pk)),
        }
    }
}

} // verus!
