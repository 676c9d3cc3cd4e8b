//! Closed enumerations for claim, key and anchor kinds, the id comparison,
//! and the server configuration record.

use vstd::prelude::*;

verus! {

/// A record id: the SHA-256 hash of the owning raw public key.
pub type Id = Vec<u8>;

/// A raw signature.
pub type Sig = Vec<u8>;

/// A piece of attested key material: its algorithm and its textual value.
pub type Key = (KeyType, String);

/// The kind of key material a claim attests.
#[derive(Clone, Copy, PartialEq, Eq, Structural, Debug)]
pub enum ClaimType {
    SSHKEY,
    X509,
    WGKEY,
}

/// The algorithm of a claimed key.
#[derive(Clone, Copy, PartialEq, Eq, Structural, Debug)]
pub enum KeyType {
    ED25519,
}

/// The kind of real-world identifier an anchor carries.
#[derive(Clone, Copy, PartialEq, Eq, Structural, Debug)]
pub enum AnchorType {
    DNS,
    EMAIL,
    PHONE,
    IPADDR,
}

/// The one-byte tag of a claim type, used by the canonical encoding.
pub open spec fn spec_claim_tag(t: ClaimType) -> u8 {
    match t {
        ClaimType::SSHKEY => 0,
        ClaimType::X509 => 1,
        ClaimType::WGKEY => 2,
    }
}

/// The one-byte tag of a key type, used by the canonical encoding.
pub open spec fn spec_key_tag(t: KeyType) -> u8 {
    match t {
        KeyType::ED25519 => 0,
    }
}

/// The one-byte tag of an anchor type, used by the canonical encoding.
pub open spec fn spec_anchor_tag(t: AnchorType) -> u8 {
    match t {
        AnchorType::DNS => 0,
        AnchorType::EMAIL => 1,
        AnchorType::PHONE => 2,
        AnchorType::IPADDR => 3,
    }
}

/// The claim type a tag stands for, if any.
pub open spec fn spec_claim_of_tag(n: u8) -> Option<ClaimType> {
    if n == 0 {
        Some(ClaimType::SSHKEY)
    } else if n == 1 {
        Some(ClaimType::X509)
    } else if n == 2 {
        Some(ClaimType::WGKEY)
    } else {
        None
    }
}

/// The key type a tag stands for, if any.
pub open spec fn spec_key_of_tag(n: u8) -> Option<KeyType> {
    if n == 0 {
        Some(KeyType::ED25519)
    } else {
        None
    }
}

/// The anchor type a tag stands for, if any.
pub open spec fn spec_anchor_of_tag(n: u8) -> Option<AnchorType> {
    if n == 0 {
        Some(AnchorType::DNS)
    } else if n == 1 {
        Some(AnchorType::EMAIL)
    } else if n == 2 {
        Some(AnchorType::PHONE)
    } else if n == 3 {
        Some(AnchorType::IPADDR)
    } else {
        None
    }
}

pub fn claim_tag(t: ClaimType) -> (r: u8)
    ensures
        r == spec_claim_tag(t),
{
    match t {
        ClaimType::SSHKEY => 0,
        ClaimType::X509 => 1,
        ClaimType::WGKEY => 2,
    }
}

pub fn key_tag(t: KeyType) -> (r: u8)
    ensures
        r == spec_key_tag(t),
{
    match t {
        KeyType::ED25519 => 0,
    }
}

pub fn anchor_tag(t: AnchorType) -> (r: u8)
    ensures
        r == spec_anchor_tag(t),
{
    match t {
        AnchorType::DNS => 0,
        AnchorType::EMAIL => 1,
        AnchorType::PHONE => 2,
        AnchorType::IPADDR => 3,
    }
}

pub fn claim_of_tag(n: u8) -> (r: Option<ClaimType>)
    ensures
        r == spec_claim_of_tag(n),
{
    if n == 0 {
        Some(ClaimType::SSHKEY)
    } else if n == 1 {
        Some(ClaimType::X509)
    } else if n == 2 {
        Some(ClaimType::WGKEY)
    } else {
        None
    }
}

pub fn key_of_tag(n: u8) -> (r: Option<KeyType>)
    ensures
        r == spec_key_of_tag(n),
{
    if n == 0 {
        Some(KeyType::ED25519)
    } else {
        None
    }
}

pub fn anchor_of_tag(n: u8) -> (r: Option<AnchorType>)
    ensures
        r == spec_anchor_of_tag(n),
{
    if n == 0 {
        Some(AnchorType::DNS)
    } else if n == 1 {
        Some(AnchorType::EMAIL)
    } else if n == 2 {
        Some(AnchorType::PHONE)
    } else if n == 3 {
        Some(AnchorType::IPADDR)
    } else {
        None
    }
}

/// Tags round-trip: decoding the tag of a claim type gives it back.
pub proof fn lemma_claim_tag_round_trip(t: ClaimType)
    ensures
        spec_claim_of_tag(spec_claim_tag(t)) == Some(t),
{
}

/// Tags round-trip: decoding the tag of a key type gives it back.
pub proof fn lemma_key_tag_round_trip(t: KeyType)
    ensures
        spec_key_of_tag(spec_key_tag(t)) == Some(t),
{
}

/// Tags round-trip: decoding the tag of an anchor type gives it back.
pub proof fn lemma_anchor_tag_round_trip(t: AnchorType)
    ensures
        spec_anchor_of_tag(spec_anchor_tag(t)) == Some(t),
{
}

/// Compares two ids byte for byte.
pub fn id_equal(id1: Id, id2: Id) -> (r: bool)
    ensures
        r == (id1@ == id2@),
{
    if id1.len() != id2.len() {
        proof {
            assert(id1@.len() != id2@.len());
        }
        false
    } else {
        let n: usize = id1.len();
        let mut idx: usize = 0;
        while idx < n
            invariant
                n == id1@.len(),
                n == id2@.len(),
                0 <= idx <= n,
                forall|j: int| 0 <= j < idx ==> id1@[j] == id2@[j],
            decreases n - idx,
        {
            if id1[idx] != id2[idx] {
                return false;
            }
            idx = idx + 1;
        }
        proof {
            assert(id1@ =~= id2@);
        }
        true
    }
}

/// What the log server needs to start: a bind address and an optional
/// path for the persisted log.
pub struct ServerConfig {
    pub addr: String,
    pub persist_path: Option<String>,
}

} // verus!
