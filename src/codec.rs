//! The content digest that seals a block: the MessagePack encoding of its
//! contents, hashed with SHA-256.
use vstd::prelude::*;
use sha2::Digest;
use std::collections::BTreeMap;
use crate::block::BlockContents;

verus! {

/// What a block's contents hold, as plain values.
pub struct ContentsView {
    pub block_number: u64,
    pub parent_hash: Option<Seq<u8>>,
    pub transactions: Seq<Seq<(u64, i64)>>,
}

/// The MessagePack encoding of contents as a three-element array (number,
/// parent digest or nil, transactions), each transaction a one-element array
/// holding its deltas as a map in increasing key order; `None` where the
/// encoder reports an error.
pub uninterp spec fn msgpack_of(c: ContentsView) -> Option<Seq<u8>>;

/// The SHA-256 digest of a byte string.
pub uninterp spec fn sha256_of(b: Seq<u8>) -> Seq<u8>;

/// The digest that seals contents `c`; empty where `c` could not be encoded.
pub open spec fn content_hash(c: ContentsView) -> Seq<u8> {
    match msgpack_of(c) {
        Some(b) => sha256_of(b),
        None => Seq::empty(),
    }
}

/// Contents that hold the same number, parent digest and transactions, in
/// the same order, are sealed with the same digest.
pub proof fn lemma_hash_deterministic(c1: ContentsView, c2: ContentsView)
    requires
        c1.block_number == c2.block_number,
        c1.parent_hash == c2.parent_hash,
        c1.transactions == c2.transactions,
    ensures
        content_hash(c1) == content_hash(c2),
{
    assert(c1 == c2);
}

/// Relies on rmp_serde::to_vec, which writes a tuple as an array and a
/// `BTreeMap` as a map in key order: the bytes depend on the values alone.
#[verifier::external_body]
fn encode_contents(c: &BlockContents) -> (r: Option<Vec<u8>>)
    ensures
        match r {
            Some(b) => msgpack_of(c@) == Some(b@),
            None => msgpack_of(c@) is None,
        },
{
    let txns: Vec<(BTreeMap<u64, i64>,)> = c.transactions.iter().map(
        |t| (t.amounts.iter().cloned().collect(),),
    ).collect();
    rmp_serde::to_vec(&(c.block_number, &c.parent_hash, txns)).ok()
}

/// Relies on sha2::Sha256::digest: the 32-byte SHA-256 digest of `b`.
#[verifier::external_body]
fn sha256(b: &Vec<u8>) -> (r: Vec<u8>)
    ensures
        r@ == sha256_of(b@),
        r@.len() == 32,
{
    sha2::Sha256::digest(b.as_slice()).to_vec()
}

/// The digest that seals `c`.
pub fn digest_contents(c: &BlockContents) -> (r: Vec<u8>)
    ensures
        r@ == content_hash(c@),
{
    match encode_contents(c) {
        Some(b) => sha256(&b),
        None => Vec::new(),
    }
}

/// A copy of `b`.
pub fn copy_bytes(b: &Vec<u8>) -> (r: Vec<u8>)
    ensures
        r@ == b@,
{
    let mut r: Vec<u8> = Vec::new();
    let mut i: usize = 0;
    while i < b.len()
        invariant
            i <= b.len(),
            r@ == b@.take(i as int),
        decreases b.len() - i,
    {
        assert(b@.take(i + 1) =~= b@.take(i as int).push(b@[i as int]));
        r.push(b[i]);
        i = i + 1;
    }
    assert(b@.take(i as int) =~= b@);
    r
}

/// True iff `a` and `b` hold the same bytes.
pub fn bytes_equal(a: &Vec<u8>, b: &Vec<u8>) -> (r: bool)
    ensures
        r == (a@ == b@),
{
    if a.len() != b.len() {
        return false;
    }
    let mut i: usize = 0;
    while i < a.len()
        invariant
            i <= a.len(),
            a.len() == b.len(),
            forall|j: int| 0 <= j < i ==> a@[j] == b@[j],
        decreases a.len() - i,
    {
        if a[i] != b[i] {
            return false;
        }
        i = i + 1;
    }
    assert(a@ =~= b@);
    true
}

} // verus!
