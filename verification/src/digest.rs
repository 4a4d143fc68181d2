//! The root digest: a fixed-size cryptographic commitment to the store's
//! entire key/value set.
//!
//! The digest is SHA-256 over the canonical encoding of the sorted entries,
//! so two stores with identical contents carry identical digests whatever
//! history produced them. An inclusion proof is a snapshot of the entries
//! that a verifier re-hashes against a trusted root.

use vstd::prelude::*;

use crate::akv::AuthStorage;
use crate::order::bytes_eq;

verus! {

/// The four big-endian bytes of a 32-bit length field.
pub open spec fn u32_be(n: u32) -> Seq<u8> {
    seq![(n >> 24u32) as u8, (n >> 16u32) as u8, (n >> 8u32) as u8, n as u8]
}

/// The canonical encoding of one entry: key length, key, value length,
/// value.
pub open spec fn encode_entry(e: (Seq<u8>, Seq<u8>)) -> Seq<u8> {
    u32_be(e.0.len() as u32) + e.0 + u32_be(e.1.len() as u32) + e.1
}

/// The canonical encoding of an entry list, in order.
pub open spec fn encode_kvs(s: Seq<(Seq<u8>, Seq<u8>)>) -> Seq<u8>
    decreases s.len(),
{
    if s.len() == 0 {
        Seq::empty()
    } else {
        encode_kvs(s.drop_last()) + encode_entry(s.last())
    }
}

/// What SHA-256 returns on a byte string; a function of the bytes alone.
pub uninterp spec fn sha256_of(bytes: Seq<u8>) -> Seq<u8>;

/// The root digest of an entry list: SHA-256 of its canonical encoding.
pub open spec fn digest_of_kvs(s: Seq<(Seq<u8>, Seq<u8>)>) -> Seq<u8> {
    sha256_of(encode_kvs(s))
}

/// Relies on sha2's `Sha256`: the digest depends on the input bytes alone
/// and is always 32 bytes long.
#[verifier::external_body]
fn sha256(bytes: &Vec<u8>) -> (r: Vec<u8>)
    ensures
        r@ == sha256_of(bytes@),
        r@.len() == 32,
{
    <sha2::Sha256 as sha2::Digest>::digest(bytes.as_slice()).to_vec()
}

/// Appends the four big-endian bytes of `n`.
pub fn push_u32_be(out: &mut Vec<u8>, n: u32)
    ensures
        final(out)@ == old(out)@ + u32_be(n),
{
    out.push((n >> 24u32) as u8);
    out.push((n >> 16u32) as u8);
    out.push((n >> 8u32) as u8);
    out.push(n as u8);
    proof {
        assert(out@ =~= old(out)@ + u32_be(n));
    }
}

/// Appends a byte string.
pub fn push_bytes(out: &mut Vec<u8>, b: &Vec<u8>)
    ensures
        final(out)@ == old(out)@ + b@,
{
    let mut i: usize = 0;
    while i < b.len()
        invariant
            i <= b.len(),
            out@ == old(out)@ + b@.take(i as int),
        decreases b.len() - i,
    {
        out.push(b[i]);
        proof {
            assert(old(out)@ + b@.take(i + 1) =~= (old(out)@ + b@.take(i as int)).push(
                b@[i as int],
            ));
        }
        i = i + 1;
    }
    proof {
        assert(out@ =~= old(out)@ + b@);
    }
}

/// Appending one entry to a list appends its encoding.
proof fn lemma_encode_kvs_push(s: Seq<(Seq<u8>, Seq<u8>)>, e: (Seq<u8>, Seq<u8>))
    ensures
        encode_kvs(s.push(e)) == encode_kvs(s) + encode_entry(e),
{
    assert(s.push(e).drop_last() =~= s);
    assert(s.push(e).last() == e);
}

/// The canonical byte encoding of a store: for each entry in ascending key
/// order, the key's length, the key, the value's length and the value.
pub fn encode_store(store: &AuthStorage) -> (r: Vec<u8>)
    requires
        store.wf(),
    ensures
        r@ == encode_kvs(store.kvs()),
{
    let mut out: Vec<u8> = Vec::new();
    let n = store.entries.len();
    let mut i: usize = 0;
    proof {
        assert(store.kvs().take(0) =~= Seq::<(Seq<u8>, Seq<u8>)>::empty());
    }
    while i < n
        invariant
            store.wf(),
            n == store.entries.len(),
            i <= n,
            out@ == encode_kvs(store.kvs().take(i as int)),
        decreases n - i,
    {
        let ghost pre = out@;
        let ghost e = store.kvs()[i as int];
        let klen = store.entries[i].0.len();
        push_u32_be(&mut out, klen as u32);
        push_bytes(&mut out, &store.entries[i].0);
        let vlen = store.entries[i].1.len();
        push_u32_be(&mut out, vlen as u32);
        push_bytes(&mut out, &store.entries[i].1);
        proof {
            assert(e == (store.entries@[i as int].0@, store.entries@[i as int].1@));
            assert(out@ =~= pre + encode_entry(e));
            assert(store.kvs().take(i + 1) =~= store.kvs().take(i as int).push(e));
            lemma_encode_kvs_push(store.kvs().take(i as int), e);
        }
        i = i + 1;
    }
    proof {
        assert(store.kvs().take(n as int) =~= store.kvs());
    }
    out
}

/// The root digest of a store: SHA-256 of its canonical encoding, the
/// fixed-size state commitment every node agrees on.
pub fn root_digest(store: &AuthStorage) -> (r: Vec<u8>)
    requires
        store.wf(),
    ensures
        r@ == digest_of_kvs(store.kvs()),
        r@.len() == 32,
{
    let bytes = encode_store(store);
    sha256(&bytes)
}

/// Commits a batch to a store: applies every operation in order as one
/// atomic state transition and returns the new root digest. Durability is
/// the caller's half of the bargain: the encoding to persist is
/// [`encode_store`] of the store after this call.
pub fn commit_batch(store: &mut AuthStorage, ops: &Vec<crate::akv::Op>) -> (r: Vec<u8>)
    requires
        old(store).wf(),
        crate::akv::ops_bounded(crate::akv::ops_views(ops@)),
    ensures
        final(store).wf(),
        final(store)@ == crate::akv::apply_ops(old(store)@, crate::akv::ops_views(ops@)),
        r@ == digest_of_kvs(final(store).kvs()),
        r@.len() == 32,
{
    store.apply_batch(ops);
    root_digest(store)
}

/// Law: the root digest depends on the key/value set alone. Two
/// well-formed stores with equal contents carry equal canonical encodings
/// and equal root digests, however their entries were built up.
pub proof fn lemma_digest_deterministic(s1: &AuthStorage, s2: &AuthStorage)
    requires
        s1.wf(),
        s2.wf(),
        s1@ == s2@,
    ensures
        encode_kvs(s1.kvs()) == encode_kvs(s2.kvs()),
        digest_of_kvs(s1.kvs()) == digest_of_kvs(s2.kvs()),
{
    crate::akv::lemma_contents_determine_entries(s1, s2);
}

/// A proof of inclusion or absence for a key under a root digest: a full
/// snapshot of the committed entries, to be re-hashed by the verifier.
pub struct InclusionProof {
    pub entries: AuthStorage,
}

/// Builds an inclusion proof from the committed state.
pub fn make_proof(store: &AuthStorage) -> (r: InclusionProof)
    requires
        store.wf(),
    ensures
        r.entries.wf(),
        r.entries.kvs() == store.kvs(),
{
    InclusionProof { entries: store.duplicate() }
}

/// Checks an inclusion proof against a trusted root digest and reads `key`
/// from it. `None` means the snapshot does not hash to `root` and proves
/// nothing; otherwise the inner option is the value the authenticated
/// snapshot holds for `key`, absence meaning the key is not in the state
/// the root stands for.
pub fn verify_inclusion(proof: &InclusionProof, root: &Vec<u8>, key: &Vec<u8>) -> (r: Option<
    Option<Vec<u8>>,
>)
    requires
        proof.entries.wf(),
    ensures
        match r {
            Some(v) => digest_of_kvs(proof.entries.kvs()) == root@ && match v {
                Some(b) => proof.entries@.dom().contains(key@) && b@ == proof.entries@[key@],
                None => !proof.entries@.dom().contains(key@),
            },
            None => digest_of_kvs(proof.entries.kvs()) != root@,
        },
{
    let d = root_digest(&proof.entries);
    if bytes_eq(&d, root) {
        Some(proof.entries.get(key))
    } else {
        None
    }
}

} // verus!
