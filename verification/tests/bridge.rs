//! Scenario tests of the consensus bridge: block cycles, replay
//! protection, commit atomicity and the halt-on-storage-fault policy.

use db3_core::akv::Op;
use db3_core::bridge::ConsensusBridge;
use db3_core::bridge::Phase;
use db3_core::codec::Mutation;
use db3_core::codec::encode_mutation_bytes;
use db3_core::digest::verify_inclusion;
use db3_core::errors::StorageError;
use db3_core::errors::ValidationError;
use db3_core::mutation::SizeLimits;

fn limits() -> SizeLimits {
    SizeLimits { max_key_len: 64, max_value_len: 256 }
}

fn tx(sender: &[u8], nonce: u64, ops: Vec<Op>) -> Vec<u8> {
    encode_mutation_bytes(&Mutation { sender: sender.to_vec(), nonce, ops })
}

fn commit(bridge: &mut ConsensusBridge, timestamp: u64) -> Vec<u8> {
    let (digest, _snapshot) = bridge.commit_prepare();
    bridge
        .commit_finish(true, timestamp)
        .expect("acknowledged write must commit");
    digest
}

#[test]
fn scenario_one_block_two_puts() {
    let mut b = ConsensusBridge::new(limits());
    let h0 = b.info().height;
    b.begin_block();
    let payload = tx(
        b"alice",
        1,
        vec![
            Op::Put(b"a".to_vec(), b"1".to_vec()),
            Op::Put(b"b".to_vec(), b"2".to_vec()),
        ],
    );
    assert_eq!(b.deliver_tx(&payload, true), Ok(()));
    commit(&mut b, 100);
    assert_eq!(b.query(&b"a".to_vec()), (Some(b"1".to_vec()), h0 + 1));
    assert_eq!(b.query(&b"b".to_vec()), (Some(b"2".to_vec()), h0 + 1));
    assert_eq!(b.info().height, h0 + 1);
}

#[test]
fn scenario_delete_in_later_block() {
    let mut b = ConsensusBridge::new(limits());
    b.begin_block();
    let put = tx(b"alice", 1, vec![Op::Put(b"a".to_vec(), b"1".to_vec())]);
    assert_eq!(b.deliver_tx(&put, true), Ok(()));
    let digest_after_put = commit(&mut b, 100);
    b.begin_block();
    let del = tx(b"alice", 2, vec![Op::Delete(b"a".to_vec())]);
    assert_eq!(b.deliver_tx(&del, true), Ok(()));
    let digest_after_delete = commit(&mut b, 200);
    assert_eq!(b.query(&b"a".to_vec()).0, None);
    assert_ne!(digest_after_put, digest_after_delete);
    assert_eq!(b.info().height, 2);
}

#[test]
fn scenario_duplicate_nonce_rejected() {
    let mut b = ConsensusBridge::new(limits());
    b.begin_block();
    let first = tx(b"alice", 5, vec![Op::Put(b"a".to_vec(), b"1".to_vec())]);
    assert_eq!(
        b.deliver_tx(&first, true),
        Err(ValidationError::InvalidNonce),
        "nonce must start at one",
    );
    let ok = tx(b"alice", 1, vec![Op::Put(b"a".to_vec(), b"1".to_vec())]);
    assert_eq!(b.deliver_tx(&ok, true), Ok(()));
    commit(&mut b, 100);
    let h = b.info().height;
    let hash = b.info().app_hash;
    b.begin_block();
    let replay = tx(b"alice", 1, vec![Op::Put(b"a".to_vec(), b"9".to_vec())]);
    assert_eq!(b.deliver_tx(&replay, true), Err(ValidationError::InvalidNonce));
    assert_eq!(b.query(&b"a".to_vec()).0, Some(b"1".to_vec()), "state unchanged");
    assert_eq!(b.info().height, h, "height does not advance for a rejection");
    assert_eq!(b.info().app_hash, hash);
}

#[test]
fn scenario_nonce_gap_rejected() {
    let mut b = ConsensusBridge::new(limits());
    b.begin_block();
    let first = tx(b"alice", 1, vec![Op::Put(b"a".to_vec(), b"1".to_vec())]);
    assert_eq!(b.deliver_tx(&first, true), Ok(()));
    let skip = tx(b"alice", 3, vec![Op::Put(b"b".to_vec(), b"2".to_vec())]);
    assert_eq!(b.deliver_tx(&skip, true), Err(ValidationError::InvalidNonce));
    let next = tx(b"alice", 2, vec![Op::Put(b"b".to_vec(), b"2".to_vec())]);
    assert_eq!(b.deliver_tx(&next, true), Ok(()));
    commit(&mut b, 100);
    assert_eq!(b.query(&b"b".to_vec()).0, Some(b"2".to_vec()));
}

#[test]
fn scenario_storage_fault_halts() {
    let mut b = ConsensusBridge::new(limits());
    b.begin_block();
    let put = tx(b"alice", 1, vec![Op::Put(b"a".to_vec(), b"1".to_vec())]);
    assert_eq!(b.deliver_tx(&put, true), Ok(()));
    let h = b.info().height;
    let hash = b.info().app_hash;
    let (_digest, _snapshot) = b.commit_prepare();
    assert_eq!(b.commit_finish(false, 100), Err(StorageError::WriteFailed));
    assert_eq!(b.current_phase(), Phase::Halted);
    assert_eq!(b.info().height, h, "no height is reported for a failed commit");
    assert_eq!(b.info().app_hash, hash, "the advertised digest is unchanged");
    assert_eq!(b.query(&b"a".to_vec()).0, None, "the block's writes never became visible");
}

#[test]
fn query_sees_committed_state_only() {
    let mut b = ConsensusBridge::new(limits());
    b.begin_block();
    let put = tx(b"alice", 1, vec![Op::Put(b"a".to_vec(), b"1".to_vec())]);
    assert_eq!(b.deliver_tx(&put, true), Ok(()));
    assert_eq!(b.query(&b"a".to_vec()), (None, 0), "mid-block reads see the pre-block state");
    let (_digest, _snapshot) = b.commit_prepare();
    assert_eq!(b.query(&b"a".to_vec()), (None, 0), "staged state stays invisible until the write is acknowledged");
    b.commit_finish(true, 100).expect("commit");
    assert_eq!(b.query(&b"a".to_vec()), (Some(b"1".to_vec()), 1));
}

#[test]
fn check_tx_validates_without_mutating() {
    let b = ConsensusBridge::new(limits());
    let good = tx(b"alice", 1, vec![Op::Put(b"a".to_vec(), b"1".to_vec())]);
    assert_eq!(b.check_tx(&good, true), Ok(()));
    assert_eq!(b.check_tx(&good, true), Ok(()), "idempotent for the same input");
    assert_eq!(b.check_tx(&good, false), Err(ValidationError::BadSignature));
    assert_eq!(b.check_tx(&vec![1, 2, 3], true), Err(ValidationError::Malformed));
    let stale = tx(b"alice", 2, vec![]);
    assert_eq!(b.check_tx(&stale, true), Err(ValidationError::InvalidNonce));
}

#[test]
fn size_limits_are_enforced() {
    let mut b = ConsensusBridge::new(SizeLimits { max_key_len: 4, max_value_len: 4 });
    b.begin_block();
    let big_key = tx(b"alice", 1, vec![Op::Put(b"abcde".to_vec(), b"1".to_vec())]);
    assert_eq!(b.deliver_tx(&big_key, true), Err(ValidationError::KeyTooLarge));
    let big_value = tx(b"alice", 1, vec![Op::Put(b"k".to_vec(), b"abcde".to_vec())]);
    assert_eq!(b.deliver_tx(&big_value, true), Err(ValidationError::ValueTooLarge));
    let fits = tx(b"alice", 1, vec![Op::Put(b"k".to_vec(), b"v".to_vec())]);
    assert_eq!(b.deliver_tx(&fits, true), Ok(()));
}

#[test]
fn same_contents_same_app_hash_across_histories() {
    let mut b1 = ConsensusBridge::new(limits());
    b1.begin_block();
    let t1 = tx(
        b"alice",
        1,
        vec![
            Op::Put(b"a".to_vec(), b"1".to_vec()),
            Op::Put(b"b".to_vec(), b"2".to_vec()),
        ],
    );
    assert_eq!(b1.deliver_tx(&t1, true), Ok(()));
    commit(&mut b1, 100);

    let mut b2 = ConsensusBridge::new(limits());
    b2.begin_block();
    let t2 = tx(b"bob", 1, vec![Op::Put(b"b".to_vec(), b"2".to_vec())]);
    assert_eq!(b2.deliver_tx(&t2, true), Ok(()));
    commit(&mut b2, 200);
    b2.begin_block();
    let t3 = tx(
        b"bob",
        2,
        vec![
            Op::Put(b"c".to_vec(), b"9".to_vec()),
            Op::Put(b"a".to_vec(), b"1".to_vec()),
            Op::Delete(b"c".to_vec()),
        ],
    );
    assert_eq!(b2.deliver_tx(&t3, true), Ok(()));
    commit(&mut b2, 300);

    assert_eq!(b1.info().app_hash, b2.info().app_hash, "digest depends only on contents");
    assert_ne!(b1.info().height, b2.info().height, "histories differ in length");
}

#[test]
fn later_write_in_block_wins() {
    let mut b = ConsensusBridge::new(limits());
    b.begin_block();
    let t1 = tx(b"alice", 1, vec![Op::Put(b"a".to_vec(), b"first".to_vec())]);
    let t2 = tx(b"bob", 1, vec![Op::Put(b"a".to_vec(), b"second".to_vec())]);
    assert_eq!(b.deliver_tx(&t1, true), Ok(()));
    assert_eq!(b.deliver_tx(&t2, true), Ok(()));
    commit(&mut b, 100);
    assert_eq!(b.query(&b"a".to_vec()).0, Some(b"second".to_vec()));
}

#[test]
fn query_with_proof_verifies_against_app_hash() {
    let mut b = ConsensusBridge::new(limits());
    b.begin_block();
    let put = tx(b"alice", 1, vec![Op::Put(b"a".to_vec(), b"1".to_vec())]);
    assert_eq!(b.deliver_tx(&put, true), Ok(()));
    commit(&mut b, 100);
    let root = b.info().app_hash;
    let (value, _h, proof) = b.query_with_proof(&b"a".to_vec());
    assert_eq!(value, Some(b"1".to_vec()));
    assert_eq!(verify_inclusion(&proof, &root, &b"a".to_vec()), Some(Some(b"1".to_vec())));
    assert_eq!(verify_inclusion(&proof, &root, &b"missing".to_vec()), Some(None));
}
