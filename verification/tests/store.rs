//! Tests of the authenticated store, its digest and the wire codec.

use db3_core::akv::AuthStorage;
use db3_core::akv::Op;
use db3_core::codec::Mutation;
use db3_core::codec::decode_mutation;
use db3_core::codec::encode_mutation_bytes;
use db3_core::digest::commit_batch;
use db3_core::digest::make_proof;
use db3_core::digest::root_digest;
use db3_core::digest::verify_inclusion;
use db3_core::mutation::NonceTable;
use db3_core::order::bytes_eq;
use db3_core::order::lex_less;

#[test]
fn lex_order_on_bytes() {
    assert!(lex_less(&b"a".to_vec(), &b"b".to_vec()));
    assert!(lex_less(&b"a".to_vec(), &b"ab".to_vec()));
    assert!(!lex_less(&b"ab".to_vec(), &b"a".to_vec()));
    assert!(!lex_less(&b"a".to_vec(), &b"a".to_vec()));
    assert!(lex_less(&b"".to_vec(), &b"a".to_vec()));
}

#[test]
fn get_after_insert_and_remove() {
    let mut s = AuthStorage::new();
    assert_eq!(s.get(&b"a".to_vec()), None);
    s.insert(b"a".to_vec(), b"1".to_vec());
    s.insert(b"b".to_vec(), b"2".to_vec());
    assert_eq!(s.get(&b"a".to_vec()), Some(b"1".to_vec()));
    assert_eq!(s.get(&b"b".to_vec()), Some(b"2".to_vec()));
    s.insert(b"a".to_vec(), b"9".to_vec());
    assert_eq!(s.get(&b"a".to_vec()), Some(b"9".to_vec()));
    s.remove(&b"a".to_vec());
    assert_eq!(s.get(&b"a".to_vec()), None);
    assert_eq!(s.get(&b"b".to_vec()), Some(b"2".to_vec()));
}

#[test]
fn empty_store_digest_is_sha256_of_nothing() {
    let s = AuthStorage::new();
    let d = root_digest(&s);
    let expected: [u8; 32] = [
        0xe3, 0xb0, 0xc4, 0x42, 0x98, 0xfc, 0x1c, 0x14, 0x9a, 0xfb, 0xf4, 0xc8, 0x99, 0x6f,
        0xb9, 0x24, 0x27, 0xae, 0x41, 0xe4, 0x64, 0x9b, 0x93, 0x4c, 0xa4, 0x95, 0x99, 0x1b,
        0x78, 0x52, 0xb8, 0x55,
    ];
    assert_eq!(d, expected.to_vec());
}

#[test]
fn digest_depends_on_contents_not_history() {
    let mut s1 = AuthStorage::new();
    s1.insert(b"a".to_vec(), b"1".to_vec());
    s1.insert(b"b".to_vec(), b"2".to_vec());
    let mut s2 = AuthStorage::new();
    s2.insert(b"b".to_vec(), b"0".to_vec());
    s2.insert(b"a".to_vec(), b"1".to_vec());
    s2.insert(b"b".to_vec(), b"2".to_vec());
    assert_eq!(root_digest(&s1), root_digest(&s2));
}

#[test]
fn digest_changes_with_contents() {
    let mut s = AuthStorage::new();
    s.insert(b"a".to_vec(), b"1".to_vec());
    let d1 = root_digest(&s);
    s.insert(b"a".to_vec(), b"2".to_vec());
    let d2 = root_digest(&s);
    assert_ne!(d1, d2);
    let empty = root_digest(&AuthStorage::new());
    assert_ne!(d1, empty);
}

#[test]
fn batch_is_idempotent_on_reads() {
    let ops = vec![
        Op::Put(b"a".to_vec(), b"1".to_vec()),
        Op::Delete(b"b".to_vec()),
        Op::Put(b"c".to_vec(), b"3".to_vec()),
        Op::Put(b"a".to_vec(), b"2".to_vec()),
    ];
    let mut s = AuthStorage::new();
    s.insert(b"b".to_vec(), b"x".to_vec());
    s.apply_batch(&ops);
    let once = (
        s.get(&b"a".to_vec()),
        s.get(&b"b".to_vec()),
        s.get(&b"c".to_vec()),
        root_digest(&s),
    );
    s.apply_batch(&ops);
    let twice = (
        s.get(&b"a".to_vec()),
        s.get(&b"b".to_vec()),
        s.get(&b"c".to_vec()),
        root_digest(&s),
    );
    assert_eq!(once, twice);
    assert_eq!(once.0, Some(b"2".to_vec()));
    assert_eq!(once.1, None);
}

#[test]
fn commit_batch_applies_atomically_and_digests() {
    let mut s = AuthStorage::new();
    let d1 = commit_batch(
        &mut s,
        &vec![
            Op::Put(b"a".to_vec(), b"1".to_vec()),
            Op::Put(b"b".to_vec(), b"2".to_vec()),
        ],
    );
    assert_eq!(s.get(&b"a".to_vec()), Some(b"1".to_vec()));
    assert_eq!(d1, root_digest(&s));
    assert_eq!(d1.len(), 32);
    let d2 = commit_batch(&mut s, &vec![Op::Delete(b"a".to_vec())]);
    assert_eq!(s.get(&b"a".to_vec()), None);
    assert_ne!(d1, d2);
}

#[test]
fn range_scan_is_ordered_and_restartable() {
    let mut s = AuthStorage::new();
    s.insert(b"d".to_vec(), b"4".to_vec());
    s.insert(b"a".to_vec(), b"1".to_vec());
    s.insert(b"c".to_vec(), b"3".to_vec());
    s.insert(b"b".to_vec(), b"2".to_vec());
    let page1 = s.range(&b"".to_vec(), 2);
    assert_eq!(page1.len(), 2);
    assert_eq!(page1[0].0, b"a".to_vec());
    assert_eq!(page1[1].0, b"b".to_vec());
    let page2 = s.range(&b"c".to_vec(), 10);
    assert_eq!(page2.len(), 2);
    assert_eq!(page2[0], (b"c".to_vec(), b"3".to_vec()));
    assert_eq!(page2[1], (b"d".to_vec(), b"4".to_vec()));
}

#[test]
fn inclusion_proof_checks_against_root() {
    let mut s = AuthStorage::new();
    s.insert(b"a".to_vec(), b"1".to_vec());
    let root = root_digest(&s);
    let proof = make_proof(&s);
    assert_eq!(verify_inclusion(&proof, &root, &b"a".to_vec()), Some(Some(b"1".to_vec())));
    assert_eq!(verify_inclusion(&proof, &root, &b"zz".to_vec()), Some(None));
    let mut bad_root = root.clone();
    bad_root[0] = bad_root[0].wrapping_add(1);
    assert_eq!(verify_inclusion(&proof, &bad_root, &b"a".to_vec()), None);
}

#[test]
fn mutation_codec_round_trip() {
    let m = Mutation {
        sender: b"alice".to_vec(),
        nonce: 7,
        ops: vec![
            Op::Put(b"k1".to_vec(), b"v1".to_vec()),
            Op::Delete(b"k2".to_vec()),
        ],
    };
    let bytes = encode_mutation_bytes(&m);
    let back = decode_mutation(&bytes).expect("well-formed payload must decode");
    assert!(bytes_eq(&back.sender, &b"alice".to_vec()));
    assert_eq!(back.nonce, 7);
    assert_eq!(back.ops.len(), 2);
    match &back.ops[0] {
        Op::Put(k, v) => {
            assert_eq!(k, &b"k1".to_vec());
            assert_eq!(v, &b"v1".to_vec());
        }
        Op::Delete(_) => panic!("first operation must be the put"),
    }
    match &back.ops[1] {
        Op::Delete(k) => assert_eq!(k, &b"k2".to_vec()),
        Op::Put(_, _) => panic!("second operation must be the delete"),
    }
}

#[test]
fn decode_rejects_malformed_payloads() {
    assert!(decode_mutation(&vec![]).is_none());
    assert!(decode_mutation(&vec![0, 0, 0]).is_none());
    let m = Mutation { sender: b"a".to_vec(), nonce: 1, ops: vec![] };
    let mut bytes = encode_mutation_bytes(&m);
    bytes.push(0xff);
    assert!(decode_mutation(&bytes).is_none());
    let mut truncated = encode_mutation_bytes(&Mutation {
        sender: b"a".to_vec(),
        nonce: 1,
        ops: vec![Op::Put(b"k".to_vec(), b"v".to_vec())],
    });
    truncated.pop();
    assert!(decode_mutation(&truncated).is_none());
}

#[test]
fn nonce_table_tracks_last_accepted() {
    let mut t = NonceTable::new();
    assert_eq!(t.get_nonce(&b"alice".to_vec()), 0);
    t.record(&b"alice".to_vec(), 1);
    t.record(&b"bob".to_vec(), 5);
    assert_eq!(t.get_nonce(&b"alice".to_vec()), 1);
    assert_eq!(t.get_nonce(&b"bob".to_vec()), 5);
    t.record(&b"alice".to_vec(), 2);
    assert_eq!(t.get_nonce(&b"alice".to_vec()), 2);
    assert_eq!(t.get_nonce(&b"carol".to_vec()), 0);
}
