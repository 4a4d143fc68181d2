//! The consensus bridge: the application-side state machine an external
//! consensus engine drives, one cycle per block.
//!
//! One cycle runs `begin_block`, any number of `deliver_tx` in the exact
//! order the engine delivers transactions, then `commit_prepare` and
//! `commit_finish`. `check_tx` pre-validates against the last committed
//! state at any time and never mutates it. Queries are answered against the
//! last committed state only, never the block in progress, so every read
//! corresponds to a fully committed height. The surrounding application
//! owns one bridge behind a mutex (the storage service facade), checks the
//! phase before each callback so that out-of-order calls are refused, and
//! halts the process when `commit_finish` reports a storage fault.

use vstd::prelude::*;

use crate::akv::AuthStorage;
use crate::akv::Op;
use crate::akv::OpView;
use crate::akv::apply_ops;
use crate::akv::copy_bytes;
use crate::akv::op_bounded;
use crate::akv::ops_bounded;
use crate::akv::ops_views;
use crate::codec::MutationView;
use crate::codec::decode_mutation;
use crate::codec::parse_mutation;
use crate::digest::InclusionProof;
use crate::digest::digest_of_kvs;
use crate::digest::encode_kvs;
use crate::digest::encode_store;
use crate::digest::make_proof;
use crate::digest::root_digest;
use crate::errors::StorageError;
use crate::errors::ValidationError;
use crate::mutation::NonceTable;
use crate::mutation::SizeLimits;
use crate::mutation::check_sizes;
use crate::mutation::lemma_size_ok_bounded;
use crate::mutation::nonce_in;
use crate::mutation::size_error;

verus! {

/// Where the bridge stands in a block's cycle.
#[derive(Debug, PartialEq, Eq, Structural, Clone, Copy)]
pub enum Phase {
    /// Between blocks; the committed state answers every query.
    Idle,
    /// A block is in progress: transactions arrive in consensus order.
    ExecutingBlock,
    /// The block's effect is staged; the durable write's outcome is awaited.
    Committing,
    /// A storage fault was seen at commit time; the bridge refuses all
    /// further blocks rather than report a digest it did not persist.
    Halted,
}

/// The process-wide snapshot of the node: height, state commitment and the
/// time of the last commit. Readers receive a copy, never a reference, so a
/// concurrent status query never sees a torn update.
#[derive(Debug, PartialEq, Eq, Clone)]
pub struct NodeState {
    pub height: u64,
    pub app_hash: Vec<u8>,
    pub timestamp: u64,
}

/// The validation verdict on a payload, against a given nonce table: the
/// encoding must be well formed, the sender authentic, the nonce exactly
/// one past the sender's last accepted nonce, and every operation within
/// the size limits — in that order.
pub open spec fn validate(
    lim: SizeLimits,
    nonces: Seq<(Seq<u8>, u64)>,
    parsed: Option<MutationView>,
    sender_authentic: bool,
) -> Result<(), ValidationError> {
    match parsed {
        None => Err(ValidationError::Malformed),
        Some(m) => if !sender_authentic {
            Err(ValidationError::BadSignature)
        } else if m.nonce as int != nonce_in(nonces, m.sender) as int + 1 {
            Err(ValidationError::InvalidNonce)
        } else {
            match size_error(lim, m.ops) {
                Some(e) => Err(e),
                None => Ok(()),
            }
        },
    }
}

/// The views of two concatenated batches are the concatenated views.
proof fn lemma_ops_views_concat(a: Seq<Op>, b: Seq<Op>)
    ensures
        ops_views(a + b) == ops_views(a) + ops_views(b),
{
    assert(ops_views(a + b) =~= ops_views(a) + ops_views(b));
}

/// The consensus bridge. `store` is the last committed state; during a
/// block, accepted operations gather in `block_ops` and nonces advance in
/// `block_nonces`; at commit time the block's whole effect is staged and
/// becomes committed only once the durable write is acknowledged.
pub struct ConsensusBridge {
    pub store: AuthStorage,
    pub staged: AuthStorage,
    pub staged_digest: Vec<u8>,
    pub nonces: NonceTable,
    pub block_nonces: NonceTable,
    pub block_ops: Vec<Op>,
    pub height: u64,
    pub app_hash: Vec<u8>,
    pub last_commit_time: u64,
    pub phase: Phase,
    pub limits: SizeLimits,
}

impl ConsensusBridge {
    /// Well-formed: the committed state is a valid store, the advertised
    /// app hash is its digest, the nonce tables are valid, the gathered
    /// batch fits the encoding, and while committing the staged state is
    /// exactly the batch's effect on the committed state.
    pub open spec fn wf(&self) -> bool {
        &&& self.store.wf()
        &&& self.nonces.wf()
        &&& self.block_nonces.wf()
        &&& ops_bounded(ops_views(self.block_ops@))
        &&& self.app_hash@ == digest_of_kvs(self.store.kvs())
        &&& (self.phase == Phase::Committing ==> {
            &&& self.staged.wf()
            &&& self.staged@ == apply_ops(self.store@, ops_views(self.block_ops@))
            &&& self.staged_digest@ == digest_of_kvs(self.staged.kvs())
        })
    }

    /// A fresh bridge over an empty store, at height zero, between blocks.
    pub fn new(limits: SizeLimits) -> (r: Self)
        ensures
            r.wf(),
            r.phase == Phase::Idle,
            r.height == 0,
            r.store@ == Map::<Seq<u8>, Seq<u8>>::empty(),
            forall|k: Seq<u8>| nonce_in(#[trigger] r.nonces.table(), k) == 0,
    {
        let store = AuthStorage::new();
        let digest = root_digest(&store);
        let r = ConsensusBridge {
            store,
            staged: AuthStorage::new(),
            staged_digest: Vec::new(),
            nonces: NonceTable::new(),
            block_nonces: NonceTable::new(),
            block_ops: Vec::new(),
            height: 0,
            app_hash: digest,
            last_commit_time: 0,
            phase: Phase::Idle,
            limits,
        };
        proof {
            assert(ops_views(r.block_ops@) =~= Seq::<OpView>::empty());
        }
        r
    }

    /// The phase the bridge stands in; the caller's guard against calls
    /// out of sequence.
    pub fn current_phase(&self) -> (r: Phase)
        ensures
            r == self.phase,
    {
        self.phase
    }

    /// Info: the node-state snapshot status queries read.
    pub fn info(&self) -> (r: NodeState)
        ensures
            r.height == self.height,
            r.app_hash@ == self.app_hash@,
            r.timestamp == self.last_commit_time,
    {
        NodeState {
            height: self.height,
            app_hash: copy_bytes(&self.app_hash),
            timestamp: self.last_commit_time,
        }
    }

    /// CheckTransaction: pre-validation against the last committed state,
    /// used to filter the pending pool. Mutates nothing and is idempotent
    /// for the same input. `sender_authentic` is the verdict of the
    /// external signature-verification collaborator on this payload.
    pub fn check_tx(&self, tx: &Vec<u8>, sender_authentic: bool) -> (r: Result<
        (),
        ValidationError,
    >)
        requires
            self.wf(),
        ensures
            r == validate(self.limits, self.nonces.table(), parse_mutation(tx@), sender_authentic),
    {
        match decode_mutation(tx) {
            None => Err(ValidationError::Malformed),
            Some(m) => {
                if !sender_authentic {
                    return Err(ValidationError::BadSignature);
                }
                let last = self.nonces.get_nonce(&m.sender);
                if last == u64::MAX || m.nonce != last + 1 {
                    return Err(ValidationError::InvalidNonce);
                }
                match check_sizes(&self.limits, &m.ops) {
                    Some(e) => Err(e),
                    None => Ok(()),
                }
            },
        }
    }

    /// BeginBlock: opens a block. The block's nonce view starts from the
    /// committed table and its batch starts empty.
    pub fn begin_block(&mut self)
        requires
            old(self).wf(),
            old(self).phase == Phase::Idle,
        ensures
            final(self).wf(),
            final(self).phase == Phase::ExecutingBlock,
            final(self).store == old(self).store,
            final(self).nonces == old(self).nonces,
            final(self).height == old(self).height,
            final(self).app_hash == old(self).app_hash,
            final(self).last_commit_time == old(self).last_commit_time,
            final(self).limits == old(self).limits,
            final(self).block_ops@.len() == 0,
            final(self).block_nonces.table() == old(self).nonces.table(),
    {
        let t = self.nonces.duplicate();
        self.block_nonces = t;
        self.block_ops = Vec::new();
        self.phase = Phase::ExecutingBlock;
        proof {
            assert(ops_views(self.block_ops@) =~= Seq::<OpView>::empty());
        }
    }

    /// DeliverTransaction: re-validates against the block's working state
    /// and, on acceptance, appends the mutation's operations to the block's
    /// batch and advances the sender's working nonce. Delivery order is the
    /// batch order: a later write to the same key wins. Rejection leaves
    /// the block's state untouched and never aborts the block; the
    /// committed state is never touched either way.
    pub fn deliver_tx(&mut self, tx: &Vec<u8>, sender_authentic: bool) -> (r: Result<
        (),
        ValidationError,
    >)
        requires
            old(self).wf(),
            old(self).phase == Phase::ExecutingBlock,
        ensures
            final(self).wf(),
            final(self).phase == Phase::ExecutingBlock,
            final(self).store == old(self).store,
            final(self).nonces == old(self).nonces,
            final(self).height == old(self).height,
            final(self).app_hash == old(self).app_hash,
            final(self).last_commit_time == old(self).last_commit_time,
            final(self).limits == old(self).limits,
            r == validate(
                old(self).limits,
                old(self).block_nonces.table(),
                parse_mutation(tx@),
                sender_authentic,
            ),
            r is Err ==> final(self).block_ops == old(self).block_ops
                && final(self).block_nonces == old(self).block_nonces,
            r is Ok ==> (parse_mutation(tx@) matches Some(m) ==> {
                &&& ops_views(final(self).block_ops@) == ops_views(old(self).block_ops@) + m.ops
                &&& forall|k: Seq<u8>|
                    nonce_in(#[trigger] final(self).block_nonces.table(), k) == if k == m.sender {
                        m.nonce
                    } else {
                        nonce_in(old(self).block_nonces.table(), k)
                    }
            }),
    {
        match decode_mutation(tx) {
            None => Err(ValidationError::Malformed),
            Some(mut m) => {
                if !sender_authentic {
                    return Err(ValidationError::BadSignature);
                }
                let last = self.block_nonces.get_nonce(&m.sender);
                if last == u64::MAX || m.nonce != last + 1 {
                    return Err(ValidationError::InvalidNonce);
                }
                match check_sizes(&self.limits, &m.ops) {
                    Some(e) => Err(e),
                    None => {
                        let ghost old_ops = self.block_ops@;
                        let ghost mops = m.ops@;
                        proof {
                            lemma_size_ok_bounded(self.limits, ops_views(m.ops@));
                        }
                        self.block_nonces.record(&m.sender, m.nonce);
                        self.block_ops.append(&mut m.ops);
                        proof {
                            assert(self.block_ops@ == old_ops + mops);
                            lemma_ops_views_concat(old_ops, mops);
                            assert forall|i: int|
                                0 <= i < ops_views(self.block_ops@).len() implies op_bounded(
                                #[trigger] ops_views(self.block_ops@)[i],
                            ) by {
                                if i < old_ops.len() {
                                    assert(ops_views(self.block_ops@)[i] == ops_views(old_ops)[i]);
                                    assert(op_bounded(ops_views(old_ops)[i]));
                                } else {
                                    assert(ops_views(self.block_ops@)[i] == ops_views(mops)[i
                                        - old_ops.len()]);
                                    assert(op_bounded(ops_views(mops)[i - old_ops.len()]));
                                }
                            }
                        }
                        Ok(())
                    },
                }
            },
        }
    }

    /// Commit, first half: stages the block's whole batch as one atomic
    /// effect on a snapshot of the committed state and returns the digest
    /// the block would commit to, with the canonical encoding to persist.
    /// The committed state is not touched yet: a concurrent query still
    /// sees the pre-block state in full. The caller must durably write the
    /// encoding and hand the outcome to `commit_finish`.
    pub fn commit_prepare(&mut self) -> (r: (Vec<u8>, Vec<u8>))
        requires
            old(self).wf(),
            old(self).phase == Phase::ExecutingBlock,
        ensures
            final(self).wf(),
            final(self).phase == Phase::Committing,
            final(self).store == old(self).store,
            final(self).nonces == old(self).nonces,
            final(self).block_nonces == old(self).block_nonces,
            final(self).block_ops == old(self).block_ops,
            final(self).height == old(self).height,
            final(self).app_hash == old(self).app_hash,
            final(self).last_commit_time == old(self).last_commit_time,
            final(self).limits == old(self).limits,
            final(self).staged@ == apply_ops(old(self).store@, ops_views(old(self).block_ops@)),
            r.0@ == digest_of_kvs(final(self).staged.kvs()),
            r.0@.len() == 32,
            r.1@ == encode_kvs(final(self).staged.kvs()),
    {
        let mut staged = self.store.duplicate();
        staged.apply_batch(&self.block_ops);
        let bytes = encode_store(&staged);
        let digest = root_digest(&staged);
        let d2 = copy_bytes(&digest);
        self.staged = staged;
        self.staged_digest = d2;
        self.phase = Phase::Committing;
        (digest, bytes)
    }

    /// Commit, second half: takes whether the durable write succeeded. On
    /// success the staged state becomes the committed state in one step,
    /// the height advances by exactly one, the committed nonce table
    /// becomes the block's, and the node-state snapshot is returned. On
    /// failure the bridge halts — no digest is reported, the committed
    /// state and height stay as they were, and no further block is
    /// accepted.
    pub fn commit_finish(&mut self, write_ok: bool, timestamp: u64) -> (r: Result<
        NodeState,
        StorageError,
    >)
        requires
            old(self).wf(),
            old(self).phase == Phase::Committing,
            old(self).height < u64::MAX,
        ensures
            final(self).wf(),
            final(self).limits == old(self).limits,
            write_ok ==> {
                &&& final(self).phase == Phase::Idle
                &&& final(self).height == old(self).height + 1
                &&& final(self).store@ == apply_ops(
                    old(self).store@,
                    ops_views(old(self).block_ops@),
                )
                &&& final(self).app_hash@ == digest_of_kvs(final(self).store.kvs())
                &&& final(self).nonces.table() == old(self).block_nonces.table()
                &&& final(self).last_commit_time == timestamp
                &&& (r matches Ok(ns) && ns.height == old(self).height + 1
                    && ns.app_hash@ == final(self).app_hash@ && ns.timestamp == timestamp)
            },
            !write_ok ==> {
                &&& r == Err::<NodeState, StorageError>(StorageError::WriteFailed)
                &&& final(self).phase == Phase::Halted
                &&& final(self).store == old(self).store
                &&& final(self).height == old(self).height
                &&& final(self).app_hash == old(self).app_hash
                &&& final(self).nonces == old(self).nonces
            },
    {
        if !write_ok {
            self.phase = Phase::Halted;
            return Err(StorageError::WriteFailed);
        }
        core::mem::swap(&mut self.store, &mut self.staged);
        core::mem::swap(&mut self.app_hash, &mut self.staged_digest);
        core::mem::swap(&mut self.nonces, &mut self.block_nonces);
        self.block_ops = Vec::new();
        self.height = self.height + 1;
        self.last_commit_time = timestamp;
        self.phase = Phase::Idle;
        proof {
            assert(ops_views(self.block_ops@) =~= Seq::<OpView>::empty());
        }
        let ns = NodeState {
            height: self.height,
            app_hash: copy_bytes(&self.app_hash),
            timestamp,
        };
        Ok(ns)
    }

    /// Query: a point read answered against the last committed state only,
    /// never the block in progress, with the height the answer is valid
    /// for.
    pub fn query(&self, key: &Vec<u8>) -> (r: (Option<Vec<u8>>, u64))
        requires
            self.wf(),
        ensures
            r.1 == self.height,
            match r.0 {
                Some(v) => self.store@.dom().contains(key@) && v@ == self.store@[key@],
                None => !self.store@.dom().contains(key@),
            },
    {
        (self.store.get(key), self.height)
    }

    /// Query with proof: the point read plus an inclusion proof a client
    /// can check against the app hash this node advertises.
    pub fn query_with_proof(&self, key: &Vec<u8>) -> (r: (Option<Vec<u8>>, u64, InclusionProof))
        requires
            self.wf(),
        ensures
            r.1 == self.height,
            match r.0 {
                Some(v) => self.store@.dom().contains(key@) && v@ == self.store@[key@],
                None => !self.store@.dom().contains(key@),
            },
            r.2.entries.wf(),
            r.2.entries.kvs() == self.store.kvs(),
    {
        let (v, h) = self.query(key);
        (v, h, make_proof(&self.store))
    }
}

} // verus!
