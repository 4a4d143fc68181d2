//! Per-sender nonces and the validation rules a transaction must pass
//! before its operations may join a block's batch.

use vstd::prelude::*;

use crate::akv::Op;
use crate::akv::OpView;
use crate::akv::op_bounded;
use crate::akv::ops_bounded;
use crate::errors::ValidationError;
use crate::order::bytes_eq;

verus! {

/// The views of a list of sender/nonce pairs.
pub open spec fn nonce_pairs_views(s: Seq<(Vec<u8>, u64)>) -> Seq<(Seq<u8>, u64)> {
    s.map_values(|e: (Vec<u8>, u64)| (e.0@, e.1))
}

/// The nonce recorded for a sender, zero when none is.
pub open spec fn nonce_in(t: Seq<(Seq<u8>, u64)>, sender: Seq<u8>) -> u64
    decreases t.len(),
{
    if t.len() == 0 {
        0
    } else if t.last().0 == sender {
        t.last().1
    } else {
        nonce_in(t.drop_last(), sender)
    }
}

/// An entry whose sender no later entry repeats gives the table's nonce.
proof fn lemma_nonce_in_index(t: Seq<(Seq<u8>, u64)>, i: int)
    requires
        0 <= i < t.len(),
        forall|j: int| i < j < t.len() ==> (#[trigger] t[j]).0 != t[i].0,
    ensures
        nonce_in(t, t[i].0) == t[i].1,
    decreases t.len(),
{
    if i < t.len() - 1 {
        let dl = t.drop_last();
        assert(dl[i] == t[i]);
        assert forall|j: int| i < j < dl.len() implies (#[trigger] dl[j]).0 != dl[i].0 by {
            assert(dl[j] == t[j]);
        }
        lemma_nonce_in_index(dl, i);
        assert(t[t.len() - 1].0 != t[i].0);
    }
}

/// A sender no entry carries has nonce zero.
proof fn lemma_nonce_in_absent(t: Seq<(Seq<u8>, u64)>, k: Seq<u8>)
    requires
        forall|j: int| 0 <= j < t.len() ==> (#[trigger] t[j]).0 != k,
    ensures
        nonce_in(t, k) == 0,
    decreases t.len(),
{
    if t.len() > 0 {
        let dl = t.drop_last();
        assert forall|j: int| 0 <= j < dl.len() implies (#[trigger] dl[j]).0 != k by {
            assert(dl[j] == t[j]);
        }
        lemma_nonce_in_absent(dl, k);
    }
}

/// Overwriting the nonce at an entry changes the table at that sender only.
proof fn lemma_nonce_in_update(t: Seq<(Seq<u8>, u64)>, i: int, v: u64, k: Seq<u8>)
    requires
        0 <= i < t.len(),
        forall|j1: int, j2: int|
            0 <= j1 < t.len() && 0 <= j2 < t.len() && j1 != j2 ==> (#[trigger] t[j1]).0 != (
            #[trigger] t[j2]).0,
    ensures
        nonce_in(t.update(i, (t[i].0, v)), k) == if t[i].0 == k {
            v
        } else {
            nonce_in(t, k)
        },
    decreases t.len(),
{
    let t2 = t.update(i, (t[i].0, v));
    if i == t.len() - 1 {
        assert(t2.drop_last() =~= t.drop_last());
        assert(t2.last() == (t[i].0, v));
    } else {
        assert(t2.drop_last() =~= t.drop_last().update(i, (t[i].0, v)));
        assert(t2.last() == t.last());
        assert(t.drop_last()[i] == t[i]);
        lemma_nonce_in_update(t.drop_last(), i, v, k);
    }
}

/// The per-sender nonce table: last accepted nonce for each sender, each
/// sender listed at most once.
pub struct NonceTable {
    pub entries: Vec<(Vec<u8>, u64)>,
}

impl NonceTable {
    /// The table as mathematical pairs.
    pub open spec fn table(&self) -> Seq<(Seq<u8>, u64)> {
        nonce_pairs_views(self.entries@)
    }

    /// Well-formed: senders are pairwise distinct.
    pub open spec fn wf(&self) -> bool {
        forall|i: int, j: int|
            0 <= i < self.table().len() && 0 <= j < self.table().len() && i != j ==> (
            #[trigger] self.table()[i]).0 != (#[trigger] self.table()[j]).0
    }

    /// An empty table: every sender is at nonce zero.
    pub fn new() -> (r: Self)
        ensures
            r.wf(),
            forall|k: Seq<u8>| nonce_in(#[trigger] r.table(), k) == 0,
    {
        let r = NonceTable { entries: Vec::new() };
        proof {
            assert forall|k: Seq<u8>| nonce_in(#[trigger] r.table(), k) == 0 by {
                assert(r.table().len() == 0);
            }
        }
        r
    }

    /// The last accepted nonce for a sender, zero when the sender has none.
    pub fn get_nonce(&self, sender: &Vec<u8>) -> (r: u64)
        requires
            self.wf(),
        ensures
            r == nonce_in(self.table(), sender@),
    {
        let n = self.entries.len();
        let mut i: usize = 0;
        while i < n
            invariant
                self.wf(),
                n == self.entries.len(),
                i <= n,
                forall|j: int| 0 <= j < i ==> (#[trigger] self.table()[j]).0 != sender@,
            decreases n - i,
        {
            if bytes_eq(&self.entries[i].0, sender) {
                proof {
                    lemma_nonce_in_index(self.table(), i as int);
                }
                return self.entries[i].1;
            }
            i = i + 1;
        }
        proof {
            lemma_nonce_in_absent(self.table(), sender@);
        }
        0
    }

    /// Records `nonce` as the sender's last accepted nonce, leaving every
    /// other sender's record as it was.
    pub fn record(&mut self, sender: &Vec<u8>, nonce: u64)
        requires
            old(self).wf(),
        ensures
            final(self).wf(),
            forall|k: Seq<u8>|
                nonce_in(#[trigger] final(self).table(), k) == if k == sender@ {
                    nonce
                } else {
                    nonce_in(old(self).table(), k)
                },
    {
        let ghost t0 = self.table();
        let n = self.entries.len();
        let mut i: usize = 0;
        while i < n
            invariant
                self == old(self),
                self.wf(),
                t0 == self.table(),
                n == self.entries.len(),
                i <= n,
                forall|j: int| 0 <= j < i ==> (#[trigger] self.table()[j]).0 != sender@,
            decreases n - i,
        {
            if bytes_eq(&self.entries[i].0, sender) {
                let key = crate::akv::copy_bytes(sender);
                self.entries.set(i, (key, nonce));
                proof {
                    assert(self.table() =~= t0.update(i as int, (t0[i as int].0, nonce)));
                    assert forall|k: Seq<u8>|
                        nonce_in(#[trigger] self.table(), k) == if k == sender@ {
                            nonce
                        } else {
                            nonce_in(t0, k)
                        } by {
                        lemma_nonce_in_update(t0, i as int, nonce, k);
                    }
                    assert forall|j1: int, j2: int|
                        0 <= j1 < self.table().len() && 0 <= j2 < self.table().len() && j1
                            != j2 implies (#[trigger] self.table()[j1]).0 != (
                    #[trigger] self.table()[j2]).0 by {
                        assert(self.table()[j1].0 == t0[j1].0);
                        assert(self.table()[j2].0 == t0[j2].0);
                    }
                }
                return ;
            }
            i = i + 1;
        }
        let key = crate::akv::copy_bytes(sender);
        self.entries.push((key, nonce));
        proof {
            assert(self.table() =~= t0.push((sender@, nonce)));
            assert(self.table().drop_last() =~= t0);
            assert forall|k: Seq<u8>|
                nonce_in(#[trigger] self.table(), k) == if k == sender@ {
                    nonce
                } else {
                    nonce_in(t0, k)
                } by {
                assert(self.table().last() == (sender@, nonce));
            }
            assert forall|j1: int, j2: int|
                0 <= j1 < self.table().len() && 0 <= j2 < self.table().len() && j1 != j2 implies (
            #[trigger] self.table()[j1]).0 != (#[trigger] self.table()[j2]).0 by {
                if j1 < t0.len() && j2 < t0.len() {
                    assert(self.table()[j1] == t0[j1]);
                    assert(self.table()[j2] == t0[j2]);
                } else if j1 < t0.len() {
                    assert(self.table()[j1] == t0[j1]);
                } else {
                    assert(self.table()[j2] == t0[j2]);
                }
            }
        }
    }

    /// An independent copy of this table.
    pub fn duplicate(&self) -> (r: Self)
        ensures
            r.table() == self.table(),
            r.wf() == self.wf(),
    {
        let n = self.entries.len();
        let mut out: Vec<(Vec<u8>, u64)> = Vec::new();
        let mut i: usize = 0;
        while i < n
            invariant
                n == self.entries.len(),
                i <= n,
                out@.len() == i,
                nonce_pairs_views(out@) == self.table().take(i as int),
            decreases n - i,
        {
            let key = crate::akv::copy_bytes(&self.entries[i].0);
            out.push((key, self.entries[i].1));
            proof {
                assert(nonce_pairs_views(out@) =~= self.table().take(i + 1));
            }
            i = i + 1;
        }
        let r = NonceTable { entries: out };
        proof {
            assert(r.table() =~= self.table());
        }
        r
    }
}

/// The size limits a node enforces on every operation of a transaction.
#[derive(Clone, Copy)]
pub struct SizeLimits {
    pub max_key_len: u32,
    pub max_value_len: u32,
}

/// The size verdict on one operation: the first limit it breaks, if any.
pub open spec fn op_size_error(lim: SizeLimits, op: OpView) -> Option<ValidationError> {
    match op {
        OpView::Put(k, v) => if k.len() > lim.max_key_len {
            Some(ValidationError::KeyTooLarge)
        } else if v.len() > lim.max_value_len {
            Some(ValidationError::ValueTooLarge)
        } else {
            None
        },
        OpView::Delete(k) => if k.len() > lim.max_key_len {
            Some(ValidationError::KeyTooLarge)
        } else {
            None
        },
    }
}

/// The size verdict on a batch: the first operation's first broken limit.
pub open spec fn size_error(lim: SizeLimits, ops: Seq<OpView>) -> Option<ValidationError>
    decreases ops.len(),
{
    if ops.len() == 0 {
        None
    } else if op_size_error(lim, ops[0]) is Some {
        op_size_error(lim, ops[0])
    } else {
        size_error(lim, ops.skip(1))
    }
}

/// A batch that passes the size check fits the canonical encoding's length
/// fields.
pub proof fn lemma_size_ok_bounded(lim: SizeLimits, ops: Seq<OpView>)
    requires
        size_error(lim, ops) is None,
    ensures
        ops_bounded(ops),
    decreases ops.len(),
{
    if ops.len() > 0 {
        lemma_size_ok_bounded(lim, ops.skip(1));
        assert forall|i: int| 0 <= i < ops.len() implies op_bounded(#[trigger] ops[i]) by {
            if i > 0 {
                assert(ops.skip(1)[i - 1] == ops[i]);
                assert(op_bounded(ops.skip(1)[i - 1]));
            }
        }
    }
}

/// Checks every operation of a batch against the size limits; returns the
/// first limit broken, if any.
pub fn check_sizes(lim: &SizeLimits, ops: &Vec<Op>) -> (r: Option<ValidationError>)
    ensures
        r == size_error(*lim, crate::akv::ops_views(ops@)),
{
    let ghost vs = crate::akv::ops_views(ops@);
    let n = ops.len();
    let mut i: usize = 0;
    proof {
        assert(vs.skip(0) =~= vs);
    }
    while i < n
        invariant
            n == ops.len(),
            i <= n,
            vs == crate::akv::ops_views(ops@),
            size_error(*lim, vs) == size_error(*lim, vs.skip(i as int)),
            forall|j: int| 0 <= j < i ==> op_size_error(*lim, #[trigger] vs[j]) is None,
        decreases n - i,
    {
        proof {
            assert(vs.skip(i as int)[0] == vs[i as int]);
        }
        let verdict = match &ops[i] {
            Op::Put(k, v) => {
                if k.len() > lim.max_key_len as usize {
                    Some(ValidationError::KeyTooLarge)
                } else if v.len() > lim.max_value_len as usize {
                    Some(ValidationError::ValueTooLarge)
                } else {
                    None
                }
            },
            Op::Delete(k) => {
                if k.len() > lim.max_key_len as usize {
                    Some(ValidationError::KeyTooLarge)
                } else {
                    None
                }
            },
        };
        if let Some(e) = verdict {
            proof {
                assert(op_size_error(*lim, vs[i as int]) == Some(e));
            }
            return Some(e);
        }
        proof {
            assert(vs.skip(i as int).skip(1) =~= vs.skip(i + 1));
        }
        i = i + 1;
    }
    proof {
        assert(vs.skip(n as int) =~= Seq::<OpView>::empty());
    }
    None
}

} // verus!
