//! The authenticated key-value store's state: an ordered mapping from byte
//! keys to byte values, kept sorted by the lexicographic key order.
//!
//! The mathematical model of a store is the map from key to value,
//! `Map<Seq<u8>, Seq<u8>>`; the sorted entry list is the representation that
//! makes the canonical encoding, and with it the root digest, unique for a
//! given map.

use vstd::pervasive::VecAdditionalExecFns;
use vstd::prelude::*;

use crate::order::bytes_eq;
use crate::order::lemma_lex_asymmetric;
use crate::order::lemma_lex_connected;
use crate::order::lemma_lex_irreflexive;
use crate::order::lemma_lex_transitive;
use crate::order::lex_less;
use crate::order::lex_lt;

verus! {

/// One staged mutation: write a value under a key, or drop a key.
pub enum Op {
    Put(Vec<u8>, Vec<u8>),
    Delete(Vec<u8>),
}

/// The mathematical form of an [`Op`].
pub enum OpView {
    Put(Seq<u8>, Seq<u8>),
    Delete(Seq<u8>),
}

impl View for Op {
    type V = OpView;

    open spec fn view(&self) -> OpView {
        match self {
            Op::Put(k, v) => OpView::Put(k@, v@),
            Op::Delete(k) => OpView::Delete(k@),
        }
    }
}

/// The key an operation touches.
pub open spec fn op_key(op: OpView) -> Seq<u8> {
    match op {
        OpView::Put(k, _) => k,
        OpView::Delete(k) => k,
    }
}

/// Whether an operation's key and value fit the canonical encoding's
/// four-byte length fields.
pub open spec fn op_bounded(op: OpView) -> bool {
    match op {
        OpView::Put(k, v) => k.len() <= u32::MAX && v.len() <= u32::MAX,
        OpView::Delete(k) => k.len() <= u32::MAX,
    }
}

/// All operations of a batch fit the encoding's length fields.
pub open spec fn ops_bounded(ops: Seq<OpView>) -> bool {
    forall|i: int| 0 <= i < ops.len() ==> op_bounded(#[trigger] ops[i])
}

/// The views of a batch of operations, in order.
pub open spec fn ops_views(ops: Seq<Op>) -> Seq<OpView> {
    ops.map_values(|o: Op| o@)
}

/// The views of a list of byte-string pairs.
pub open spec fn pairs_views(s: Seq<(Vec<u8>, Vec<u8>)>) -> Seq<(Seq<u8>, Seq<u8>)> {
    s.map_values(|e: (Vec<u8>, Vec<u8>)| (e.0@, e.1@))
}

/// Entries are strictly ascending by key.
pub open spec fn sorted_kvs(s: Seq<(Seq<u8>, Seq<u8>)>) -> bool {
    forall|i: int, j: int| 0 <= i < j < s.len() ==> lex_lt(#[trigger] s[i].0, #[trigger] s[j].0)
}

/// Every key and value fits the encoding's four-byte length fields.
pub open spec fn bounded_kvs(s: Seq<(Seq<u8>, Seq<u8>)>) -> bool {
    forall|i: int|
        0 <= i < s.len() ==> (#[trigger] s[i]).0.len() <= u32::MAX && s[i].1.len() <= u32::MAX
}

/// The map an entry list stands for (later entries win).
pub open spec fn kvs_to_map(s: Seq<(Seq<u8>, Seq<u8>)>) -> Map<Seq<u8>, Seq<u8>>
    decreases s.len(),
{
    if s.len() == 0 {
        Map::empty()
    } else {
        kvs_to_map(s.drop_last()).insert(s.last().0, s.last().1)
    }
}

/// Whether some entry carries the key `k`.
pub open spec fn has_key(s: Seq<(Seq<u8>, Seq<u8>)>, k: Seq<u8>) -> bool {
    exists|i: int| 0 <= i < s.len() && (#[trigger] s[i]).0 == k
}

/// Sorted entry lists carry pairwise distinct keys.
pub proof fn lemma_sorted_keys_unique(s: Seq<(Seq<u8>, Seq<u8>)>)
    requires
        sorted_kvs(s),
    ensures
        forall|i: int, j: int|
            0 <= i < s.len() && 0 <= j < s.len() && i != j ==> (#[trigger] s[i]).0 != (
            #[trigger] s[j]).0,
{
    assert forall|i: int, j: int|
        0 <= i < s.len() && 0 <= j < s.len() && i != j implies (#[trigger] s[i]).0 != (
    #[trigger] s[j]).0 by {
        if i < j {
            lemma_lex_asymmetric(s[i].0, s[j].0);
        } else {
            lemma_lex_asymmetric(s[j].0, s[i].0);
        }
    }
}

/// The domain of the map is exactly the set of keys of the entries.
pub proof fn lemma_map_dom(s: Seq<(Seq<u8>, Seq<u8>)>)
    ensures
        forall|k: Seq<u8>| #[trigger] kvs_to_map(s).dom().contains(k) <==> has_key(s, k),
    decreases s.len(),
{
    if s.len() > 0 {
        let dl = s.drop_last();
        lemma_map_dom(dl);
        assert forall|k: Seq<u8>| #[trigger]
            kvs_to_map(s).dom().contains(k) <==> has_key(s, k) by {
            if kvs_to_map(s).dom().contains(k) {
                if k == s.last().0 {
                    assert(s[s.len() - 1].0 == k);
                } else {
                    assert(kvs_to_map(dl).dom().contains(k));
                    assert(has_key(dl, k));
                    let i = choose|i: int| 0 <= i < dl.len() && (#[trigger] dl[i]).0 == k;
                    assert(dl[i] == s[i]);
                    assert(s[i].0 == k);
                }
            }
            if has_key(s, k) {
                let i = choose|i: int| 0 <= i < s.len() && (#[trigger] s[i]).0 == k;
                if i < s.len() - 1 {
                    assert(dl[i] == s[i]);
                    assert(dl[i].0 == k);
                    assert(has_key(dl, k));
                    assert(kvs_to_map(dl).dom().contains(k));
                } else {
                    assert(k == s.last().0);
                }
            }
        }
    }
}

/// An entry whose key no later entry repeats gives the map's value at it.
pub proof fn lemma_map_index(s: Seq<(Seq<u8>, Seq<u8>)>, i: int)
    requires
        0 <= i < s.len(),
        forall|j: int| i < j < s.len() ==> (#[trigger] s[j]).0 != s[i].0,
    ensures
        kvs_to_map(s).dom().contains(s[i].0),
        kvs_to_map(s)[s[i].0] == s[i].1,
    decreases s.len(),
{
    if i < s.len() - 1 {
        let dl = s.drop_last();
        assert(dl[i] == s[i]);
        assert forall|j: int| i < j < dl.len() implies (#[trigger] dl[j]).0 != dl[i].0 by {
            assert(dl[j] == s[j]);
        }
        lemma_map_index(dl, i);
        assert(s[s.len() - 1].0 != s[i].0);
    }
}

/// Replacing the value at an entry updates the map at that key.
pub proof fn lemma_map_update(s: Seq<(Seq<u8>, Seq<u8>)>, i: int, v: Seq<u8>)
    requires
        0 <= i < s.len(),
        forall|j1: int, j2: int|
            0 <= j1 < s.len() && 0 <= j2 < s.len() && j1 != j2 ==> (#[trigger] s[j1]).0 != (
            #[trigger] s[j2]).0,
    ensures
        kvs_to_map(s.update(i, (s[i].0, v))) == kvs_to_map(s).insert(s[i].0, v),
    decreases s.len(),
{
    let k = s[i].0;
    let s2 = s.update(i, (k, v));
    if i == s.len() - 1 {
        assert(s2.drop_last() =~= s.drop_last());
        assert(s2.last() == (k, v));
        assert(kvs_to_map(s2) =~= kvs_to_map(s).insert(k, v));
    } else {
        assert(s2.drop_last() =~= s.drop_last().update(i, (k, v)));
        assert(s2.last() == s.last());
        lemma_map_update(s.drop_last(), i, v);
        assert(s.last().0 != k);
        assert(kvs_to_map(s2) =~= kvs_to_map(s).insert(k, v));
    }
}

/// Inserting an entry under a fresh key inserts it into the map,
/// wherever in the list it lands.
pub proof fn lemma_map_insert_at(s: Seq<(Seq<u8>, Seq<u8>)>, p: int, k: Seq<u8>, v: Seq<u8>)
    requires
        0 <= p <= s.len(),
        !has_key(s, k),
    ensures
        kvs_to_map(s.insert(p, (k, v))) == kvs_to_map(s).insert(k, v),
    decreases s.len(),
{
    let s2 = s.insert(p, (k, v));
    if p == s.len() {
        assert(s2.drop_last() =~= s);
        assert(s2.last() == (k, v));
        assert(kvs_to_map(s2) =~= kvs_to_map(s).insert(k, v));
    } else {
        assert(s2.last() == s.last());
        assert(s2.drop_last() =~= s.drop_last().insert(p, (k, v)));
        assert(!has_key(s.drop_last(), k)) by {
            if has_key(s.drop_last(), k) {
                let i = choose|i: int|
                    0 <= i < s.drop_last().len() && (#[trigger] s.drop_last()[i]).0 == k;
                assert(s[i].0 == k);
            }
        }
        lemma_map_insert_at(s.drop_last(), p, k, v);
        assert(s.last().0 != k) by {
            if s.last().0 == k {
                assert(s[s.len() - 1].0 == k);
            }
        }
        assert(kvs_to_map(s2) =~= kvs_to_map(s).insert(k, v));
    }
}

/// Removing an entry whose key is unique removes its key from the map.
pub proof fn lemma_map_remove_at(s: Seq<(Seq<u8>, Seq<u8>)>, i: int)
    requires
        0 <= i < s.len(),
        forall|j1: int, j2: int|
            0 <= j1 < s.len() && 0 <= j2 < s.len() && j1 != j2 ==> (#[trigger] s[j1]).0 != (
            #[trigger] s[j2]).0,
    ensures
        kvs_to_map(s.remove(i)) == kvs_to_map(s).remove(s[i].0),
    decreases s.len(),
{
    let k = s[i].0;
    let s2 = s.remove(i);
    let dl = s.drop_last();
    if i == s.len() - 1 {
        assert(s2 =~= dl);
        assert(!has_key(dl, k)) by {
            if has_key(dl, k) {
                let j = choose|j: int| 0 <= j < dl.len() && (#[trigger] dl[j]).0 == k;
                assert(s[j].0 == k);
            }
        }
        lemma_map_dom(dl);
        assert(kvs_to_map(s2) =~= kvs_to_map(s).remove(k));
    } else {
        assert(s2.last() == s.last());
        assert(s2.drop_last() =~= dl.remove(i));
        lemma_map_remove_at(dl, i);
        assert(dl[i].0 == k);
        assert(s.last().0 != k);
        assert(kvs_to_map(s2) =~= kvs_to_map(s).remove(k));
    }
}

/// Copies a byte string.
pub fn copy_bytes(src: &Vec<u8>) -> (r: Vec<u8>)
    ensures
        r@ == src@,
{
    let mut out: Vec<u8> = Vec::new();
    let mut i: usize = 0;
    while i < src.len()
        invariant
            i <= src.len(),
            out@ == src@.take(i as int),
        decreases src.len() - i,
    {
        out.push(src[i]);
        proof {
            assert(src@.take(i + 1) =~= src@.take(i as int).push(src@[i as int]));
        }
        i = i + 1;
    }
    proof {
        assert(src@.take(src@.len() as int) =~= src@);
    }
    out
}

/// The authenticated key-value store's in-memory state: entries sorted
/// strictly ascending by key.
pub struct AuthStorage {
    pub entries: Vec<(Vec<u8>, Vec<u8>)>,
}

impl View for AuthStorage {
    type V = Map<Seq<u8>, Seq<u8>>;

    open spec fn view(&self) -> Map<Seq<u8>, Seq<u8>> {
        kvs_to_map(self.kvs())
    }
}

impl AuthStorage {
    /// The entry list as mathematical byte strings.
    pub open spec fn kvs(&self) -> Seq<(Seq<u8>, Seq<u8>)> {
        pairs_views(self.entries@)
    }

    /// Well-formed: sorted strictly ascending by key, sizes within the
    /// encoding's length fields.
    pub open spec fn wf(&self) -> bool {
        sorted_kvs(self.kvs()) && bounded_kvs(self.kvs())
    }

    /// An empty store.
    pub fn new() -> (r: Self)
        ensures
            r.wf(),
            r@ == Map::<Seq<u8>, Seq<u8>>::empty(),
            r.kvs().len() == 0,
    {
        let r = AuthStorage { entries: Vec::new() };
        proof {
            assert(r.kvs() =~= Seq::<(Seq<u8>, Seq<u8>)>::empty());
        }
        r
    }

    /// Point lookup against this state; no side effects.
    pub fn get(&self, key: &Vec<u8>) -> (r: Option<Vec<u8>>)
        requires
            self.wf(),
        ensures
            match r {
                Some(v) => self@.dom().contains(key@) && v@ == self@[key@],
                None => !self@.dom().contains(key@),
            },
    {
        let n = self.entries.len();
        let mut i: usize = 0;
        while i < n
            invariant
                self.wf(),
                n == self.entries.len(),
                i <= n,
                forall|j: int| 0 <= j < i ==> (#[trigger] self.kvs()[j]).0 != key@,
            decreases n - i,
        {
            if bytes_eq(&self.entries[i].0, key) {
                proof {
                    lemma_sorted_keys_unique(self.kvs());
                    lemma_map_index(self.kvs(), i as int);
                }
                return Some(copy_bytes(&self.entries[i].1));
            }
            i = i + 1;
        }
        proof {
            lemma_map_dom(self.kvs());
        }
        None
    }

    /// Writes `value` under `key`, replacing any prior value.
    pub fn insert(&mut self, key: Vec<u8>, value: Vec<u8>)
        requires
            old(self).wf(),
            key@.len() <= u32::MAX,
            value@.len() <= u32::MAX,
        ensures
            final(self).wf(),
            final(self)@ == old(self)@.insert(key@, value@),
    {
        let ghost s0 = self.kvs();
        let n = self.entries.len();
        let mut i: usize = 0;
        while i < n && lex_less(&self.entries[i].0, &key)
            invariant
                self == old(self),
                n == self.entries.len(),
                i <= n,
                forall|j: int| 0 <= j < i ==> lex_lt((#[trigger] self.kvs()[j]).0, key@),
            decreases n - i,
        {
            i = i + 1;
        }
        proof {
            lemma_sorted_keys_unique(s0);
        }
        if i < n && bytes_eq(&self.entries[i].0, &key) {
            proof {
                lemma_map_update(s0, i as int, value@);
            }
            self.entries.set(i, (key, value));
            proof {
                assert(self.kvs() =~= s0.update(i as int, (s0[i as int].0, value@)));
                assert forall|j1: int, j2: int|
                    0 <= j1 < j2 < self.kvs().len() implies lex_lt(
                    (#[trigger] self.kvs()[j1]).0,
                    (#[trigger] self.kvs()[j2]).0,
                ) by {
                    assert(self.kvs()[j1].0 == s0[j1].0);
                    assert(self.kvs()[j2].0 == s0[j2].0);
                }
            }
        } else {
            proof {
                // Everything at or after position i is strictly above `key`.
                if i < n {
                    assert(!lex_lt(s0[i as int].0, key@));
                    assert(s0[i as int].0 != key@);
                    lemma_lex_connected(s0[i as int].0, key@);
                }
                assert forall|j: int| i <= j < n implies lex_lt(key@, (#[trigger] s0[j]).0) by {
                    if j > i {
                        lemma_lex_transitive(key@, s0[i as int].0, s0[j].0);
                    }
                }
                assert(!has_key(s0, key@)) by {
                    if has_key(s0, key@) {
                        let j = choose|j: int| 0 <= j < s0.len() && (#[trigger] s0[j]).0 == key@;
                        lemma_lex_irreflexive(key@);
                    }
                }
                lemma_map_insert_at(s0, i as int, key@, value@);
            }
            self.entries.insert(i, (key, value));
            proof {
                assert(self.kvs() =~= s0.insert(i as int, (key@, value@)));
                assert forall|j1: int, j2: int|
                    0 <= j1 < j2 < self.kvs().len() implies lex_lt(
                    (#[trigger] self.kvs()[j1]).0,
                    (#[trigger] self.kvs()[j2]).0,
                ) by {
                    let t = self.kvs();
                    if j2 < i {
                        assert(t[j1] == s0[j1] && t[j2] == s0[j2]);
                    } else if j1 < i && j2 == i {
                        assert(t[j1] == s0[j1] && t[j2] == (key@, value@));
                    } else if j1 < i {
                        assert(t[j1] == s0[j1] && t[j2] == s0[j2 - 1]);
                        lemma_lex_transitive(t[j1].0, key@, t[j2].0);
                    } else if j1 == i {
                        assert(t[j2] == s0[j2 - 1]);
                    } else {
                        assert(t[j1] == s0[j1 - 1] && t[j2] == s0[j2 - 1]);
                    }
                }
            }
        }
    }

    /// Drops `key` and its value, if present.
    pub fn remove(&mut self, key: &Vec<u8>)
        requires
            old(self).wf(),
        ensures
            final(self).wf(),
            final(self)@ == old(self)@.remove(key@),
    {
        let ghost s0 = self.kvs();
        let n = self.entries.len();
        let mut i: usize = 0;
        while i < n
            invariant
                self == old(self),
                self.wf(),
                s0 == self.kvs(),
                n == self.entries.len(),
                i <= n,
                forall|j: int| 0 <= j < i ==> (#[trigger] self.kvs()[j]).0 != key@,
            decreases n - i,
        {
            if bytes_eq(&self.entries[i].0, key) {
                proof {
                    lemma_sorted_keys_unique(s0);
                    lemma_map_remove_at(s0, i as int);
                }
                self.entries.remove(i);
                proof {
                    assert(self.kvs() =~= s0.remove(i as int));
                    assert forall|j1: int, j2: int|
                        0 <= j1 < j2 < self.kvs().len() implies lex_lt(
                        (#[trigger] self.kvs()[j1]).0,
                        (#[trigger] self.kvs()[j2]).0,
                    ) by {
                        let t = self.kvs();
                        if j2 < i {
                            assert(t[j1] == s0[j1] && t[j2] == s0[j2]);
                        } else if j1 < i {
                            assert(t[j1] == s0[j1] && t[j2] == s0[j2 + 1]);
                        } else {
                            assert(t[j1] == s0[j1 + 1] && t[j2] == s0[j2 + 1]);
                        }
                    }
                }
                return ;
            }
            i = i + 1;
        }
        proof {
            lemma_map_dom(s0);
            assert(!self@.dom().contains(key@));
            assert(self@.remove(key@) =~= self@);
        }
    }

    /// Applies a batch of operations in order, atomically from the caller's
    /// point of view: the store goes from its old contents to the batch's
    /// full effect.
    pub fn apply_batch(&mut self, ops: &Vec<Op>)
        requires
            old(self).wf(),
            ops_bounded(ops_views(ops@)),
        ensures
            final(self).wf(),
            final(self)@ == apply_ops(old(self)@, ops_views(ops@)),
    {
        let ghost m0 = self@;
        let ghost vs = ops_views(ops@);
        let n = ops.len();
        let mut i: usize = 0;
        proof {
            assert(vs.take(0) =~= Seq::<OpView>::empty());
        }
        while i < n
            invariant
                self.wf(),
                n == ops.len(),
                i <= n,
                ops_bounded(vs),
                vs == ops_views(ops@),
                self@ == apply_ops(m0, vs.take(i as int)),
            decreases n - i,
        {
            proof {
                assert(op_bounded(vs[i as int]));
                lemma_apply_ops_push(m0, vs.take(i as int), vs[i as int]);
                assert(vs.take(i + 1) =~= vs.take(i as int).push(vs[i as int]));
            }
            match &ops[i] {
                Op::Put(k, v) => {
                    self.insert(copy_bytes(k), copy_bytes(v));
                },
                Op::Delete(k) => {
                    self.remove(k);
                },
            }
            i = i + 1;
        }
        proof {
            assert(vs.take(n as int) =~= vs);
        }
    }
}

/// Whether some operation of a batch touches the key `k`.
pub open spec fn ops_touch(ops: Seq<OpView>, k: Seq<u8>) -> bool {
    exists|i: int| 0 <= i < ops.len() && op_key(#[trigger] ops[i]) == k
}

/// A batch leaves keys it never touches exactly as they were.
pub proof fn lemma_apply_ops_untouched(m: Map<Seq<u8>, Seq<u8>>, ops: Seq<OpView>, k: Seq<u8>)
    requires
        !ops_touch(ops, k),
    ensures
        apply_ops(m, ops).dom().contains(k) == m.dom().contains(k),
        m.dom().contains(k) ==> apply_ops(m, ops)[k] == m[k],
    decreases ops.len(),
{
    if ops.len() > 0 {
        assert(op_key(ops[0]) != k);
        assert(!ops_touch(ops.skip(1), k)) by {
            if ops_touch(ops.skip(1), k) {
                let i = choose|i: int|
                    0 <= i < ops.skip(1).len() && op_key(#[trigger] ops.skip(1)[i]) == k;
                assert(ops.skip(1)[i] == ops[i + 1]);
                assert(op_key(ops[i + 1]) == k);
            }
        }
        lemma_apply_ops_untouched(apply_op(m, ops[0]), ops.skip(1), k);
    }
}

/// On a key some operation of the batch touches, the batch's outcome does
/// not depend on the state the batch was applied to.
pub proof fn lemma_apply_ops_touched(
    m1: Map<Seq<u8>, Seq<u8>>,
    m2: Map<Seq<u8>, Seq<u8>>,
    ops: Seq<OpView>,
    k: Seq<u8>,
)
    requires
        ops_touch(ops, k),
    ensures
        apply_ops(m1, ops).dom().contains(k) == apply_ops(m2, ops).dom().contains(k),
        apply_ops(m1, ops).dom().contains(k) ==> apply_ops(m1, ops)[k] == apply_ops(m2, ops)[k],
    decreases ops.len(),
{
    if ops_touch(ops.skip(1), k) {
        lemma_apply_ops_touched(apply_op(m1, ops[0]), apply_op(m2, ops[0]), ops.skip(1), k);
    } else {
        assert(op_key(ops[0]) == k) by {
            let i = choose|i: int| 0 <= i < ops.len() && op_key(#[trigger] ops[i]) == k;
            if i > 0 {
                assert(ops.skip(1)[i - 1] == ops[i]);
                assert(op_key(ops.skip(1)[i - 1]) == k);
            }
        }
        lemma_apply_ops_untouched(apply_op(m1, ops[0]), ops.skip(1), k);
        lemma_apply_ops_untouched(apply_op(m2, ops[0]), ops.skip(1), k);
    }
}

/// Law: a committed batch is idempotent on the store's contents. Applying
/// the same batch a second time changes no key and no value, so every read
/// after the second application equals the read after the first.
pub proof fn lemma_apply_ops_idempotent(m: Map<Seq<u8>, Seq<u8>>, ops: Seq<OpView>)
    ensures
        apply_ops(apply_ops(m, ops), ops) == apply_ops(m, ops),
{
    let m1 = apply_ops(m, ops);
    let m2 = apply_ops(m1, ops);
    assert forall|k: Seq<u8>| #[trigger]
        m2.dom().contains(k) == m1.dom().contains(k) by {
        if ops_touch(ops, k) {
            lemma_apply_ops_touched(m, m1, ops, k);
        } else {
            lemma_apply_ops_untouched(m1, ops, k);
        }
    }
    assert forall|k: Seq<u8>| m1.dom().contains(k) implies #[trigger] m2[k] == m1[k] by {
        if ops_touch(ops, k) {
            lemma_apply_ops_touched(m, m1, ops, k);
        } else {
            lemma_apply_ops_untouched(m1, ops, k);
        }
    }
    assert(m2 =~= m1);
}

/// Two sorted entry lists standing for the same map are the same list.
pub proof fn lemma_sorted_map_injective(a: Seq<(Seq<u8>, Seq<u8>)>, b: Seq<(Seq<u8>, Seq<u8>)>)
    requires
        sorted_kvs(a),
        sorted_kvs(b),
        kvs_to_map(a) == kvs_to_map(b),
    ensures
        a == b,
    decreases a.len(),
{
    lemma_map_dom(a);
    lemma_map_dom(b);
    lemma_sorted_keys_unique(a);
    lemma_sorted_keys_unique(b);
    if a.len() == 0 {
        if b.len() > 0 {
            assert(b[b.len() - 1].0 == b.last().0);
            assert(has_key(b, b.last().0));
            assert(kvs_to_map(a).dom().contains(b.last().0));
            assert(false);
        }
        assert(a =~= b);
    } else if b.len() == 0 {
        assert(a[a.len() - 1].0 == a.last().0);
        assert(has_key(a, a.last().0));
        assert(kvs_to_map(b).dom().contains(a.last().0));
        assert(false);
    } else {
        let ka = a.last().0;
        let kb = b.last().0;
        assert(ka == kb) by {
            assert(a[a.len() - 1].0 == ka);
            assert(has_key(a, ka));
            assert(kvs_to_map(b).dom().contains(ka));
            let i = choose|i: int| 0 <= i < b.len() && (#[trigger] b[i]).0 == ka;
            if i < b.len() - 1 {
                assert(lex_lt(b[i].0, b[b.len() - 1].0));
            }
            assert(b[b.len() - 1].0 == kb);
            assert(has_key(b, kb));
            assert(kvs_to_map(a).dom().contains(kb));
            let j = choose|j: int| 0 <= j < a.len() && (#[trigger] a[j]).0 == kb;
            if j < a.len() - 1 {
                assert(lex_lt(a[j].0, a[a.len() - 1].0));
            }
            if ka != kb {
                assert(lex_lt(ka, kb) && lex_lt(kb, ka));
                lemma_lex_asymmetric(ka, kb);
            }
        }
        assert(a.last().1 == b.last().1) by {
            lemma_map_index(a, a.len() - 1);
            lemma_map_index(b, b.len() - 1);
        }
        let dla = a.drop_last();
        let dlb = b.drop_last();
        assert(sorted_kvs(dla)) by {
            assert forall|j1: int, j2: int| 0 <= j1 < j2 < dla.len() implies lex_lt(
                (#[trigger] dla[j1]).0,
                (#[trigger] dla[j2]).0,
            ) by {
                assert(dla[j1] == a[j1] && dla[j2] == a[j2]);
            }
        }
        assert(sorted_kvs(dlb)) by {
            assert forall|j1: int, j2: int| 0 <= j1 < j2 < dlb.len() implies lex_lt(
                (#[trigger] dlb[j1]).0,
                (#[trigger] dlb[j2]).0,
            ) by {
                assert(dlb[j1] == b[j1] && dlb[j2] == b[j2]);
            }
        }
        lemma_map_dom(dla);
        lemma_map_dom(dlb);
        assert(!has_key(dla, ka)) by {
            if has_key(dla, ka) {
                let i = choose|i: int| 0 <= i < dla.len() && (#[trigger] dla[i]).0 == ka;
                assert(a[i].0 == ka && a[a.len() - 1].0 == ka);
            }
        }
        assert(!has_key(dlb, kb)) by {
            if has_key(dlb, kb) {
                let i = choose|i: int| 0 <= i < dlb.len() && (#[trigger] dlb[i]).0 == kb;
                assert(b[i].0 == kb && b[b.len() - 1].0 == kb);
            }
        }
        assert(kvs_to_map(dla) =~= kvs_to_map(a).remove(ka));
        assert(kvs_to_map(dlb) =~= kvs_to_map(b).remove(kb));
        lemma_sorted_map_injective(dla, dlb);
        assert(a =~= b) by {
            assert forall|i: int| 0 <= i < a.len() implies a[i] == b[i] by {
                if i < a.len() - 1 {
                    assert(dla[i] == a[i] && dlb[i] == b[i]);
                }
            }
        }
    }
}

/// Law: the root-relevant content of a well-formed store is determined by
/// its key/value map alone. Equal maps mean equal entry lists, and with
/// them equal canonical encodings and equal root digests, however the two
/// stores arrived at their contents.
pub proof fn lemma_contents_determine_entries(s1: &AuthStorage, s2: &AuthStorage)
    requires
        s1.wf(),
        s2.wf(),
        s1@ == s2@,
    ensures
        s1.kvs() == s2.kvs(),
{
    lemma_sorted_map_injective(s1.kvs(), s2.kvs());
}

/// The least position whose key is at or after `k`.
pub open spec fn first_at_or_after(s: Seq<(Seq<u8>, Seq<u8>)>, k: Seq<u8>) -> int
    decreases s.len(),
{
    if s.len() == 0 {
        0
    } else if !lex_lt(s[0].0, k) {
        0
    } else {
        1 + first_at_or_after(s.skip(1), k)
    }
}

proof fn lemma_first_at_or_after_is(s: Seq<(Seq<u8>, Seq<u8>)>, k: Seq<u8>, i: int)
    requires
        0 <= i <= s.len(),
        forall|j: int| 0 <= j < i ==> lex_lt((#[trigger] s[j]).0, k),
        i < s.len() ==> !lex_lt(s[i].0, k),
    ensures
        first_at_or_after(s, k) == i,
    decreases s.len(),
{
    if i == 0 {
    } else {
        assert(lex_lt(s[0].0, k));
        assert forall|j: int| 0 <= j < i - 1 implies lex_lt((#[trigger] s.skip(1)[j]).0, k) by {
            assert(s.skip(1)[j] == s[j + 1]);
        }
        if i - 1 < s.skip(1).len() {
            assert(s.skip(1)[i - 1] == s[i]);
        }
        lemma_first_at_or_after_is(s.skip(1), k, i - 1);
    }
}

impl AuthStorage {
    /// One page of a range scan: the entries whose keys are at or after
    /// `from`, in ascending key order, at most `limit` of them. A caller
    /// paginates by passing the successor of the last key it saw.
    pub fn range(&self, from: &Vec<u8>, limit: usize) -> (r: Vec<(Vec<u8>, Vec<u8>)>)
        requires
            self.wf(),
        ensures
            ({
                let start = first_at_or_after(self.kvs(), from@);
                let cnt = if self.kvs().len() - start < limit {
                    self.kvs().len() - start
                } else {
                    limit as int
                };
                pairs_views(r@) == self.kvs().subrange(
                    start,
                    start + cnt,
                )
            }),
    {
        let ghost s = self.kvs();
        let n = self.entries.len();
        let mut i: usize = 0;
        while i < n && lex_less(&self.entries[i].0, from)
            invariant
                self.wf(),
                s == self.kvs(),
                n == self.entries.len(),
                i <= n,
                forall|j: int| 0 <= j < i ==> lex_lt((#[trigger] s[j]).0, from@),
            decreases n - i,
        {
            i = i + 1;
        }
        proof {
            lemma_first_at_or_after_is(s, from@, i as int);
        }
        let start = i;
        let mut r: Vec<(Vec<u8>, Vec<u8>)> = Vec::new();
        let cnt = if n - start < limit {
            n - start
        } else {
            limit
        };
        let mut c: usize = 0;
        proof {
            assert(pairs_views(r@) =~= s.subrange(
                start as int,
                start as int,
            ));
        }
        while c < cnt
            invariant
                self.wf(),
                s == self.kvs(),
                n == self.entries.len(),
                start + cnt <= n,
                c <= cnt,
                r@.len() == c,
                pairs_views(r@) == s.subrange(
                    start as int,
                    start + c,
                ),
            decreases cnt - c,
        {
            let k = copy_bytes(&self.entries[start + c].0);
            let v = copy_bytes(&self.entries[start + c].1);
            r.push((k, v));
            proof {
                assert(pairs_views(r@) =~= s.subrange(
                    start as int,
                    start + c + 1,
                ));
            }
            c = c + 1;
        }
        r
    }

    /// An independent copy of this store's state: the snapshot the commit
    /// phase stages its block against.
    pub fn duplicate(&self) -> (r: Self)
        ensures
            r.kvs() == self.kvs(),
            r@ == self@,
            r.wf() == self.wf(),
    {
        let n = self.entries.len();
        let mut out: Vec<(Vec<u8>, Vec<u8>)> = Vec::new();
        let mut i: usize = 0;
        while i < n
            invariant
                n == self.entries.len(),
                i <= n,
                out@.len() == i,
                pairs_views(out@) == self.kvs().take(i as int),
            decreases n - i,
        {
            let k = copy_bytes(&self.entries[i].0);
            let v = copy_bytes(&self.entries[i].1);
            out.push((k, v));
            proof {
                assert(pairs_views(out@) =~= self.kvs().take(i + 1));
            }
            i = i + 1;
        }
        let r = AuthStorage { entries: out };
        proof {
            assert(r.kvs() =~= self.kvs());
        }
        r
    }
}

/// The effect of one operation on the store's contents.
pub open spec fn apply_op(m: Map<Seq<u8>, Seq<u8>>, op: OpView) -> Map<Seq<u8>, Seq<u8>> {
    match op {
        OpView::Put(k, v) => m.insert(k, v),
        OpView::Delete(k) => m.remove(k),
    }
}

/// The effect of a batch of operations applied in order.
pub open spec fn apply_ops(m: Map<Seq<u8>, Seq<u8>>, ops: Seq<OpView>) -> Map<Seq<u8>, Seq<u8>>
    decreases ops.len(),
{
    if ops.len() == 0 {
        m
    } else {
        apply_ops(apply_op(m, ops[0]), ops.skip(1))
    }
}

/// Appending one operation to a batch applies it after the batch.
pub proof fn lemma_apply_ops_push(m: Map<Seq<u8>, Seq<u8>>, ops: Seq<OpView>, op: OpView)
    ensures
        apply_ops(m, ops.push(op)) == apply_op(apply_ops(m, ops), op),
    decreases ops.len(),
{
    let p = ops.push(op);
    if ops.len() == 0 {
        assert(p[0] == op);
        assert(p.skip(1) =~= Seq::<OpView>::empty());
        assert(apply_ops(m, p) == apply_ops(apply_op(m, op), p.skip(1)));
    } else {
        assert(p[0] == ops[0]);
        assert(p.skip(1) =~= ops.skip(1).push(op));
        lemma_apply_ops_push(apply_op(m, ops[0]), ops.skip(1), op);
        assert(apply_ops(m, p) == apply_ops(apply_op(m, ops[0]), p.skip(1)));
    }
}

} // verus!
