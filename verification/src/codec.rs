//! The mutation wire format: how a transaction payload is decoded into a
//! sender, a nonce and an ordered list of operations.
//!
//! A payload is the sender's length and bytes, the eight-byte big-endian
//! nonce, then operations back to back until the end of the buffer: a tag
//! byte (put or delete), the key's length and bytes, and for a put the
//! value's length and bytes. All length fields are four-byte big-endian.
//! Decoding accepts exactly the well-formed encodings and nothing else.

use vstd::prelude::*;

use crate::akv::Op;
use crate::akv::OpView;
use crate::akv::op_bounded;
use crate::akv::ops_bounded;
use crate::akv::ops_views;
use crate::digest::push_bytes;
use crate::digest::push_u32_be;
use crate::digest::u32_be;

verus! {

/// The eight big-endian bytes of a nonce.
pub open spec fn u64_be(n: u64) -> Seq<u8> {
    seq![
        (n >> 56u64) as u8,
        (n >> 48u64) as u8,
        (n >> 40u64) as u8,
        (n >> 32u64) as u8,
        (n >> 24u64) as u8,
        (n >> 16u64) as u8,
        (n >> 8u64) as u8,
        n as u8,
    ]
}

/// The 32-bit value four big-endian bytes stand for.
pub open spec fn be32_val(s: Seq<u8>) -> u32 {
    ((s[0] as u32) << 24u32) | ((s[1] as u32) << 16u32) | ((s[2] as u32) << 8u32) | (s[3] as u32)
}

/// The 64-bit value eight big-endian bytes stand for.
pub open spec fn be64_val(s: Seq<u8>) -> u64 {
    ((s[0] as u64) << 56u64) | ((s[1] as u64) << 48u64) | ((s[2] as u64) << 40u64) | ((s[3]
        as u64) << 32u64) | ((s[4] as u64) << 24u64) | ((s[5] as u64) << 16u64) | ((s[6]
        as u64) << 8u64) | (s[7] as u64)
}

/// A transaction: an ordered list of operations with the sender's identity
/// and the sender's replay-protection nonce.
pub struct Mutation {
    pub sender: Vec<u8>,
    pub nonce: u64,
    pub ops: Vec<Op>,
}

/// The mathematical form of a [`Mutation`].
pub struct MutationView {
    pub sender: Seq<u8>,
    pub nonce: u64,
    pub ops: Seq<OpView>,
}

impl View for Mutation {
    type V = MutationView;

    open spec fn view(&self) -> MutationView {
        MutationView { sender: self.sender@, nonce: self.nonce, ops: ops_views(self.ops@) }
    }
}

/// Whether a mutation's sender and operations fit the length fields.
pub open spec fn mutation_bounded(m: MutationView) -> bool {
    m.sender.len() <= u32::MAX && ops_bounded(m.ops)
}

/// The encoding of one operation.
pub open spec fn encode_op(op: OpView) -> Seq<u8> {
    match op {
        OpView::Put(k, v) => seq![0u8] + u32_be(k.len() as u32) + k + u32_be(v.len() as u32) + v,
        OpView::Delete(k) => seq![1u8] + u32_be(k.len() as u32) + k,
    }
}

/// The encoding of a list of operations, back to back.
pub open spec fn encode_ops(ops: Seq<OpView>) -> Seq<u8>
    decreases ops.len(),
{
    if ops.len() == 0 {
        Seq::empty()
    } else {
        encode_op(ops[0]) + encode_ops(ops.skip(1))
    }
}

/// The encoding of a whole mutation.
pub open spec fn encode_mutation(m: MutationView) -> Seq<u8> {
    u32_be(m.sender.len() as u32) + m.sender + u64_be(m.nonce) + encode_ops(m.ops)
}

/// One operation read from the front of a buffer, with the rest.
pub open spec fn parse_op(s: Seq<u8>) -> Option<(OpView, Seq<u8>)> {
    if s.len() < 5 {
        None
    } else {
        let tag = s[0];
        let klen = be32_val(s.subrange(1, 5)) as int;
        if tag == 0 {
            if s.len() < 9 + klen {
                None
            } else {
                let k = s.subrange(5, 5 + klen);
                let vlen = be32_val(s.subrange(5 + klen, 9 + klen)) as int;
                if s.len() < 9 + klen + vlen {
                    None
                } else {
                    Some(
                        (
                            OpView::Put(k, s.subrange(9 + klen, 9 + klen + vlen)),
                            s.skip(9 + klen + vlen),
                        ),
                    )
                }
            }
        } else if tag == 1 {
            if s.len() < 5 + klen {
                None
            } else {
                Some((OpView::Delete(s.subrange(5, 5 + klen)), s.skip(5 + klen)))
            }
        } else {
            None
        }
    }
}

/// The operations a buffer holds back to back; `None` unless the whole
/// buffer is consumed by well-formed operations.
pub open spec fn parse_ops(s: Seq<u8>) -> Option<Seq<OpView>>
    decreases s.len(),
{
    if s.len() == 0 {
        Some(Seq::empty())
    } else {
        match parse_op(s) {
            None => None,
            Some((op, rest)) => if rest.len() < s.len() {
                match parse_ops(rest) {
                    None => None,
                    Some(t) => Some(seq![op] + t),
                }
            } else {
                None
            },
        }
    }
}

/// The mutation a payload stands for, if it is well formed.
pub open spec fn parse_mutation(s: Seq<u8>) -> Option<MutationView> {
    if s.len() < 4 {
        None
    } else {
        let slen = be32_val(s.subrange(0, 4)) as int;
        if s.len() < 12 + slen {
            None
        } else {
            let sender = s.subrange(4, 4 + slen);
            let nonce = be64_val(s.subrange(4 + slen, 12 + slen));
            match parse_ops(s.skip(12 + slen)) {
                None => None,
                Some(ops) => Some(MutationView { sender, nonce, ops }),
            }
        }
    }
}

/// Reads a four-byte big-endian length at `pos`.
fn read_u32(bytes: &Vec<u8>, pos: usize) -> (r: u32)
    requires
        pos + 4 <= bytes@.len(),
    ensures
        r == be32_val(bytes@.subrange(pos as int, pos + 4)),
{
    let n = bytes.len();
    let b0 = bytes[pos];
    let b1 = bytes[pos + 1];
    let b2 = bytes[pos + 2];
    let b3 = bytes[pos + 3];
    proof {
        let s = bytes@.subrange(pos as int, pos + 4);
        assert(s[0] == b0 && s[1] == b1 && s[2] == b2 && s[3] == b3);
    }
    ((b0 as u32) << 24u32) | ((b1 as u32) << 16u32) | ((b2 as u32) << 8u32) | (b3 as u32)
}

/// Reads the eight-byte big-endian nonce at `pos`.
fn read_u64(bytes: &Vec<u8>, pos: usize) -> (r: u64)
    requires
        pos + 8 <= bytes@.len(),
    ensures
        r == be64_val(bytes@.subrange(pos as int, pos + 8)),
{
    let n = bytes.len();
    let b0 = bytes[pos];
    let b1 = bytes[pos + 1];
    let b2 = bytes[pos + 2];
    let b3 = bytes[pos + 3];
    let b4 = bytes[pos + 4];
    let b5 = bytes[pos + 5];
    let b6 = bytes[pos + 6];
    let b7 = bytes[pos + 7];
    proof {
        let s = bytes@.subrange(pos as int, pos + 8);
        assert(s[0] == b0 && s[1] == b1 && s[2] == b2 && s[3] == b3);
        assert(s[4] == b4 && s[5] == b5 && s[6] == b6 && s[7] == b7);
    }
    ((b0 as u64) << 56u64) | ((b1 as u64) << 48u64) | ((b2 as u64) << 40u64) | ((b3 as u64)
        << 32u64) | ((b4 as u64) << 24u64) | ((b5 as u64) << 16u64) | ((b6 as u64) << 8u64) | (b7
        as u64)
}

/// Copies `len` bytes starting at `pos`.
fn copy_range(bytes: &Vec<u8>, pos: usize, len: usize) -> (r: Vec<u8>)
    requires
        pos + len <= bytes@.len(),
    ensures
        r@ == bytes@.subrange(pos as int, pos + len),
{
    let n = bytes.len();
    let mut out: Vec<u8> = Vec::new();
    let mut i: usize = 0;
    while i < len
        invariant
            n == bytes@.len(),
            pos + len <= bytes@.len(),
            i <= len,
            out@ == bytes@.subrange(pos as int, pos + i),
        decreases len - i,
    {
        out.push(bytes[pos + i]);
        proof {
            assert(bytes@.subrange(pos as int, pos + i + 1) =~= bytes@.subrange(
                pos as int,
                pos + i,
            ).push(bytes@[pos + i]));
        }
        i = i + 1;
    }
    out
}

/// Decodes a transaction payload; returns the mutation exactly when the
/// payload is a well-formed encoding, and nothing otherwise.
pub fn decode_mutation(bytes: &Vec<u8>) -> (r: Option<Mutation>)
    ensures
        match r {
            Some(m) => parse_mutation(bytes@) == Some(m@),
            None => parse_mutation(bytes@) is None,
        },
{
    let n = bytes.len();
    if n < 4 {
        return None;
    }
    let slen = read_u32(bytes, 0) as usize;
    if n - 4 < slen {
        return None;
    }
    if n - 4 - slen < 8 {
        return None;
    }
    let sender = copy_range(bytes, 4, slen);
    let nonce = read_u64(bytes, 4 + slen);
    let ghost pos0 = 12 + slen as int;
    let mut pos: usize = 4 + slen + 8;
    let mut ops: Vec<Op> = Vec::new();
    proof {
        assert(ops_views(ops@) =~= Seq::<OpView>::empty());
        assert(bytes@.subrange(4 as int, 4 + slen) == sender@);
    }
    while pos < n
        invariant
            n == bytes@.len(),
            n >= 4,
            slen as int == be32_val(bytes@.subrange(0, 4)) as int,
            n >= 12 + slen,
            pos0 == 12 + slen,
            pos0 <= pos <= n,
            (parse_ops(bytes@.skip(pos as int)) matches Some(rest) ==> parse_ops(
                bytes@.skip(pos0),
            ) == Some(ops_views(ops@) + rest)),
            (parse_ops(bytes@.skip(pos as int)) is None ==> parse_ops(bytes@.skip(pos0)) is None),
        decreases n - pos,
    {
        let ghost s = bytes@.skip(pos as int);
        if n - pos < 5 {
            proof {
                assert(s.len() == n - pos);
                assert(parse_op(s) is None);
            }
            return None;
        }
        let tag = bytes[pos];
        let klen = read_u32(bytes, pos + 1) as usize;
        proof {
            assert(s.len() == n - pos);
            assert(s[0] == bytes@[pos as int]);
            assert(s.subrange(1, 5) =~= bytes@.subrange(pos + 1, pos + 5));
        }
        if tag == 0 {
            if n - pos < 9 {
                proof {
                    assert(parse_op(s) is None);
                }
                return None;
            }
            if n - pos - 9 < klen {
                proof {
                    assert(parse_op(s) is None);
                }
                return None;
            }
            let k = copy_range(bytes, pos + 5, klen);
            let vlen = read_u32(bytes, pos + 5 + klen) as usize;
            proof {
                assert(s.subrange(5 + klen, 9 + klen) =~= bytes@.subrange(
                    pos + 5 + klen,
                    pos + 9 + klen,
                ));
            }
            if n - pos - 9 - klen < vlen {
                proof {
                    assert(parse_op(s) is None);
                }
                return None;
            }
            let v = copy_range(bytes, pos + 9 + klen, vlen);
            let newpos = pos + 9 + klen + vlen;
            proof {
                assert(s.subrange(5, 5 + klen) =~= bytes@.subrange(pos + 5, pos + 5 + klen));
                assert(s.subrange(9 + klen, 9 + klen + vlen) =~= bytes@.subrange(
                    pos + 9 + klen,
                    pos + 9 + klen + vlen,
                ));
                assert(s.skip(9 + klen + vlen) =~= bytes@.skip(newpos as int));
                assert(parse_op(s) == Some(
                    (OpView::Put(k@, v@), bytes@.skip(newpos as int)),
                ));
                lemma_parse_ops_step(bytes@, pos0, pos as int, newpos as int, ops@, OpView::Put(
                    k@,
                    v@,
                ));
            }
            let ghost opv = OpView::Put(k@, v@);
            let ghost prev = ops@;
            ops.push(Op::Put(k, v));
            proof {
                assert(ops_views(ops@) =~= ops_views(prev) + seq![opv]);
                match parse_ops(bytes@.skip(newpos as int)) {
                    Some(t) => {
                        assert(ops_views(ops@) + t =~= ops_views(prev) + seq![opv] + t);
                    },
                    None => {},
                }
            }
            pos = newpos;
        } else if tag == 1 {
            if n - pos - 5 < klen {
                proof {
                    assert(parse_op(s) is None);
                }
                return None;
            }
            let k = copy_range(bytes, pos + 5, klen);
            let newpos = pos + 5 + klen;
            proof {
                assert(s.subrange(5, 5 + klen) =~= bytes@.subrange(pos + 5, pos + 5 + klen));
                assert(s.skip(5 + klen) =~= bytes@.skip(newpos as int));
                assert(parse_op(s) == Some((OpView::Delete(k@), bytes@.skip(newpos as int))));
                lemma_parse_ops_step(bytes@, pos0, pos as int, newpos as int, ops@, OpView::Delete(
                    k@,
                ));
            }
            let ghost opv = OpView::Delete(k@);
            let ghost prev = ops@;
            ops.push(Op::Delete(k));
            proof {
                assert(ops_views(ops@) =~= ops_views(prev) + seq![opv]);
                match parse_ops(bytes@.skip(newpos as int)) {
                    Some(t) => {
                        assert(ops_views(ops@) + t =~= ops_views(prev) + seq![opv] + t);
                    },
                    None => {},
                }
            }
            pos = newpos;
        } else {
            proof {
                assert(parse_op(s) is None);
            }
            return None;
        }
    }
    proof {
        assert(bytes@.skip(n as int) =~= Seq::<u8>::empty());
        assert(parse_ops(bytes@.skip(pos as int)) == Some(Seq::<OpView>::empty()));
        assert(ops_views(ops@) + Seq::<OpView>::empty() =~= ops_views(ops@));
    }
    let m = Mutation { sender, nonce, ops };
    Some(m)
}

/// Appends the eight big-endian bytes of `n`.
fn push_u64_be(out: &mut Vec<u8>, n: u64)
    ensures
        final(out)@ == old(out)@ + u64_be(n),
{
    out.push((n >> 56u64) as u8);
    out.push((n >> 48u64) as u8);
    out.push((n >> 40u64) as u8);
    out.push((n >> 32u64) as u8);
    out.push((n >> 24u64) as u8);
    out.push((n >> 16u64) as u8);
    out.push((n >> 8u64) as u8);
    out.push(n as u8);
    proof {
        assert(out@ =~= old(out)@ + u64_be(n));
    }
}

/// Appending one operation to a list appends its encoding.
proof fn lemma_encode_ops_push(ops: Seq<OpView>, op: OpView)
    ensures
        encode_ops(ops.push(op)) == encode_ops(ops) + encode_op(op),
    decreases ops.len(),
{
    let p = ops.push(op);
    if ops.len() == 0 {
        assert(p[0] == op);
        assert(p.skip(1) =~= Seq::<OpView>::empty());
        assert(encode_ops(p) == encode_op(op) + encode_ops(p.skip(1)));
        assert(encode_op(op) + Seq::<u8>::empty() =~= encode_op(op));
        assert(Seq::<u8>::empty() + encode_op(op) =~= encode_op(op));
    } else {
        assert(p[0] == ops[0]);
        assert(p.skip(1) =~= ops.skip(1).push(op));
        lemma_encode_ops_push(ops.skip(1), op);
        assert(encode_ops(p) == encode_op(ops[0]) + (encode_ops(ops.skip(1)) + encode_op(op)));
        assert(encode_op(ops[0]) + (encode_ops(ops.skip(1)) + encode_op(op)) =~= (encode_op(ops[0])
            + encode_ops(ops.skip(1))) + encode_op(op));
    }
}

/// Encodes a mutation into its payload bytes.
pub fn encode_mutation_bytes(m: &Mutation) -> (r: Vec<u8>)
    requires
        mutation_bounded(m@),
    ensures
        r@ == encode_mutation(m@),
{
    let mut out: Vec<u8> = Vec::new();
    push_u32_be(&mut out, m.sender.len() as u32);
    push_bytes(&mut out, &m.sender);
    push_u64_be(&mut out, m.nonce);
    let ghost header = u32_be(m@.sender.len() as u32) + m@.sender + u64_be(m@.nonce);
    let ghost vs = ops_views(m.ops@);
    proof {
        assert(out@ =~= header);
        assert(vs.take(0) =~= Seq::<OpView>::empty());
        assert(out@ =~= header + encode_ops(vs.take(0)));
    }
    let n = m.ops.len();
    let mut i: usize = 0;
    while i < n
        invariant
            n == m.ops.len(),
            i <= n,
            mutation_bounded(m@),
            vs == ops_views(m.ops@),
            out@ == header + encode_ops(vs.take(i as int)),
        decreases n - i,
    {
        let ghost pre = out@;
        proof {
            assert(op_bounded(vs[i as int]));
        }
        match &m.ops[i] {
            Op::Put(k, v) => {
                proof {
                    assert(vs[i as int] == OpView::Put(k@, v@));
                }
                out.push(0u8);
                push_u32_be(&mut out, k.len() as u32);
                push_bytes(&mut out, k);
                push_u32_be(&mut out, v.len() as u32);
                push_bytes(&mut out, v);
                proof {
                    assert(out@ =~= pre + encode_op(vs[i as int]));
                }
            },
            Op::Delete(k) => {
                proof {
                    assert(vs[i as int] == OpView::Delete(k@));
                }
                out.push(1u8);
                push_u32_be(&mut out, k.len() as u32);
                push_bytes(&mut out, k);
                proof {
                    assert(out@ =~= pre + encode_op(vs[i as int]));
                }
            },
        }
        proof {
            lemma_encode_ops_push(vs.take(i as int), vs[i as int]);
            assert(vs.take(i + 1) =~= vs.take(i as int).push(vs[i as int]));
            assert(out@ =~= header + encode_ops(vs.take(i + 1)));
        }
        i = i + 1;
    }
    proof {
        assert(vs.take(n as int) =~= vs);
        assert(out@ =~= encode_mutation(m@));
    }
    out
}

/// The four length bytes read back as the length.
proof fn lemma_be32_round_trip(n: u32)
    ensures
        u32_be(n).len() == 4,
        be32_val(u32_be(n)) == n,
{
    let s = u32_be(n);
    assert(s[0] == (n >> 24u32) as u8 && s[1] == (n >> 16u32) as u8 && s[2] == (n >> 8u32) as u8
        && s[3] == n as u8);
    assert(((((n >> 24u32) as u8) as u32) << 24u32) | ((((n >> 16u32) as u8) as u32) << 16u32) | ((((
    n >> 8u32) as u8) as u32) << 8u32) | ((n as u8) as u32) == n) by (bit_vector);
}

/// The eight nonce bytes read back as the nonce.
proof fn lemma_be64_round_trip(n: u64)
    ensures
        u64_be(n).len() == 8,
        be64_val(u64_be(n)) == n,
{
    let s = u64_be(n);
    assert(s[0] == (n >> 56u64) as u8 && s[1] == (n >> 48u64) as u8 && s[2] == (n >> 40u64) as u8
        && s[3] == (n >> 32u64) as u8 && s[4] == (n >> 24u64) as u8 && s[5] == (n >> 16u64) as u8
        && s[6] == (n >> 8u64) as u8 && s[7] == n as u8);
    assert(((((n >> 56u64) as u8) as u64) << 56u64) | ((((n >> 48u64) as u8) as u64) << 48u64) | ((((
    n >> 40u64) as u8) as u64) << 40u64) | ((((n >> 32u64) as u8) as u64) << 32u64) | ((((n
        >> 24u64) as u8) as u64) << 24u64) | ((((n >> 16u64) as u8) as u64) << 16u64) | ((((n
        >> 8u64) as u8) as u64) << 8u64) | ((n as u8) as u64) == n) by (bit_vector);
}

/// An encoded operation in front of any tail parses back as itself.
proof fn lemma_parse_op_encode(op: OpView, rest: Seq<u8>)
    requires
        op_bounded(op),
    ensures
        parse_op(encode_op(op) + rest) == Some((op, rest)),
{
    match op {
        OpView::Put(k, v) => {
            let kl = k.len() as u32;
            let vl = v.len() as u32;
            lemma_be32_round_trip(kl);
            lemma_be32_round_trip(vl);
            let e = encode_op(op);
            let s = e + rest;
            assert(e.len() == 9 + k.len() + v.len());
            assert(s[0] == 0u8);
            assert(s.subrange(1, 5) =~= u32_be(kl));
            assert(s.subrange(5, 5 + k.len() as int) =~= k);
            assert(s.subrange(5 + k.len() as int, 9 + k.len() as int) =~= u32_be(vl));
            assert(s.subrange(9 + k.len() as int, 9 + k.len() as int + v.len() as int) =~= v);
            assert(s.skip(9 + k.len() as int + v.len() as int) =~= rest);
        },
        OpView::Delete(k) => {
            let kl = k.len() as u32;
            lemma_be32_round_trip(kl);
            let e = encode_op(op);
            let s = e + rest;
            assert(e.len() == 5 + k.len());
            assert(s[0] == 1u8);
            assert(s.subrange(1, 5) =~= u32_be(kl));
            assert(s.subrange(5, 5 + k.len() as int) =~= k);
            assert(s.skip(5 + k.len() as int) =~= rest);
        },
    }
}

/// An operation's encoding is at least the tag and one length field.
proof fn lemma_encode_op_len(op: OpView)
    ensures
        encode_op(op).len() >= 5,
{
    match op {
        OpView::Put(k, v) => {
            assert(encode_op(op).len() == 9 + k.len() + v.len());
        },
        OpView::Delete(k) => {
            assert(encode_op(op).len() == 5 + k.len());
        },
    }
}

/// A list of encoded operations parses back as itself.
#[verifier::rlimit(100)]
proof fn lemma_parse_ops_encode(ops: Seq<OpView>)
    requires
        ops_bounded(ops),
    ensures
        parse_ops(encode_ops(ops)) == Some(ops),
    decreases ops.len(),
{
    if ops.len() == 0 {
        assert(encode_ops(ops).len() == 0);
    } else {
        let e0 = encode_op(ops[0]);
        let tail = encode_ops(ops.skip(1));
        let s = encode_ops(ops);
        assert(s == e0 + tail);
        assert(op_bounded(ops[0]));
        lemma_parse_op_encode(ops[0], tail);
        lemma_encode_op_len(ops[0]);
        assert(s.len() == e0.len() + tail.len());
        assert(tail.len() < s.len());
        assert(ops_bounded(ops.skip(1))) by {
            assert forall|i: int| 0 <= i < ops.skip(1).len() implies op_bounded(
                #[trigger] ops.skip(1)[i],
            ) by {
                assert(ops.skip(1)[i] == ops[i + 1]);
            }
        }
        lemma_parse_ops_encode(ops.skip(1));
        assert(parse_op(s) == Some((ops[0], tail)));
        assert(parse_ops(tail) == Some(ops.skip(1)));
        assert(parse_ops(s) == Some(seq![ops[0]] + ops.skip(1)));
        assert(seq![ops[0]] + ops.skip(1) =~= ops);
    }
}

/// Law: decoding inverts encoding. Every mutation whose sender and
/// operations fit the length fields comes back from its own payload bytes
/// exactly as it went in, so validation step one accepts precisely the
/// library's own encodings.
pub proof fn lemma_mutation_round_trip(m: MutationView)
    requires
        mutation_bounded(m),
    ensures
        parse_mutation(encode_mutation(m)) == Some(m),
{
    let sl = m.sender.len() as u32;
    lemma_be32_round_trip(sl);
    lemma_be64_round_trip(m.nonce);
    lemma_parse_ops_encode(m.ops);
    let s = encode_mutation(m);
    assert(s.subrange(0, 4) =~= u32_be(sl));
    assert(s.subrange(4, 4 + m.sender.len() as int) =~= m.sender);
    assert(s.subrange(4 + m.sender.len() as int, 12 + m.sender.len() as int) =~= u64_be(m.nonce));
    assert(s.skip(12 + m.sender.len() as int) =~= encode_ops(m.ops));
}

/// One accepted operation advances the parse by its encoding.
proof fn lemma_parse_ops_step(
    bytes: Seq<u8>,
    pos0: int,
    pos: int,
    newpos: int,
    ops: Seq<Op>,
    opv: OpView,
)
    requires
        0 <= pos < newpos <= bytes.len(),
        0 <= pos0 <= pos,
        parse_op(bytes.skip(pos)) == Some((opv, bytes.skip(newpos))),
        (parse_ops(bytes.skip(pos)) matches Some(rest) ==> parse_ops(bytes.skip(pos0)) == Some(
            ops_views(ops) + rest,
        )),
        (parse_ops(bytes.skip(pos)) is None ==> parse_ops(bytes.skip(pos0)) is None),
    ensures
        (parse_ops(bytes.skip(newpos)) matches Some(rest) ==> parse_ops(bytes.skip(pos0)) == Some(
            ops_views(ops) + seq![opv] + rest,
        )),
        (parse_ops(bytes.skip(newpos)) is None ==> parse_ops(bytes.skip(pos0)) is None),
{
    let s = bytes.skip(pos);
    let rest = bytes.skip(newpos);
    assert(s.len() == bytes.len() - pos);
    assert(rest.len() == bytes.len() - newpos);
    assert(rest.len() < s.len());
    match parse_ops(rest) {
        None => {
            assert(parse_ops(s) is None);
        },
        Some(t) => {
            assert(parse_ops(s) == Some(seq![opv] + t));
            assert(ops_views(ops) + (seq![opv] + t) =~= ops_views(ops) + seq![opv] + t);
        },
    }
}

} // verus!
