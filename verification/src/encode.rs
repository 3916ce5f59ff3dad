//! The wire-format encoder, the decoder's inverse: it builds one frame's
//! exact byte image, and its contract states the round trip — the bytes it
//! produces decode back to the fields and payloads it was given.

use vstd::prelude::*;
use crate::codec::append_slice;
use crate::codec::be_val;
use crate::codec::header_len;
use crate::codec::lemma_pow256_values;
use crate::codec::pow256;
use crate::codec::spec_counter;
use crate::codec::spec_magic_bad;
use crate::codec::spec_records;
use crate::codec::spec_size_hint;
use crate::codec::spec_txs;
use crate::codec::views_of;

verus! {

/// The `n`-byte big-endian encoding of `v` (for `v < 256^n`).
pub open spec fn be_bytes(v: nat, n: nat) -> Seq<u8>
    decreases n,
{
    if n == 0 {
        Seq::empty()
    } else {
        be_bytes(v / 256, (n - 1) as nat).push((v % 256) as u8)
    }
}

pub proof fn lemma_be_bytes_len(v: nat, n: nat)
    ensures
        be_bytes(v, n).len() == n,
    decreases n,
{
    if n > 0 {
        lemma_be_bytes_len(v / 256, (n - 1) as nat);
    }
}

/// Reading back an `n`-byte big-endian encoding recovers the value.
pub proof fn lemma_be_val_of_be_bytes(v: nat, n: nat)
    requires
        v < pow256(n),
    ensures
        be_val(be_bytes(v, n)) == v,
    decreases n,
{
    if n > 0 {
        assert(pow256(n) == 256 * pow256((n - 1) as nat));
        assert(v / 256 < pow256((n - 1) as nat)) by (nonlinear_arith)
            requires
                v < 256 * pow256((n - 1) as nat),
        ;
        lemma_be_val_of_be_bytes(v / 256, (n - 1) as nat);
        lemma_be_bytes_len(v / 256, (n - 1) as nat);
        assert(be_bytes(v, n).drop_last() =~= be_bytes(v / 256, (n - 1) as nat));
        assert(be_bytes(v, n).last() == (v % 256) as u8);
        assert(v == (v / 256) * 256 + v % 256);
    }
}

/// The concatenated length-prefixed encodings of the records `ts`.
pub open spec fn encode_records(ts: Seq<Seq<u8>>) -> Seq<u8>
    decreases ts.len(),
{
    if ts.len() == 0 {
        Seq::empty()
    } else {
        be_bytes(ts[0].len(), 4) + ts[0] + encode_records(ts.drop_first())
    }
}

proof fn lemma_encode_records_push(ts: Seq<Seq<u8>>, t: Seq<u8>)
    ensures
        encode_records(ts.push(t)) == encode_records(ts) + (be_bytes(t.len(), 4) + t),
    decreases ts.len(),
{
    if ts.len() == 0 {
        assert(ts.push(t)[0] =~= t);
        assert(ts.push(t).drop_first() =~= Seq::<Seq<u8>>::empty());
        assert(encode_records(Seq::<Seq<u8>>::empty()) =~= Seq::<u8>::empty());
        assert(encode_records(ts.push(t))
            =~= Seq::<u8>::empty() + (be_bytes(t.len(), 4) + t));
    } else {
        assert(ts.push(t)[0] =~= ts[0]);
        assert(ts.push(t).drop_first() =~= ts.drop_first().push(t));
        lemma_encode_records_push(ts.drop_first(), t);
        assert(encode_records(ts.push(t))
            =~= encode_records(ts) + (be_bytes(t.len(), 4) + t));
    }
}

/// Decoding the encoded records recovers them exactly, with no leftover.
pub proof fn lemma_records_roundtrip(ts: Seq<Seq<u8>>)
    requires
        forall|i: int| 0 <= i < ts.len() ==> #[trigger] ts[i].len() < 0x1_0000_0000,
    ensures
        spec_records(encode_records(ts)) == ts,
    decreases ts.len(),
{
    lemma_pow256_values();
    if ts.len() == 0 {
        assert(spec_records(encode_records(ts)) =~= ts);
    } else {
        let t = ts[0];
        let n = t.len() as int;
        let s = encode_records(ts);
        lemma_be_bytes_len(t.len(), 4);
        lemma_be_val_of_be_bytes(t.len(), 4);
        assert(s.len() == 4 + n + encode_records(ts.drop_first()).len());
        assert(s.subrange(0, 4) =~= be_bytes(t.len(), 4));
        assert(s.subrange(4, 4 + n) =~= t);
        assert(s.skip(4 + n) =~= encode_records(ts.drop_first()));
        assert(forall|i: int| 0 <= i < ts.drop_first().len()
            ==> #[trigger] ts.drop_first()[i].len() < 0x1_0000_0000);
        lemma_records_roundtrip(ts.drop_first());
        assert(spec_records(s) == seq![t] + ts.drop_first());
        assert(seq![t] + ts.drop_first() =~= ts);
    }
}

/// Writes the `n`-byte big-endian encoding of `v` onto the end of `out`.
fn push_be(out: &mut Vec<u8>, v: u64, n: usize)
    requires
        n <= 8,
    ensures
        final(out)@ == old(out)@ + be_bytes(v as nat, n as nat),
    decreases n,
{
    if n > 0 {
        push_be(out, v / 256, n - 1);
        out.push((v % 256) as u8);
        proof {
            assert(final(out)@ =~= old(out)@ + be_bytes(v as nat, n as nat));
        }
    } else {
        proof {
            assert(old(out)@ + be_bytes(v as nat, 0) =~= old(out)@);
        }
    }
}

/// Builds the byte image of one frame: the magic sentinel, the size hint if
/// one is given (a full-snapshot frame), the sequence counter, then each
/// transaction as a length-prefixed record.  The bytes decode back to
/// exactly these fields and payloads: the round trip is the contract.
pub fn encode_frame(size_hint: Option<u32>, counter: u64, txs: &Vec<Vec<u8>>) -> (r: Vec<u8>)
    requires
        forall|i: int| 0 <= i < txs@.len() ==> #[trigger] txs@[i]@.len() < 0x1_0000_0000,
    ensures
        !spec_magic_bad(r@),
        r@.len() >= header_len(size_hint is Some),
        spec_size_hint(r@, size_hint is Some) == size_hint,
        spec_counter(r@, size_hint is Some) == Some(counter),
        spec_txs(r@, size_hint is Some) == views_of(txs@),
{
    let ghost full = size_hint is Some;
    let ghost hl = header_len(full);
    let mut out: Vec<u8> = Vec::new();
    push_be(&mut out, u64::MAX, 8);
    match size_hint {
        Some(sh) => {
            push_be(&mut out, sh as u64, 4);
        },
        None => {},
    }
    push_be(&mut out, counter, 8);
    proof {
        lemma_be_bytes_len(u64::MAX as nat, 8);
        lemma_be_bytes_len(counter as nat, 8);
        if full {
            lemma_be_bytes_len(size_hint->0 as nat, 4);
        }
        assert(out@.len() == hl);
    }
    let ghost header = out@;
    let mut i: usize = 0;
    while i < txs.len()
        invariant
            i <= txs@.len(),
            forall|k: int| 0 <= k < txs@.len() ==> #[trigger] txs@[k]@.len() < 0x1_0000_0000,
            out@ == header + encode_records(views_of(txs@).take(i as int)),
        decreases txs@.len() - i,
    {
        let t: &Vec<u8> = &txs[i];
        proof {
            lemma_pow256_values();
        }
        push_be(&mut out, t.len() as u64, 4);
        append_slice(&mut out, t.as_slice());
        proof {
            lemma_encode_records_push(views_of(txs@).take(i as int), t@);
            assert(views_of(txs@).take(i + 1)
                =~= views_of(txs@).take(i as int).push(t@));
            assert(out@ =~= header + encode_records(views_of(txs@).take(i + 1)));
        }
        i = i + 1;
    }
    proof {
        assert(views_of(txs@).take(txs@.len() as int) =~= views_of(txs@));
        lemma_pow256_values();
        lemma_be_val_of_be_bytes(u64::MAX as nat, 8);
        lemma_be_val_of_be_bytes(counter as nat, 8);
        lemma_be_bytes_len(u64::MAX as nat, 8);
        lemma_be_bytes_len(counter as nat, 8);
        assert(out@.subrange(0, 8) =~= be_bytes(u64::MAX as nat, 8));
        assert(out@.subrange(hl - 8, hl) =~= be_bytes(counter as nat, 8));
        if full {
            lemma_be_bytes_len(size_hint->0 as nat, 4);
            lemma_be_val_of_be_bytes(size_hint->0 as nat, 4);
            assert(out@.subrange(8, 12) =~= be_bytes(size_hint->0 as nat, 4));
        }
        assert(out@.skip(hl) =~= encode_records(views_of(txs@)));
        assert(forall|k: int| 0 <= k < views_of(txs@).len()
            ==> #[trigger] views_of(txs@)[k].len() < 0x1_0000_0000);
        lemma_records_roundtrip(views_of(txs@));
    }
    out
}

} // verus!
