//! The compressed state store's record format and compressor.
//!
//! A state snapshot is a set of fixed-width records over interned integers,
//! one per `(shortstatekey, shorteventid)` entry, held sorted so that equal
//! sets serialize identically. The snapshot hash is SHA-256 over the
//! concatenated big-endian record bytes; the choice is internal to a
//! deployment and not part of the federation wire contract, but it is fixed
//! and stable across restarts and replicas.

use vstd::multiset::Multiset;
use vstd::prelude::*;
use vstd::seq_lib::lemma_sorted_unique;

use sha2::Digest;

use crate::bytes::be64;
use crate::error::Error;
use crate::short::{byte_views, id_views, InternerModel};
use crate::types::EventId;

verus! {

/// One snapshot record: a state entry over interned integers.
#[derive(Clone, Copy, Debug, PartialEq, Eq, Hash, Structural)]
pub struct CompressedStateEvent {
    pub shortstatekey: u64,
    pub shorteventid: u64,
}

/// The record order: by state key, then by event id. Under the big-endian
/// encoding this is exactly lexicographic order of the record bytes.
pub open spec fn record_le(a: CompressedStateEvent, b: CompressedStateEvent) -> bool {
    a.shortstatekey < b.shortstatekey || (a.shortstatekey == b.shortstatekey && a.shorteventid
        <= b.shorteventid)
}

/// The 16-byte big-endian serialization of one record.
pub open spec fn record_bytes(r: CompressedStateEvent) -> Seq<u8> {
    be64(r.shortstatekey) + be64(r.shorteventid)
}

/// The canonical serialization of a snapshot: its records' bytes in order.
pub open spec fn snapshot_bytes(s: Seq<CompressedStateEvent>) -> Seq<u8>
    decreases s.len(),
{
    if s.len() == 0 {
        Seq::empty()
    } else {
        record_bytes(s[0]) + snapshot_bytes(s.drop_first())
    }
}

proof fn lemma_snapshot_bytes_push(s: Seq<CompressedStateEvent>, r: CompressedStateEvent)
    ensures
        snapshot_bytes(s.push(r)) == snapshot_bytes(s) + record_bytes(r),
    decreases s.len(),
{
    if s.len() == 0 {
        assert(s.push(r).len() == 1);
        assert(s.push(r)[0] == r);
        assert(s.push(r).drop_first() =~= Seq::<CompressedStateEvent>::empty());
        assert(snapshot_bytes(s.push(r).drop_first()) == Seq::<u8>::empty());
        assert(snapshot_bytes(s) == Seq::<u8>::empty());
        assert(snapshot_bytes(s.push(r)) =~= snapshot_bytes(s) + record_bytes(r));
    } else {
        assert(s.push(r)[0] == s[0]);
        assert(s.push(r).drop_first() =~= s.drop_first().push(r));
        lemma_snapshot_bytes_push(s.drop_first(), r);
        assert(snapshot_bytes(s.push(r)) == record_bytes(s[0]) + (snapshot_bytes(s.drop_first())
            + record_bytes(r)));
        assert(snapshot_bytes(s.push(r)) =~= snapshot_bytes(s) + record_bytes(r));
    }
}

/// The records of a sequence of `(shortstatekey, shorteventid)` pairs.
pub open spec fn to_records(pairs: Seq<(u64, u64)>) -> Seq<CompressedStateEvent> {
    pairs.map_values(|p: (u64, u64)| CompressedStateEvent { shortstatekey: p.0, shorteventid: p.1 })
}

/// No two pairs share a state key.
pub open spec fn unique_keys(pairs: Seq<(u64, u64)>) -> bool {
    forall|i: int, j: int|
        0 <= i < j < pairs.len() ==> (#[trigger] pairs[i]).0 != (#[trigger] pairs[j]).0
}

/// Records strictly increasing by state key: the shape of every snapshot.
pub open spec fn strictly_sorted(s: Seq<CompressedStateEvent>) -> bool {
    forall|i: int, j: int|
        0 <= i < j < s.len() ==> (#[trigger] s[i]).shortstatekey < (#[trigger] s[j]).shortstatekey
}

/// Mapping a sequence to records commutes with permutation.
proof fn lemma_to_records_multiset(s1: Seq<(u64, u64)>, s2: Seq<(u64, u64)>)
    requires
        s1.to_multiset() == s2.to_multiset(),
    ensures
        to_records(s1).to_multiset() == to_records(s2).to_multiset(),
    decreases s1.len(),
{
    broadcast use vstd::seq_lib::group_to_multiset_ensures;

    if s1.len() == 0 {
        assert(s1.len() == s1.to_multiset().len());
        assert(s2.len() == s2.to_multiset().len());
        assert(s2.len() == 0);
        assert(to_records(s1).to_multiset() =~= to_records(s2).to_multiset());
    } else {
        let x = s1[0];
        assert(s1.to_multiset().count(x) > 0);
        assert(s2.contains(x));
        let k = choose|k: int| 0 <= k < s2.len() && s2[k] == x;
        assert(s1.remove(0).to_multiset() =~= s1.to_multiset().remove(x));
        assert(s2.remove(k).to_multiset() =~= s2.to_multiset().remove(x));
        lemma_to_records_multiset(s1.remove(0), s2.remove(k));
        assert(to_records(s1.remove(0)) =~= to_records(s1).remove(0));
        assert(to_records(s2.remove(k)) =~= to_records(s2).remove(k));
        let r = to_records(s1)[0];
        assert(to_records(s2)[k] == r);
        assert(to_records(s1).remove(0).to_multiset() =~= to_records(s1).to_multiset().remove(r));
        assert(to_records(s2).remove(k).to_multiset() =~= to_records(s2).to_multiset().remove(r));
        assert(to_records(s1).to_multiset().contains(r));
        assert(to_records(s2).to_multiset().contains(r));
        assert(to_records(s1).to_multiset() =~= to_records(s1).to_multiset().remove(r).insert(r));
        assert(to_records(s2).to_multiset() =~= to_records(s2).to_multiset().remove(r).insert(r));
    }
}

/// The record order is a total ordering, so a sorted snapshot is canonical.
pub proof fn lemma_record_le_total_ordering()
    ensures
        vstd::relations::total_ordering(
            |a: CompressedStateEvent, b: CompressedStateEvent| record_le(a, b),
        ),
{
}

/// Snapshot determinism law: compressing a set of pairs and compressing any
/// permutation of it yield the same records, hence byte-for-byte the same
/// snapshot.
pub proof fn lemma_snapshot_determinism(
    s1: Seq<(u64, u64)>,
    s2: Seq<(u64, u64)>,
    out1: Seq<CompressedStateEvent>,
    out2: Seq<CompressedStateEvent>,
)
    requires
        s1.to_multiset() == s2.to_multiset(),
        vstd::relations::sorted_by(
            out1,
            |a: CompressedStateEvent, b: CompressedStateEvent| record_le(a, b),
        ),
        vstd::relations::sorted_by(
            out2,
            |a: CompressedStateEvent, b: CompressedStateEvent| record_le(a, b),
        ),
        out1.to_multiset() == to_records(s1).to_multiset(),
        out2.to_multiset() == to_records(s2).to_multiset(),
    ensures
        out1 == out2,
        snapshot_bytes(out1) == snapshot_bytes(out2),
{
    lemma_to_records_multiset(s1, s2);
    lemma_record_le_total_ordering();
    lemma_sorted_unique(
        out1,
        out2,
        |a: CompressedStateEvent, b: CompressedStateEvent| record_le(a, b),
    );
}

/// A singleton's multiset is the empty multiset plus its element.
proof fn lemma_singleton_multiset(rec: CompressedStateEvent)
    ensures
        seq![rec].to_multiset() =~= Multiset::<CompressedStateEvent>::empty().insert(rec),
{
    broadcast use vstd::seq_lib::group_to_multiset_ensures;
    broadcast use vstd::multiset::group_multiset_axioms;
    broadcast use vstd::multiset::lemma_multiset_empty_len;

    assert(Seq::<CompressedStateEvent>::empty().to_multiset().len() == 0);
    assert(Seq::<CompressedStateEvent>::empty().to_multiset() =~= Multiset::<
        CompressedStateEvent,
    >::empty());
    assert(seq![rec] =~= Seq::<CompressedStateEvent>::empty().push(rec));
    assert(Seq::<CompressedStateEvent>::empty().push(rec).to_multiset() =~= Seq::<
        CompressedStateEvent,
    >::empty().to_multiset().insert(rec));
}

/// Inserting an element anywhere adds exactly it to the multiset.
proof fn lemma_insert_multiset(pre: Seq<CompressedStateEvent>, pos: int, rec: CompressedStateEvent)
    requires
        0 <= pos <= pre.len(),
    ensures
        (pre.take(pos) + (seq![rec] + pre.skip(pos))).to_multiset() =~= pre.to_multiset().insert(
            rec,
        ),
{
    broadcast use vstd::multiset::group_multiset_axioms;

    vstd::seq_lib::lemma_multiset_commutative(pre.take(pos), seq![rec] + pre.skip(pos));
    vstd::seq_lib::lemma_multiset_commutative(seq![rec], pre.skip(pos));
    assert(pre =~= pre.take(pos) + pre.skip(pos));
    vstd::seq_lib::lemma_multiset_commutative(pre.take(pos), pre.skip(pos));
    lemma_singleton_multiset(rec);
}

/// Inserting at the found position keeps the records strictly sorted.
proof fn lemma_insert_sorted(
    pre: Seq<CompressedStateEvent>,
    pos: int,
    rec: CompressedStateEvent,
    out: Seq<CompressedStateEvent>,
)
    requires
        strictly_sorted(pre),
        0 <= pos <= pre.len(),
        out == pre.take(pos) + (seq![rec] + pre.skip(pos)),
        forall|a: int| 0 <= a < pos ==> (#[trigger] pre[a]).shortstatekey < rec.shortstatekey,
        pos < pre.len() ==> pre[pos].shortstatekey > rec.shortstatekey,
    ensures
        strictly_sorted(out),
{
    assert forall|a: int, b: int|
        0 <= a < b < out.len() implies (#[trigger] out[a]).shortstatekey < (
    #[trigger] out[b]).shortstatekey by {
        assert(out.len() == pre.len() + 1);
        if a < pos {
            assert(out[a] == pre[a]);
        } else if a == pos {
            assert(out[a] == rec);
        } else {
            assert(out[a] == pre[a - 1]);
        }
        if b < pos {
            assert(out[b] == pre[b]);
        } else if b == pos {
            assert(out[b] == rec);
        } else {
            assert(out[b] == pre[b - 1]);
        }
    }
}

/// A record's worth of the growing prefix: one more pair extends the
/// record multiset by exactly its record.
proof fn lemma_prefix_step(pairs: Seq<(u64, u64)>, i: int)
    requires
        0 <= i < pairs.len(),
    ensures
        to_records(pairs.take(i + 1)).to_multiset() =~= to_records(
            pairs.take(i),
        ).to_multiset().insert(
            CompressedStateEvent { shortstatekey: pairs[i].0, shorteventid: pairs[i].1 },
        ),
{
    broadcast use vstd::seq_lib::group_to_multiset_ensures;

    let rec = CompressedStateEvent { shortstatekey: pairs[i].0, shorteventid: pairs[i].1 };
    assert(pairs.take(i + 1) =~= pairs.take(i).push(pairs[i]));
    assert(to_records(pairs.take(i + 1)) =~= to_records(pairs.take(i)).push(rec));
    assert(to_records(pairs.take(i)).push(rec).to_multiset() =~= to_records(
        pairs.take(i),
    ).to_multiset().insert(rec));
}

/// If some processed pair carries `key`, so does some record.
proof fn lemma_key_in_records(pre: Seq<CompressedStateEvent>, pairs: Seq<(u64, u64)>, i: int, j: int)
    requires
        0 <= i <= pairs.len(),
        0 <= j < i,
        pre.to_multiset() == to_records(pairs.take(i)).to_multiset(),
    ensures
        exists|a: int|
            0 <= a < pre.len() && (#[trigger] pre[a]).shortstatekey == pairs[j].0,
{
    broadcast use vstd::seq_lib::group_to_multiset_ensures;

    let recs = to_records(pairs.take(i));
    let rec = recs[j];
    assert(recs.contains(rec));
    assert(recs.to_multiset().count(rec) > 0);
    assert(pre.to_multiset().count(rec) > 0);
    assert(pre.contains(rec));
    let a = choose|a: int| 0 <= a < pre.len() && pre[a] == rec;
    assert(pre[a].shortstatekey == pairs[j].0);
}

/// Every record's key was carried by some processed pair.
proof fn lemma_record_key_in_prefix(
    pre: Seq<CompressedStateEvent>,
    pairs: Seq<(u64, u64)>,
    i: int,
    a: int,
)
    requires
        0 <= i <= pairs.len(),
        0 <= a < pre.len(),
        pre.to_multiset() == to_records(pairs.take(i)).to_multiset(),
    ensures
        exists|j: int| 0 <= j < i && (#[trigger] pairs[j]).0 == pre[a].shortstatekey,
{
    broadcast use vstd::seq_lib::group_to_multiset_ensures;

    let recs = to_records(pairs.take(i));
    assert(pre.contains(pre[a]));
    assert(pre.to_multiset().count(pre[a]) > 0);
    assert(recs.to_multiset().count(pre[a]) > 0);
    assert(recs.contains(pre[a]));
    let j = choose|j: int| 0 <= j < recs.len() && recs[j] == pre[a];
    assert(pairs.take(i)[j] == pairs[j]);
    assert(pairs[j].0 == pre[a].shortstatekey);
}

/// Compress a sequence of `(shortstatekey, shorteventid)` pairs into the
/// canonical snapshot: the same records sorted strictly by state key, or
/// `DuplicateStateKey` exactly when two pairs share a state key.
#[verifier::rlimit(50)]
pub fn compress_records(pairs: &Vec<(u64, u64)>) -> (r: Result<Vec<CompressedStateEvent>, Error>)
    ensures
        match r {
            Ok(out) => unique_keys(pairs@) && strictly_sorted(out@) && vstd::relations::sorted_by(
                out@,
                |a: CompressedStateEvent, b: CompressedStateEvent| record_le(a, b),
            ) && out@.to_multiset() == to_records(pairs@).to_multiset(),
            Err(e) => e == Error::DuplicateStateKey && !unique_keys(pairs@),
        },
{
    let mut out: Vec<CompressedStateEvent> = Vec::new();
    let mut i: usize = 0;
    proof {
        assert(out@.to_multiset() =~= to_records(pairs@.take(0)).to_multiset()) by {
            assert(pairs@.take(0) =~= Seq::<(u64, u64)>::empty());
            assert(to_records(pairs@.take(0)) =~= Seq::<CompressedStateEvent>::empty());
        }
    }
    while i < pairs.len()
        invariant
            i <= pairs@.len(),
            strictly_sorted(out@),
            out@.to_multiset() == to_records(pairs@.take(i as int)).to_multiset(),
            unique_keys(pairs@.take(i as int)),
        decreases pairs@.len() - i,
    {
        let (ssk, seid) = pairs[i];
        let rec = CompressedStateEvent { shortstatekey: ssk, shorteventid: seid };
        // find the insertion point among the sorted records
        let mut pos: usize = 0;
        while pos < out.len() && out[pos].shortstatekey < ssk
            invariant
                pos <= out@.len(),
                strictly_sorted(out@),
                forall|a: int| 0 <= a < pos ==> (#[trigger] out@[a]).shortstatekey < ssk,
            decreases out@.len() - pos,
        {
            pos = pos + 1;
        }
        if pos < out.len() && out[pos].shortstatekey == ssk {
            proof {
                lemma_record_key_in_prefix(out@, pairs@, i as int, pos as int);
                let j = choose|j: int|
                    0 <= j < i && (#[trigger] pairs@[j]).0 == out@[pos as int].shortstatekey;
                assert(pairs@[j].0 == pairs@[i as int].0);
                assert(!unique_keys(pairs@));
            }
            return Err(Error::DuplicateStateKey);
        }
        proof {
            if pos < out@.len() {
                assert(out@[pos as int].shortstatekey > ssk);
            }
        }
        let ghost pre = out@;
        out.insert(pos, rec);
        proof {
            assert(out@ =~= pre.take(pos as int) + (seq![rec] + pre.skip(pos as int)));
            lemma_insert_multiset(pre, pos as int, rec);
            lemma_insert_sorted(pre, pos as int, rec, out@);
            lemma_prefix_step(pairs@, i as int);
            assert(unique_keys(pairs@.take(i + 1))) by {
                assert forall|j1: int, j2: int|
                    0 <= j1 < j2 < i + 1 implies (#[trigger] pairs@.take(i + 1)[j1]).0 != (
                #[trigger] pairs@.take(i + 1)[j2]).0 by {
                    assert(pairs@.take(i + 1)[j1] == pairs@[j1]);
                    assert(pairs@.take(i + 1)[j2] == pairs@[j2]);
                    if j2 == i {
                        if pairs@[j1].0 == pairs@[i as int].0 {
                            lemma_key_in_records(pre, pairs@, i as int, j1);
                            let a = choose|a: int|
                                0 <= a < pre.len() && (#[trigger] pre[a]).shortstatekey
                                    == pairs@[j1].0;
                            if a >= pos {
                                assert(pre[pos as int].shortstatekey > ssk);
                                if a > pos {
                                    assert(pre[pos as int].shortstatekey < pre[a].shortstatekey);
                                }
                            }
                        }
                    } else {
                        assert(pairs@.take(i as int)[j1] == pairs@[j1]);
                        assert(pairs@.take(i as int)[j2] == pairs@[j2]);
                    }
                }
            }
        }
        i = i + 1;
    }
    proof {
        assert(pairs@.take(pairs@.len() as int) =~= pairs@);
    }
    Ok(out)
}

/// The name of SHA-256: what `sha2`'s digest returns for the given bytes, a
/// pure function of them alone.
pub uninterp spec fn sha256_of(b: Seq<u8>) -> Seq<u8>;

/// Relies on sha2's `Sha256` (`Digest::digest`): a pure function of the
/// input bytes whose output is documented to be exactly 32 bytes.
#[verifier::external_body]
fn sha256(b: &Vec<u8>) -> (r: Vec<u8>)
    ensures
        r@ == sha256_of(b@),
        r@.len() == 32,
{
    let d = sha2::Sha256::digest(b.as_slice());
    d.as_slice().to_vec()
}

/// The canonical snapshot hash: SHA-256 over the sorted snapshot's record
/// bytes.
pub fn state_hash(snapshot: &Vec<CompressedStateEvent>) -> (r: Vec<u8>)
    ensures
        r@ == sha256_of(snapshot_bytes(snapshot@)),
        r@.len() == 32,
{
    let mut bytes: Vec<u8> = Vec::new();
    let mut i: usize = 0;
    proof {
        assert(snapshot@.take(0) =~= Seq::<CompressedStateEvent>::empty());
    }
    while i < snapshot.len()
        invariant
            i <= snapshot@.len(),
            bytes@ == snapshot_bytes(snapshot@.take(i as int)),
        decreases snapshot@.len() - i,
    {
        let rec = snapshot[i];
        let mut kb = crate::bytes::u64_to_be(rec.shortstatekey);
        let mut vb = crate::bytes::u64_to_be(rec.shorteventid);
        let ghost pre = bytes@;
        let mut j: usize = 0;
        while j < kb.len()
            invariant
                j <= kb@.len(),
                bytes@ == pre + kb@.take(j as int),
            decreases kb@.len() - j,
        {
            bytes.push(kb[j]);
            proof {
                assert(pre + kb@.take(j + 1) =~= (pre + kb@.take(j as int)).push(kb@[j as int]));
            }
            j = j + 1;
        }
        proof {
            assert(kb@.take(kb@.len() as int) =~= kb@);
        }
        let ghost pre2 = bytes@;
        let mut j2: usize = 0;
        while j2 < vb.len()
            invariant
                j2 <= vb@.len(),
                bytes@ == pre2 + vb@.take(j2 as int),
            decreases vb@.len() - j2,
        {
            bytes.push(vb[j2]);
            proof {
                assert(pre2 + vb@.take(j2 + 1) =~= (pre2 + vb@.take(j2 as int)).push(
                    vb@[j2 as int],
                ));
            }
            j2 = j2 + 1;
        }
        proof {
            assert(vb@.take(vb@.len() as int) =~= vb@);
            lemma_snapshot_bytes_push(snapshot@.take(i as int), snapshot@[i as int]);
            assert(snapshot@.take(i + 1) =~= snapshot@.take(i as int).push(snapshot@[i as int]));
            assert(bytes@ =~= snapshot_bytes(snapshot@.take(i + 1)));
        }
        i = i + 1;
    }
    proof {
        assert(snapshot@.take(snapshot@.len() as int) =~= snapshot@);
    }
    sha256(&bytes)
}

/// The record views of a sequence of `(shortstatekey, event id)` pairs once
/// the event ids have been interned to the aligned short ids.
pub open spec fn paired_records(pairs: Seq<(u64, EventId)>, ids: Seq<u64>) -> Seq<(u64, u64)> {
    Seq::new(pairs.len(), |i: int| (pairs[i].0, ids[i]))
}

/// The event-id views of such pairs.
pub open spec fn pair_eid_views(pairs: Seq<(u64, EventId)>) -> Seq<Seq<u8>> {
    pairs.map_values(|p: (u64, EventId)| p.1@)
}

/// Compress a sequence of `(shortstatekey, event id)` pairs: intern each
/// event id in order, then emit the canonical sorted snapshot.
pub fn compress_state_events(
    short: &mut crate::short::Service,
    pairs: &Vec<(u64, EventId)>,
) -> (r: Result<Vec<CompressedStateEvent>, Error>)
    requires
        old(short).wf(),
    ensures
        final(short).wf(),
        final(short).shorteventid@ == old(short).shorteventid@.multi_alloc_state(
            pair_eid_views(pairs@),
        ),
        final(short).shortstatekey == old(short).shortstatekey,
        final(short).shortroomid == old(short).shortroomid,
        final(short).shortstatehash == old(short).shortstatehash,
        match r {
            Ok(out) => {
                &&& old(short).shorteventid@.multi_alloc_result(pair_eid_views(pairs@)) is Ok
                &&& {
                    let ids = old(short).shorteventid@.multi_alloc_result(
                        pair_eid_views(pairs@),
                    )->Ok_0;
                    let recs = paired_records(pairs@, ids);
                    unique_keys(recs) && strictly_sorted(out@) && vstd::relations::sorted_by(
                        out@,
                        |a: CompressedStateEvent, b: CompressedStateEvent| record_le(a, b),
                    ) && out@.to_multiset() == to_records(recs).to_multiset()
                }
            },
            Err(e) => (old(short).shorteventid@.multi_alloc_result(pair_eid_views(pairs@))
                == Err::<Seq<u64>, Error>(e)) || (e == Error::DuplicateStateKey && old(
                short,
            ).shorteventid@.multi_alloc_result(pair_eid_views(pairs@)) is Ok && !unique_keys(
                paired_records(
                    pairs@,
                    old(short).shorteventid@.multi_alloc_result(pair_eid_views(pairs@))->Ok_0,
                ),
            )),
        },
{
    let mut eids: Vec<EventId> = Vec::new();
    let mut i: usize = 0;
    while i < pairs.len()
        invariant
            i <= pairs@.len(),
            id_views(eids@) == pair_eid_views(pairs@).take(i as int),
        decreases pairs@.len() - i,
    {
        let e = pairs[i].1.clone_id();
        let ghost ev = e@;
        let ghost pre = eids@;
        eids.push(e);
        proof {
            assert(pre.len() == i) by {
                assert(id_views(pre).len() == pre.len());
            }
            assert forall|j: int| 0 <= j < i + 1 implies id_views(eids@)[j] == pair_eid_views(
                pairs@,
            ).take(i + 1)[j] by {
                if j < i {
                    assert(id_views(pre)[j] == pair_eid_views(pairs@).take(i as int)[j]);
                    assert(eids@[j] == pre[j]);
                } else {
                    assert(eids@[j]@ == ev);
                }
            }
            assert(id_views(eids@) =~= pair_eid_views(pairs@).take(i + 1));
        }
        i = i + 1;
    }
    proof {
        assert(pair_eid_views(pairs@).take(pairs@.len() as int) =~= pair_eid_views(pairs@));
    }
    let ids = match short.multi_get_or_create_shorteventid(&eids) {
        Ok(ids) => ids,
        Err(e) => {
            return Err(e);
        },
    };
    proof {
        crate::short::lemma_multi_alloc_len(old(short).shorteventid@, pair_eid_views(pairs@));
    }
    let mut recs: Vec<(u64, u64)> = Vec::new();
    let mut j: usize = 0;
    while j < pairs.len()
        invariant
            j <= pairs@.len(),
            ids@.len() == pairs@.len(),
            recs@ == paired_records(pairs@, ids@).take(j as int),
        decreases pairs@.len() - j,
    {
        recs.push((pairs[j].0, ids[j]));
        proof {
            assert(paired_records(pairs@, ids@).take(j + 1) =~= paired_records(
                pairs@,
                ids@,
            ).take(j as int).push((pairs@[j as int].0, ids@[j as int])));
        }
        j = j + 1;
    }
    proof {
        assert(paired_records(pairs@, ids@).take(pairs@.len() as int) =~= paired_records(
            pairs@,
            ids@,
        ));
    }
    compress_records(&recs)
}

} // verus!
