//! The short-id interner.
//!
//! Four bijective namespaces map long Matrix identifiers to monotonically
//! assigned 64-bit integers: event ids, `(event type, state key)` pairs,
//! room ids, and state-hash blobs. Each namespace owns a forward column
//! family (value bytes to big-endian id) and a reverse one (big-endian id to
//! value bytes), plus its `next` counter, recovered on restart from its
//! persisted value, never by scanning.
//!
//! Interned values are write-once: never deleted, never remapped. Ids start
//! at 1 and are handed out gap-free from the recovered counter on; when the
//! counter would pass `u64::MAX` the namespace is exhausted and allocation
//! fails with a storage error.

use vstd::prelude::*;

use crate::bytes::{be64, be64_val, clone_bytes, u64_from_be, u64_to_be};
use crate::error::Error;
use crate::kv::ColumnFamily;
use crate::types::{EventId, RoomId, StateEventType, StateKey};

verus! {

/// The mathematical content of one interner namespace: the forward mapping
/// from value bytes to their id, and the next id to assign.
#[verifier::ext_equal]
pub struct InternerModel {
    pub fwd: Map<Seq<u8>, u64>,
    pub next: u64,
}

impl InternerModel {
    /// Ids are at least 1, below the counter, and distinct values carry
    /// distinct ids.
    pub open spec fn wf(self) -> bool {
        self.next >= 1 && (forall|v: Seq<u8>|
            self.fwd.contains_key(v) ==> 1 <= #[trigger] self.fwd[v] < self.next) && (forall|
            v1: Seq<u8>,
            v2: Seq<u8>,
        |
            self.fwd.contains_key(v1) && self.fwd.contains_key(v2) && v1 != v2
                ==> #[trigger] self.fwd[v1] != #[trigger] self.fwd[v2])
    }

    /// A pure read of the forward mapping.
    pub open spec fn lookup(self, v: Seq<u8>) -> Option<u64> {
        if self.fwd.contains_key(v) {
            Some(self.fwd[v])
        } else {
            None
        }
    }

    /// What `get_or_create` returns: the existing id, a fresh id, or a
    /// storage error once the id space is exhausted.
    pub open spec fn alloc_result(self, v: Seq<u8>) -> Result<(u64, bool), Error> {
        if self.fwd.contains_key(v) {
            Ok((self.fwd[v], true))
        } else if self.next < u64::MAX {
            Ok((self.next, false))
        } else {
            Err(Error::Storage)
        }
    }

    /// The namespace after `get_or_create`.
    pub open spec fn alloc_state(self, v: Seq<u8>) -> InternerModel {
        if self.fwd.contains_key(v) {
            self
        } else if self.next < u64::MAX {
            InternerModel { fwd: self.fwd.insert(v, self.next), next: (self.next + 1) as u64 }
        } else {
            self
        }
    }

    /// The value an id stands for, if the id was ever allocated.
    pub open spec fn value_of(self, id: u64) -> Option<Seq<u8>> {
        if exists|v: Seq<u8>| self.fwd.contains_key(v) && self.fwd[v] == id {
            Some(choose|v: Seq<u8>| self.fwd.contains_key(v) && self.fwd[v] == id)
        } else {
            None
        }
    }

    /// The model after a batch `get_or_create`, value by value.
    pub open spec fn multi_alloc_state(self, vs: Seq<Seq<u8>>) -> InternerModel
        decreases vs.len(),
    {
        if vs.len() == 0 {
            self
        } else {
            self.alloc_state(vs[0]).multi_alloc_state(vs.drop_first())
        }
    }

    /// What a batch `get_or_create` returns: the ids aligned with the
    /// inputs, or the first storage error.
    pub open spec fn multi_alloc_result(self, vs: Seq<Seq<u8>>) -> Result<Seq<u64>, Error>
        decreases vs.len(),
    {
        if vs.len() == 0 {
            Ok(Seq::<u64>::empty())
        } else {
            match self.alloc_result(vs[0]) {
                Err(e) => Err(e),
                Ok((id, _)) => match self.alloc_state(vs[0]).multi_alloc_result(
                    vs.drop_first(),
                ) {
                    Err(e) => Err(e),
                    Ok(rest) => Ok(seq![id] + rest),
                },
            }
        }
    }
}

/// Allocation preserves the namespace invariant.
pub proof fn lemma_alloc_preserves_wf(m: InternerModel, v: Seq<u8>)
    requires
        m.wf(),
    ensures
        m.alloc_state(v).wf(),
{
}

/// Allocation only ever extends the forward mapping; existing ids are
/// write-once.
pub proof fn lemma_alloc_monotone(m: InternerModel, v: Seq<u8>, w: Seq<u8>)
    requires
        m.wf(),
        m.fwd.contains_key(w),
    ensures
        m.alloc_state(v).fwd.contains_key(w),
        m.alloc_state(v).fwd[w] == m.fwd[w],
        m.alloc_state(v).next >= m.next,
{
}

/// Interner round-trip law: once `get_or_create(v)` has returned an id,
/// `get_value(id)` returns `v` and `get(v)` returns that id.
pub proof fn lemma_interner_round_trip(m: InternerModel, v: Seq<u8>)
    requires
        m.wf(),
        m.alloc_result(v) is Ok,
    ensures
        ({
            let id = m.alloc_result(v)->Ok_0.0;
            m.alloc_state(v).value_of(id) == Some(v) && m.alloc_state(v).lookup(v) == Some(id)
        }),
{
    let id = m.alloc_result(v)->Ok_0.0;
    let m1 = m.alloc_state(v);
    lemma_alloc_preserves_wf(m, v);
    assert(m1.fwd.contains_key(v) && m1.fwd[v] == id);
    let w = choose|w: Seq<u8>| m1.fwd.contains_key(w) && m1.fwd[w] == id;
    assert(w == v);
}

/// Interner injectivity law: distinct values receive distinct ids.
pub proof fn lemma_interner_injective(m: InternerModel, v1: Seq<u8>, v2: Seq<u8>)
    requires
        m.wf(),
        v1 != v2,
        m.alloc_result(v1) is Ok,
        m.alloc_state(v1).alloc_result(v2) is Ok,
    ensures
        m.alloc_result(v1)->Ok_0.0 != m.alloc_state(v1).alloc_result(v2)->Ok_0.0,
{
    lemma_alloc_preserves_wf(m, v1);
    let m1 = m.alloc_state(v1);
    assert(m1.fwd.contains_key(v1));
}

/// Interner idempotence law: a second `get_or_create` of the same value
/// returns the same id, reports it as already existing, and changes
/// nothing.
pub proof fn lemma_interner_idempotent(m: InternerModel, v: Seq<u8>)
    requires
        m.wf(),
        m.alloc_result(v) is Ok,
    ensures
        m.alloc_state(v).alloc_result(v) == Ok::<_, Error>(
            (m.alloc_result(v)->Ok_0.0, true),
        ),
        m.alloc_state(v).alloc_state(v) == m.alloc_state(v),
{
}

/// `b` extends `a` purely by allocations: every interned value keeps its
/// id, and the counter never regresses.
pub open spec fn model_extends(a: InternerModel, b: InternerModel) -> bool {
    a.next <= b.next && (forall|v: Seq<u8>|
        #[trigger] a.fwd.contains_key(v) ==> b.fwd.contains_key(v) && b.fwd[v] == a.fwd[v])
}

pub proof fn lemma_model_extends_trans(a: InternerModel, b: InternerModel, c: InternerModel)
    requires
        model_extends(a, b),
        model_extends(b, c),
    ensures
        model_extends(a, c),
{
    assert forall|v: Seq<u8>| a.fwd.contains_key(v) implies c.fwd.contains_key(v)
        && #[trigger] c.fwd[v] == a.fwd[v] by {
        assert(b.fwd.contains_key(v) && b.fwd[v] == a.fwd[v]);
    }
}

/// One allocation only extends the namespace.
pub proof fn lemma_alloc_extends(m: InternerModel, v: Seq<u8>)
    ensures
        model_extends(m, m.alloc_state(v)),
{
}

/// A batch of allocations only extends the namespace.
pub proof fn lemma_multi_alloc_extends(m: InternerModel, vs: Seq<Seq<u8>>)
    ensures
        model_extends(m, m.multi_alloc_state(vs)),
    decreases vs.len(),
{
    if vs.len() > 0 {
        lemma_alloc_extends(m, vs[0]);
        lemma_multi_alloc_extends(m.alloc_state(vs[0]), vs.drop_first());
        lemma_model_extends_trans(
            m,
            m.alloc_state(vs[0]),
            m.alloc_state(vs[0]).multi_alloc_state(vs.drop_first()),
        );
    }
}

/// The byte-sequence views of a vector of byte vectors.
pub open spec fn byte_views(vs: Seq<Vec<u8>>) -> Seq<Seq<u8>> {
    vs.map_values(|x: Vec<u8>| x@)
}

/// Every namespace of `b` extends the matching namespace of `a` purely by
/// allocations.
pub open spec fn service_extends(a: Service, b: Service) -> bool {
    model_extends(a.shorteventid@, b.shorteventid@) && model_extends(
        a.shortstatekey@,
        b.shortstatekey@,
    ) && model_extends(a.shortroomid@, b.shortroomid@) && model_extends(
        a.shortstatehash@,
        b.shortstatehash@,
    )
}

/// One interner namespace over its two column families.
pub struct Interner {
    pub forward: ColumnFamily,
    pub reverse: ColumnFamily,
    pub next: u64,
}

impl View for Interner {
    type V = InternerModel;

    open spec fn view(&self) -> InternerModel {
        InternerModel {
            fwd: Map::new(
                |v: Seq<u8>| self.forward@.contains_key(v),
                |v: Seq<u8>| be64_val(self.forward@[v]),
            ),
            next: self.next,
        }
    }
}

impl Interner {
    /// The two families mirror each other exactly, ids are 8-byte
    /// big-endian words below the counter, and the counter is at least 1.
    pub open spec fn wf(self) -> bool {
        &&& self.forward.wf()
        &&& self.reverse.wf()
        &&& self.next >= 1
        &&& forall|v: Seq<u8>|
            self.forward@.contains_key(v) ==> {
                let idb = #[trigger] self.forward@[v];
                idb.len() == 8 && 1 <= be64_val(idb) < self.next && self.reverse@.contains_key(idb)
                    && self.reverse@[idb] == v
            }
        &&& forall|k: Seq<u8>|
            self.reverse@.contains_key(k) ==> (#[trigger] k.len()) == 8
                && self.forward@.contains_key(self.reverse@[k]) && self.forward@[self.reverse@[k]]
                == k
    }

    /// A well-formed interner satisfies the namespace invariant of its
    /// model.
    pub proof fn lemma_model_wf(self)
        requires
            self.wf(),
        ensures
            self@.wf(),
    {
        assert forall|v1: Seq<u8>, v2: Seq<u8>|
            self@.fwd.contains_key(v1) && self@.fwd.contains_key(v2) && v1 != v2 implies #[trigger] self@.fwd[v1]
            != #[trigger] self@.fwd[v2] by {
            if be64_val(self.forward@[v1]) == be64_val(self.forward@[v2]) {
                crate::bytes::lemma_be64_val_injective(self.forward@[v1], self.forward@[v2]);
                assert(self.reverse@[self.forward@[v1]] == v1);
                assert(self.reverse@[self.forward@[v2]] == v2);
            }
        }
    }

    /// A fresh namespace whose counter starts at 1.
    pub fn new() -> (r: Interner)
        ensures
            r.wf(),
            r@ == (InternerModel { fwd: Map::<Seq<u8>, u64>::empty(), next: 1u64 }),
    {
        let r = Interner { forward: ColumnFamily::new(), reverse: ColumnFamily::new(), next: 1 };
        proof {
            assert(r@.fwd =~= Map::<Seq<u8>, u64>::empty());
        }
        r
    }

    /// A namespace recovered at a persisted counter value, as after a
    /// restart.
    pub fn build_at(counter: u64) -> (r: Interner)
        requires
            counter >= 1,
        ensures
            r.wf(),
            r@ == (InternerModel { fwd: Map::<Seq<u8>, u64>::empty(), next: counter }),
    {
        let r = Interner {
            forward: ColumnFamily::new(),
            reverse: ColumnFamily::new(),
            next: counter,
        };
        proof {
            assert(r@.fwd =~= Map::<Seq<u8>, u64>::empty());
        }
        r
    }

    /// Pure read of a value's id; no allocation.
    pub fn get(&self, v: &Vec<u8>) -> (r: Option<u64>)
        requires
            self.wf(),
        ensures
            r == self@.lookup(v@),
    {
        match self.forward.get(v) {
            Some(idb) => Some(u64_from_be(idb)),
            None => None,
        }
    }

    /// Return the existing id of `v`, or atomically allocate the next one.
    /// The boolean reports whether the value already existed.
    pub fn get_or_create(&mut self, v: &Vec<u8>) -> (r: Result<(u64, bool), Error>)
        requires
            old(self).wf(),
        ensures
            final(self).wf(),
            final(self)@ == old(self)@.alloc_state(v@),
            r == old(self)@.alloc_result(v@),
    {
        let found = match self.forward.get(v) {
            Some(idb) => Some(u64_from_be(idb)),
            None => None,
        };
        match found {
            Some(id) => {
                proof {
                    assert(final(self)@ =~= old(self)@.alloc_state(v@)) by {
                        assert(old(self)@.fwd.contains_key(v@));
                    }
                }
                Ok((id, true))
            },
            None => {
                if self.next == u64::MAX {
                    proof {
                        assert(final(self)@ =~= old(self)@.alloc_state(v@));
                    }
                    Err(Error::Storage)
                } else {
                    let id = self.next;
                    let idb = u64_to_be(id);
                    let idb2 = clone_bytes(&idb);
                    let vc = clone_bytes(v);
                    let vc2 = clone_bytes(v);
                    proof {
                        crate::bytes::lemma_be64_roundtrip(id);
                        if self.reverse@.contains_key(be64(id)) {
                            assert(self.forward@[self.reverse@[be64(id)]] == be64(id));
                        }
                    }
                    self.forward.insert(vc, idb);
                    self.reverse.insert(idb2, vc2);
                    self.next = id + 1;
                    proof {
                        let o = old(self);
                        assert forall|w: Seq<u8>| self.forward@.contains_key(w) implies {
                            let wb = #[trigger] self.forward@[w];
                            wb.len() == 8 && 1 <= be64_val(wb) < self.next
                                && self.reverse@.contains_key(wb) && self.reverse@[wb] == w
                        } by {
                            if w == v@ {
                                assert(self.forward@[w] == be64(id));
                                crate::bytes::lemma_be64_roundtrip(id);
                            } else {
                                assert(o.forward@.contains_key(w));
                                let wb = o.forward@[w];
                                assert(wb.len() == 8 && 1 <= be64_val(wb) < o.next);
                                if wb == be64(id) {
                                    crate::bytes::lemma_be64_roundtrip(id);
                                }
                                assert(self.reverse@.contains_key(wb));
                            }
                        }
                        assert forall|k: Seq<u8>| self.reverse@.contains_key(k) implies (
                        #[trigger] k.len()) == 8 && self.forward@.contains_key(self.reverse@[k])
                            && self.forward@[self.reverse@[k]] == k by {
                            if k == be64(id) {
                                crate::bytes::lemma_be64_roundtrip(id);
                                assert(self.reverse@[k] == v@);
                                assert(self.forward@[v@] == be64(id));
                            } else {
                                assert(o.reverse@.contains_key(k));
                                let w = o.reverse@[k];
                                assert(o.forward@[w] == k);
                                assert(w != v@);
                                assert(self.forward@[w] == k);
                            }
                        }
                        assert(final(self)@.fwd =~= old(self)@.alloc_state(v@).fwd) by {
                            crate::bytes::lemma_be64_roundtrip(id);
                        }
                        assert(final(self)@ == old(self)@.alloc_state(v@));
                    }
                    Ok((id, false))
                }
            },
        }
    }

    /// Reverse lookup: the value bytes an id was allocated for, or
    /// `UnknownShortId` if it never was.
    pub fn get_value(&self, id: u64) -> (r: Result<Vec<u8>, Error>)
        requires
            self.wf(),
        ensures
            match r {
                Ok(bytes) => self@.value_of(id) == Some(bytes@),
                Err(e) => e == Error::UnknownShortId && self@.value_of(id) is None,
            },
    {
        let idb = u64_to_be(id);
        match self.reverse.get(&idb) {
            Some(v) => {
                let out = clone_bytes(v);
                proof {
                    self.lemma_model_wf();
                    crate::bytes::lemma_be64_roundtrip(id);
                    assert(self.forward@.contains_key(out@));
                    assert(self.forward@[out@] == be64(id));
                    assert(self@.fwd.contains_key(out@) && self@.fwd[out@] == id);
                    let w = choose|w: Seq<u8>| self@.fwd.contains_key(w) && self@.fwd[w] == id;
                    assert(w == out@);
                }
                Ok(out)
            },
            None => {
                proof {
                    if exists|w: Seq<u8>| self@.fwd.contains_key(w) && self@.fwd[w] == id {
                        let w = choose|w: Seq<u8>|
                            self@.fwd.contains_key(w) && self@.fwd[w] == id;
                        assert(self.forward@.contains_key(w));
                        let wb = self.forward@[w];
                        crate::bytes::lemma_be64_inverse(wb);
                        assert(wb == be64(id));
                        assert(self.reverse@.contains_key(wb));
                    }
                }
                Err(Error::UnknownShortId)
            },
        }
    }

    /// Batch `get_or_create`; the ids align with the inputs by index, and
    /// atomicity is per value, not whole-batch.
    pub fn multi_get_or_create(&mut self, vs: &Vec<Vec<u8>>) -> (r: Result<Vec<u64>, Error>)
        requires
            old(self).wf(),
        ensures
            final(self).wf(),
            final(self)@ == old(self)@.multi_alloc_state(byte_views(vs@)),
            match r {
                Ok(ids) => old(self)@.multi_alloc_result(byte_views(vs@))
                    == Ok::<_, Error>(ids@),
                Err(e) => old(self)@.multi_alloc_result(byte_views(vs@))
                    == Err::<Seq<u64>, _>(e),
            },
    {
        let ghost views = byte_views(vs@);
        let ghost m0 = self@;
        let mut out: Vec<u64> = Vec::new();
        let mut i: usize = 0;
        proof {
            assert(views.skip(0) =~= views);
        }
        while i < vs.len()
            invariant
                self.wf(),
                i <= vs@.len(),
                views == byte_views(vs@),
                m0 == old(self)@,
                m0.multi_alloc_state(views) == self@.multi_alloc_state(views.skip(i as int)),
                m0.multi_alloc_result(views) == match self@.multi_alloc_result(
                    views.skip(i as int),
                ) {
                    Ok(rest) => Ok::<Seq<u64>, Error>(out@ + rest),
                    Err(e) => Err::<Seq<u64>, Error>(e),
                },
            decreases vs@.len() - i,
        {
            let ghost pre = self@;
            let ghost out_pre = out@;
            let r1 = self.get_or_create(&vs[i]);
            match r1 {
                Ok((id, _)) => {
                    out.push(id);
                    proof {
                        assert(views[i as int] == vs@[i as int]@);
                        assert(views.skip(i as int)[0] == views[i as int]);
                        assert(views.skip(i as int).drop_first() =~= views.skip(i + 1));
                        assert(pre.multi_alloc_state(views.skip(i as int))
                            == self@.multi_alloc_state(views.skip(i + 1)));
                        assert(m0.multi_alloc_result(views) == match self@.multi_alloc_result(
                            views.skip(i + 1),
                        ) {
                            Ok(rest) => Ok::<Seq<u64>, Error>(out@ + rest),
                            Err(e) => Err::<Seq<u64>, Error>(e),
                        }) by {
                            match self@.multi_alloc_result(views.skip(i + 1)) {
                                Ok(rest) => {
                                    assert(out@ + rest =~= out_pre + (seq![id] + rest));
                                },
                                Err(_) => {},
                            }
                        }
                    }
                },
                Err(e) => {
                    proof {
                        assert(views[i as int] == vs@[i as int]@);
                        assert(views.skip(i as int)[0] == views[i as int]);
                        assert(pre.alloc_result(views[i as int]) == Err::<(u64, bool), Error>(e));
                        assert(pre.multi_alloc_result(views.skip(i as int)) == Err::<
                            Seq<u64>,
                            Error,
                        >(e));
                        assert(pre.next == u64::MAX);
                        lemma_multi_alloc_exhausted(pre, views.skip(i as int));
                        assert(self@ == pre);
                    }
                    return Err(e);
                },
            }
            i = i + 1;
        }
        proof {
            assert(views.skip(vs@.len() as int) =~= Seq::<Seq<u8>>::empty());
            assert(out@ + Seq::<u64>::empty() =~= out@);
        }
        Ok(out)
    }
}

/// A successful batch allocation returns one id per input.
pub proof fn lemma_multi_alloc_len(m: InternerModel, vs: Seq<Seq<u8>>)
    requires
        m.multi_alloc_result(vs) is Ok,
    ensures
        m.multi_alloc_result(vs)->Ok_0.len() == vs.len(),
    decreases vs.len(),
{
    if vs.len() > 0 {
        lemma_multi_alloc_len(m.alloc_state(vs[0]), vs.drop_first());
    }
}

/// Batch-interning values that are all already interned changes nothing
/// and returns their existing ids.
pub proof fn lemma_multi_alloc_interned(m: InternerModel, vs: Seq<Seq<u8>>, ids: Seq<u64>)
    requires
        ids.len() == vs.len(),
        forall|i: int|
            0 <= i < vs.len() ==> m.fwd.contains_key(#[trigger] vs[i]) && m.fwd[vs[i]] == ids[i],
    ensures
        m.multi_alloc_state(vs) == m,
        m.multi_alloc_result(vs) == Ok::<Seq<u64>, Error>(ids),
    decreases vs.len(),
{
    if vs.len() == 0 {
        assert(ids =~= Seq::<u64>::empty());
    } else {
        assert(m.alloc_state(vs[0]) == m);
        assert(m.alloc_result(vs[0]) == Ok::<(u64, bool), Error>((ids[0], true)));
        assert forall|i: int| 0 <= i < vs.drop_first().len() implies m.fwd.contains_key(
            #[trigger] vs.drop_first()[i],
        ) && m.fwd[vs.drop_first()[i]] == ids.drop_first()[i] by {
            assert(vs.drop_first()[i] == vs[i + 1]);
            assert(ids.drop_first()[i] == ids[i + 1]);
        }
        lemma_multi_alloc_interned(m, vs.drop_first(), ids.drop_first());
        assert(seq![ids[0]] + ids.drop_first() =~= ids);
    }
}

/// A failed batch allocation always fails with the storage error.
pub proof fn lemma_multi_alloc_err_storage(m: InternerModel, vs: Seq<Seq<u8>>)
    ensures
        m.multi_alloc_result(vs) is Err ==> m.multi_alloc_result(vs) == Err::<Seq<u64>, Error>(
            Error::Storage,
        ),
    decreases vs.len(),
{
    if vs.len() > 0 {
        if !(m.alloc_result(vs[0]) is Err) {
            lemma_multi_alloc_err_storage(m.alloc_state(vs[0]), vs.drop_first());
        }
    }
}

/// An exhausted namespace is left untouched by any batch allocation.
pub proof fn lemma_multi_alloc_exhausted(m: InternerModel, vs: Seq<Seq<u8>>)
    requires
        m.next == u64::MAX,
    ensures
        m.multi_alloc_state(vs) == m,
    decreases vs.len(),
{
    if vs.len() > 0 {
        assert(m.alloc_state(vs[0]) == m);
        lemma_multi_alloc_exhausted(m, vs.drop_first());
    }
}

} // verus!

verus! {

/// The injective encoding of an `(event type, state key)` pair as one byte
/// string: an 8-byte big-endian length of the type, the type, the key.
pub open spec fn statekey_bytes(t: Seq<u8>, k: Seq<u8>) -> Seq<u8> {
    be64(t.len() as u64) + t + k
}

/// A byte string that is some pair's encoding.
pub open spec fn is_statekey_encoding(v: Seq<u8>) -> bool {
    v.len() >= 8 && be64_val(v.subrange(0, 8)) + 8 <= v.len()
}

/// The type half of an encoded pair.
pub open spec fn statekey_type(v: Seq<u8>) -> Seq<u8> {
    v.subrange(8, 8 + be64_val(v.subrange(0, 8)))
}

/// The key half of an encoded pair.
pub open spec fn statekey_key(v: Seq<u8>) -> Seq<u8> {
    v.subrange(8 + be64_val(v.subrange(0, 8)), v.len() as int)
}

/// The pair encoding decodes back to the pair it was built from.
pub proof fn lemma_statekey_roundtrip(t: Seq<u8>, k: Seq<u8>)
    requires
        t.len() <= u64::MAX,
    ensures
        is_statekey_encoding(statekey_bytes(t, k)),
        statekey_type(statekey_bytes(t, k)) == t,
        statekey_key(statekey_bytes(t, k)) == k,
{
    let v = statekey_bytes(t, k);
    crate::bytes::lemma_be64_roundtrip(t.len() as u64);
    assert(v.subrange(0, 8) =~= be64(t.len() as u64));
    assert(statekey_type(v) =~= t);
    assert(statekey_key(v) =~= k);
}

/// The byte-sequence views of a vector of identifiers.
pub open spec fn id_views(vs: Seq<EventId>) -> Seq<Seq<u8>> {
    vs.map_values(|e: EventId| e@)
}

/// The short-id service: one interner namespace per identifier space.
///
/// Field names follow the persisted column-family layout: each interner
/// holds its forward and reverse family, and its recovered counter stands
/// for that namespace's entry in the `global` family.
pub struct Service {
    /// `eventid_shorteventid` / `shorteventid_eventid`.
    pub shorteventid: Interner,
    /// `statekey_shortstatekey` / `shortstatekey_statekey`.
    pub shortstatekey: Interner,
    /// `roomid_shortroomid`.
    pub shortroomid: Interner,
    /// `statehash_shortstatehash`.
    pub shortstatehash: Interner,
}

impl Service {
    /// All four namespaces are well-formed, and every interned state key is
    /// a pair encoding.
    pub open spec fn wf(self) -> bool {
        &&& self.shorteventid.wf()
        &&& self.shortstatekey.wf()
        &&& self.shortroomid.wf()
        &&& self.shortstatehash.wf()
        &&& forall|v: Seq<u8>|
            self.shortstatekey@.fwd.contains_key(v) ==> #[trigger] is_statekey_encoding(v)
    }

    /// A fresh service with empty namespaces, each counter at 1.
    pub fn build() -> (r: Service)
        ensures
            r.wf(),
            r.shorteventid@ == (InternerModel { fwd: Map::<Seq<u8>, u64>::empty(), next: 1u64 }),
            r.shortstatekey@ == (InternerModel { fwd: Map::<Seq<u8>, u64>::empty(), next: 1u64 }),
            r.shortroomid@ == (InternerModel { fwd: Map::<Seq<u8>, u64>::empty(), next: 1u64 }),
            r.shortstatehash@ == (InternerModel { fwd: Map::<Seq<u8>, u64>::empty(), next: 1u64 }),
    {
        Service {
            shorteventid: Interner::new(),
            shortstatekey: Interner::new(),
            shortroomid: Interner::new(),
            shortstatehash: Interner::new(),
        }
    }

    /// Return or allocate the short id of an event id; the boolean reports
    /// whether it already existed.
    pub fn get_or_create_shorteventid(&mut self, event_id: &EventId) -> (r: Result<
        (u64, bool),
        Error,
    >)
        requires
            old(self).wf(),
        ensures
            final(self).wf(),
            final(self).shorteventid@ == old(self).shorteventid@.alloc_state(event_id@),
            r == old(self).shorteventid@.alloc_result(event_id@),
            final(self).shortstatekey == old(self).shortstatekey,
            final(self).shortroomid == old(self).shortroomid,
            final(self).shortstatehash == old(self).shortstatehash,
    {
        self.shorteventid.get_or_create(&event_id.bytes)
    }

    /// Batch form of [`Service::get_or_create_shorteventid`]; ids align
    /// with the inputs by index.
    pub fn multi_get_or_create_shorteventid(&mut self, event_ids: &Vec<EventId>) -> (r: Result<
        Vec<u64>,
        Error,
    >)
        requires
            old(self).wf(),
        ensures
            final(self).wf(),
            final(self).shorteventid@ == old(self).shorteventid@.multi_alloc_state(
                id_views(event_ids@),
            ),
            match r {
                Ok(ids) => old(self).shorteventid@.multi_alloc_result(id_views(event_ids@))
                    == Ok::<_, Error>(ids@),
                Err(e) => old(self).shorteventid@.multi_alloc_result(id_views(event_ids@))
                    == Err::<Seq<u64>, _>(e),
            },
            final(self).shortstatekey == old(self).shortstatekey,
            final(self).shortroomid == old(self).shortroomid,
            final(self).shortstatehash == old(self).shortstatehash,
    {
        let mut raw: Vec<Vec<u8>> = Vec::new();
        let mut i: usize = 0;
        while i < event_ids.len()
            invariant
                i <= event_ids@.len(),
                byte_views(raw@) == id_views(event_ids@).take(i as int),
            decreases event_ids@.len() - i,
        {
            let c = clone_bytes(&event_ids[i].bytes);
            let ghost cv = c@;
            let ghost pre = raw@;
            raw.push(c);
            proof {
                assert(pre.len() == i) by {
                    assert(byte_views(pre).len() == pre.len());
                }
                assert forall|j: int| 0 <= j < i + 1 implies byte_views(raw@)[j] == id_views(
                    event_ids@,
                ).take(i + 1)[j] by {
                    if j < i {
                        assert(byte_views(pre)[j] == id_views(event_ids@).take(i as int)[j]);
                        assert(raw@[j] == pre[j]);
                    } else {
                        assert(raw@[j]@ == cv);
                        assert(cv == event_ids@[j]@);
                    }
                }
                assert(byte_views(raw@) =~= id_views(event_ids@).take(i + 1));
            }
            i = i + 1;
        }
        proof {
            assert(id_views(event_ids@).take(event_ids@.len() as int) =~= id_views(event_ids@));
        }
        self.shorteventid.multi_get_or_create(&raw)
    }

    /// Pure read of a state-key pair's short id; no allocation.
    pub fn get_shortstatekey(&self, event_type: &StateEventType, state_key: &StateKey) -> (r:
        Option<u64>)
        requires
            self.wf(),
        ensures
            r == self.shortstatekey@.lookup(statekey_bytes(event_type@, state_key@)),
    {
        let enc = encode_statekey(event_type, state_key);
        self.shortstatekey.get(&enc)
    }

    /// Return or allocate the short id of an `(event type, state key)`
    /// pair.
    pub fn get_or_create_shortstatekey(
        &mut self,
        event_type: &StateEventType,
        state_key: &StateKey,
    ) -> (r: Result<(u64, bool), Error>)
        requires
            old(self).wf(),
        ensures
            final(self).wf(),
            final(self).shortstatekey@ == old(self).shortstatekey@.alloc_state(
                statekey_bytes(event_type@, state_key@),
            ),
            r == old(self).shortstatekey@.alloc_result(statekey_bytes(event_type@, state_key@)),
            final(self).shorteventid == old(self).shorteventid,
            final(self).shortroomid == old(self).shortroomid,
            final(self).shortstatehash == old(self).shortstatehash,
    {
        let tlen = event_type.bytes.len();
        let enc = encode_statekey(event_type, state_key);
        let r = self.shortstatekey.get_or_create(&enc);
        proof {
            assert(event_type@.len() == tlen);
            lemma_statekey_roundtrip(event_type@, state_key@);
        }
        r
    }

    /// Reverse lookup of an event id.
    pub fn get_eventid_from_short(&self, shorteventid: u64) -> (r: Result<EventId, Error>)
        requires
            self.wf(),
        ensures
            match r {
                Ok(e) => self.shorteventid@.value_of(shorteventid) == Some(e@),
                Err(e) => e == Error::UnknownShortId && self.shorteventid@.value_of(shorteventid)
                    is None,
            },
    {
        match self.shorteventid.get_value(shorteventid) {
            Ok(bytes) => Ok(EventId::new(bytes)),
            Err(e) => Err(e),
        }
    }

    /// Reverse lookup of an `(event type, state key)` pair.
    pub fn get_statekey_from_short(&self, shortstatekey: u64) -> (r: Result<
        (StateEventType, StateKey),
        Error,
    >)
        requires
            self.wf(),
        ensures
            match r {
                Ok(p) => self.shortstatekey@.value_of(shortstatekey) == Some(
                    statekey_bytes(p.0@, p.1@),
                ),
                Err(e) => e == Error::UnknownShortId && self.shortstatekey@.value_of(shortstatekey)
                    is None,
            },
    {
        match self.shortstatekey.get_value(shortstatekey) {
            Ok(v) => {
                proof {
                    let w = self.shortstatekey@.value_of(shortstatekey)->Some_0;
                    assert(self.shortstatekey@.fwd.contains_key(w));
                    assert(is_statekey_encoding(v@));
                }
                let tl64 = crate::bytes::u64_from_be_at(&v, 0);
                proof {
                    assert(v@.subrange(0, 8) == v@.subrange(0int, 0int + 8));
                }
                let n = v.len();
                let tl = tl64 as usize;
                proof {
                    assert(tl64 + 8 <= n);
                }
                let t = crate::bytes::copy_range(&v, 8, 8 + tl);
                let k = crate::bytes::copy_range(&v, 8 + tl, n);
                proof {
                    assert(statekey_bytes(t@, k@) =~= v@) by {
                        crate::bytes::lemma_be64_inverse(v@.subrange(0, 8));
                        assert(t@.len() == tl64);
                        assert(be64(t@.len() as u64) == v@.subrange(0, 8));
                    }
                }
                Ok((StateEventType::new(t), StateKey::new(k)))
            },
            Err(e) => Err(e),
        }
    }

    /// Return or allocate the short id of a state-hash blob; the boolean
    /// reports whether it already existed.
    pub fn get_or_create_shortstatehash(&mut self, state_hash: &Vec<u8>) -> (r: Result<
        (u64, bool),
        Error,
    >)
        requires
            old(self).wf(),
        ensures
            final(self).wf(),
            final(self).shortstatehash@ == old(self).shortstatehash@.alloc_state(state_hash@),
            r == old(self).shortstatehash@.alloc_result(state_hash@),
            final(self).shorteventid == old(self).shorteventid,
            final(self).shortstatekey == old(self).shortstatekey,
            final(self).shortroomid == old(self).shortroomid,
    {
        self.shortstatehash.get_or_create(state_hash)
    }

    /// Pure read of a room id's short id; no allocation.
    pub fn get_shortroomid(&self, room_id: &RoomId) -> (r: Option<u64>)
        requires
            self.wf(),
        ensures
            r == self.shortroomid@.lookup(room_id@),
    {
        self.shortroomid.get(&room_id.bytes)
    }

    /// Return or allocate the short id of a room id.
    pub fn get_or_create_shortroomid(&mut self, room_id: &RoomId) -> (r: Result<
        (u64, bool),
        Error,
    >)
        requires
            old(self).wf(),
        ensures
            final(self).wf(),
            final(self).shortroomid@ == old(self).shortroomid@.alloc_state(room_id@),
            r == old(self).shortroomid@.alloc_result(room_id@),
            final(self).shorteventid == old(self).shorteventid,
            final(self).shortstatekey == old(self).shortstatekey,
            final(self).shortstatehash == old(self).shortstatehash,
    {
        self.shortroomid.get_or_create(&room_id.bytes)
    }
}

/// Build the pair encoding of an `(event type, state key)` pair.
fn encode_statekey(event_type: &StateEventType, state_key: &StateKey) -> (r: Vec<u8>)
    ensures
        r@ == statekey_bytes(event_type@, state_key@),
{
    let mut r = u64_to_be(event_type.bytes.len() as u64);
    let mut i: usize = 0;
    while i < event_type.bytes.len()
        invariant
            i <= event_type.bytes@.len(),
            r@ == be64(event_type.bytes@.len() as u64) + event_type.bytes@.take(i as int),
        decreases event_type.bytes@.len() - i,
    {
        r.push(event_type.bytes[i]);
        proof {
            assert(be64(event_type.bytes@.len() as u64) + event_type.bytes@.take(i + 1) =~= (be64(
                event_type.bytes@.len() as u64,
            ) + event_type.bytes@.take(i as int)).push(event_type.bytes@[i as int]));
        }
        i = i + 1;
    }
    proof {
        assert(event_type.bytes@.take(event_type.bytes@.len() as int) =~= event_type.bytes@);
    }
    let mut j: usize = 0;
    while j < state_key.bytes.len()
        invariant
            j <= state_key.bytes@.len(),
            r@ == be64(event_type.bytes@.len() as u64) + event_type.bytes@ + state_key.bytes@.take(
                j as int,
            ),
        decreases state_key.bytes@.len() - j,
    {
        r.push(state_key.bytes[j]);
        proof {
            assert(be64(event_type.bytes@.len() as u64) + event_type.bytes@
                + state_key.bytes@.take(j + 1) =~= (be64(event_type.bytes@.len() as u64)
                + event_type.bytes@ + state_key.bytes@.take(j as int)).push(
                state_key.bytes@[j as int],
            ));
        }
        j = j + 1;
    }
    proof {
        assert(state_key.bytes@.take(state_key.bytes@.len() as int) =~= state_key.bytes@);
        assert(r@ =~= statekey_bytes(event_type@, state_key@));
    }
    r
}

} // verus!
