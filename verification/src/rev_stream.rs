//! Reverse cursors over a column family.
//!
//! [`ItemsRev`] walks the entries of a [`ColumnFamily`] from the last key
//! towards the first, lazily; it is the mirror image of the forward cursor
//! in [`crate::stream`].

use vstd::prelude::*;

use crate::bytes::{clone_bytes, lex_le, lex_lt};
use crate::error::Error;
use crate::kv::{cache_read_options_default, ColumnFamily, CursorStatus, ReadOptions, State};
use crate::stream::decoded_pair;

verus! {

/// A lazy reverse cursor over the pairs of one column family.
pub struct ItemsRev<'a> {
    pub state: State<'a>,
}

impl<'a> ItemsRev<'a> {
    /// The pairs this cursor has yet to produce, in reverse lexicographic
    /// key order.
    pub open spec fn remaining(self) -> Seq<(Seq<u8>, Seq<u8>)> {
        if self.state.status == CursorStatus::AtEntry && self.state.pos
            < self.state.cf.pairs().len() {
            self.state.cf.pairs().take(self.state.pos + 1).reverse()
        } else {
            Seq::empty()
        }
    }

    /// A cursor over `cf`, not yet positioned.
    pub fn new(cf: &'a ColumnFamily, opts: ReadOptions) -> (r: ItemsRev<'a>)
        ensures
            r.state.cf == cf,
            r.state.opts == opts,
            r.state.status == CursorStatus::Uninitialized,
    {
        ItemsRev { state: State::new(cf, opts) }
    }

    /// Position the cursor: at the last key, or at the last key at or before
    /// `from` when a seek key is given.
    pub fn init(self, from: Option<&Vec<u8>>) -> (r: ItemsRev<'a>)
        requires
            self.state.cf.wf(),
            self.state.status == CursorStatus::Uninitialized,
            !self.state.opts.cache_only,
        ensures
            r.state.cf == self.state.cf,
            match from {
                None => r.remaining() == self.state.cf.pairs().reverse(),
                Some(k) => exists|q: int|
                    #![trigger self.state.cf.pairs().take(q)]
                    0 <= q <= self.state.cf.pairs().len() && r.remaining() == self.state.cf.pairs().take(
                        q,
                    ).reverse() && (forall|j: int|
                        0 <= j < q ==> lex_le(#[trigger] self.state.cf.pairs()[j].0, k@)) && (forall|
                        j: int,
                    |
                        q <= j < self.state.cf.pairs().len() ==> lex_lt(
                            k@,
                            #[trigger] self.state.cf.pairs()[j].0,
                        )),
            },
    {
        let ItemsRev { mut state } = self;
        let cf = state.cf;
        match from {
            None => {
                state.seek_rev();
                proof {
                    let r = ItemsRev { state };
                    if state.status == CursorStatus::AtEntry {
                        assert(cf.pairs().take(cf.pairs().len() as int) =~= cf.pairs());
                    } else {
                        assert(cf.pairs().len() == 0);
                        assert(r.remaining() =~= cf.pairs().reverse());
                    }
                }
                ItemsRev { state }
            },
            Some(k) => {
                let p = cf.find(k);
                let mut q: usize = 0;
                let mut exhausted = false;
                if p < cf.entries.len() && crate::bytes::bytes_eq(k, &cf.entries[p].key) {
                    q = p;
                } else if p > 0 {
                    q = p - 1;
                } else {
                    exhausted = true;
                }
                if exhausted {
                    state.status = CursorStatus::Exhausted;
                } else {
                    state.pos = q;
                    state.status = CursorStatus::AtEntry;
                }
                proof {
                    let r = ItemsRev { state };
                    let ghost qq: int = if exhausted {
                        0
                    } else {
                        q + 1
                    };
                    if exhausted {
                        assert(cf.pairs().take(0) =~= Seq::<(Seq<u8>, Seq<u8>)>::empty());
                        assert(r.remaining() =~= cf.pairs().take(qq).reverse());
                    }
                    assert forall|j: int| 0 <= j < qq implies lex_le(
                        #[trigger] cf.pairs()[j].0,
                        k@,
                    ) by {
                        assert(cf.pairs()[j].0 == cf.entries@[j].key@);
                        if j < p {
                            assert(lex_lt(cf.entries@[j].key@, k@));
                        } else {
                            crate::bytes::lemma_lex_le_refl(k@);
                        }
                    }
                    assert forall|j: int| qq <= j < cf.pairs().len() implies lex_lt(
                        k@,
                        #[trigger] cf.pairs()[j].0,
                    ) by {
                        assert(cf.pairs()[j].0 == cf.entries@[j].key@);
                        assert(j >= p);
                        assert(lex_le(k@, cf.entries@[p as int].key@));
                        if j > p {
                            assert(lex_lt(cf.entries@[p as int].key@, cf.entries@[j].key@));
                            crate::bytes::lemma_lex_le_transitive(
                                k@,
                                cf.entries@[p as int].key@,
                                cf.entries@[j].key@,
                            );
                            if k@ == cf.entries@[j].key@ {
                                crate::bytes::lemma_lex_le_antisymmetric(
                                    k@,
                                    cf.entries@[p as int].key@,
                                );
                            }
                        } else {
                            assert(k@ != cf.entries@[p as int].key@);
                        }
                    }
                    assert(0 <= qq <= cf.pairs().len() && r.remaining() == cf.pairs().take(
                        qq,
                    ).reverse() && (forall|j: int|
                        0 <= j < qq ==> lex_le(#[trigger] cf.pairs()[j].0, k@)) && (forall|j: int|
                        qq <= j < cf.pairs().len() ==> lex_lt(k@, #[trigger] cf.pairs()[j].0)));
                }
                ItemsRev { state }
            },
        }
    }

    /// Produce the next pair, moving towards the first key; `None` once
    /// exhausted.
    pub fn next(&mut self) -> (r: Option<(Vec<u8>, Vec<u8>)>)
        requires
            old(self).state.cf.wf(),
        ensures
            final(self).state.cf == old(self).state.cf,
            match r {
                Some(kv) => old(self).remaining().len() > 0 && kv.0@ == old(self).remaining()[0].0
                    && kv.1@ == old(self).remaining()[0].1 && final(self).remaining() == old(
                    self,
                ).remaining().drop_first(),
                None => old(self).remaining().len() == 0 && final(self).remaining().len() == 0,
            },
    {
        if matches!(self.state.status, CursorStatus::AtEntry) {
            let pos = self.state.pos;
            if pos < self.state.cf.entries.len() {
                let key = clone_bytes(&self.state.cf.entries[pos].key);
                let val = clone_bytes(&self.state.cf.entries[pos].val);
                self.state.status = CursorStatus::Advancing;
                if pos > 0 {
                    self.state.pos = pos - 1;
                    self.state.status = CursorStatus::AtEntry;
                } else {
                    self.state.status = CursorStatus::Exhausted;
                }
                proof {
                    let olds = old(self).remaining();
                    assert(olds[0] == old(self).state.cf.pairs().take(pos + 1)[pos as int]);
                    assert(final(self).remaining() =~= olds.drop_first());
                }
                Some((key, val))
            } else {
                self.state.status = CursorStatus::Exhausted;
                None
            }
        } else {
            None
        }
    }
}

/// A lazy reverse cursor whose elements are decoded as `(key, u64)`.
pub struct DeserializedItemsRev<'a> {
    pub inner: ItemsRev<'a>,
}

impl<'a> DeserializedItemsRev<'a> {
    /// The typed elements this cursor has yet to produce.
    pub open spec fn remaining(self) -> Seq<Result<(Seq<u8>, u64), Error>> {
        self.inner.remaining().map_values(|p: (Seq<u8>, Seq<u8>)| decoded_pair(p))
    }

    /// Produce the next decoded element; `None` once exhausted.
    pub fn next(&mut self) -> (r: Option<Result<(Vec<u8>, u64), Error>>)
        requires
            old(self).inner.state.cf.wf(),
        ensures
            match r {
                Some(item) => old(self).remaining().len() > 0 && final(self).remaining() == old(
                    self,
                ).remaining().drop_first() && (match item {
                    Ok(t) => old(self).remaining()[0] == Ok::<_, Error>((t.0@, t.1)),
                    Err(e) => old(self).remaining()[0] == Err::<(Seq<u8>, u64), _>(e),
                }),
                None => old(self).remaining().len() == 0 && final(self).remaining().len() == 0,
            },
    {
        let raw = self.inner.next();
        proof {
            if old(self).inner.remaining().len() > 0 {
                assert(self.remaining() =~= old(self).remaining().drop_first());
            }
        }
        match raw {
            Some(kv) => Some(crate::stream::keyval_decode(kv)),
            None => None,
        }
    }
}

impl ColumnFamily {
    /// Iterate the raw key-value entries from the end, lazily and in reverse
    /// lexicographic key order.
    pub fn rev_raw_stream(&self) -> (r: ItemsRev<'_>)
        requires
            self.wf(),
        ensures
            r.remaining() == self.pairs().reverse(),
            r.state.cf == self,
    {
        let opts = crate::kv::iter_options_default();
        ItemsRev::new(self, opts).init(None)
    }

    /// Iterate the entries from the end, each value decoded as one
    /// big-endian word.
    pub fn rev_stream(&self) -> (r: DeserializedItemsRev<'_>)
        requires
            self.wf(),
        ensures
            r.remaining() == self.pairs().reverse().map_values(
                |p: (Seq<u8>, Seq<u8>)| decoded_pair(p),
            ),
            r.inner.state.cf == self,
    {
        DeserializedItemsRev { inner: self.rev_raw_stream() }
    }
}

/// Whether a reverse seek can be answered from the block cache alone: true
/// when the family is empty or its last entry is cache-resident.
pub fn _is_cached(map: &ColumnFamily) -> (r: bool)
    requires
        map.wf(),
    ensures
        r == (map.pairs().len() == 0 || map.entry_cached(map.pairs().len() - 1)),
{
    let opts = cache_read_options_default();
    let mut state = State::new(map, opts);

    state.seek_rev();
    !state.is_incomplete()
}

} // verus!
