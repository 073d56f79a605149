//! Forward cursors over a column family.
//!
//! [`Items`] walks the entries of a [`ColumnFamily`] from the first key
//! towards the last, lazily: each element is produced on demand by
//! [`Items::next`]. A cursor is restartable by calling
//! [`ColumnFamily::raw_stream`] again. [`DeserializedItems`] adapts the raw
//! byte pairs into typed `(key, u64)` pairs by a pure decoder.

use vstd::prelude::*;

use crate::bytes::{be64_val, clone_bytes, lex_le, lex_lt};
use crate::error::Error;
use crate::kv::{cache_read_options_default, ColumnFamily, CursorStatus, ReadOptions, State};

verus! {

/// A lazy forward cursor over the pairs of one column family.
pub struct Items<'a> {
    pub state: State<'a>,
}

impl<'a> Items<'a> {
    /// The pairs this cursor has yet to produce, in lexicographic key order.
    pub open spec fn remaining(self) -> Seq<(Seq<u8>, Seq<u8>)> {
        if self.state.status == CursorStatus::AtEntry && self.state.pos
            < self.state.cf.pairs().len() {
            self.state.cf.pairs().skip(self.state.pos as int)
        } else {
            Seq::empty()
        }
    }

    /// A cursor over `cf`, not yet positioned.
    pub fn new(cf: &'a ColumnFamily, opts: ReadOptions) -> (r: Items<'a>)
        ensures
            r.state.cf == cf,
            r.state.opts == opts,
            r.state.status == CursorStatus::Uninitialized,
    {
        Items { state: State::new(cf, opts) }
    }

    /// Position the cursor: at the first key, or at the first key at or
    /// after `from` when a seek key is given.
    pub fn init(self, from: Option<&Vec<u8>>) -> (r: Items<'a>)
        requires
            self.state.cf.wf(),
            self.state.status == CursorStatus::Uninitialized,
            !self.state.opts.cache_only,
        ensures
            r.state.cf == self.state.cf,
            match from {
                None => r.remaining() == self.state.cf.pairs(),
                Some(k) => exists|p: int|
                    0 <= p <= self.state.cf.pairs().len() && r.remaining() == self.state.cf.pairs().skip(p)
                        && (forall|j: int|
                        0 <= j < p ==> lex_lt(#[trigger] self.state.cf.pairs()[j].0, k@)) && (p
                        < self.state.cf.pairs().len() ==> lex_le(k@, self.state.cf.pairs()[p as int].0)),
            },
    {
        let Items { mut state } = self;
        let cf = state.cf;
        match from {
            None => {
                state.seek_fwd();
                if matches!(state.status, CursorStatus::AtEntry) {
                    proof {
                        assert(cf.pairs().skip(0) =~= cf.pairs());
                    }
                    Items { state }
                } else {
                    proof {
                        assert(cf.pairs().len() == 0);
                        assert(cf.pairs().skip(0) =~= cf.pairs());
                        assert(Seq::<(Seq<u8>, Seq<u8>)>::empty() =~= cf.pairs());
                    }
                    Items { state }
                }
            },
            Some(k) => {
                let p = cf.find(k);
                if p < cf.entries.len() {
                    state.pos = p;
                    state.status = CursorStatus::AtEntry;
                } else {
                    state.status = CursorStatus::Exhausted;
                }
                proof {
                    let r = Items { state };
                    if p < cf.pairs().len() {
                        assert(r.remaining() == cf.pairs().skip(p as int));
                    } else {
                        assert(r.remaining() =~= cf.pairs().skip(p as int));
                    }
                    assert forall|j: int| 0 <= j < p implies lex_lt(
                        #[trigger] cf.pairs()[j].0,
                        k@,
                    ) by {
                        assert(cf.pairs()[j].0 == cf.entries@[j].key@);
                    }
                }
                Items { state }
            },
        }
    }

    /// Produce the next pair, advancing the cursor; `None` once exhausted.
    pub fn next(&mut self) -> (r: Option<(Vec<u8>, Vec<u8>)>)
        requires
            old(self).state.cf.wf(),
        ensures
            final(self).state.cf == old(self).state.cf,
            match r {
                Some(kv) => old(self).remaining().len() > 0 && kv.0@ == old(self).remaining()[0].0
                    && kv.1@ == old(self).remaining()[0].1 && final(self).remaining() == old(
                    self,
                ).remaining().drop_first(),
                None => old(self).remaining().len() == 0 && final(self).remaining().len() == 0,
            },
    {
        if matches!(self.state.status, CursorStatus::AtEntry) {
            let pos = self.state.pos;
            if pos < self.state.cf.entries.len() {
                let key = clone_bytes(&self.state.cf.entries[pos].key);
                let val = clone_bytes(&self.state.cf.entries[pos].val);
                self.state.status = CursorStatus::Advancing;
                if pos + 1 < self.state.cf.entries.len() {
                    self.state.pos = pos + 1;
                    self.state.status = CursorStatus::AtEntry;
                } else {
                    self.state.status = CursorStatus::Exhausted;
                }
                proof {
                    assert(old(self).remaining()[0] == old(self).state.cf.pairs()[pos as int]);
                    if pos + 1 < self.state.cf.pairs().len() {
                        assert(final(self).remaining() =~= old(self).remaining().drop_first());
                    } else {
                        assert(final(self).remaining() =~= old(self).remaining().drop_first());
                    }
                }
                Some((key, val))
            } else {
                self.state.status = CursorStatus::Exhausted;
                None
            }
        } else {
            None
        }
    }
}

/// How a raw pair is adapted into a typed one: the value must be one 8-byte
/// big-endian word; anything else marks store corruption.
pub open spec fn decoded_pair(p: (Seq<u8>, Seq<u8>)) -> Result<(Seq<u8>, u64), Error> {
    if p.1.len() == 8 {
        Ok((p.0, be64_val(p.1)))
    } else {
        Err(Error::Storage)
    }
}

/// Pure decoder from a raw pair to a typed `(key, u64)` pair.
pub fn keyval_decode(kv: (Vec<u8>, Vec<u8>)) -> (r: Result<(Vec<u8>, u64), Error>)
    ensures
        match r {
            Ok(t) => decoded_pair((kv.0@, kv.1@)) == Ok::<_, Error>((t.0@, t.1)),
            Err(e) => decoded_pair((kv.0@, kv.1@)) == Err::<(Seq<u8>, u64), _>(e),
        },
{
    if kv.1.len() == 8 {
        let v = crate::bytes::u64_from_be(&kv.1);
        Ok((kv.0, v))
    } else {
        Err(Error::Storage)
    }
}

/// A lazy forward cursor whose elements are decoded as `(key, u64)`.
pub struct DeserializedItems<'a> {
    pub inner: Items<'a>,
}

impl<'a> DeserializedItems<'a> {
    /// The typed elements this cursor has yet to produce.
    pub open spec fn remaining(self) -> Seq<Result<(Seq<u8>, u64), Error>> {
        self.inner.remaining().map_values(|p: (Seq<u8>, Seq<u8>)| decoded_pair(p))
    }

    /// Produce the next decoded element; `None` once exhausted.
    pub fn next(&mut self) -> (r: Option<Result<(Vec<u8>, u64), Error>>)
        requires
            old(self).inner.state.cf.wf(),
        ensures
            match r {
                Some(item) => old(self).remaining().len() > 0 && final(self).remaining() == old(
                    self,
                ).remaining().drop_first() && (match item {
                    Ok(t) => old(self).remaining()[0] == Ok::<_, Error>((t.0@, t.1)),
                    Err(e) => old(self).remaining()[0] == Err::<(Seq<u8>, u64), _>(e),
                }),
                None => old(self).remaining().len() == 0 && final(self).remaining().len() == 0,
            },
    {
        let raw = self.inner.next();
        proof {
            if old(self).inner.remaining().len() > 0 {
                assert(self.remaining() =~= old(self).remaining().drop_first());
            }
        }
        match raw {
            Some(kv) => Some(keyval_decode(kv)),
            None => None,
        }
    }
}

impl ColumnFamily {
    /// Iterate the raw key-value entries from the beginning, lazily and in
    /// lexicographic key order.
    pub fn raw_stream(&self) -> (r: Items<'_>)
        requires
            self.wf(),
        ensures
            r.remaining() == self.pairs(),
            r.state.cf == self,
    {
        let opts = crate::kv::iter_options_default();
        Items::new(self, opts).init(None)
    }

    /// Iterate the entries from the beginning, each value decoded as one
    /// big-endian word.
    pub fn stream(&self) -> (r: DeserializedItems<'_>)
        requires
            self.wf(),
        ensures
            r.remaining() == self.pairs().map_values(|p: (Seq<u8>, Seq<u8>)| decoded_pair(p)),
            r.inner.state.cf == self,
    {
        DeserializedItems { inner: self.raw_stream() }
    }
}

/// Whether a forward seek can be answered from the block cache alone: true
/// when the family is empty or its first entry is cache-resident.
pub fn _is_cached(map: &ColumnFamily) -> (r: bool)
    requires
        map.wf(),
    ensures
        r == (map.pairs().len() == 0 || map.entry_cached(0)),
{
    let opts = cache_read_options_default();
    let mut state = State::new(map, opts);

    state.seek_fwd();
    !state.is_incomplete()
}

} // verus!
