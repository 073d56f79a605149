//! Ordered key/value column families with cursor-based streaming.
//!
//! A [`ColumnFamily`] models one named key space of the storage engine: a
//! set of byte-string keys in strict lexicographic order, each carrying a
//! byte-string value and a block-cache residency flag. Writes land in the
//! cache; [`ColumnFamily::evict`] models cache pressure. Cursors walk the
//! entries lazily, forward or in reverse, under [`ReadOptions`] that control
//! cache behaviour.

use vstd::prelude::*;

use crate::bytes::{bytes_eq, bytes_le, lex_le, lex_lt};

verus! {

/// One key/value pair of a column family, with its cache residency flag.
pub struct Entry {
    pub key: Vec<u8>,
    pub val: Vec<u8>,
    pub cached: bool,
}

/// Options applied to reads and cursor scans.
///
/// - `fill_cache`: populate the block cache on a miss; bulk scans switch it
///   off.
/// - `readahead_size`: prefetch window for sequential scans.
/// - `tailing`: whether a cursor observes writes made after its creation;
///   the resolver requires a consistent snapshot and keeps it off.
/// - `cache_only`: answer from the block cache alone, never faulting data
///   in; a seek that would need to go to disk reports itself incomplete.
#[derive(Clone, Copy)]
pub struct ReadOptions {
    pub fill_cache: bool,
    pub readahead_size: u64,
    pub tailing: bool,
    pub cache_only: bool,
}

/// Default options for full iteration: no cache pollution, large readahead.
pub fn iter_options_default() -> (r: ReadOptions)
    ensures
        !r.fill_cache,
        !r.tailing,
        !r.cache_only,
{
    ReadOptions { fill_cache: false, readahead_size: 2097152, tailing: false, cache_only: false }
}

/// Default options for a non-blocking cache probe.
pub fn cache_read_options_default() -> (r: ReadOptions)
    ensures
        !r.fill_cache,
        !r.tailing,
        r.cache_only,
{
    ReadOptions { fill_cache: false, readahead_size: 0, tailing: false, cache_only: true }
}

/// Does some entry of `s` carry key `k`?
pub open spec fn has_key(s: Seq<Entry>, k: Seq<u8>) -> bool {
    exists|i: int| 0 <= i < s.len() && s[i].key@ == k
}

/// The index of the entry carrying key `k`.
pub open spec fn index_of(s: Seq<Entry>, k: Seq<u8>) -> int {
    choose|i: int| 0 <= i < s.len() && s[i].key@ == k
}

/// An ordered key space of the storage engine.
pub struct ColumnFamily {
    pub entries: Vec<Entry>,
}

impl View for ColumnFamily {
    type V = Map<Seq<u8>, Seq<u8>>;

    open spec fn view(&self) -> Map<Seq<u8>, Seq<u8>> {
        Map::new(
            |k: Seq<u8>| has_key(self.entries@, k),
            |k: Seq<u8>| self.entries@[index_of(self.entries@, k)].val@,
        )
    }
}

impl ColumnFamily {
    /// Keys are held in strict lexicographic order (hence unique).
    pub open spec fn wf(self) -> bool {
        forall|i: int, j: int|
            0 <= i < j < self.entries@.len() ==> lex_lt(
                #[trigger] self.entries@[i].key@,
                #[trigger] self.entries@[j].key@,
            )
    }

    /// The ordered sequence of pairs a forward scan of the family yields.
    pub open spec fn pairs(self) -> Seq<(Seq<u8>, Seq<u8>)> {
        self.entries@.map_values(|e: Entry| (e.key@, e.val@))
    }

    /// Whether the entry at index `i` is resident in the block cache.
    pub open spec fn entry_cached(self, i: int) -> bool {
        self.entries@[i].cached
    }

    proof fn lemma_keys_unique(self, i: int, j: int)
        requires
            self.wf(),
            0 <= i < self.entries@.len(),
            0 <= j < self.entries@.len(),
            i != j,
        ensures
            self.entries@[i].key@ != self.entries@[j].key@,
    {
    }

    /// Each entry's value is what the map view gives for its key.
    pub proof fn lemma_entry_view(self, i: int)
        requires
            self.wf(),
            0 <= i < self.pairs().len(),
        ensures
            self@.contains_key(self.pairs()[i].0),
            self@[self.pairs()[i].0] == self.pairs()[i].1,
    {
        let k = self.entries@[i].key@;
        assert(has_key(self.entries@, k));
        let j = index_of(self.entries@, k);
        if j != i {
            self.lemma_keys_unique(i, j);
        }
    }

    /// The pairs sequence enumerates exactly the view, in strict key order.
    pub proof fn lemma_pairs_view(self)
        requires
            self.wf(),
        ensures
            forall|i: int|
                0 <= i < self.pairs().len() ==> self@.contains_key(#[trigger] self.pairs()[i].0)
                    && self@[self.pairs()[i].0] == self.pairs()[i].1,
            forall|i: int, j: int|
                0 <= i < j < self.pairs().len() ==> lex_lt(
                    #[trigger] self.pairs()[i].0,
                    #[trigger] self.pairs()[j].0,
                ),
            forall|k: Seq<u8>|
                self@.contains_key(k) ==> exists|i: int|
                    0 <= i < self.pairs().len() && #[trigger] self.pairs()[i].0 == k,
    {
        assert forall|i: int| 0 <= i < self.pairs().len() implies self@.contains_key(
            #[trigger] self.pairs()[i].0,
        ) && self@[self.pairs()[i].0] == self.pairs()[i].1 by {
            self.lemma_entry_view(i);
        }
        assert forall|k: Seq<u8>| self@.contains_key(k) implies exists|i: int|
            0 <= i < self.pairs().len() && #[trigger] self.pairs()[i].0 == k by {
            let i = index_of(self.entries@, k);
            assert(self.pairs()[i].0 == k);
        }
    }

    /// A fresh, empty column family.
    pub fn new() -> (r: ColumnFamily)
        ensures
            r.wf(),
            r@ == Map::<Seq<u8>, Seq<u8>>::empty(),
            r.pairs().len() == 0,
    {
        let r = ColumnFamily { entries: Vec::new() };
        proof {
            assert(r@ =~= Map::<Seq<u8>, Seq<u8>>::empty());
        }
        r
    }

    /// The number of keys held.
    pub fn len(&self) -> (r: usize)
        ensures
            r == self.pairs().len(),
    {
        self.entries.len()
    }

    /// The first index whose key is at or after `k`; `len` when every key is
    /// before `k`.
    pub(crate) fn find(&self, k: &Vec<u8>) -> (r: usize)
        requires
            self.wf(),
        ensures
            r <= self.entries@.len(),
            forall|j: int| 0 <= j < r ==> lex_lt(#[trigger] self.entries@[j].key@, k@),
            r < self.entries@.len() ==> lex_le(k@, self.entries@[r as int].key@),
    {
        let mut i: usize = 0;
        while i < self.entries.len()
            invariant
                self.wf(),
                i <= self.entries@.len(),
                forall|j: int| 0 <= j < i ==> lex_lt(#[trigger] self.entries@[j].key@, k@),
            decreases self.entries@.len() - i,
        {
            if bytes_le(k, &self.entries[i].key) {
                return i;
            }
            proof {
                crate::bytes::lemma_lex_le_total(k@, self.entries@[i as int].key@);
            }
            i = i + 1;
        }
        i
    }

    /// Point lookup. Reads do not disturb the cache model.
    pub fn get(&self, k: &Vec<u8>) -> (r: Option<&Vec<u8>>)
        requires
            self.wf(),
        ensures
            match r {
                Some(v) => self@.contains_key(k@) && v@ == self@[k@],
                None => !self@.contains_key(k@),
            },
    {
        let i = self.find(k);
        if i < self.entries.len() {
            if bytes_eq(k, &self.entries[i].key) {
                proof {
                    let j = index_of(self.entries@, k@);
                    if j != i {
                        self.lemma_keys_unique(i as int, j);
                    }
                }
                return Some(&self.entries[i].val);
            }
        }
        proof {
            if has_key(self.entries@, k@) {
                let j = index_of(self.entries@, k@);
                assert(j >= i);
                if j > i {
                    assert(lex_lt(self.entries@[i as int].key@, self.entries@[j].key@));
                    crate::bytes::lemma_lex_le_antisymmetric(k@, self.entries@[i as int].key@);
                    crate::bytes::lemma_lex_le_transitive(
                        k@,
                        self.entries@[i as int].key@,
                        self.entries@[j].key@,
                    );
                }
            }
        }
        None
    }

    /// Insert or replace the value under `k`. The written entry lands in the
    /// block cache.
    pub fn insert(&mut self, k: Vec<u8>, v: Vec<u8>)
        requires
            old(self).wf(),
        ensures
            final(self).wf(),
            final(self)@ == old(self)@.insert(k@, v@),
    {
        let ghost k_spec = k@;
        let ghost v_spec = v@;
        let ghost olds = self.entries@;
        let i = self.find(&k);
        if i < self.entries.len() && bytes_eq(&k, &self.entries[i].key) {
            self.entries.remove(i);
            self.entries.insert(i, Entry { key: k, val: v, cached: true });
            proof {
                let news = self.entries@;
                assert(news.len() == olds.len());
                assert(forall|j: int| 0 <= j < news.len() && j != i ==> news[j] == olds[j]);
                assert(news[i as int].key@ == olds[i as int].key@);
                assert forall|a: int, b: int| 0 <= a < b < news.len() implies lex_lt(
                    #[trigger] news[a].key@,
                    #[trigger] news[b].key@,
                ) by {
                    assert(news[a].key@ == olds[a].key@);
                    assert(news[b].key@ == olds[b].key@);
                }
                assert(final(self)@ =~= old(self)@.insert(k_spec, v_spec)) by {
                    assert forall|k2: Seq<u8>| has_key(news, k2) implies has_key(olds, k2) by {
                        let w = choose|w: int| 0 <= w < news.len() && news[w].key@ == k2;
                        assert(olds[w].key@ == k2);
                    }
                    assert forall|k2: Seq<u8>| has_key(olds, k2) implies has_key(news, k2) by {
                        let w = choose|w: int| 0 <= w < olds.len() && olds[w].key@ == k2;
                        assert(news[w].key@ == k2);
                    }
                    assert forall|k2: Seq<u8>| has_key(news, k2) implies news[index_of(news, k2)].val@
                        == old(self)@.insert(k_spec, v_spec)[k2] by {
                        let w = index_of(news, k2);
                        if k2 == k_spec {
                            if w != i {
                                assert(news[w].key@ == olds[w].key@);
                                assert(olds[w].key@ == olds[i as int].key@);
                                assert(lex_lt(olds[w].key@, olds[i as int].key@) || lex_lt(
                                    olds[i as int].key@,
                                    olds[w].key@,
                                ));
                            }
                            assert(w == i);
                        } else {
                            assert(w != i);
                            assert(news[w] == olds[w]);
                            let u = index_of(olds, k2);
                            if u != w {
                                assert(olds[u].key@ == olds[w].key@);
                                assert(lex_lt(olds[u].key@, olds[w].key@) || lex_lt(
                                    olds[w].key@,
                                    olds[u].key@,
                                ));
                            }
                        }
                    }
                }
            }
        } else {
            proof {
                // every key before position i is strictly below k, and k is
                // strictly below every key from i on
                if i < olds.len() {
                    assert(lex_le(k_spec, olds[i as int].key@));
                    assert(olds[i as int].key@ != k_spec);
                }
            }
            self.entries.insert(i, Entry { key: k, val: v, cached: true });
            proof {
                let news = self.entries@;
                assert(news.len() == olds.len() + 1);
                assert(forall|j: int| 0 <= j < i ==> news[j] == olds[j]);
                assert(news[i as int].key@ == k_spec);
                assert(forall|j: int| i < j < news.len() ==> news[j] == olds[j - 1]);
                assert forall|a: int, b: int| 0 <= a < b < news.len() implies lex_lt(
                    #[trigger] news[a].key@,
                    #[trigger] news[b].key@,
                ) by {
                    if a == i {
                        // k < keys at and after i in the old sequence
                        let ob = olds[b - 1].key@;
                        assert(news[b].key@ == ob);
                        assert(lex_le(k_spec, olds[i as int].key@));
                        assert(k_spec != olds[i as int].key@);
                        if b - 1 > i {
                            assert(lex_lt(olds[i as int].key@, ob));
                            crate::bytes::lemma_lex_le_transitive(k_spec, olds[i as int].key@, ob);
                            if k_spec == ob {
                                crate::bytes::lemma_lex_le_antisymmetric(
                                    k_spec,
                                    olds[i as int].key@,
                                );
                            }
                        }
                        assert(lex_le(k_spec, ob));
                        assert(k_spec != ob);
                    } else if b == i {
                        assert(lex_lt(news[a].key@, k_spec));
                    } else if a < i && b > i {
                        assert(news[a].key@ == olds[a].key@);
                        assert(news[b].key@ == olds[b - 1].key@);
                        if a == b - 1 {
                            assert(lex_lt(olds[a].key@, k_spec));
                            assert(lex_le(k_spec, olds[i as int].key@));
                        }
                    }
                }
                assert(final(self)@ =~= old(self)@.insert(k_spec, v_spec)) by {
                    assert forall|k2: Seq<u8>| has_key(news, k2) && k2 != k_spec implies has_key(
                        olds,
                        k2,
                    ) by {
                        let w = choose|w: int| 0 <= w < news.len() && news[w].key@ == k2;
                        if w < i {
                            assert(olds[w].key@ == k2);
                        } else {
                            assert(w != i);
                            assert(olds[w - 1].key@ == k2);
                        }
                    }
                    assert forall|k2: Seq<u8>| has_key(olds, k2) implies has_key(news, k2) by {
                        let w = choose|w: int| 0 <= w < olds.len() && olds[w].key@ == k2;
                        if w < i {
                            assert(news[w].key@ == k2);
                        } else {
                            assert(news[w + 1].key@ == k2);
                        }
                    }
                    assert(has_key(news, k_spec));
                    assert forall|k2: Seq<u8>| has_key(news, k2) implies news[index_of(news, k2)].val@
                        == old(self)@.insert(k_spec, v_spec)[k2] by {
                        let w = index_of(news, k2);
                        if k2 == k_spec {
                            if w != i {
                                assert(news[w].key@ == news[i as int].key@);
                                assert(lex_lt(news[w].key@, news[i as int].key@) || lex_lt(
                                    news[i as int].key@,
                                    news[w].key@,
                                ));
                            }
                            assert(w == i);
                        } else {
                            assert(w != i);
                            let u = if w < i {
                                w
                            } else {
                                w - 1
                            };
                            assert(olds[u].key@ == k2);
                            assert(olds[u].val@ == news[w].val@);
                            let u2 = index_of(olds, k2);
                            if u2 != u {
                                assert(olds[u2].key@ == olds[u].key@);
                                assert(lex_lt(olds[u2].key@, olds[u].key@) || lex_lt(
                                    olds[u].key@,
                                    olds[u2].key@,
                                ));
                            }
                        }
                    }
                }
            }
        }
    }

    /// Drop every entry from the block cache, as cache pressure or a restart
    /// would. Contents are unaffected.
    pub fn evict(&mut self)
        requires
            old(self).wf(),
        ensures
            final(self).wf(),
            final(self)@ == old(self)@,
            final(self).pairs() == old(self).pairs(),
            forall|i: int| 0 <= i < final(self).pairs().len() ==> !final(self).entry_cached(i),
    {
        let ghost olds = self.entries@;
        let n = self.entries.len();
        let mut i: usize = 0;
        while i < n
            invariant
                n == self.entries@.len(),
                olds.len() == n,
                i <= n,
                forall|j: int|
                    0 <= j < n ==> #[trigger] self.entries@[j].key@ == olds[j].key@
                        && self.entries@[j].val@ == olds[j].val@,
                forall|j: int| 0 <= j < i ==> !(#[trigger] self.entries@[j].cached),
            decreases n - i,
        {
            let ghost prev = self.entries@;
            let e = self.entries.remove(i);
            self.entries.insert(i, Entry { key: e.key, val: e.val, cached: false });
            proof {
                assert(self.entries@ =~= prev.update(
                    i as int,
                    Entry { key: prev[i as int].key, val: prev[i as int].val, cached: false },
                ));
            }
            i = i + 1;
        }
        proof {
            assert(final(self).pairs() =~= old(self).pairs());
            assert forall|a: int, b: int|
                0 <= a < b < self.entries@.len() implies lex_lt(
                #[trigger] self.entries@[a].key@,
                #[trigger] self.entries@[b].key@,
            ) by {
                assert(self.entries@[a].key@ == olds[a].key@);
                assert(self.entries@[b].key@ == olds[b].key@);
            }
            assert forall|k2: Seq<u8>| true implies old(self)@.contains_key(k2) == final(self)@.contains_key(k2) by {
                if has_key(olds, k2) {
                    let w = choose|w: int| 0 <= w < olds.len() && olds[w].key@ == k2;
                    assert(self.entries@[w].key@ == k2);
                }
                if has_key(self.entries@, k2) {
                    let w = choose|w: int|
                        0 <= w < self.entries@.len() && self.entries@[w].key@ == k2;
                    assert(olds[w].key@ == k2);
                }
            }
            assert forall|k2: Seq<u8>| final(self)@.contains_key(k2) implies final(self)@[k2] == old(self)@[k2] by {
                let w = index_of(self.entries@, k2);
                let u = index_of(olds, k2);
                assert(olds[w].key@ == k2);
                if u != w {
                    assert(olds[u].key@ == olds[w].key@);
                    assert(lex_lt(olds[u].key@, olds[w].key@) || lex_lt(
                        olds[w].key@,
                        olds[u].key@,
                    ));
                }
            }
            assert(final(self)@ =~= old(self)@);
        }
    }
}

/// Where a cursor stands in its lifecycle.
#[derive(Clone, Copy, PartialEq, Eq, Structural)]
pub enum CursorStatus {
    /// Created, not yet positioned.
    Uninitialized,
    /// A seek is underway.
    Seeking,
    /// Standing on an entry.
    AtEntry,
    /// Moving off the current entry.
    Advancing,
    /// Past the last entry (or before the first, in reverse).
    Exhausted,
    /// A cache-only seek could not be answered without faulting data in.
    Incomplete,
}

/// The low-level cursor state machine over one column family.
pub struct State<'a> {
    pub cf: &'a ColumnFamily,
    pub opts: ReadOptions,
    pub status: CursorStatus,
    pub pos: usize,
}

impl<'a> State<'a> {
    /// A cursor not yet positioned anywhere.
    pub fn new(cf: &'a ColumnFamily, opts: ReadOptions) -> (r: State<'a>)
        ensures
            r.status == CursorStatus::Uninitialized,
            r.cf == cf,
            r.opts == opts,
    {
        State { cf, opts, status: CursorStatus::Uninitialized, pos: 0 }
    }

    /// Seek to the first entry. Under `cache_only`, a first entry that is
    /// not cache-resident leaves the seek incomplete.
    pub fn seek_fwd(&mut self)
        requires
            old(self).cf.wf(),
        ensures
            final(self).cf == old(self).cf,
            final(self).opts == old(self).opts,
            final(self).status == if old(self).cf.pairs().len() == 0 {
                CursorStatus::Exhausted
            } else if old(self).opts.cache_only && !old(self).cf.entry_cached(0) {
                CursorStatus::Incomplete
            } else {
                CursorStatus::AtEntry
            },
            final(self).status == CursorStatus::AtEntry ==> final(self).pos == 0,
    {
        self.status = CursorStatus::Seeking;
        if self.cf.entries.len() == 0 {
            self.status = CursorStatus::Exhausted;
        } else if self.opts.cache_only && !self.cf.entries[0].cached {
            self.status = CursorStatus::Incomplete;
        } else {
            self.pos = 0;
            self.status = CursorStatus::AtEntry;
        }
    }

    /// Seek to the last entry, the reverse analogue of [`State::seek_fwd`].
    pub fn seek_rev(&mut self)
        requires
            old(self).cf.wf(),
        ensures
            final(self).cf == old(self).cf,
            final(self).opts == old(self).opts,
            final(self).status == if old(self).cf.pairs().len() == 0 {
                CursorStatus::Exhausted
            } else if old(self).opts.cache_only && !old(self).cf.entry_cached(
                old(self).cf.pairs().len() - 1,
            ) {
                CursorStatus::Incomplete
            } else {
                CursorStatus::AtEntry
            },
            final(self).status == CursorStatus::AtEntry ==> final(self).pos == old(
                self,
            ).cf.pairs().len() - 1,
    {
        self.status = CursorStatus::Seeking;
        let n = self.cf.entries.len();
        if n == 0 {
            self.status = CursorStatus::Exhausted;
        } else if self.opts.cache_only && !self.cf.entries[n - 1].cached {
            self.status = CursorStatus::Incomplete;
        } else {
            self.pos = n - 1;
            self.status = CursorStatus::AtEntry;
        }
    }

    /// Whether the last seek was refused for want of cached data, as opposed
    /// to finding no entry at all.
    pub fn is_incomplete(&self) -> (r: bool)
        ensures
            r == (self.status == CursorStatus::Incomplete),
    {
        matches!(self.status, CursorStatus::Incomplete)
    }
}

} // verus!
