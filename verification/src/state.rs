//! The snapshot store: each room's current state pointer and the stored
//! snapshots.
//!
//! A snapshot is identified by its `shortstatehash` and holds the flattened
//! set of compressed records. Snapshots are additive and never mutated; a
//! room's pointer only moves when the caller advances it after a successful
//! resolution.

use vstd::prelude::*;

use crate::bytes::{be64, be64_val, u64_from_be, u64_to_be};
use crate::error::Error;
use crate::kv::ColumnFamily;
use crate::state_compressor::{strictly_sorted, CompressedStateEvent};
use crate::types::{EventId, RoomId};

verus! {

/// Is a snapshot stored under this hash id?
pub open spec fn has_snapshot(s: Seq<(u64, Vec<CompressedStateEvent>)>, h: u64) -> bool {
    exists|i: int| 0 <= i < s.len() && s[i].0 == h
}

/// The stored snapshot's records.
pub open spec fn snapshot_of(s: Seq<(u64, Vec<CompressedStateEvent>)>, h: u64) -> Seq<
    CompressedStateEvent,
> {
    s[choose|i: int| 0 <= i < s.len() && s[i].0 == h].1@
}

/// Whether expanding the snapshot under `h` must fail: the snapshot is
/// absent, or some record's event id has no reverse mapping in the given
/// event-id namespace.
pub open spec fn expansion_fails(
    snapshots: Seq<(u64, Vec<CompressedStateEvent>)>,
    ev: crate::short::InternerModel,
    h: u64,
) -> bool {
    !has_snapshot(snapshots, h) || exists|i: int|
        0 <= i < snapshot_of(snapshots, h).len() && ev.value_of(
            (#[trigger] snapshot_of(snapshots, h)[i]).shorteventid,
        ) is None
}

/// The state service: room pointers and snapshot storage.
pub struct Service {
    /// `roomid_shortstatehash`: room id bytes to the big-endian current
    /// state hash id.
    pub roomid_shortstatehash: ColumnFamily,
    /// `shortstatehash_statediff`: stored snapshots, flattened.
    pub snapshots: Vec<(u64, Vec<CompressedStateEvent>)>,
}

impl Service {
    pub open spec fn wf(self) -> bool {
        &&& self.roomid_shortstatehash.wf()
        &&& forall|k: Seq<u8>|
            self.roomid_shortstatehash@.contains_key(k) ==> (#[trigger] self.roomid_shortstatehash@[k]).len() == 8
        &&& forall|i: int, j: int|
            0 <= i < j < self.snapshots@.len() ==> (#[trigger] self.snapshots@[i]).0 != (
            #[trigger] self.snapshots@[j]).0
        &&& forall|i: int|
            0 <= i < self.snapshots@.len() ==> strictly_sorted(
                (#[trigger] self.snapshots@[i]).1@,
            )
    }

    /// The room's current state pointer, if any.
    pub open spec fn room_hash(self, room: Seq<u8>) -> Option<u64> {
        if self.roomid_shortstatehash@.contains_key(room) {
            Some(be64_val(self.roomid_shortstatehash@[room]))
        } else {
            None
        }
    }

    pub fn build() -> (r: Service)
        ensures
            r.wf(),
            forall|room: Seq<u8>| r.room_hash(room) is None,
            r.snapshots@.len() == 0,
    {
        Service { roomid_shortstatehash: ColumnFamily::new(), snapshots: Vec::new() }
    }

    /// The room's current `shortstatehash`; `NoStateForRoom` when the room
    /// has none.
    pub fn get_room_shortstatehash(&self, room_id: &RoomId) -> (r: Result<u64, Error>)
        requires
            self.wf(),
        ensures
            match r {
                Ok(h) => self.room_hash(room_id@) == Some(h),
                Err(e) => e == Error::NoStateForRoom && self.room_hash(room_id@) is None,
            },
    {
        match self.roomid_shortstatehash.get(&room_id.bytes) {
            Some(v) => Ok(u64_from_be(v)),
            None => Err(Error::NoStateForRoom),
        }
    }

    /// Advance (or set) the room's current state pointer.
    pub fn update_room_shortstatehash(&mut self, room_id: &RoomId, shortstatehash: u64)
        requires
            old(self).wf(),
        ensures
            final(self).wf(),
            final(self).room_hash(room_id@) == Some(shortstatehash),
            forall|room: Seq<u8>|
                room != room_id@ ==> #[trigger] final(self).room_hash(room) == old(self).room_hash(
                    room,
                ),
            final(self).snapshots == old(self).snapshots,
    {
        let hb = u64_to_be(shortstatehash);
        self.roomid_shortstatehash.insert(crate::bytes::clone_bytes(&room_id.bytes), hb);
        proof {
            crate::bytes::lemma_be64_roundtrip(shortstatehash);
        }
    }

    /// Store a new snapshot under its hash id. Snapshots are additive: a
    /// stored snapshot is never replaced.
    pub fn insert_snapshot(&mut self, shortstatehash: u64, records: Vec<CompressedStateEvent>)
        requires
            old(self).wf(),
            !has_snapshot(old(self).snapshots@, shortstatehash),
            strictly_sorted(records@),
        ensures
            final(self).wf(),
            has_snapshot(final(self).snapshots@, shortstatehash),
            snapshot_of(final(self).snapshots@, shortstatehash) == records@,
            forall|h: u64|
                h != shortstatehash ==> (has_snapshot(final(self).snapshots@, h) == has_snapshot(
                    old(self).snapshots@,
                    h,
                ) && (has_snapshot(old(self).snapshots@, h) ==> snapshot_of(
                    final(self).snapshots@,
                    h,
                ) == snapshot_of(old(self).snapshots@, h))),
            final(self).roomid_shortstatehash == old(self).roomid_shortstatehash,
    {
        let ghost olds = self.snapshots@;
        let ghost rv = records@;
        self.snapshots.push((shortstatehash, records));
        proof {
            let news = self.snapshots@;
            assert(news[news.len() - 1].0 == shortstatehash);
            assert forall|i: int, j: int|
                0 <= i < j < news.len() implies (#[trigger] news[i]).0 != (
            #[trigger] news[j]).0 by {
                if j == news.len() - 1 {
                    assert(news[i] == olds[i]);
                    assert(!has_snapshot(olds, shortstatehash));
                }
            }
            assert(snapshot_of(news, shortstatehash) == rv) by {
                let w = choose|w: int| 0 <= w < news.len() && news[w].0 == shortstatehash;
                if w != news.len() - 1 {
                    assert(news[w] == olds[w]);
                }
            }
            assert forall|h: u64|
                h != shortstatehash implies (has_snapshot(news, h) == has_snapshot(olds, h) && (
            has_snapshot(olds, h) ==> snapshot_of(news, h) == snapshot_of(olds, h))) by {
                if has_snapshot(news, h) {
                    let w = choose|w: int| 0 <= w < news.len() && news[w].0 == h;
                    assert(w != news.len() - 1);
                    assert(olds[w].0 == h);
                }
                if has_snapshot(olds, h) {
                    let w = choose|w: int| 0 <= w < olds.len() && olds[w].0 == h;
                    assert(news[w].0 == h);
                    let w2 = choose|w2: int| 0 <= w2 < news.len() && news[w2].0 == h;
                    if w2 != w {
                        assert(news[w2].0 != news[w].0 || w2 == w);
                    }
                    let u = choose|u: int| 0 <= u < olds.len() && olds[u].0 == h;
                    if u != w {
                        assert(olds[u].0 != olds[w].0 || u == w);
                    }
                }
            }
        }
    }

    /// Expand a snapshot into `(shortstatekey, event id)` pairs by bulk
    /// reverse lookup through the interner.
    pub fn state_full_ids(&self, short: &crate::short::Service, shortstatehash: u64) -> (r: Result<
        Vec<(u64, EventId)>,
        Error,
    >)
        requires
            self.wf(),
            short.wf(),
        ensures
            match r {
                Ok(out) => !expansion_fails(self.snapshots@, short.shorteventid@, shortstatehash)
                    && has_snapshot(self.snapshots@, shortstatehash) && ({
                    let snap = snapshot_of(self.snapshots@, shortstatehash);
                    out@.len() == snap.len() && (forall|i: int|
                        0 <= i < snap.len() ==> (#[trigger] out@[i]).0 == snap[i].shortstatekey
                            && short.shorteventid@.value_of(snap[i].shorteventid) == Some(
                            out@[i].1@,
                        ))
                }),
                Err(e) => e == Error::UnknownShortId && expansion_fails(
                    self.snapshots@,
                    short.shorteventid@,
                    shortstatehash,
                ),
            },
    {
        let mut idx: usize = 0;
        let n = self.snapshots.len();
        let mut found: Option<usize> = None;
        while idx < n && found.is_none()
            invariant
                n == self.snapshots@.len(),
                idx <= n,
                match found {
                    Some(w) => w < n && self.snapshots@[w as int].0 == shortstatehash,
                    None => forall|j: int| 0 <= j < idx ==> (#[trigger] self.snapshots@[j]).0 != shortstatehash,
                },
            decreases n - idx + (if found is Some { 0int } else { 1int }),
        {
            if self.snapshots[idx].0 == shortstatehash {
                found = Some(idx);
            } else {
                idx = idx + 1;
            }
        }
        let w = match found {
            Some(w) => w,
            None => {
                proof {
                    if has_snapshot(self.snapshots@, shortstatehash) {
                        let c = choose|j: int|
                            0 <= j < self.snapshots@.len() && self.snapshots@[j].0
                                == shortstatehash;
                    }
                }
                return Err(Error::UnknownShortId);
            },
        };
        proof {
            let c = choose|i: int| 0 <= i < self.snapshots@.len() && self.snapshots@[i].0 == shortstatehash;
            if c != w {
                assert(self.snapshots@[c].0 != self.snapshots@[w as int].0 || c == w);
            }
        }
        let snap = &self.snapshots[w].1;
        let mut out: Vec<(u64, EventId)> = Vec::new();
        let mut i: usize = 0;
        while i < snap.len()
            invariant
                self.wf(),
                short.wf(),
                w < self.snapshots@.len(),
                self.snapshots@[w as int].0 == shortstatehash,
                snap == &self.snapshots@[w as int].1,
                snapshot_of(self.snapshots@, shortstatehash) == snap@,
                i <= snap@.len(),
                out@.len() == i,
                forall|j: int|
                    0 <= j < i ==> (#[trigger] out@[j]).0 == snap@[j].shortstatekey
                        && short.shorteventid@.value_of(snap@[j].shorteventid) == Some(out@[j].1@),
            decreases snap@.len() - i,
        {
            let rec = snap[i];
            match short.get_eventid_from_short(rec.shorteventid) {
                Ok(eid) => {
                    out.push((rec.shortstatekey, eid));
                },
                Err(_) => {
                    proof {
                        let snapv = snapshot_of(self.snapshots@, shortstatehash);
                        assert(0 <= i < snapv.len() && short.shorteventid@.value_of(
                            (#[trigger] snapv[i as int]).shorteventid,
                        ) is None);
                    }
                    return Err(Error::UnknownShortId);
                },
            }
            i = i + 1;
        }
        proof {
            assert(!expansion_fails(self.snapshots@, short.shorteventid@, shortstatehash)) by {
                if expansion_fails(self.snapshots@, short.shorteventid@, shortstatehash) {
                    let snapv = snapshot_of(self.snapshots@, shortstatehash);
                    let b = choose|b: int|
                        0 <= b < snapv.len() && short.shorteventid@.value_of(
                            (#[trigger] snapv[b]).shorteventid,
                        ) is None;
                    assert(short.shorteventid@.value_of(snap@[b].shorteventid) == Some(
                        out@[b].1@,
                    ));
                }
            }
        }
        Ok(out)
    }
}

} // verus!
