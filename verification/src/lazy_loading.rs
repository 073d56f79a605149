//! Lazy-loading membership bookkeeping.
//!
//! For each `(user, device, room, pdu count)` key, the waiting table holds
//! the set of members whose state was sent speculatively with that batch;
//! the entry is inserted when the batch is marked sent and removed when the
//! client confirms delivery, at which point the members are persisted as
//! sent. Confirming an absent key is silently ignored: the mark is
//! delivered at most once.

use vstd::prelude::*;

use crate::bytes::{bytes_eq, clone_bytes};
use crate::error::Error;
use crate::short::byte_views;
use crate::types::{RoomId, UserId};

verus! {

/// One waiting entry: the key of a sync batch and the members sent with it.
#[verifier::ext_equal]
pub struct WaitingEntry {
    pub user: Vec<u8>,
    pub device: Vec<u8>,
    pub room: Vec<u8>,
    pub count: u64,
    pub members: Vec<Vec<u8>>,
}

/// One persisted record: this member's state was sent to this device in
/// this room.
#[verifier::ext_equal]
pub struct SentEntry {
    pub user: Vec<u8>,
    pub device: Vec<u8>,
    pub room: Vec<u8>,
    pub ll_user: Vec<u8>,
}

/// Every record of `a` appears, by its identifiers, in `b`.
pub open spec fn sent_subset(a: Seq<SentEntry>, b: Seq<SentEntry>) -> bool {
    forall|i: int|
        0 <= i < a.len() ==> exists|j: int| 0 <= j < b.len() && sent_eq(b[j], #[trigger] a[i])
}

/// Two sent records carrying the same identifiers.
pub open spec fn sent_eq(a: SentEntry, b: SentEntry) -> bool {
    a.user@ == b.user@ && a.device@ == b.device@ && a.room@ == b.room@ && a.ll_user@ == b.ll_user@
}

/// The view of a waiting key.
pub open spec fn wkey(e: WaitingEntry) -> (Seq<u8>, Seq<u8>, Seq<u8>, u64) {
    (e.user@, e.device@, e.room@, e.count)
}

pub open spec fn has_waiting(s: Seq<WaitingEntry>, k: (Seq<u8>, Seq<u8>, Seq<u8>, u64)) -> bool {
    exists|i: int| 0 <= i < s.len() && wkey(s[i]) == k
}

pub open spec fn waiting_at(s: Seq<WaitingEntry>, k: (Seq<u8>, Seq<u8>, Seq<u8>, u64)) -> Seq<
    Seq<u8>,
> {
    byte_views(s[choose|i: int| 0 <= i < s.len() && wkey(s[i]) == k].members@)
}

pub open spec fn sent_has(
    s: Seq<SentEntry>,
    user: Seq<u8>,
    device: Seq<u8>,
    room: Seq<u8>,
    ll_user: Seq<u8>,
) -> bool {
    exists|i: int|
        0 <= i < s.len() && (#[trigger] s[i]).user@ == user && s[i].device@ == device && s[i].room@
            == room && s[i].ll_user@ == ll_user
}

/// Every key other than `k` is bound in `news` exactly as in `olds`.
pub open spec fn waiting_frame(
    olds: Seq<WaitingEntry>,
    news: Seq<WaitingEntry>,
    k: (Seq<u8>, Seq<u8>, Seq<u8>, u64),
) -> bool {
    forall|k2: (Seq<u8>, Seq<u8>, Seq<u8>, u64)|
        k2 != k ==> (#[trigger] has_waiting(news, k2)) == has_waiting(olds, k2) && (has_waiting(
            olds,
            k2,
        ) ==> waiting_at(news, k2) == waiting_at(olds, k2))
}

/// Every record of `olds` outside the `(user, device, room)` triple appears
/// in `news`.
pub open spec fn sent_kept(
    olds: Seq<SentEntry>,
    news: Seq<SentEntry>,
    user: Seq<u8>,
    device: Seq<u8>,
    room: Seq<u8>,
) -> bool {
    forall|j: int|
        0 <= j < olds.len() && !((#[trigger] olds[j]).user@ == user && olds[j].device@ == device
            && olds[j].room@ == room) ==> exists|a: int|
            0 <= a < news.len() && sent_eq(#[trigger] news[a], olds[j])
}

/// The lazy-loading service: the in-memory waiting table and the persisted
/// sent records.
pub struct Service {
    pub lazy_load_waiting: Vec<WaitingEntry>,
    pub lazy_load_sent: Vec<SentEntry>,
}

impl Service {
    /// Waiting keys are unique.
    pub open spec fn wf(self) -> bool {
        forall|i: int, j: int|
            0 <= i < j < self.lazy_load_waiting@.len() ==> wkey(
                #[trigger] self.lazy_load_waiting@[i],
            ) != wkey(#[trigger] self.lazy_load_waiting@[j])
    }

    pub fn build() -> (r: Service)
        ensures
            r.wf(),
            r.lazy_load_waiting@.len() == 0,
            r.lazy_load_sent@.len() == 0,
    {
        Service { lazy_load_waiting: Vec::new(), lazy_load_sent: Vec::new() }
    }

    /// Was this member's state already sent to this device in this room?
    pub fn lazy_load_was_sent_before(
        &self,
        user_id: &UserId,
        device_id: &Vec<u8>,
        room_id: &RoomId,
        ll_user: &UserId,
    ) -> (r: bool)
        ensures
            r == sent_has(self.lazy_load_sent@, user_id@, device_id@, room_id@, ll_user@),
    {
        let mut i: usize = 0;
        while i < self.lazy_load_sent.len()
            invariant
                i <= self.lazy_load_sent@.len(),
                forall|j: int|
                    0 <= j < i ==> !((#[trigger] self.lazy_load_sent@[j]).user@ == user_id@
                        && self.lazy_load_sent@[j].device@ == device_id@
                        && self.lazy_load_sent@[j].room@ == room_id@
                        && self.lazy_load_sent@[j].ll_user@ == ll_user@),
            decreases self.lazy_load_sent@.len() - i,
        {
            let e = &self.lazy_load_sent[i];
            if bytes_eq(&e.user, &user_id.bytes) && bytes_eq(&e.device, device_id) && bytes_eq(
                &e.room,
                &room_id.bytes,
            ) && bytes_eq(&e.ll_user, &ll_user.bytes) {
                return true;
            }
            i = i + 1;
        }
        false
    }

    /// The index of the waiting entry under the key, if any.
    fn find_waiting(
        &self,
        user_id: &UserId,
        device_id: &Vec<u8>,
        room_id: &RoomId,
        count: u64,
    ) -> (r: Option<usize>)
        requires
            self.wf(),
        ensures
            match r {
                Some(i) => i < self.lazy_load_waiting@.len() && wkey(
                    self.lazy_load_waiting@[i as int],
                ) == (user_id@, device_id@, room_id@, count),
                None => !has_waiting(
                    self.lazy_load_waiting@,
                    (user_id@, device_id@, room_id@, count),
                ),
            },
    {
        let mut i: usize = 0;
        while i < self.lazy_load_waiting.len()
            invariant
                i <= self.lazy_load_waiting@.len(),
                forall|j: int|
                    0 <= j < i ==> wkey(#[trigger] self.lazy_load_waiting@[j]) != (
                        user_id@,
                        device_id@,
                        room_id@,
                        count,
                    ),
            decreases self.lazy_load_waiting@.len() - i,
        {
            let e = &self.lazy_load_waiting[i];
            if bytes_eq(&e.user, &user_id.bytes) && bytes_eq(&e.device, device_id) && bytes_eq(
                &e.room,
                &room_id.bytes,
            ) && e.count == count {
                return Some(i);
            }
            i = i + 1;
        }
        None
    }

    /// Record that these members' state was sent speculatively with the
    /// batch at `count`, replacing any previous mark for the same key.
    pub fn lazy_load_mark_sent(
        &mut self,
        user_id: &UserId,
        device_id: &Vec<u8>,
        room_id: &RoomId,
        lazy_load: Vec<Vec<u8>>,
        count: u64,
    )
        requires
            old(self).wf(),
        ensures
            final(self).wf(),
            has_waiting(
                final(self).lazy_load_waiting@,
                (user_id@, device_id@, room_id@, count),
            ),
            waiting_at(final(self).lazy_load_waiting@, (user_id@, device_id@, room_id@, count))
                == byte_views(lazy_load@),
            waiting_frame(
                old(self).lazy_load_waiting@,
                final(self).lazy_load_waiting@,
                (user_id@, device_id@, room_id@, count),
            ),
            final(self).lazy_load_sent == old(self).lazy_load_sent,
    {
        let ghost k = (user_id@, device_id@, room_id@, count);
        let entry = WaitingEntry {
            user: clone_bytes(&user_id.bytes),
            device: clone_bytes(device_id),
            room: clone_bytes(&room_id.bytes),
            count,
            members: lazy_load,
        };
        match self.find_waiting(user_id, device_id, room_id, count) {
            Some(i) => {
                let ghost olds = self.lazy_load_waiting@;
                self.lazy_load_waiting.remove(i);
                self.lazy_load_waiting.insert(i, entry);
                proof {
                    let news = self.lazy_load_waiting@;
                    assert(news.len() == olds.len());
                    assert(forall|j: int| 0 <= j < news.len() && j != i ==> news[j] == olds[j]);
                    assert(wkey(news[i as int]) == k);
                    assert forall|a: int, b: int|
                        0 <= a < b < news.len() implies wkey(#[trigger] news[a]) != wkey(
                        #[trigger] news[b],
                    ) by {
                        if a != i && b != i {
                            assert(news[a] == olds[a] && news[b] == olds[b]);
                        } else if a == i {
                            assert(news[b] == olds[b]);
                            assert(wkey(olds[b]) != wkey(olds[i as int]));
                        } else {
                            assert(news[a] == olds[a]);
                            assert(wkey(olds[a]) != wkey(olds[i as int]));
                        }
                    }
                    assert(has_waiting(news, k));
                    let w = choose|w: int| 0 <= w < news.len() && wkey(news[w]) == k;
                    if w != i {
                        assert(wkey(news[w]) != wkey(news[i as int]) || w == i);
                    }
                    assert forall|k2: (Seq<u8>, Seq<u8>, Seq<u8>, u64)| k2 != k implies (
                    #[trigger] has_waiting(news, k2)) == has_waiting(olds, k2) && (has_waiting(
                        olds,
                        k2,
                    ) ==> waiting_at(news, k2) == waiting_at(olds, k2)) by {
                        if has_waiting(news, k2) {
                            let w2 = choose|w2: int| 0 <= w2 < news.len() && wkey(news[w2]) == k2;
                            assert(w2 != i);
                            assert(olds[w2] == news[w2]);
                        }
                        if has_waiting(olds, k2) {
                            let w2 = choose|w2: int| 0 <= w2 < olds.len() && wkey(olds[w2]) == k2;
                            assert(w2 != i) by {
                                assert(wkey(olds[i as int]) == k);
                            }
                            assert(news[w2] == olds[w2]);
                            let u1 = choose|u: int| 0 <= u < news.len() && wkey(news[u]) == k2;
                            let u2 = choose|u: int| 0 <= u < olds.len() && wkey(olds[u]) == k2;
                            if u1 != w2 {
                                assert(wkey(news[u1]) != wkey(news[w2]) || u1 == w2);
                            }
                            if u2 != w2 {
                                assert(wkey(olds[u2]) != wkey(olds[w2]) || u2 == w2);
                            }
                        }
                    }
                }
            },
            None => {
                let ghost olds = self.lazy_load_waiting@;
                self.lazy_load_waiting.push(entry);
                proof {
                    let news = self.lazy_load_waiting@;
                    assert(wkey(news[news.len() - 1]) == k);
                    assert forall|a: int, b: int|
                        0 <= a < b < news.len() implies wkey(#[trigger] news[a]) != wkey(
                        #[trigger] news[b],
                    ) by {
                        if b == news.len() - 1 {
                            assert(news[a] == olds[a]);
                            assert(!has_waiting(olds, k));
                        } else {
                            assert(news[a] == olds[a] && news[b] == olds[b]);
                        }
                    }
                    assert(has_waiting(news, k));
                    let w = choose|w: int| 0 <= w < news.len() && wkey(news[w]) == k;
                    if w != news.len() - 1 {
                        assert(olds[w] == news[w]);
                    }
                    assert forall|k2: (Seq<u8>, Seq<u8>, Seq<u8>, u64)| k2 != k implies (
                    #[trigger] has_waiting(news, k2)) == has_waiting(olds, k2) && (has_waiting(
                        olds,
                        k2,
                    ) ==> waiting_at(news, k2) == waiting_at(olds, k2)) by {
                        if has_waiting(news, k2) {
                            let w2 = choose|w2: int| 0 <= w2 < news.len() && wkey(news[w2]) == k2;
                            assert(w2 != news.len() - 1);
                            assert(olds[w2] == news[w2]);
                        }
                        if has_waiting(olds, k2) {
                            let w2 = choose|w2: int| 0 <= w2 < olds.len() && wkey(olds[w2]) == k2;
                            assert(news[w2] == olds[w2]);
                            let u1 = choose|u: int| 0 <= u < news.len() && wkey(news[u]) == k2;
                            let u2 = choose|u: int| 0 <= u < olds.len() && wkey(olds[u]) == k2;
                            if u1 != w2 {
                                assert(wkey(news[u1]) != wkey(news[w2]) || u1 == w2);
                            }
                            if u2 != w2 {
                                assert(wkey(olds[u2]) != wkey(olds[w2]) || u2 == w2);
                            }
                        }
                    }
                }
            },
        }
    }

    /// The client confirmed delivery of the batch at `since`: persist the
    /// waiting members as sent and drop the mark. An absent mark is
    /// silently ignored.
    pub fn lazy_load_confirm_delivery(
        &mut self,
        user_id: &UserId,
        device_id: &Vec<u8>,
        room_id: &RoomId,
        since: u64,
    ) -> (r: Result<(), Error>)
        requires
            old(self).wf(),
        ensures
            final(self).wf(),
            r is Ok,
            !has_waiting(final(self).lazy_load_waiting@, (user_id@, device_id@, room_id@, since)),
            has_waiting(old(self).lazy_load_waiting@, (user_id@, device_id@, room_id@, since))
                ==> (forall|u: Seq<u8>|
                waiting_at(
                    old(self).lazy_load_waiting@,
                    (user_id@, device_id@, room_id@, since),
                ).contains(u) ==> sent_has(
                    final(self).lazy_load_sent@,
                    user_id@,
                    device_id@,
                    room_id@,
                    u,
                )),
            !has_waiting(old(self).lazy_load_waiting@, (user_id@, device_id@, room_id@, since))
                ==> final(self).lazy_load_waiting == old(self).lazy_load_waiting
                    && final(self).lazy_load_sent == old(self).lazy_load_sent,
            waiting_frame(
                old(self).lazy_load_waiting@,
                final(self).lazy_load_waiting@,
                (user_id@, device_id@, room_id@, since),
            ),
            forall|i: int|
                0 <= i < old(self).lazy_load_sent@.len() ==> final(self).lazy_load_sent@[i]
                    == old(self).lazy_load_sent@[i],
            has_waiting(old(self).lazy_load_waiting@, (user_id@, device_id@, room_id@, since))
                ==> ({
                let members = waiting_at(
                    old(self).lazy_load_waiting@,
                    (user_id@, device_id@, room_id@, since),
                );
                final(self).lazy_load_sent@.len() == old(self).lazy_load_sent@.len()
                    + members.len() && (forall|j: int|
                    0 <= j < members.len() ==> {
                        let e = #[trigger] final(self).lazy_load_sent@[old(
                            self,
                        ).lazy_load_sent@.len() + j];
                        e.user@ == user_id@ && e.device@ == device_id@ && e.room@ == room_id@
                            && e.ll_user@ == members[j]
                    })
            }),
    {
        let ghost k = (user_id@, device_id@, room_id@, since);
        match self.find_waiting(user_id, device_id, room_id, since) {
            Some(i) => {
                let ghost olds = self.lazy_load_waiting@;
                let entry = self.lazy_load_waiting.remove(i);
                proof {
                    let news = self.lazy_load_waiting@;
                    assert forall|a: int, b: int|
                        0 <= a < b < news.len() implies wkey(#[trigger] news[a]) != wkey(
                        #[trigger] news[b],
                    ) by {
                        let a0 = if a < i {
                            a
                        } else {
                            a + 1
                        };
                        let b0 = if b < i {
                            b
                        } else {
                            b + 1
                        };
                        assert(news[a] == olds[a0] && news[b] == olds[b0]);
                    }
                    assert(!has_waiting(news, k)) by {
                        if has_waiting(news, k) {
                            let w = choose|w: int| 0 <= w < news.len() && wkey(news[w]) == k;
                            let w0 = if w < i {
                                w
                            } else {
                                w + 1
                            };
                            assert(olds[w0] == news[w]);
                            assert(wkey(olds[w0]) != wkey(olds[i as int]) || w0 == i);
                        }
                    }
                    assert forall|k2: (Seq<u8>, Seq<u8>, Seq<u8>, u64)| k2 != k implies (
                    #[trigger] has_waiting(news, k2)) == has_waiting(olds, k2) && (has_waiting(
                        olds,
                        k2,
                    ) ==> waiting_at(news, k2) == waiting_at(olds, k2)) by {
                        if has_waiting(news, k2) {
                            let w = choose|w: int| 0 <= w < news.len() && wkey(news[w]) == k2;
                            let w0 = if w < i {
                                w
                            } else {
                                w + 1
                            };
                            assert(olds[w0] == news[w]);
                        }
                        if has_waiting(olds, k2) {
                            let w0 = choose|w0: int| 0 <= w0 < olds.len() && wkey(olds[w0]) == k2;
                            assert(w0 != i) by {
                                assert(wkey(olds[i as int]) == k);
                            }
                            let w = if w0 < i {
                                w0
                            } else {
                                w0 - 1
                            };
                            assert(news[w] == olds[w0]);
                            let u1 = choose|u: int| 0 <= u < news.len() && wkey(news[u]) == k2;
                            let u2 = choose|u: int| 0 <= u < olds.len() && wkey(olds[u]) == k2;
                            if u1 != w {
                                assert(wkey(news[u1]) != wkey(news[w]) || u1 == w);
                            }
                            if u2 != w0 {
                                assert(wkey(olds[u2]) != wkey(olds[w0]) || u2 == w0);
                            }
                        }
                    }
                }
                let ghost members = byte_views(entry.members@);
                let ghost waiting_mid = self.lazy_load_waiting@;
                let mut q: usize = 0;
                while q < entry.members.len()
                    invariant
                        q <= entry.members@.len(),
                        members == byte_views(entry.members@),
                        forall|i2: int|
                            0 <= i2 < old(self).lazy_load_sent@.len() ==> self.lazy_load_sent@[i2]
                                == old(self).lazy_load_sent@[i2],
                        self.lazy_load_sent@.len() == old(self).lazy_load_sent@.len() + q,
                        forall|j: int|
                            0 <= j < q ==> {
                                let e = #[trigger] self.lazy_load_sent@[old(
                                    self,
                                ).lazy_load_sent@.len() + j];
                                e.user@ == user_id@ && e.device@ == device_id@ && e.room@
                                    == room_id@ && e.ll_user@ == members[j]
                            },
                        self.lazy_load_waiting@ == waiting_mid,
                        self.wf(),
                        forall|j: int|
                            0 <= j < q ==> sent_has(
                                self.lazy_load_sent@,
                                user_id@,
                                device_id@,
                                room_id@,
                                members[j],
                            ),
                    decreases entry.members@.len() - q,
                {
                    let ghost pre = self.lazy_load_sent@;
                    self.lazy_load_sent.push(
                        SentEntry {
                            user: clone_bytes(&user_id.bytes),
                            device: clone_bytes(device_id),
                            room: clone_bytes(&room_id.bytes),
                            ll_user: clone_bytes(&entry.members[q]),
                        },
                    );
                    proof {
                        let news = self.lazy_load_sent@;
                        assert(news[news.len() - 1].ll_user@ == members[q as int]);
                        assert forall|j: int| 0 <= j < q + 1 implies sent_has(
                            news,
                            user_id@,
                            device_id@,
                            room_id@,
                            members[j],
                        ) by {
                            if j < q {
                                let w = choose|w: int|
                                    0 <= w < pre.len() && (#[trigger] pre[w]).user@ == user_id@
                                        && pre[w].device@ == device_id@ && pre[w].room@ == room_id@
                                        && pre[w].ll_user@ == members[j];
                                assert(news[w] == pre[w]);
                            }
                        }
                    }
                    q = q + 1;
                }
                proof {
                    assert forall|u: Seq<u8>| members.contains(u) implies sent_has(
                        self.lazy_load_sent@,
                        user_id@,
                        device_id@,
                        room_id@,
                        u,
                    ) by {
                        let j = choose|j: int| 0 <= j < members.len() && members[j] == u;
                    }
                    assert(waiting_at(olds, k) == members) by {
                        let w = choose|w: int| 0 <= w < olds.len() && wkey(olds[w]) == k;
                        if w != i {
                            assert(wkey(olds[w]) != wkey(olds[i as int]) || w == i);
                        }
                    }
                }
                Ok(())
            },
            None => Ok(()),
        }
    }

    /// Forget every sent record of this device in this room.
    pub fn lazy_load_reset(
        &mut self,
        user_id: &UserId,
        device_id: &Vec<u8>,
        room_id: &RoomId,
    ) -> (r: Result<(), Error>)
        requires
            old(self).wf(),
        ensures
            final(self).wf(),
            r is Ok,
            forall|u: Seq<u8>|
                !sent_has(final(self).lazy_load_sent@, user_id@, device_id@, room_id@, u),
            sent_subset(final(self).lazy_load_sent@, old(self).lazy_load_sent@),
            sent_kept(
                old(self).lazy_load_sent@,
                final(self).lazy_load_sent@,
                user_id@,
                device_id@,
                room_id@,
            ),
            final(self).lazy_load_waiting == old(self).lazy_load_waiting,
    {
        let mut kept: Vec<SentEntry> = Vec::new();
        let mut i: usize = 0;
        let n = self.lazy_load_sent.len();
        while i < n
            invariant
                n == self.lazy_load_sent@.len(),
                i <= n,
                forall|u: Seq<u8>| !sent_has(kept@, user_id@, device_id@, room_id@, u),
                sent_subset(kept@, self.lazy_load_sent@),
                forall|j: int|
                    0 <= j < i && !((#[trigger] self.lazy_load_sent@[j]).user@ == user_id@
                        && self.lazy_load_sent@[j].device@ == device_id@
                        && self.lazy_load_sent@[j].room@ == room_id@) ==> exists|a: int|
                        0 <= a < kept@.len() && sent_eq(
                            #[trigger] kept@[a],
                            self.lazy_load_sent@[j],
                        ),
            decreases n - i,
        {
            let e = &self.lazy_load_sent[i];
            let matches_key = bytes_eq(&e.user, &user_id.bytes) && bytes_eq(&e.device, device_id)
                && bytes_eq(&e.room, &room_id.bytes);
            if !matches_key {
                let ghost pre = kept@;
                kept.push(
                    SentEntry {
                        user: clone_bytes(&e.user),
                        device: clone_bytes(&e.device),
                        room: clone_bytes(&e.room),
                        ll_user: clone_bytes(&e.ll_user),
                    },
                );
                proof {
                    let news = kept@;
                    assert forall|u: Seq<u8>| !sent_has(
                        news,
                        user_id@,
                        device_id@,
                        room_id@,
                        u,
                    ) by {
                        if sent_has(news, user_id@, device_id@, room_id@, u) {
                            let w = choose|w: int|
                                0 <= w < news.len() && (#[trigger] news[w]).user@ == user_id@
                                    && news[w].device@ == device_id@ && news[w].room@ == room_id@
                                    && news[w].ll_user@ == u;
                            if w < pre.len() {
                                assert(sent_has(pre, user_id@, device_id@, room_id@, u));
                            }
                        }
                    }
                    assert(sent_subset(news, self.lazy_load_sent@)) by {
                        assert forall|a: int| 0 <= a < news.len() implies exists|j: int|
                            0 <= j < self.lazy_load_sent@.len() && sent_eq(
                                self.lazy_load_sent@[j],
                                #[trigger] news[a],
                            ) by {
                            if a < pre.len() {
                                assert(news[a] == pre[a]);
                                assert(sent_subset(pre, self.lazy_load_sent@));
                            } else {
                                assert(sent_eq(self.lazy_load_sent@[i as int], news[a]));
                            }
                        }
                    }
                    assert forall|j: int|
                        0 <= j < i + 1 && !((#[trigger] self.lazy_load_sent@[j]).user@ == user_id@
                            && self.lazy_load_sent@[j].device@ == device_id@
                            && self.lazy_load_sent@[j].room@ == room_id@) implies exists|a: int|
                        0 <= a < news.len() && sent_eq(
                            #[trigger] news[a],
                            self.lazy_load_sent@[j],
                        ) by {
                        if j < i {
                            let a = choose|a: int|
                                0 <= a < pre.len() && sent_eq(
                                    #[trigger] pre[a],
                                    self.lazy_load_sent@[j],
                                );
                            assert(news[a] == pre[a]);
                        } else {
                            assert(sent_eq(news[news.len() - 1], self.lazy_load_sent@[j]));
                        }
                    }
                }
            } else {
                proof {
                    assert forall|j: int|
                        0 <= j < i + 1 && !((#[trigger] self.lazy_load_sent@[j]).user@ == user_id@
                            && self.lazy_load_sent@[j].device@ == device_id@
                            && self.lazy_load_sent@[j].room@ == room_id@) implies exists|a: int|
                        0 <= a < kept@.len() && sent_eq(
                            #[trigger] kept@[a],
                            self.lazy_load_sent@[j],
                        ) by {
                        assert(j != i);
                    }
                }
            }
            i = i + 1;
        }
        proof {
            assert(self.lazy_load_sent@ == old(self).lazy_load_sent@);
        }
        proof {
            assert(sent_kept(old(self).lazy_load_sent@, kept@, user_id@, device_id@, room_id@));
        }
        let ghost keptv = kept@;
        self.lazy_load_sent = kept;
        proof {
            assert(sent_subset(keptv, old(self).lazy_load_sent@));
            assert(sent_kept(old(self).lazy_load_sent@, keptv, user_id@, device_id@, room_id@));
            assert(self.lazy_load_sent@ == keptv);
        }
        Ok(())
    }
}

} // verus!
