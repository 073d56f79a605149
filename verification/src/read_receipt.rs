//! Read-receipt bookkeeping.
//!
//! Each `(room, user)` pair carries at most one public read receipt, stored
//! with the global count at which it was written; updating replaces the
//! previous receipt. A private read marker and the count of its last update
//! are kept per `(room, user)` as well. Receipt contents are opaque bytes
//! handed through unread.

use vstd::prelude::*;

use crate::bytes::{bytes_eq, clone_bytes};
use crate::error::Error;
use crate::types::{RoomId, UserId};

verus! {

/// One public read receipt.
pub struct ReceiptEntry {
    pub room: Vec<u8>,
    pub user: Vec<u8>,
    pub count: u64,
    pub data: Vec<u8>,
}

pub open spec fn rkey(e: ReceiptEntry) -> (Seq<u8>, Seq<u8>) {
    (e.room@, e.user@)
}

pub open spec fn has_receipt(s: Seq<ReceiptEntry>, k: (Seq<u8>, Seq<u8>)) -> bool {
    exists|i: int| 0 <= i < s.len() && rkey(s[i]) == k
}

pub open spec fn receipt_at(s: Seq<ReceiptEntry>, k: (Seq<u8>, Seq<u8>)) -> (u64, Seq<u8>) {
    let e = s[choose|i: int| 0 <= i < s.len() && rkey(s[i]) == k];
    (e.count, e.data@)
}

/// One private read marker: the marker count and the global count of its
/// last update.
pub struct PrivateReadEntry {
    pub room: Vec<u8>,
    pub user: Vec<u8>,
    pub count: u64,
    pub updated_at: u64,
}

pub open spec fn pkey(e: PrivateReadEntry) -> (Seq<u8>, Seq<u8>) {
    (e.room@, e.user@)
}

pub open spec fn has_private(s: Seq<PrivateReadEntry>, k: (Seq<u8>, Seq<u8>)) -> bool {
    exists|i: int| 0 <= i < s.len() && pkey(s[i]) == k
}

pub open spec fn private_at(s: Seq<PrivateReadEntry>, k: (Seq<u8>, Seq<u8>)) -> (u64, u64) {
    let e = s[choose|i: int| 0 <= i < s.len() && pkey(s[i]) == k];
    (e.count, e.updated_at)
}

/// Does some receipt of `rs` in `room`, later than `since`, carry exactly
/// this output item?
pub open spec fn receipt_matches(
    rs: Seq<ReceiptEntry>,
    room: Seq<u8>,
    since: u64,
    item: (Vec<u8>, u64, Vec<u8>),
) -> bool {
    exists|i: int|
        0 <= i < rs.len() && (#[trigger] rs[i]).room@ == room && rs[i].count > since && item.0@
            == rs[i].user@ && item.1 == rs[i].count && item.2@ == rs[i].data@
}

/// Does the output carry this receipt?
pub open spec fn in_output(out: Seq<(Vec<u8>, u64, Vec<u8>)>, e: ReceiptEntry) -> bool {
    exists|a: int|
        0 <= a < out.len() && (#[trigger] out[a]).1 == e.count && out[a].0@ == e.user@ && out[a].2@
            == e.data@
}

/// The read-receipt service.
pub struct Service {
    pub receipts: Vec<ReceiptEntry>,
    pub private_reads: Vec<PrivateReadEntry>,
    pub counter: u64,
}

impl Service {
    /// Keys are unique in both tables.
    pub open spec fn wf(self) -> bool {
        (forall|i: int, j: int|
            0 <= i < j < self.receipts@.len() ==> rkey(#[trigger] self.receipts@[i]) != rkey(
                #[trigger] self.receipts@[j],
            )) && (forall|i: int, j: int|
            0 <= i < j < self.private_reads@.len() ==> pkey(#[trigger] self.private_reads@[i])
                != pkey(#[trigger] self.private_reads@[j]))
    }

    pub fn build() -> (r: Service)
        ensures
            r.wf(),
            r.receipts@.len() == 0,
            r.private_reads@.len() == 0,
            r.counter == 1,
    {
        Service { receipts: Vec::new(), private_reads: Vec::new(), counter: 1 }
    }

    fn find_receipt(&self, room_id: &RoomId, user_id: &UserId) -> (r: Option<usize>)
        requires
            self.wf(),
        ensures
            match r {
                Some(i) => i < self.receipts@.len() && rkey(self.receipts@[i as int]) == (
                    room_id@,
                    user_id@,
                ),
                None => !has_receipt(self.receipts@, (room_id@, user_id@)),
            },
    {
        let mut i: usize = 0;
        while i < self.receipts.len()
            invariant
                i <= self.receipts@.len(),
                forall|j: int|
                    0 <= j < i ==> rkey(#[trigger] self.receipts@[j]) != (room_id@, user_id@),
            decreases self.receipts@.len() - i,
        {
            let e = &self.receipts[i];
            if bytes_eq(&e.room, &room_id.bytes) && bytes_eq(&e.user, &user_id.bytes) {
                return Some(i);
            }
            i = i + 1;
        }
        None
    }

    /// Store the user's read receipt for the room, replacing the previous
    /// one, at the next global count. Fails with a storage error only when
    /// the count space is exhausted.
    pub fn readreceipt_update(&mut self, user_id: &UserId, room_id: &RoomId, event: Vec<u8>) -> (r:
        Result<u64, Error>)
        requires
            old(self).wf(),
        ensures
            final(self).wf(),
            match r {
                Ok(c) => c == old(self).counter && final(self).counter == old(self).counter + 1
                    && has_receipt(final(self).receipts@, (room_id@, user_id@)) && receipt_at(
                    final(self).receipts@,
                    (room_id@, user_id@),
                ) == (old(self).counter, event@) && (forall|k: (Seq<u8>, Seq<u8>)|
                    k != (room_id@, user_id@) ==> (has_receipt(final(self).receipts@, k)
                        == has_receipt(old(self).receipts@, k) && (has_receipt(
                        old(self).receipts@,
                        k,
                    ) ==> receipt_at(final(self).receipts@, k) == receipt_at(
                        old(self).receipts@,
                        k,
                    )))),
                Err(e) => e == Error::Storage && old(self).counter == u64::MAX && *final(self)
                    == *old(self),
            },
            final(self).private_reads == old(self).private_reads,
    {
        if self.counter == u64::MAX {
            return Err(Error::Storage);
        }
        let ghost k = (room_id@, user_id@);
        let c = self.counter;
        self.counter = c + 1;
        let entry = ReceiptEntry {
            room: clone_bytes(&room_id.bytes),
            user: clone_bytes(&user_id.bytes),
            count: c,
            data: event,
        };
        let found = self.find_receipt(room_id, user_id);
        match found {
            Some(i) => {
                let ghost olds = self.receipts@;
                self.receipts.remove(i);
                self.receipts.insert(i, entry);
                proof {
                    let news = self.receipts@;
                    assert(news.len() == olds.len());
                    assert(forall|j: int| 0 <= j < news.len() && j != i ==> news[j] == olds[j]);
                    assert(rkey(news[i as int]) == k);
                    assert forall|a: int, b: int|
                        0 <= a < b < news.len() implies rkey(#[trigger] news[a]) != rkey(
                        #[trigger] news[b],
                    ) by {
                        if a != i && b != i {
                            assert(news[a] == olds[a] && news[b] == olds[b]);
                        } else if a == i {
                            assert(news[b] == olds[b]);
                            assert(rkey(olds[b]) != rkey(olds[i as int]));
                        } else {
                            assert(news[a] == olds[a]);
                            assert(rkey(olds[a]) != rkey(olds[i as int]));
                        }
                    }
                    let w = choose|w: int| 0 <= w < news.len() && rkey(news[w]) == k;
                    if w != i {
                        assert(rkey(news[w]) != rkey(news[i as int]) || w == i);
                    }
                    assert forall|k2: (Seq<u8>, Seq<u8>)| k2 != k implies (has_receipt(news, k2)
                        == has_receipt(olds, k2) && (has_receipt(olds, k2) ==> receipt_at(news, k2)
                        == receipt_at(olds, k2))) by {
                        if has_receipt(news, k2) {
                            let w2 = choose|w2: int| 0 <= w2 < news.len() && rkey(news[w2]) == k2;
                            assert(w2 != i);
                            assert(olds[w2] == news[w2]);
                        }
                        if has_receipt(olds, k2) {
                            let w2 = choose|w2: int| 0 <= w2 < olds.len() && rkey(olds[w2]) == k2;
                            assert(w2 != i);
                            assert(news[w2] == olds[w2]);
                            let u1 = choose|u: int| 0 <= u < news.len() && rkey(news[u]) == k2;
                            let u2 = choose|u: int| 0 <= u < olds.len() && rkey(olds[u]) == k2;
                            if u1 != w2 {
                                assert(rkey(news[u1]) != rkey(news[w2]) || u1 == w2);
                            }
                            if u2 != w2 {
                                assert(rkey(olds[u2]) != rkey(olds[w2]) || u2 == w2);
                            }
                        }
                    }
                }
                Ok(c)
            },
            None => {
                let ghost olds = self.receipts@;
                self.receipts.push(entry);
                proof {
                    let news = self.receipts@;
                    assert(rkey(news[news.len() - 1]) == k);
                    assert forall|a: int, b: int|
                        0 <= a < b < news.len() implies rkey(#[trigger] news[a]) != rkey(
                        #[trigger] news[b],
                    ) by {
                        if b == news.len() - 1 {
                            assert(news[a] == olds[a]);
                            assert(!has_receipt(olds, k));
                        } else {
                            assert(news[a] == olds[a] && news[b] == olds[b]);
                        }
                    }
                    let w = choose|w: int| 0 <= w < news.len() && rkey(news[w]) == k;
                    if w != news.len() - 1 {
                        assert(olds[w] == news[w]);
                    }
                    assert forall|k2: (Seq<u8>, Seq<u8>)| k2 != k implies (has_receipt(news, k2)
                        == has_receipt(olds, k2) && (has_receipt(olds, k2) ==> receipt_at(news, k2)
                        == receipt_at(olds, k2))) by {
                        if has_receipt(news, k2) {
                            let w2 = choose|w2: int| 0 <= w2 < news.len() && rkey(news[w2]) == k2;
                            assert(w2 != news.len() - 1);
                            assert(olds[w2] == news[w2]);
                        }
                        if has_receipt(olds, k2) {
                            let w2 = choose|w2: int| 0 <= w2 < olds.len() && rkey(olds[w2]) == k2;
                            assert(news[w2] == olds[w2]);
                            let u1 = choose|u: int| 0 <= u < news.len() && rkey(news[u]) == k2;
                            let u2 = choose|u: int| 0 <= u < olds.len() && rkey(olds[u]) == k2;
                            if u1 != w2 {
                                assert(rkey(news[u1]) != rkey(news[w2]) || u1 == w2);
                            }
                            if u2 != w2 {
                                assert(rkey(olds[u2]) != rkey(olds[w2]) || u2 == w2);
                            }
                        }
                    }
                }
                Ok(c)
            },
        }
    }

    /// The receipts in a room written after the count `since`, with their
    /// counts and contents.
    pub fn readreceipts_since(&self, room_id: &RoomId, since: u64) -> (r: Vec<(
        Vec<u8>,
        u64,
        Vec<u8>,
    )>)
        requires
            self.wf(),
        ensures
            forall|a: int|
                0 <= a < r@.len() ==> receipt_matches(
                    self.receipts@,
                    room_id@,
                    since,
                    #[trigger] r@[a],
                ),
            forall|i: int|
                0 <= i < self.receipts@.len() && (#[trigger] self.receipts@[i]).room@ == room_id@
                    && self.receipts@[i].count > since ==> in_output(r@, self.receipts@[i]),
    {
        let mut out: Vec<(Vec<u8>, u64, Vec<u8>)> = Vec::new();
        let mut i: usize = 0;
        while i < self.receipts.len()
            invariant
                self.wf(),
                i <= self.receipts@.len(),
                forall|a: int|
                    0 <= a < out@.len() ==> receipt_matches(
                        self.receipts@,
                        room_id@,
                        since,
                        #[trigger] out@[a],
                    ),
                forall|i2: int|
                    0 <= i2 < i && (#[trigger] self.receipts@[i2]).room@ == room_id@
                        && self.receipts@[i2].count > since ==> in_output(
                        out@,
                        self.receipts@[i2],
                    ),
            decreases self.receipts@.len() - i,
        {
            let e = &self.receipts[i];
            if bytes_eq(&e.room, &room_id.bytes) && e.count > since {
                let ghost pre = out@;
                out.push((clone_bytes(&e.user), e.count, clone_bytes(&e.data)));
                proof {
                    assert(receipt_matches(
                        self.receipts@,
                        room_id@,
                        since,
                        out@[out@.len() - 1],
                    )) by {
                        assert(self.receipts@[i as int].room@ == room_id@);
                    }
                    assert forall|a: int| 0 <= a < out@.len() implies receipt_matches(
                        self.receipts@,
                        room_id@,
                        since,
                        #[trigger] out@[a],
                    ) by {
                        if a < pre.len() {
                            assert(out@[a] == pre[a]);
                        }
                    }
                    assert forall|i2: int|
                        0 <= i2 < i + 1 && (#[trigger] self.receipts@[i2]).room@ == room_id@
                            && self.receipts@[i2].count > since implies in_output(
                        out@,
                        self.receipts@[i2],
                    ) by {
                        if i2 < i {
                            let a = choose|a: int|
                                0 <= a < pre.len() && (#[trigger] pre[a]).1
                                    == self.receipts@[i2].count && pre[a].0@
                                    == self.receipts@[i2].user@ && pre[a].2@
                                    == self.receipts@[i2].data@;
                            assert(out@[a] == pre[a]);
                        } else {
                            assert(out@[out@.len() - 1].1 == self.receipts@[i2].count);
                        }
                    }
                }
            }
            i = i + 1;
        }
        out
    }

    fn find_private(&self, room_id: &RoomId, user_id: &UserId) -> (r: Option<usize>)
        requires
            self.wf(),
        ensures
            match r {
                Some(i) => i < self.private_reads@.len() && pkey(self.private_reads@[i as int])
                    == (room_id@, user_id@),
                None => !has_private(self.private_reads@, (room_id@, user_id@)),
            },
    {
        let mut i: usize = 0;
        while i < self.private_reads.len()
            invariant
                i <= self.private_reads@.len(),
                forall|j: int|
                    0 <= j < i ==> pkey(#[trigger] self.private_reads@[j]) != (room_id@, user_id@),
            decreases self.private_reads@.len() - i,
        {
            let e = &self.private_reads[i];
            if bytes_eq(&e.room, &room_id.bytes) && bytes_eq(&e.user, &user_id.bytes) {
                return Some(i);
            }
            i = i + 1;
        }
        None
    }

    /// Set the user's private read marker in the room to `count`, stamped
    /// with the next global count.
    pub fn private_read_set(&mut self, room_id: &RoomId, user_id: &UserId, count: u64) -> (r:
        Result<(), Error>)
        requires
            old(self).wf(),
        ensures
            final(self).wf(),
            match r {
                Ok(_) => has_private(final(self).private_reads@, (room_id@, user_id@))
                    && private_at(final(self).private_reads@, (room_id@, user_id@)) == (
                    count,
                    old(self).counter,
                ) && final(self).counter == old(self).counter + 1,
                Err(e) => e == Error::Storage && old(self).counter == u64::MAX && *final(self)
                    == *old(self),
            },
            final(self).receipts == old(self).receipts,
    {
        if self.counter == u64::MAX {
            return Err(Error::Storage);
        }
        let ghost k = (room_id@, user_id@);
        let c = self.counter;
        self.counter = c + 1;
        let entry = PrivateReadEntry {
            room: clone_bytes(&room_id.bytes),
            user: clone_bytes(&user_id.bytes),
            count,
            updated_at: c,
        };
        match self.find_private(room_id, user_id) {
            Some(i) => {
                let ghost olds = self.private_reads@;
                self.private_reads.remove(i);
                self.private_reads.insert(i, entry);
                proof {
                    let news = self.private_reads@;
                    assert(news.len() == olds.len());
                    assert(forall|j: int| 0 <= j < news.len() && j != i ==> news[j] == olds[j]);
                    assert(pkey(news[i as int]) == k);
                    assert forall|a: int, b: int|
                        0 <= a < b < news.len() implies pkey(#[trigger] news[a]) != pkey(
                        #[trigger] news[b],
                    ) by {
                        if a != i && b != i {
                            assert(news[a] == olds[a] && news[b] == olds[b]);
                        } else if a == i {
                            assert(news[b] == olds[b]);
                            assert(pkey(olds[b]) != pkey(olds[i as int]));
                        } else {
                            assert(news[a] == olds[a]);
                            assert(pkey(olds[a]) != pkey(olds[i as int]));
                        }
                    }
                    let w = choose|w: int| 0 <= w < news.len() && pkey(news[w]) == k;
                    if w != i {
                        assert(pkey(news[w]) != pkey(news[i as int]) || w == i);
                    }
                }
                Ok(())
            },
            None => {
                let ghost olds = self.private_reads@;
                self.private_reads.push(entry);
                proof {
                    let news = self.private_reads@;
                    assert(pkey(news[news.len() - 1]) == k);
                    assert forall|a: int, b: int|
                        0 <= a < b < news.len() implies pkey(#[trigger] news[a]) != pkey(
                        #[trigger] news[b],
                    ) by {
                        if b == news.len() - 1 {
                            assert(news[a] == olds[a]);
                            assert(!has_private(olds, k));
                        } else {
                            assert(news[a] == olds[a] && news[b] == olds[b]);
                        }
                    }
                    let w = choose|w: int| 0 <= w < news.len() && pkey(news[w]) == k;
                    if w != news.len() - 1 {
                        assert(olds[w] == news[w]);
                    }
                }
                Ok(())
            },
        }
    }

    /// The user's private read marker in the room, if set.
    pub fn private_read_get(&self, room_id: &RoomId, user_id: &UserId) -> (r: Option<u64>)
        requires
            self.wf(),
        ensures
            match r {
                Some(c) => has_private(self.private_reads@, (room_id@, user_id@)) && private_at(
                    self.private_reads@,
                    (room_id@, user_id@),
                ).0 == c,
                None => !has_private(self.private_reads@, (room_id@, user_id@)),
            },
    {
        match self.find_private(room_id, user_id) {
            Some(i) => {
                proof {
                    let w = choose|w: int|
                        0 <= w < self.private_reads@.len() && pkey(self.private_reads@[w]) == (
                            room_id@,
                            user_id@,
                        );
                    if w != i {
                        assert(pkey(self.private_reads@[w]) != pkey(self.private_reads@[i as int])
                            || w == i);
                    }
                }
                Some(self.private_reads[i].count)
            },
            None => None,
        }
    }

    /// The global count at which the user's private read marker in the room
    /// was last updated; 0 when it never was.
    pub fn last_privateread_update(&self, user_id: &UserId, room_id: &RoomId) -> (r: u64)
        requires
            self.wf(),
        ensures
            has_private(self.private_reads@, (room_id@, user_id@)) ==> r == private_at(
                self.private_reads@,
                (room_id@, user_id@),
            ).1,
            !has_private(self.private_reads@, (room_id@, user_id@)) ==> r == 0,
    {
        match self.find_private(room_id, user_id) {
            Some(i) => {
                proof {
                    let w = choose|w: int|
                        0 <= w < self.private_reads@.len() && pkey(self.private_reads@[w]) == (
                            room_id@,
                            user_id@,
                        );
                    if w != i {
                        assert(pkey(self.private_reads@[w]) != pkey(self.private_reads@[i as int])
                            || w == i);
                    }
                }
                self.private_reads[i].updated_at
            },
            None => 0,
        }
    }
}

} // verus!
