//! The state resolver driver.
//!
//! Given a room, a room version, and an incoming candidate state keyed by
//! `ShortStateKey`, the driver loads the room's current state, assembles
//! the auth chain of each fork, turns each fork into a state map keyed by
//! `(event type, state key)`, dispatches to the version-specific resolution
//! algorithm under the process-wide resolution mutex, and compresses the
//! winner back into canonical records. The algorithm itself is a
//! collaborator behind [`StateResolver`]: the driver is verified to pass
//! its inputs through and compress whatever it returns, and to release the
//! mutex on every exit path.

use vstd::prelude::*;

use crate::error::Error;
use crate::short::{statekey_bytes, statekey_key, statekey_type};
use crate::state_compressor::CompressedStateEvent;
use crate::types::{EventId, RoomId, RoomVersionId, StateEventType, StateKey};

verus! {

/// One resolved state entry: `(event type, state key)` and the event that
/// holds that position.
pub struct StateMapEntry {
    pub event_type: StateEventType,
    pub state_key: StateKey,
    pub event_id: EventId,
}

/// A state map: a room's state at one point of the DAG.
pub struct StateMap {
    pub entries: Vec<StateMapEntry>,
}

/// The view of a state map: `(type, key, event id)` byte triples in order.
pub open spec fn state_map_view(m: StateMap) -> Seq<(Seq<u8>, Seq<u8>, Seq<u8>)> {
    m.entries@.map_values(|e: StateMapEntry| (e.event_type@, e.state_key@, e.event_id@))
}

/// The version-specific resolution algorithm, a collaborator. For a given
/// room version it is a pure function of the fork states and auth chains;
/// the driver assumes nothing about it beyond its signature.
pub trait StateResolver {
    fn resolve(
        &self,
        room_version_id: &RoomVersionId,
        fork_states: &Vec<StateMap>,
        auth_chain_sets: &Vec<Vec<Vec<u8>>>,
    ) -> Result<StateMap, Error>;
}

/// The process-wide state-resolution mutex: resolution's peak memory and
/// CPU are unbounded per call, so resolver invocations are serialized
/// across all rooms.
pub struct StateresMutex {
    pub held: bool,
}

impl StateresMutex {
    pub fn acquire(&mut self)
        requires
            !old(self).held,
        ensures
            final(self).held,
    {
        self.held = true;
    }

    pub fn release(&mut self)
        ensures
            !final(self).held,
    {
        self.held = false;
    }
}

/// What the fork transform keeps: each entry whose `ShortStateKey` still
/// resolves through the interner, decoded to its `(type, key)` pair;
/// entries whose key is unknown are silently dropped.
pub open spec fn fork_map_spec(
    m: crate::short::InternerModel,
    fork: Seq<(u64, EventId)>,
) -> Seq<(Seq<u8>, Seq<u8>, Seq<u8>)>
    decreases fork.len(),
{
    if fork.len() == 0 {
        Seq::empty()
    } else {
        let rest = fork_map_spec(m, fork.drop_first());
        match m.value_of(fork[0].0) {
            Some(enc) => seq![(statekey_type(enc), statekey_key(enc), fork[0].1@)] + rest,
            None => rest,
        }
    }
}

proof fn lemma_fork_map_push(
    m: crate::short::InternerModel,
    fork: Seq<(u64, EventId)>,
    x: (u64, EventId),
)
    ensures
        fork_map_spec(m, fork.push(x)) == fork_map_spec(m, fork) + (match m.value_of(x.0) {
            Some(enc) => seq![(statekey_type(enc), statekey_key(enc), x.1@)],
            None => Seq::<(Seq<u8>, Seq<u8>, Seq<u8>)>::empty(),
        }),
    decreases fork.len(),
{
    let ghost x_part = match m.value_of(x.0) {
        Some(enc) => seq![(statekey_type(enc), statekey_key(enc), x.1@)],
        None => Seq::<(Seq<u8>, Seq<u8>, Seq<u8>)>::empty(),
    };
    if fork.len() == 0 {
        assert(fork.push(x)[0] == x);
        assert(fork.push(x).drop_first() =~= Seq::<(u64, EventId)>::empty());
        assert(fork_map_spec(m, fork.push(x).drop_first()).len() == 0);
        assert(fork_map_spec(m, fork).len() == 0);
        assert(fork_map_spec(m, fork.push(x)) =~= fork_map_spec(m, fork) + x_part);
    } else {
        assert(fork.push(x)[0] == fork[0]);
        assert(fork.push(x).drop_first() =~= fork.drop_first().push(x));
        lemma_fork_map_push(m, fork.drop_first(), x);
        assert(fork_map_spec(m, fork.push(x).drop_first()) == fork_map_spec(
            m,
            fork.drop_first(),
        ) + x_part);
        assert(fork_map_spec(m, fork.push(x)) =~= fork_map_spec(m, fork) + x_part);
    }
}

/// Turn an integer-keyed fork state into a state map, resolving each
/// `ShortStateKey` through the interner and silently dropping entries whose
/// key no longer resolves (they cannot affect a resolution the local server
/// would accept).
pub fn fork_to_state_map(short: &crate::short::Service, fork: &Vec<(u64, EventId)>) -> (r:
    StateMap)
    requires
        short.wf(),
    ensures
        state_map_view(r) == fork_map_spec(short.shortstatekey@, fork@),
{
    let mut entries: Vec<StateMapEntry> = Vec::new();
    let mut i: usize = 0;
    proof {
        assert(fork@.take(0) =~= Seq::<(u64, EventId)>::empty());
    }
    while i < fork.len()
        invariant
            short.wf(),
            i <= fork@.len(),
            entries@.map_values(|e: StateMapEntry| (e.event_type@, e.state_key@, e.event_id@))
                == fork_map_spec(short.shortstatekey@, fork@.take(i as int)),
        decreases fork@.len() - i,
    {
        let ghost pre = entries@;
        match short.get_statekey_from_short(fork[i].0) {
            Ok((t, k)) => {
                let ghost tv = t@;
                let ghost kv = k@;
                let eid = fork[i].1.clone_id();
                let ghost ev = eid@;
                let tlen = t.bytes.len();
                proof {
                    assert(tv.len() == tlen);
                    crate::short::lemma_statekey_roundtrip(tv, kv);
                }
                entries.push(StateMapEntry { event_type: t, state_key: k, event_id: eid });
                proof {
                    lemma_fork_map_push(
                        short.shortstatekey@,
                        fork@.take(i as int),
                        fork@[i as int],
                    );
                    assert(fork@.take(i + 1) =~= fork@.take(i as int).push(fork@[i as int]));
                    let f = |e: StateMapEntry| (e.event_type@, e.state_key@, e.event_id@);
                    assert(entries@.map_values(f) =~= pre.map_values(f).push((tv, kv, ev))) by {
                        assert(entries@.drop_last() =~= pre);
                    }
                    assert(entries@.map_values(f) =~= fork_map_spec(
                        short.shortstatekey@,
                        fork@.take(i + 1),
                    ));
                }
            },
            Err(_) => {
                proof {
                    lemma_fork_map_push(
                        short.shortstatekey@,
                        fork@.take(i as int),
                        fork@[i as int],
                    );
                    assert(fork@.take(i + 1) =~= fork@.take(i as int).push(fork@[i as int]));
                    let f = |e: StateMapEntry| (e.event_type@, e.state_key@, e.event_id@);
                    assert(entries@.map_values(f) =~= fork_map_spec(
                        short.shortstatekey@,
                        fork@.take(i + 1),
                    ));
                }
            },
        }
        i = i + 1;
    }
    proof {
        assert(fork@.take(fork@.len() as int) =~= fork@);
    }
    StateMap { entries }
}

/// The state-key pair encodings of a resolved state map's entries, in
/// entry order.
pub open spec fn resolved_keys(rm: Seq<(Seq<u8>, Seq<u8>, Seq<u8>)>) -> Seq<Seq<u8>> {
    rm.map_values(|e: (Seq<u8>, Seq<u8>, Seq<u8>)| statekey_bytes(e.0, e.1))
}

/// The event-id bytes of a resolved state map's entries, in entry order.
pub open spec fn resolved_eids(rm: Seq<(Seq<u8>, Seq<u8>, Seq<u8>)>) -> Seq<Seq<u8>> {
    rm.map_values(|e: (Seq<u8>, Seq<u8>, Seq<u8>)| e.2)
}

/// The short state keys of a sequence of `(shortstatekey, event id)` pairs.
pub open spec fn pair_key_ids(pairs: Seq<(u64, EventId)>) -> Seq<u64> {
    pairs.map_values(|p: (u64, EventId)| p.0)
}

/// How a resolver's winner `rm` becomes the returned snapshot `out`: its
/// state keys are interned in entry order against the state-key namespace
/// (taking it from `sk0` to `skf`), its event ids against the event-id
/// namespace (`ev0` to `evf`), and `out` is the canonical sorted set of the
/// resulting `(shortstatekey, shorteventid)` records.
pub open spec fn commits(
    sk0: crate::short::InternerModel,
    ev0: crate::short::InternerModel,
    rm: Seq<(Seq<u8>, Seq<u8>, Seq<u8>)>,
    skf: crate::short::InternerModel,
    evf: crate::short::InternerModel,
    out: Seq<CompressedStateEvent>,
) -> bool {
    skf == sk0.multi_alloc_state(resolved_keys(rm)) && evf == ev0.multi_alloc_state(
        resolved_eids(rm),
    ) && sk0.multi_alloc_result(resolved_keys(rm)) is Ok && ev0.multi_alloc_result(
        resolved_eids(rm),
    ) is Ok && {
        let kids = sk0.multi_alloc_result(resolved_keys(rm))->Ok_0;
        let eids = ev0.multi_alloc_result(resolved_eids(rm))->Ok_0;
        let recs = Seq::new(rm.len(), |i: int| (kids[i], eids[i]));
        crate::state_compressor::unique_keys(recs) && crate::state_compressor::strictly_sorted(out)
            && out.to_multiset() == crate::state_compressor::to_records(recs).to_multiset()
    }
}

/// Intern the state key of each resolved entry, in entry order, pairing the
/// allocated short id with the entry's event id. Fails exactly when the
/// state-key namespace's batch allocation fails.
pub fn intern_resolved(short: &mut crate::short::Service, resolved: &StateMap) -> (r: Result<
    Vec<(u64, EventId)>,
    Error,
>)
    requires
        old(short).wf(),
    ensures
        final(short).wf(),
        final(short).shortstatekey@ == old(short).shortstatekey@.multi_alloc_state(
            resolved_keys(state_map_view(*resolved)),
        ),
        final(short).shorteventid == old(short).shorteventid,
        final(short).shortroomid == old(short).shortroomid,
        final(short).shortstatehash == old(short).shortstatehash,
        match r {
            Ok(pairs) => old(short).shortstatekey@.multi_alloc_result(
                resolved_keys(state_map_view(*resolved)),
            ) == Ok::<Seq<u64>, Error>(pair_key_ids(pairs@)) && pairs@.len() == state_map_view(
                *resolved,
            ).len() && crate::state_compressor::pair_eid_views(pairs@) == resolved_eids(
                state_map_view(*resolved),
            ),
            Err(e) => old(short).shortstatekey@.multi_alloc_result(
                resolved_keys(state_map_view(*resolved)),
            ) == Err::<Seq<u64>, Error>(e),
        },
{
    let ghost rm = state_map_view(*resolved);
    let ghost keys = resolved_keys(rm);
    let ghost m0 = short.shortstatekey@;
    let mut pairs: Vec<(u64, EventId)> = Vec::new();
    let mut i: usize = 0;
    proof {
        assert(keys.skip(0) =~= keys);
        assert(pair_key_ids(pairs@) + Seq::<u64>::empty() =~= pair_key_ids(pairs@));
    }
    while i < resolved.entries.len()
        invariant
            short.wf(),
            i <= resolved.entries@.len(),
            rm == state_map_view(*resolved),
            keys == resolved_keys(rm),
            rm.len() == resolved.entries@.len(),
            m0 == old(short).shortstatekey@,
            short.shorteventid == old(short).shorteventid,
            short.shortroomid == old(short).shortroomid,
            short.shortstatehash == old(short).shortstatehash,
            m0.multi_alloc_state(keys) == short.shortstatekey@.multi_alloc_state(
                keys.skip(i as int),
            ),
            pairs@.len() == i,
            forall|j: int| 0 <= j < i ==> (#[trigger] pairs@[j]).1@ == rm[j].2,
            m0.multi_alloc_result(keys) == match short.shortstatekey@.multi_alloc_result(
                keys.skip(i as int),
            ) {
                Ok(rest) => Ok::<Seq<u64>, Error>(pair_key_ids(pairs@) + rest),
                Err(e) => Err::<Seq<u64>, Error>(e),
            },
        decreases resolved.entries@.len() - i,
    {
        let ghost pre_model = short.shortstatekey@;
        let ghost pre_pairs = pairs@;
        let entry = &resolved.entries[i];
        proof {
            assert(rm[i as int] == (entry.event_type@, entry.state_key@, entry.event_id@));
            assert(keys[i as int] == statekey_bytes(entry.event_type@, entry.state_key@));
            assert(keys.skip(i as int)[0] == keys[i as int]);
        }
        match short.get_or_create_shortstatekey(&entry.event_type, &entry.state_key) {
            Ok((ssk, _)) => {
                pairs.push((ssk, entry.event_id.clone_id()));
                proof {
                    assert(keys.skip(i as int).drop_first() =~= keys.skip(i + 1));
                    assert(pair_key_ids(pairs@) =~= pair_key_ids(pre_pairs).push(ssk)) by {
                        assert(pair_key_ids(pre_pairs).len() == pre_pairs.len());
                        assert forall|j: int| 0 <= j < i + 1 implies pair_key_ids(pairs@)[j]
                            == pair_key_ids(pre_pairs).push(ssk)[j] by {
                            if j < i {
                                assert(pairs@[j] == pre_pairs[j]);
                            } else {
                                assert(pairs@[j].0 == ssk);
                            }
                        }
                    }
                    assert(m0.multi_alloc_result(keys) == match short.shortstatekey@.multi_alloc_result(
                        keys.skip(i + 1),
                    ) {
                        Ok(rest) => Ok::<Seq<u64>, Error>(pair_key_ids(pairs@) + rest),
                        Err(e) => Err::<Seq<u64>, Error>(e),
                    }) by {
                        match short.shortstatekey@.multi_alloc_result(keys.skip(i + 1)) {
                            Ok(rest) => {
                                assert(pair_key_ids(pairs@) + rest =~= pair_key_ids(pre_pairs) + (
                                seq![ssk] + rest));
                            },
                            Err(_) => {},
                        }
                    }
                }
            },
            Err(e) => {
                proof {
                    assert(pre_model.alloc_result(keys[i as int]) == Err::<(u64, bool), Error>(e));
                    assert(pre_model.multi_alloc_result(keys.skip(i as int)) == Err::<
                        Seq<u64>,
                        Error,
                    >(e));
                    assert(pre_model.next == u64::MAX);
                    crate::short::lemma_multi_alloc_exhausted(pre_model, keys.skip(i as int));
                    assert(short.shortstatekey@ == pre_model);
                }
                return Err(e);
            },
        }
        i = i + 1;
    }
    proof {
        assert(keys.skip(rm.len() as int) =~= Seq::<Seq<u8>>::empty());
        assert(pair_key_ids(pairs@) + Seq::<u64>::empty() =~= pair_key_ids(pairs@));
        assert(crate::state_compressor::pair_eid_views(pairs@) =~= resolved_eids(rm));
    }
    Ok(pairs)
}

/// The event-handler service: the short-id interner, the state store, the
/// event graph with its auth-chain assembler, and the resolution mutex.
pub struct Service {
    pub short: crate::short::Service,
    pub state: crate::state::Service,
    pub graph: crate::auth_chain::EventGraph,
    pub stateres_mutex: StateresMutex,
}

impl Service {
    pub open spec fn wf(self) -> bool {
        self.short.wf() && self.state.wf() && self.graph.wf() && !self.stateres_mutex.held
    }

    /// A cold service: no room pointers, no snapshots, no events, every
    /// interner namespace empty with its counter at 1, mutex free.
    pub fn build() -> (r: Service)
        ensures
            r.wf(),
            forall|room: Seq<u8>| r.state.room_hash(room) is None,
            r.state.snapshots@.len() == 0,
            r.graph.edges@.len() == 0,
            !r.stateres_mutex.held,
            r.short.shorteventid@ == (crate::short::InternerModel {
                fwd: Map::<Seq<u8>, u64>::empty(),
                next: 1u64,
            }),
            r.short.shortstatekey@ == (crate::short::InternerModel {
                fwd: Map::<Seq<u8>, u64>::empty(),
                next: 1u64,
            }),
            r.short.shortroomid@ == (crate::short::InternerModel {
                fwd: Map::<Seq<u8>, u64>::empty(),
                next: 1u64,
            }),
            r.short.shortstatehash@ == (crate::short::InternerModel {
                fwd: Map::<Seq<u8>, u64>::empty(),
                next: 1u64,
            }),
    {
        Service {
            short: crate::short::Service::build(),
            state: crate::state::Service::build(),
            graph: crate::auth_chain::EventGraph::new(),
            stateres_mutex: StateresMutex { held: false },
        }
    }

    /// Resolve the room's current state against an incoming candidate
    /// state and return the winning state as a compressed snapshot. The
    /// caller persists the snapshot and advances the room pointer.
    ///
    /// Fails with `NoStateForRoom` exactly when the room has no current
    /// state pointer; with `InternerLookupFailed` exactly when the room's
    /// own current state cannot be expanded; with `StateResolutionFailed`
    /// when the resolver reports an error; with `Storage` or
    /// `DuplicateStateKey` when interning or compressing the winner fails.
    /// On success the snapshot is the commit of the resolver's winner
    /// ([`commits`]); the store is never written except for interner
    /// allocations, and not at all on failures before the commit. On every
    /// exit path the resolution mutex is released.
    pub fn resolve_state<R: StateResolver>(
        &mut self,
        room_id: &RoomId,
        room_version_id: &RoomVersionId,
        incoming_state: &Vec<(u64, EventId)>,
        resolver: &R,
    ) -> (r: Result<Vec<CompressedStateEvent>, Error>)
        requires
            old(self).wf(),
        ensures
            !final(self).stateres_mutex.held,
            final(self).wf(),
            final(self).state == old(self).state,
            final(self).graph == old(self).graph,
            final(self).short.shortroomid == old(self).short.shortroomid,
            final(self).short.shortstatehash == old(self).short.shortstatehash,
            crate::short::service_extends(old(self).short, final(self).short),
            (r == Err::<Vec<CompressedStateEvent>, Error>(Error::NoStateForRoom)) <==> old(
                self,
            ).state.room_hash(room_id@) is None,
            (r == Err::<Vec<CompressedStateEvent>, Error>(Error::InternerLookupFailed)) <==> (old(
                self,
            ).state.room_hash(room_id@) is Some && crate::state::expansion_fails(
                old(self).state.snapshots@,
                old(self).short.shorteventid@,
                old(self).state.room_hash(room_id@)->Some_0,
            )),
            (r == Err::<Vec<CompressedStateEvent>, Error>(Error::NoStateForRoom) || r == Err::<
                Vec<CompressedStateEvent>,
                Error,
            >(Error::InternerLookupFailed) || r == Err::<Vec<CompressedStateEvent>, Error>(
                Error::StateResolutionFailed,
            )) ==> final(self).short == old(self).short,
            match r {
                Ok(out) => crate::state_compressor::strictly_sorted(out@) && (exists|
                    rm: Seq<(Seq<u8>, Seq<u8>, Seq<u8>)>,
                |
                    commits(
                        old(self).short.shortstatekey@,
                        old(self).short.shorteventid@,
                        rm,
                        final(self).short.shortstatekey@,
                        final(self).short.shorteventid@,
                        out@,
                    )),
                Err(_) => true,
            },
    {
        let current_sstatehash = match self.state.get_room_shortstatehash(room_id) {
            Ok(h) => h,
            Err(_) => {
                return Err(Error::NoStateForRoom);
            },
        };
        let current_state_ids = match self.state.state_full_ids(&self.short, current_sstatehash) {
            Ok(ids) => ids,
            Err(_) => {
                return Err(Error::InternerLookupFailed);
            },
        };

        // the auth chain of each fork, seeded by the fork's event ids
        let mut auth_chain_sets: Vec<Vec<Vec<u8>>> = Vec::new();
        let seeds_current = fork_event_ids(&current_state_ids);
        auth_chain_sets.push(crate::auth_chain::get_event_ids(&self.graph, &seeds_current));
        let seeds_incoming = fork_event_ids(incoming_state);
        auth_chain_sets.push(crate::auth_chain::get_event_ids(&self.graph, &seeds_incoming));

        // each fork as a state map, unknown short state keys dropped
        let mut fork_states: Vec<StateMap> = Vec::new();
        fork_states.push(fork_to_state_map(&self.short, &current_state_ids));
        fork_states.push(fork_to_state_map(&self.short, incoming_state));

        // the resolver runs as a global critical section
        self.stateres_mutex.acquire();
        let resolved = resolver.resolve(room_version_id, &fork_states, &auth_chain_sets);
        self.stateres_mutex.release();

        let resolved = match resolved {
            Ok(m) => m,
            Err(_) => {
                return Err(Error::StateResolutionFailed);
            },
        };

        // commit: intern the winner's state keys in entry order, then its
        // event ids, and compress into the canonical snapshot
        let ghost rm = state_map_view(resolved);
        let ghost sk0 = self.short.shortstatekey@;
        let ghost ev0 = self.short.shorteventid@;
        let pairs = match intern_resolved(&mut self.short, &resolved) {
            Ok(p) => p,
            Err(e) => {
                proof {
                    crate::short::lemma_multi_alloc_err_storage(sk0, resolved_keys(rm));
                    crate::short::lemma_multi_alloc_extends(sk0, resolved_keys(rm));
                }
                return Err(e);
            },
        };
        match crate::state_compressor::compress_state_events(&mut self.short, &pairs) {
            Ok(new_room_state) => {
                proof {
                    crate::short::lemma_multi_alloc_extends(sk0, resolved_keys(rm));
                    crate::short::lemma_multi_alloc_extends(ev0, resolved_eids(rm));
                    let kids = sk0.multi_alloc_result(resolved_keys(rm))->Ok_0;
                    let eids = ev0.multi_alloc_result(resolved_eids(rm))->Ok_0;
                    let recs = Seq::new(rm.len(), |i: int| (kids[i], eids[i]));
                    assert(crate::state_compressor::paired_records(pairs@, eids) =~= recs) by {
                        assert(kids == pair_key_ids(pairs@));
                        assert forall|j: int| 0 <= j < rm.len() implies
                            crate::state_compressor::paired_records(pairs@, eids)[j] == recs[j] by {
                            assert(pairs@[j].0 == pair_key_ids(pairs@)[j]);
                        }
                    }
                    assert(commits(
                        sk0,
                        ev0,
                        rm,
                        final(self).short.shortstatekey@,
                        final(self).short.shorteventid@,
                        new_room_state@,
                    ));
                }
                Ok(new_room_state)
            },
            Err(e) => {
                proof {
                    crate::short::lemma_multi_alloc_err_storage(
                        ev0,
                        crate::state_compressor::pair_eid_views(pairs@),
                    );
                    crate::short::lemma_multi_alloc_extends(sk0, resolved_keys(rm));
                    crate::short::lemma_multi_alloc_extends(
                        ev0,
                        crate::state_compressor::pair_eid_views(pairs@),
                    );
                    assert(e == Error::Storage || e == Error::DuplicateStateKey);
                }
                Err(e)
            },
        }
    }
}

/// The event ids a fork contributes as auth-chain seeds.
fn fork_event_ids(fork: &Vec<(u64, EventId)>) -> (r: Vec<Vec<u8>>)
    ensures
        crate::short::byte_views(r@) == fork@.map_values(|p: (u64, EventId)| p.1@),
{
    let mut out: Vec<Vec<u8>> = Vec::new();
    let mut i: usize = 0;
    while i < fork.len()
        invariant
            i <= fork@.len(),
            crate::short::byte_views(out@) == fork@.map_values(|p: (u64, EventId)| p.1@).take(
                i as int,
            ),
        decreases fork@.len() - i,
    {
        let c = crate::bytes::clone_bytes(&fork[i].1.bytes);
        let ghost cv = c@;
        let ghost pre = out@;
        out.push(c);
        proof {
            let views = fork@.map_values(|p: (u64, EventId)| p.1@);
            assert(crate::short::byte_views(pre).len() == pre.len());
            assert forall|j: int| 0 <= j < i + 1 implies crate::short::byte_views(out@)[j]
                == views.take(i + 1)[j] by {
                if j < i {
                    assert(crate::short::byte_views(pre)[j] == views.take(i as int)[j]);
                    assert(out@[j] == pre[j]);
                } else {
                    assert(out@[j]@ == cv);
                    assert(views[j] == fork@[j].1@);
                }
            }
            assert(crate::short::byte_views(out@) =~= views.take(i + 1));
        }
        i = i + 1;
    }
    proof {
        let views = fork@.map_values(|p: (u64, EventId)| p.1@);
        assert(views.take(fork@.len() as int) =~= views);
    }
    out
}

/// Boundary law for winners over known ids: when every entry of the
/// resolver's winner is already interned — the standing invariant for state
/// assembled from stored events — the commit allocates nothing and the
/// returned snapshot is exactly the canonical sorted set of the winner's
/// existing ids. In particular, a winner equal to the room's current state
/// (as when the incoming fork is empty, or identical to the current one, or
/// the two forks agree) commits to the current snapshot itself.
pub proof fn lemma_commit_of_interned(
    sk: crate::short::InternerModel,
    ev: crate::short::InternerModel,
    rm: Seq<(Seq<u8>, Seq<u8>, Seq<u8>)>,
    kids: Seq<u64>,
    eids: Seq<u64>,
    skf: crate::short::InternerModel,
    evf: crate::short::InternerModel,
    out: Seq<CompressedStateEvent>,
    snap: Seq<CompressedStateEvent>,
)
    requires
        kids.len() == rm.len(),
        eids.len() == rm.len(),
        forall|i: int|
            0 <= i < rm.len() ==> sk.fwd.contains_key(
                statekey_bytes((#[trigger] rm[i]).0, rm[i].1),
            ) && sk.fwd[statekey_bytes(rm[i].0, rm[i].1)] == kids[i],
        forall|i: int|
            0 <= i < rm.len() ==> ev.fwd.contains_key((#[trigger] rm[i]).2) && ev.fwd[rm[i].2]
                == eids[i],
        commits(sk, ev, rm, skf, evf, out),
        crate::state_compressor::strictly_sorted(snap),
        snap.to_multiset() == crate::state_compressor::to_records(
            Seq::new(rm.len(), |i: int| (kids[i], eids[i])),
        ).to_multiset(),
    ensures
        skf == sk,
        evf == ev,
        out == snap,
{
    assert forall|i: int| 0 <= i < resolved_keys(rm).len() implies sk.fwd.contains_key(
        #[trigger] resolved_keys(rm)[i],
    ) && sk.fwd[resolved_keys(rm)[i]] == kids[i] by {
        assert(resolved_keys(rm)[i] == statekey_bytes(rm[i].0, rm[i].1));
    }
    crate::short::lemma_multi_alloc_interned(sk, resolved_keys(rm), kids);
    assert forall|i: int| 0 <= i < resolved_eids(rm).len() implies ev.fwd.contains_key(
        #[trigger] resolved_eids(rm)[i],
    ) && ev.fwd[resolved_eids(rm)[i]] == eids[i] by {
        assert(resolved_eids(rm)[i] == rm[i].2);
    }
    crate::short::lemma_multi_alloc_interned(ev, resolved_eids(rm), eids);
    let leq = |a: CompressedStateEvent, b: CompressedStateEvent| crate::state_compressor::record_le(
        a,
        b,
    );
    assert(vstd::relations::total_ordering(leq));
    assert(vstd::relations::sorted_by(out, leq)) by {
        assert forall|i: int, j: int| 0 <= i < j < out.len() implies leq(out[i], out[j]) by {}
    }
    assert(vstd::relations::sorted_by(snap, leq)) by {
        assert forall|i: int, j: int| 0 <= i < j < snap.len() implies leq(snap[i], snap[j]) by {}
    }
    vstd::seq_lib::lemma_sorted_unique(out, snap, leq);
}

/// Resolution determinism law: the committed snapshot is a function of the
/// two interner namespaces and the resolver's winner. Two resolutions over
/// identical storage state whose resolver returned the same winner yield
/// byte-for-byte equal snapshots and identical interner states; full
/// repeat-determinism of the driver then rests only on the collaborating
/// resolver being the pure function its specification declares it to be.
pub proof fn lemma_commit_deterministic(
    sk0: crate::short::InternerModel,
    ev0: crate::short::InternerModel,
    rm: Seq<(Seq<u8>, Seq<u8>, Seq<u8>)>,
    skf1: crate::short::InternerModel,
    evf1: crate::short::InternerModel,
    out1: Seq<CompressedStateEvent>,
    skf2: crate::short::InternerModel,
    evf2: crate::short::InternerModel,
    out2: Seq<CompressedStateEvent>,
)
    requires
        commits(sk0, ev0, rm, skf1, evf1, out1),
        commits(sk0, ev0, rm, skf2, evf2, out2),
    ensures
        out1 == out2,
        skf1 == skf2,
        evf1 == evf2,
        crate::state_compressor::snapshot_bytes(out1) == crate::state_compressor::snapshot_bytes(
            out2,
        ),
{
    let leq = |a: CompressedStateEvent, b: CompressedStateEvent| crate::state_compressor::record_le(
        a,
        b,
    );
    assert(vstd::relations::total_ordering(leq));
    assert(vstd::relations::sorted_by(out1, leq)) by {
        assert forall|i: int, j: int| 0 <= i < j < out1.len() implies leq(out1[i], out1[j]) by {}
    }
    assert(vstd::relations::sorted_by(out2, leq)) by {
        assert forall|i: int, j: int| 0 <= i < j < out2.len() implies leq(out2[i], out2[j]) by {}
    }
    vstd::seq_lib::lemma_sorted_unique(out1, out2, leq);
}

} // verus!
