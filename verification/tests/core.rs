use stateres_core::auth_chain::{get_event_ids, EventGraph};
use stateres_core::error::Error;
use stateres_core::event_handler::{Service, StateMap, StateMapEntry, StateResolver};
use stateres_core::kv::{cache_read_options_default, ColumnFamily};
use stateres_core::short::Interner;
use stateres_core::state_compressor::{compress_records, state_hash, CompressedStateEvent};
use stateres_core::types::{EventId, RoomId, RoomVersionId, StateEventType, StateKey, UserId};

fn bv(s: &str) -> Vec<u8> {
    s.as_bytes().to_vec()
}

/// A test resolver that returns a copy of the chosen fork state.
struct PickFork(usize);

impl StateResolver for PickFork {
    fn resolve(
        &self,
        _room_version_id: &RoomVersionId,
        fork_states: &Vec<StateMap>,
        _auth_chain_sets: &Vec<Vec<Vec<u8>>>,
    ) -> Result<StateMap, Error> {
        let fork = &fork_states[self.0];
        let mut entries = Vec::new();
        for e in fork.entries.iter() {
            entries.push(StateMapEntry {
                event_type: StateEventType::new(e.event_type.bytes.clone()),
                state_key: StateKey::new(e.state_key.bytes.clone()),
                event_id: EventId::new(e.event_id.bytes.clone()),
            });
        }
        Ok(StateMap { entries })
    }
}

/// A test resolver that always fails.
struct FailingResolver;

impl StateResolver for FailingResolver {
    fn resolve(
        &self,
        _room_version_id: &RoomVersionId,
        _fork_states: &Vec<StateMap>,
        _auth_chain_sets: &Vec<Vec<Vec<u8>>>,
    ) -> Result<StateMap, Error> {
        Err(Error::StateResolutionFailed)
    }
}

#[test]
fn cold_interner_round_trip() {
    let mut svc = stateres_core::short::Service::build();
    let a = EventId::new(bv("$a:x"));
    assert_eq!(svc.get_or_create_shorteventid(&a).unwrap(), (1, false));
    assert_eq!(svc.get_or_create_shorteventid(&a).unwrap(), (1, true));
    let back = svc.get_eventid_from_short(1).unwrap();
    assert_eq!(back.bytes, bv("$a:x"));
    let b = EventId::new(bv("$b:x"));
    assert_eq!(svc.get_or_create_shorteventid(&b).unwrap(), (2, false));
}

#[test]
fn interner_injective_and_reverse_miss() {
    let mut svc = stateres_core::short::Service::build();
    let (i1, _) = svc.get_or_create_shorteventid(&EventId::new(bv("$a:x"))).unwrap();
    let (i2, _) = svc.get_or_create_shorteventid(&EventId::new(bv("$b:x"))).unwrap();
    assert_ne!(i1, i2);
    assert_eq!(svc.get_eventid_from_short(99).unwrap_err(), Error::UnknownShortId);
}

#[test]
fn statekey_round_trip() {
    let mut svc = stateres_core::short::Service::build();
    let t = StateEventType::new(bv("m.room.member"));
    let k = StateKey::new(bv("@u:x"));
    assert_eq!(svc.get_shortstatekey(&t, &k), None);
    let (id, existed) = svc.get_or_create_shortstatekey(&t, &k).unwrap();
    assert!(!existed);
    assert_eq!(svc.get_shortstatekey(&t, &k), Some(id));
    let (t2, k2) = svc.get_statekey_from_short(id).unwrap();
    assert_eq!(t2.bytes, bv("m.room.member"));
    assert_eq!(k2.bytes, bv("@u:x"));
}

#[test]
fn multi_get_or_create_aligns() {
    let mut svc = stateres_core::short::Service::build();
    let ids = svc
        .multi_get_or_create_shorteventid(&vec![
            EventId::new(bv("$a:x")),
            EventId::new(bv("$b:x")),
            EventId::new(bv("$a:x")),
        ])
        .unwrap();
    assert_eq!(ids, vec![1, 2, 1]);
}

#[test]
fn interner_counter_exhaustion() {
    let mut it = Interner::build_at(u64::MAX - 1);
    assert_eq!(it.get_or_create(&bv("v1")).unwrap(), (u64::MAX - 1, false));
    assert_eq!(it.get_or_create(&bv("v2")).unwrap_err(), Error::Storage);
    // the existing value is still served
    assert_eq!(it.get_or_create(&bv("v1")).unwrap(), (u64::MAX - 1, true));
}

#[test]
fn concurrent_identical_interning_one_creation() {
    // get_or_create is linearizable per namespace; sixteen racing calls
    // serialize, exactly one observing the allocation
    let mut svc = stateres_core::short::Service::build();
    let z = EventId::new(bv("$z:x"));
    let mut created = 0;
    let mut ids = Vec::new();
    for _ in 0..16 {
        let (id, existed) = svc.get_or_create_shorteventid(&z).unwrap();
        if !existed {
            created += 1;
        }
        ids.push(id);
    }
    assert_eq!(created, 1);
    assert!(ids.iter().all(|&i| i == ids[0]));
}

#[test]
fn compress_is_permutation_invariant() {
    let s1 = vec![(3u64, 30u64), (1, 10), (2, 20)];
    let s2 = vec![(2u64, 20u64), (3, 30), (1, 10)];
    let o1 = compress_records(&s1).unwrap();
    let o2 = compress_records(&s2).unwrap();
    assert_eq!(o1, o2);
    assert_eq!(o1[0], CompressedStateEvent { shortstatekey: 1, shorteventid: 10 });
    assert_eq!(o1[1], CompressedStateEvent { shortstatekey: 2, shorteventid: 20 });
    assert_eq!(o1[2], CompressedStateEvent { shortstatekey: 3, shorteventid: 30 });
}

#[test]
fn compress_duplicate_state_key_errors() {
    let s = vec![(1u64, 10u64), (1, 11)];
    assert_eq!(compress_records(&s).unwrap_err(), Error::DuplicateStateKey);
}

#[test]
fn state_hash_is_sha256_of_snapshot_bytes() {
    // SHA-256 of the empty byte string
    let expected: [u8; 32] = [
        0xe3, 0xb0, 0xc4, 0x42, 0x98, 0xfc, 0x1c, 0x14, 0x9a, 0xfb, 0xf4, 0xc8, 0x99, 0x6f,
        0xb9, 0x24, 0x27, 0xae, 0x41, 0xe4, 0x64, 0x9b, 0x93, 0x4c, 0xa4, 0x95, 0x99, 0x1b,
        0x78, 0x52, 0xb8, 0x55,
    ];
    assert_eq!(state_hash(&Vec::new()), expected.to_vec());
    // a non-empty snapshot hashes differently
    let snap = compress_records(&vec![(1u64, 2u64)]).unwrap();
    assert_ne!(state_hash(&snap), expected.to_vec());
    assert_eq!(state_hash(&snap).len(), 32);
}

#[test]
fn auth_chain_closure_and_cycle_termination() {
    let mut g = EventGraph::new();
    g.add_event(bv("$a"), vec![bv("$b")]);
    g.add_event(bv("$b"), vec![bv("$a"), bv("$c")]);
    // $c is missing from the store: tolerated, contributes no edges
    let chain = get_event_ids(&g, &vec![bv("$a")]);
    let mut got: Vec<Vec<u8>> = chain;
    got.sort();
    assert_eq!(got, vec![bv("$a"), bv("$b"), bv("$c")]);
}

#[test]
fn auth_chain_empty_seeds() {
    let g = EventGraph::new();
    let chain = get_event_ids(&g, &Vec::new());
    assert!(chain.is_empty());
}

#[test]
fn kv_streams_in_order() {
    let mut cf = ColumnFamily::new();
    cf.insert(bv("b"), bv("2"));
    cf.insert(bv("a"), bv("1"));
    cf.insert(bv("c"), bv("3"));
    cf.insert(bv("a"), bv("9")); // replace
    let mut items = cf.raw_stream();
    let mut keys = Vec::new();
    let mut vals = Vec::new();
    while let Some((k, v)) = items.next() {
        keys.push(k);
        vals.push(v);
    }
    assert_eq!(keys, vec![bv("a"), bv("b"), bv("c")]);
    assert_eq!(vals, vec![bv("9"), bv("2"), bv("3")]);
    let mut rev = cf.rev_raw_stream();
    let mut rkeys = Vec::new();
    while let Some((k, _)) = rev.next() {
        rkeys.push(k);
    }
    assert_eq!(rkeys, vec![bv("c"), bv("b"), bv("a")]);
}

#[test]
fn kv_cache_probe() {
    let mut cf = ColumnFamily::new();
    // an empty family answers the probe
    assert!(stateres_core::stream::_is_cached(&cf));
    assert!(stateres_core::rev_stream::_is_cached(&cf));
    cf.insert(bv("k"), bv("v"));
    // fresh writes are cache-resident
    assert!(stateres_core::stream::_is_cached(&cf));
    cf.evict();
    assert!(!stateres_core::stream::_is_cached(&cf));
    assert!(!stateres_core::rev_stream::_is_cached(&cf));
    let opts = cache_read_options_default();
    assert!(opts.cache_only);
}

fn setup_room(svc: &mut Service, room: &str, event: &str) -> (u64, u64, u64) {
    let (seid, _) = svc.short.get_or_create_shorteventid(&EventId::new(bv(event))).unwrap();
    let (ssk, _) = svc
        .short
        .get_or_create_shortstatekey(
            &StateEventType::new(bv("m.room.name")),
            &StateKey::new(bv("")),
        )
        .unwrap();
    let records = compress_records(&vec![(ssk, seid)]).unwrap();
    let hash = state_hash(&records);
    let (h, existed) = svc.short.get_or_create_shortstatehash(&hash).unwrap();
    assert!(!existed);
    svc.state.insert_snapshot(h, records);
    svc.state.update_room_shortstatehash(&RoomId::new(bv(room)), h);
    (seid, ssk, h)
}

#[test]
fn resolve_no_state_for_room() {
    let mut svc = Service::build();
    let r = svc.resolve_state(
        &RoomId::new(bv("!unknown:x")),
        &RoomVersionId::new(bv("11")),
        &Vec::new(),
        &PickFork(0),
    );
    assert_eq!(r.unwrap_err(), Error::NoStateForRoom);
}

#[test]
fn resolve_empty_incoming_returns_current() {
    let mut svc = Service::build();
    let (seid, ssk, _) = setup_room(&mut svc, "!r:x", "$n1:x");
    let out = svc
        .resolve_state(
            &RoomId::new(bv("!r:x")),
            &RoomVersionId::new(bv("11")),
            &Vec::new(),
            &PickFork(0),
        )
        .unwrap();
    assert_eq!(out, vec![CompressedStateEvent { shortstatekey: ssk, shorteventid: seid }]);
}

#[test]
fn resolve_identical_incoming_returns_current() {
    let mut svc = Service::build();
    let (seid, ssk, _) = setup_room(&mut svc, "!r:x", "$n1:x");
    let incoming = vec![(ssk, EventId::new(bv("$n1:x")))];
    let out = svc
        .resolve_state(
            &RoomId::new(bv("!r:x")),
            &RoomVersionId::new(bv("11")),
            &incoming,
            &PickFork(1),
        )
        .unwrap();
    assert_eq!(out, vec![CompressedStateEvent { shortstatekey: ssk, shorteventid: seid }]);
}

#[test]
fn resolve_two_fork_agreement() {
    let mut svc = Service::build();
    let (seid, ssk, _) = setup_room(&mut svc, "!r:x", "$n1:x");
    let incoming = vec![(ssk, EventId::new(bv("$n1:x")))];
    // both forks agree; whichever the algorithm picks, the snapshot is the
    // single agreed record
    for pick in 0..2 {
        let out = svc
            .resolve_state(
                &RoomId::new(bv("!r:x")),
                &RoomVersionId::new(bv("11")),
                &incoming,
                &PickFork(pick),
            )
            .unwrap();
        assert_eq!(out, vec![CompressedStateEvent { shortstatekey: ssk, shorteventid: seid }]);
    }
}

#[test]
fn resolve_two_fork_conflict_winner_passes_through() {
    let mut svc = Service::build();
    let (_seid1, ssk, _) = setup_room(&mut svc, "!r:x", "$n1:x");
    let (seid2, _) = svc.short.get_or_create_shorteventid(&EventId::new(bv("$n2:x"))).unwrap();
    let incoming = vec![(ssk, EventId::new(bv("$n2:x")))];
    // the algorithm (here: incoming fork wins) selects $n2; the driver must
    // faithfully return the winner
    let out = svc
        .resolve_state(
            &RoomId::new(bv("!r:x")),
            &RoomVersionId::new(bv("11")),
            &incoming,
            &PickFork(1),
        )
        .unwrap();
    assert_eq!(out, vec![CompressedStateEvent { shortstatekey: ssk, shorteventid: seid2 }]);
}

#[test]
fn resolve_drops_unknown_shortstatekey() {
    let mut svc = Service::build();
    setup_room(&mut svc, "!r:x", "$n1:x");
    // 999 was never interned: the entry is dropped before resolution
    let incoming = vec![(999u64, EventId::new(bv("$n2:x")))];
    let out = svc
        .resolve_state(
            &RoomId::new(bv("!r:x")),
            &RoomVersionId::new(bv("11")),
            &incoming,
            &PickFork(1),
        )
        .unwrap();
    assert!(out.is_empty());
}

#[test]
fn resolve_releases_mutex_on_failure() {
    let mut svc = Service::build();
    setup_room(&mut svc, "!r:x", "$n1:x");
    let r = svc.resolve_state(
        &RoomId::new(bv("!r:x")),
        &RoomVersionId::new(bv("11")),
        &Vec::new(),
        &FailingResolver,
    );
    assert_eq!(r.unwrap_err(), Error::StateResolutionFailed);
    assert!(!svc.stateres_mutex.held);
    // and on success
    let _ = svc
        .resolve_state(
            &RoomId::new(bv("!r:x")),
            &RoomVersionId::new(bv("11")),
            &Vec::new(),
            &PickFork(0),
        )
        .unwrap();
    assert!(!svc.stateres_mutex.held);
}

#[test]
fn resolution_is_deterministic_across_repeats() {
    let mut svc = Service::build();
    let (_, ssk, _) = setup_room(&mut svc, "!r:x", "$n1:x");
    let incoming = vec![(ssk, EventId::new(bv("$n1:x")))];
    let out1 = svc
        .resolve_state(
            &RoomId::new(bv("!r:x")),
            &RoomVersionId::new(bv("11")),
            &incoming,
            &PickFork(1),
        )
        .unwrap();
    let out2 = svc
        .resolve_state(
            &RoomId::new(bv("!r:x")),
            &RoomVersionId::new(bv("11")),
            &incoming,
            &PickFork(1),
        )
        .unwrap();
    assert_eq!(out1, out2);
}

#[test]
fn lazy_load_mark_confirm_reset() {
    let mut svc = stateres_core::lazy_loading::Service::build();
    let u = UserId::new(bv("@u:x"));
    let d = bv("DEV");
    let r = RoomId::new(bv("!r:x"));
    let ll = UserId::new(bv("@other:x"));
    assert!(!svc.lazy_load_was_sent_before(&u, &d, &r, &ll));
    svc.lazy_load_mark_sent(&u, &d, &r, vec![bv("@other:x")], 7);
    // confirming a different count is ignored
    svc.lazy_load_confirm_delivery(&u, &d, &r, 8).unwrap();
    assert!(!svc.lazy_load_was_sent_before(&u, &d, &r, &ll));
    // confirming the marked count persists the members
    svc.lazy_load_confirm_delivery(&u, &d, &r, 7).unwrap();
    assert!(svc.lazy_load_was_sent_before(&u, &d, &r, &ll));
    // a second confirm of the same count is ignored (at-most-once mark)
    svc.lazy_load_confirm_delivery(&u, &d, &r, 7).unwrap();
    svc.lazy_load_reset(&u, &d, &r).unwrap();
    assert!(!svc.lazy_load_was_sent_before(&u, &d, &r, &ll));
}

#[test]
fn state_full_ids_expands_snapshot() {
    let mut svc = Service::build();
    let (seid, ssk, h) = setup_room(&mut svc, "!r:x", "$n1:x");
    let full = svc.state.state_full_ids(&svc.short, h).unwrap();
    assert_eq!(full.len(), 1);
    assert_eq!(full[0].0, ssk);
    assert_eq!(full[0].1.bytes, bv("$n1:x"));
    assert_eq!(seid, 1);
    assert_eq!(
        svc.state.state_full_ids(&svc.short, 424242).unwrap_err(),
        Error::UnknownShortId
    );
}

#[test]
fn be64_codec_round_trip() {
    let v = stateres_core::bytes::u64_to_be(0x0102030405060708);
    assert_eq!(v, vec![1, 2, 3, 4, 5, 6, 7, 8]);
    assert_eq!(stateres_core::bytes::u64_from_be(&v), 0x0102030405060708);
}

#[test]
fn error_names() {
    assert_eq!(Error::NoStateForRoom.as_str(), "no state for room");
    assert_eq!(Error::Storage.as_str(), "storage error");
    assert_eq!(Error::UnknownShortId.as_str(), "unknown short id");
    assert_eq!(Error::DuplicateStateKey.as_str(), "duplicate state key");
    assert_eq!(Error::AuthChainIncomplete.as_str(), "auth chain incomplete");
}

#[test]
fn readreceipt_update_replaces_previous() {
    let mut svc = stateres_core::read_receipt::Service::build();
    let u = UserId::new(bv("@u:x"));
    let r = RoomId::new(bv("!r:x"));
    let c1 = svc.readreceipt_update(&u, &r, bv("{ev1}")).unwrap();
    let c2 = svc.readreceipt_update(&u, &r, bv("{ev2}")).unwrap();
    assert!(c2 > c1);
    let since = svc.readreceipts_since(&r, 0);
    assert_eq!(since.len(), 1);
    assert_eq!(since[0].0, bv("@u:x"));
    assert_eq!(since[0].1, c2);
    assert_eq!(since[0].2, bv("{ev2}"));
    // nothing after the latest count
    assert!(svc.readreceipts_since(&r, c2).is_empty());
}

#[test]
fn private_read_markers() {
    let mut svc = stateres_core::read_receipt::Service::build();
    let u = UserId::new(bv("@u:x"));
    let r = RoomId::new(bv("!r:x"));
    assert_eq!(svc.private_read_get(&r, &u), None);
    assert_eq!(svc.last_privateread_update(&u, &r), 0);
    svc.private_read_set(&r, &u, 41).unwrap();
    let stamp1 = svc.last_privateread_update(&u, &r);
    assert_eq!(svc.private_read_get(&r, &u), Some(41));
    svc.private_read_set(&r, &u, 42).unwrap();
    assert_eq!(svc.private_read_get(&r, &u), Some(42));
    assert!(svc.last_privateread_update(&u, &r) > stamp1);
}

#[test]
fn lazy_load_reset_keeps_other_devices() {
    let mut svc = stateres_core::lazy_loading::Service::build();
    let u = UserId::new(bv("@u:x"));
    let d1 = bv("DEV1");
    let d2 = bv("DEV2");
    let r = RoomId::new(bv("!r:x"));
    let ll = UserId::new(bv("@other:x"));
    svc.lazy_load_mark_sent(&u, &d1, &r, vec![bv("@other:x")], 1);
    svc.lazy_load_confirm_delivery(&u, &d1, &r, 1).unwrap();
    svc.lazy_load_mark_sent(&u, &d2, &r, vec![bv("@other:x")], 2);
    svc.lazy_load_confirm_delivery(&u, &d2, &r, 2).unwrap();
    svc.lazy_load_reset(&u, &d1, &r).unwrap();
    assert!(!svc.lazy_load_was_sent_before(&u, &d1, &r, &ll));
    // the other device's records survive the reset
    assert!(svc.lazy_load_was_sent_before(&u, &d2, &r, &ll));
}

#[test]
fn lazy_load_mark_sent_keeps_other_marks() {
    let mut svc = stateres_core::lazy_loading::Service::build();
    let u = UserId::new(bv("@u:x"));
    let d = bv("DEV");
    let r = RoomId::new(bv("!r:x"));
    svc.lazy_load_mark_sent(&u, &d, &r, vec![bv("@a:x")], 1);
    // a mark under another count must not disturb the first
    svc.lazy_load_mark_sent(&u, &d, &r, vec![bv("@b:x")], 2);
    let a = UserId::new(bv("@a:x"));
    let b = UserId::new(bv("@b:x"));
    svc.lazy_load_confirm_delivery(&u, &d, &r, 1).unwrap();
    assert!(svc.lazy_load_was_sent_before(&u, &d, &r, &a));
    assert!(!svc.lazy_load_was_sent_before(&u, &d, &r, &b));
    svc.lazy_load_confirm_delivery(&u, &d, &r, 2).unwrap();
    assert!(svc.lazy_load_was_sent_before(&u, &d, &r, &b));
}

#[test]
fn confirm_delivery_persists_exactly_the_members() {
    let mut svc = stateres_core::lazy_loading::Service::build();
    let u = UserId::new(bv("@u:x"));
    let d = bv("DEV");
    let r = RoomId::new(bv("!r:x"));
    svc.lazy_load_mark_sent(&u, &d, &r, vec![bv("@a:x"), bv("@b:x")], 5);
    svc.lazy_load_confirm_delivery(&u, &d, &r, 5).unwrap();
    // exactly the two marked members, nothing else
    assert_eq!(svc.lazy_load_sent.len(), 2);
    assert!(!svc.lazy_load_was_sent_before(&u, &d, &r, &UserId::new(bv("@c:x"))));
}

#[test]
fn resolve_interner_untouched_on_early_failure() {
    let mut svc = Service::build();
    // no state for the room: the interner namespaces stay exactly as before
    let before = svc.short.shortstatekey.next;
    let incoming = vec![(1u64, EventId::new(bv("$n:x")))];
    let res = svc.resolve_state(
        &RoomId::new(bv("!none:x")),
        &RoomVersionId::new(bv("11")),
        &incoming,
        &PickFork(1),
    );
    assert_eq!(res.unwrap_err(), Error::NoStateForRoom);
    assert_eq!(svc.short.shortstatekey.next, before);
    assert_eq!(svc.short.shorteventid.next, 1);
}

#[test]
fn resolve_interner_lookup_failed_on_bad_snapshot() {
    let mut svc = Service::build();
    // a room pointer to a snapshot that was never stored
    svc.state.update_room_shortstatehash(&RoomId::new(bv("!r:x")), 77);
    let res = svc.resolve_state(
        &RoomId::new(bv("!r:x")),
        &RoomVersionId::new(bv("11")),
        &Vec::new(),
        &PickFork(0),
    );
    assert_eq!(res.unwrap_err(), Error::InternerLookupFailed);
    assert!(!svc.stateres_mutex.held);
}
