//! The auth-chain assembler.
//!
//! For a set of seed events in a room, the auth chain is the transitive
//! closure over the events' declared `auth_events` edges. The assembler
//! walks the event graph breadth-first with a visited set, so it terminates
//! on any graph, malicious cycles included; events referenced but absent
//! from the store simply contribute no edges (state resolution tolerates
//! incomplete auth chains).

use vstd::prelude::*;
use vstd::set_lib::lemma_len_subset;

use crate::bytes::bytes_eq;
use crate::short::byte_views;

verus! {

/// The `auth_events` projection of the event store: each known event's list
/// of auth-event ids.
pub struct EventGraph {
    pub edges: Vec<(Vec<u8>, Vec<Vec<u8>>)>,
}

/// Is `x` a known event of the graph?
pub open spec fn node_in(edges: Seq<(Vec<u8>, Vec<Vec<u8>>)>, x: Seq<u8>) -> bool {
    exists|i: int| 0 <= i < edges.len() && edges[i].0@ == x
}

/// The auth events a known event declares.
pub open spec fn parents_of(edges: Seq<(Vec<u8>, Vec<Vec<u8>>)>, x: Seq<u8>) -> Seq<Seq<u8>> {
    byte_views(edges[choose|i: int| 0 <= i < edges.len() && edges[i].0@ == x].1@)
}

/// A set of events closed under following `auth_events` edges.
pub open spec fn closed_under(edges: Seq<(Vec<u8>, Vec<Vec<u8>>)>, t: Set<Seq<u8>>) -> bool {
    forall|x: Seq<u8>, p: Seq<u8>|
        t.contains(x) && node_in(edges, x) && #[trigger] parents_of(edges, x).contains(p)
            ==> t.contains(p)
}

/// All event ids the walk can ever mention: seeds, known events, and every
/// declared auth event.
pub open spec fn flat_parents(edges: Seq<(Vec<u8>, Vec<Vec<u8>>)>) -> Seq<Seq<u8>>
    decreases edges.len(),
{
    if edges.len() == 0 {
        Seq::empty()
    } else {
        byte_views(edges[0].1@) + flat_parents(edges.drop_first())
    }
}

pub open spec fn universe(edges: Seq<(Vec<u8>, Vec<Vec<u8>>)>, seeds: Seq<Seq<u8>>) -> Set<
    Seq<u8>,
> {
    (seeds + edges.map_values(|e: (Vec<u8>, Vec<Vec<u8>>)| e.0@) + flat_parents(edges)).to_set()
}

proof fn lemma_parents_in_flat(edges: Seq<(Vec<u8>, Vec<Vec<u8>>)>, i: int, p: Seq<u8>)
    requires
        0 <= i < edges.len(),
        byte_views(edges[i].1@).contains(p),
    ensures
        flat_parents(edges).contains(p),
    decreases i,
{
    if i == 0 {
        let j = choose|j: int|
            0 <= j < byte_views(edges[0].1@).len() && byte_views(edges[0].1@)[j] == p;
        assert(flat_parents(edges)[j] == p);
    } else {
        lemma_parents_in_flat(edges.drop_first(), i - 1, p);
        let j = choose|j: int|
            0 <= j < flat_parents(edges.drop_first()).len() && flat_parents(
                edges.drop_first(),
            )[j] == p;
        assert(flat_parents(edges)[j + byte_views(edges[0].1@).len()] == p);
    }
}

/// The closure is unique: two sets that both contain the seeds, are closed,
/// and are least, are equal.
pub proof fn lemma_closure_unique(
    edges: Seq<(Vec<u8>, Vec<Vec<u8>>)>,
    seeds: Set<Seq<u8>>,
    r1: Set<Seq<u8>>,
    r2: Set<Seq<u8>>,
)
    requires
        seeds.subset_of(r1),
        closed_under(edges, r1),
        forall|t: Set<Seq<u8>>|
            seeds.subset_of(t) && #[trigger] closed_under(edges, t) ==> r1.subset_of(t),
        seeds.subset_of(r2),
        closed_under(edges, r2),
        forall|t: Set<Seq<u8>>|
            seeds.subset_of(t) && #[trigger] closed_under(edges, t) ==> r2.subset_of(t),
    ensures
        r1 == r2,
{
    assert(r1 =~= r2);
}

impl EventGraph {
    /// Known events are listed once each.
    pub open spec fn wf(self) -> bool {
        forall|i: int, j: int|
            0 <= i < j < self.edges@.len() ==> (#[trigger] self.edges@[i]).0@ != (
            #[trigger] self.edges@[j]).0@
    }

    pub fn new() -> (r: EventGraph)
        ensures
            r.wf(),
            r.edges@.len() == 0,
    {
        EventGraph { edges: Vec::new() }
    }

    /// Record an event's `auth_events` list. Events are immutable and
    /// content-addressed, so a known event is never re-declared.
    pub fn add_event(&mut self, id: Vec<u8>, auth_events: Vec<Vec<u8>>)
        requires
            old(self).wf(),
            !node_in(old(self).edges@, id@),
        ensures
            final(self).wf(),
            final(self).edges@ == old(self).edges@.push((id, auth_events)),
    {
        let ghost idv = id@;
        self.edges.push((id, auth_events));
        proof {
            assert forall|i: int, j: int|
                0 <= i < j < self.edges@.len() implies (#[trigger] self.edges@[i]).0@ != (
            #[trigger] self.edges@[j]).0@ by {
                if j == self.edges@.len() - 1 {
                    assert(self.edges@[i] == old(self).edges@[i]);
                    assert(!node_in(old(self).edges@, idv));
                }
            }
        }
    }

    /// The index of a known event.
    fn find_event(&self, x: &Vec<u8>) -> (r: Option<usize>)
        requires
            self.wf(),
        ensures
            match r {
                Some(i) => i < self.edges@.len() && self.edges@[i as int].0@ == x@ && node_in(
                    self.edges@,
                    x@,
                ) && parents_of(self.edges@, x@) == byte_views(self.edges@[i as int].1@),
                None => !node_in(self.edges@, x@),
            },
    {
        let mut i: usize = 0;
        while i < self.edges.len()
            invariant
                self.wf(),
                i <= self.edges@.len(),
                forall|j: int| 0 <= j < i ==> (#[trigger] self.edges@[j]).0@ != x@,
            decreases self.edges@.len() - i,
        {
            if bytes_eq(&self.edges[i].0, x) {
                proof {
                    let w = choose|w: int|
                        0 <= w < self.edges@.len() && self.edges@[w].0@ == x@;
                    if w != i {
                        assert(self.edges@[w].0@ != self.edges@[i as int].0@);
                    }
                }
                return Some(i);
            }
            i = i + 1;
        }
        None
    }
}

/// Whether a list of event ids contains the given one.
fn contains_bytes(v: &Vec<Vec<u8>>, x: &Vec<u8>) -> (r: bool)
    ensures
        r == byte_views(v@).contains(x@),
{
    let mut i: usize = 0;
    while i < v.len()
        invariant
            i <= v@.len(),
            forall|j: int| 0 <= j < i ==> byte_views(v@)[j] != x@,
        decreases v@.len() - i,
    {
        if bytes_eq(&v[i], x) {
            proof {
                assert(byte_views(v@)[i as int] == x@);
            }
            return true;
        }
        i = i + 1;
    }
    proof {
        if byte_views(v@).contains(x@) {
            let j = choose|j: int| 0 <= j < byte_views(v@).len() && byte_views(v@)[j] == x@;
        }
    }
    false
}

/// Assemble the auth chain of the given seeds: the least set of event ids
/// that contains every seed and is closed under following `auth_events`
/// edges, without duplicates. The visited set guarantees termination even
/// when a malicious event references itself transitively.
#[verifier::rlimit(100)]
pub fn get_event_ids(graph: &EventGraph, seeds: &Vec<Vec<u8>>) -> (r: Vec<Vec<u8>>)
    requires
        graph.wf(),
    ensures
        byte_views(r@).no_duplicates(),
        byte_views(seeds@).to_set().subset_of(byte_views(r@).to_set()),
        closed_under(graph.edges@, byte_views(r@).to_set()),
        forall|t: Set<Seq<u8>>|
            byte_views(seeds@).to_set().subset_of(t) && #[trigger] closed_under(graph.edges@, t)
                ==> byte_views(r@).to_set().subset_of(t),
{
    let ghost uni = universe(graph.edges@, byte_views(seeds@));
    let ghost seedset = byte_views(seeds@).to_set();
    let mut visited: Vec<Vec<u8>> = Vec::new();
    let mut frontier: Vec<Vec<u8>> = Vec::new();
    let mut s: usize = 0;
    while s < seeds.len()
        invariant
            s <= seeds@.len(),
            byte_views(frontier@) == byte_views(seeds@).take(s as int),
        decreases seeds@.len() - s,
    {
        let c = crate::bytes::clone_bytes(&seeds[s]);
        let ghost cv = c@;
        let ghost pre = frontier@;
        frontier.push(c);
        proof {
            assert(byte_views(pre).len() == pre.len());
            assert forall|j: int| 0 <= j < s + 1 implies byte_views(frontier@)[j] == byte_views(
                seeds@,
            ).take(s + 1)[j] by {
                if j < s {
                    assert(byte_views(pre)[j] == byte_views(seeds@).take(s as int)[j]);
                    assert(frontier@[j] == pre[j]);
                } else {
                    assert(frontier@[j]@ == cv);
                }
            }
            assert(byte_views(frontier@) =~= byte_views(seeds@).take(s + 1));
        }
        s = s + 1;
    }
    proof {
        assert(byte_views(seeds@).take(seeds@.len() as int) =~= byte_views(seeds@));
        assert forall|x: Seq<u8>| byte_views(frontier@).contains(x) implies uni.contains(x) by {
            let j = choose|j: int|
                0 <= j < byte_views(frontier@).len() && byte_views(frontier@)[j] == x;
            let whole = byte_views(seeds@) + graph.edges@.map_values(
                |e: (Vec<u8>, Vec<Vec<u8>>)| e.0@,
            ) + flat_parents(graph.edges@);
            assert(whole[j] == x);
        }
        assert(byte_views(visited@).to_set().len() == 0) by {
            assert(byte_views(visited@).to_set() =~= Set::<Seq<u8>>::empty());
        }
        assert(uni.finite());
    }
    while frontier.len() > 0
        invariant
            graph.wf(),
            uni == universe(graph.edges@, byte_views(seeds@)),
            seedset == byte_views(seeds@).to_set(),
            uni.finite(),
            byte_views(visited@).no_duplicates(),
            byte_views(visited@).to_set().subset_of(uni),
            byte_views(visited@).to_set().len() == byte_views(visited@).len(),
            byte_views(visited@).to_set().len() <= uni.len(),
            forall|x: Seq<u8>| byte_views(frontier@).contains(x) ==> uni.contains(x),
            // everything seen so far lies inside every closed superset of the seeds
            forall|t: Set<Seq<u8>>, x: Seq<u8>|
                seedset.subset_of(t) && #[trigger] closed_under(graph.edges@, t) && (byte_views(
                    visited@,
                ).contains(x) || byte_views(frontier@).contains(x)) ==> #[trigger] t.contains(x),
            // each seed has been seen
            forall|x: Seq<u8>|
                seedset.contains(x) ==> byte_views(visited@).contains(x) || byte_views(
                    frontier@,
                ).contains(x),
            // the parents of each visited known event have been seen
            forall|x: Seq<u8>, p: Seq<u8>|
                byte_views(visited@).contains(x) && node_in(graph.edges@, x)
                    && #[trigger] parents_of(graph.edges@, x).contains(p) ==> byte_views(
                    visited@,
                ).contains(p) || byte_views(frontier@).contains(p),
        decreases uni.len() - byte_views(visited@).to_set().len(), frontier@.len(),
    {
        let ghost front_pre = byte_views(frontier@);
        let e = frontier.pop().unwrap();
        proof {
            assert(front_pre.drop_last() =~= byte_views(frontier@));
            assert(front_pre.last() == e@);
            assert forall|x: Seq<u8>| byte_views(frontier@).contains(x) implies front_pre.contains(
                x,
            ) by {
                let j = choose|j: int|
                    0 <= j < byte_views(frontier@).len() && byte_views(frontier@)[j] == x;
                assert(front_pre[j] == x);
            }
            assert(front_pre.contains(e@)) by {
                assert(front_pre[front_pre.len() - 1] == e@);
            }
            assert forall|x: Seq<u8>| front_pre.contains(x) implies byte_views(
                frontier@,
            ).contains(x) || x == e@ by {
                let j = choose|j: int| 0 <= j < front_pre.len() && front_pre[j] == x;
                if j < front_pre.len() - 1 {
                    assert(byte_views(frontier@)[j] == x);
                }
            }
        }
        let seen = contains_bytes(&visited, &e);
        if !seen {
            let ghost vis_pre = byte_views(visited@);
            let ghost ev = e@;
            let parents = match graph.find_event(&e) {
                Some(idx) => {
                    let mut ps: Vec<Vec<u8>> = Vec::new();
                    let src = &graph.edges[idx].1;
                    let mut q: usize = 0;
                    while q < src.len()
                        invariant
                            q <= src@.len(),
                            byte_views(ps@) == byte_views(src@).take(q as int),
                        decreases src@.len() - q,
                    {
                        let c = crate::bytes::clone_bytes(&src[q]);
                        let ghost cv = c@;
                        let ghost pre = ps@;
                        ps.push(c);
                        proof {
                            assert(byte_views(pre).len() == pre.len());
                            assert forall|j: int| 0 <= j < q + 1 implies byte_views(ps@)[j]
                                == byte_views(src@).take(q + 1)[j] by {
                                if j < q {
                                    assert(byte_views(pre)[j] == byte_views(src@).take(
                                        q as int,
                                    )[j]);
                                    assert(ps@[j] == pre[j]);
                                } else {
                                    assert(ps@[j]@ == cv);
                                }
                            }
                            assert(byte_views(ps@) =~= byte_views(src@).take(q + 1));
                        }
                        q = q + 1;
                    }
                    proof {
                        assert(byte_views(src@).take(src@.len() as int) =~= byte_views(src@));
                    }
                    Some(ps)
                },
                None => None,
            };
            visited.push(e);
            proof {
                assert(byte_views(visited@).drop_last() =~= vis_pre);
                assert(byte_views(visited@).last() == ev);
                assert(byte_views(visited@).len() == vis_pre.len() + 1);
                assert forall|i: int, j: int|
                    0 <= i < j < byte_views(visited@).len() implies byte_views(visited@)[i]
                    != byte_views(visited@)[j] by {
                    assert(byte_views(visited@)[i] == vis_pre[i]);
                    if j == byte_views(visited@).len() - 1 {
                        assert(vis_pre.contains(vis_pre[i]));
                    } else {
                        assert(byte_views(visited@)[j] == vis_pre[j]);
                    }
                }
                assert(byte_views(visited@).no_duplicates());
                assert forall|x: Seq<u8>| byte_views(visited@).contains(x) implies
                    vis_pre.contains(x) || x == ev by {
                    let j = choose|j: int|
                        0 <= j < byte_views(visited@).len() && byte_views(visited@)[j] == x;
                    if j < vis_pre.len() {
                        assert(vis_pre[j] == x);
                    }
                }
                assert forall|x: Seq<u8>| vis_pre.contains(x) implies byte_views(
                    visited@,
                ).contains(x) by {
                    let j = choose|j: int| 0 <= j < vis_pre.len() && vis_pre[j] == x;
                    assert(byte_views(visited@)[j] == x);
                }
                assert(byte_views(visited@).contains(ev)) by {
                    assert(byte_views(visited@)[byte_views(visited@).len() - 1] == ev);
                }
                assert(byte_views(visited@).to_set() =~= vis_pre.to_set().insert(ev));
                assert(!vis_pre.to_set().contains(ev));
                assert(byte_views(visited@).to_set().len() == byte_views(visited@).len());
                assert(uni.contains(ev));
                lemma_len_subset(byte_views(visited@).to_set(), uni);
            }
            match parents {
                Some(ps) => {
                    let ghost psv = byte_views(ps@);
                    let ghost front_mid = byte_views(frontier@);
                    let mut q: usize = 0;
                    while q < ps.len()
                        invariant
                            q <= ps@.len(),
                            psv == byte_views(ps@),
                            byte_views(frontier@) == front_mid + psv.take(q as int),
                        decreases ps@.len() - q,
                    {
                        let c = crate::bytes::clone_bytes(&ps[q]);
                        let ghost cv = c@;
                        let ghost pre = frontier@;
                        frontier.push(c);
                        proof {
                            assert(byte_views(pre).len() == pre.len());
                            assert forall|j: int|
                                0 <= j < byte_views(frontier@).len() implies byte_views(
                                frontier@,
                            )[j] == (front_mid + psv.take(q + 1))[j] by {
                                if j < pre.len() {
                                    assert(frontier@[j] == pre[j]);
                                    assert(byte_views(pre)[j] == (front_mid + psv.take(
                                        q as int,
                                    ))[j]);
                                } else {
                                    assert(frontier@[j]@ == cv);
                                    assert(cv == psv[q as int]);
                                }
                            }
                            assert(byte_views(frontier@) =~= front_mid + psv.take(q + 1));
                        }
                        q = q + 1;
                    }
                    proof {
                        assert(psv.take(ps@.len() as int) =~= psv);
                        assert(psv == parents_of(graph.edges@, ev));
                        let idx = choose|i: int|
                            0 <= i < graph.edges@.len() && graph.edges@[i].0@ == ev;
                        assert forall|x: Seq<u8>| psv.contains(x) implies uni.contains(x) by {
                            lemma_parents_in_flat(graph.edges@, idx, x);
                            let j = choose|j: int|
                                0 <= j < flat_parents(graph.edges@).len() && flat_parents(
                                    graph.edges@,
                                )[j] == x;
                            let whole = byte_views(seeds@) + graph.edges@.map_values(
                                |e2: (Vec<u8>, Vec<Vec<u8>>)| e2.0@,
                            ) + flat_parents(graph.edges@);
                            assert(whole[j + byte_views(seeds@).len() + graph.edges@.map_values(
                                |e2: (Vec<u8>, Vec<Vec<u8>>)| e2.0@,
                            ).len()] == x);
                        }
                        assert forall|x: Seq<u8>| byte_views(frontier@).contains(x) implies
                            front_mid.contains(x) || psv.contains(x) by {
                            let j = choose|j: int|
                                0 <= j < byte_views(frontier@).len() && byte_views(frontier@)[j]
                                    == x;
                            if j >= front_mid.len() {
                                assert(psv[j - front_mid.len()] == x);
                            }
                        }
                        assert forall|x: Seq<u8>| psv.contains(x) implies byte_views(
                            frontier@,
                        ).contains(x) by {
                            let j = choose|j: int| 0 <= j < psv.len() && psv[j] == x;
                            assert(byte_views(frontier@)[front_mid.len() + j] == x);
                        }
                        assert forall|x: Seq<u8>| front_mid.contains(x) implies byte_views(
                            frontier@,
                        ).contains(x) by {
                            let j = choose|j: int| 0 <= j < front_mid.len() && front_mid[j] == x;
                            assert(byte_views(frontier@)[j] == x);
                        }
                        // every closed superset of the seeds swallows the new parents
                        assert forall|t: Set<Seq<u8>>, x: Seq<u8>|
                            seedset.subset_of(t) && #[trigger] closed_under(graph.edges@, t) && (
                            byte_views(visited@).contains(x) || byte_views(frontier@).contains(
                                x,
                            )) implies #[trigger] t.contains(x) by {
                            if byte_views(visited@).contains(x) {
                                if x == ev {
                                    assert(t.contains(ev));
                                } else {
                                    assert(vis_pre.contains(x));
                                }
                            } else {
                                if front_mid.contains(x) {
                                    assert(front_pre.contains(x));
                                } else {
                                    assert(psv.contains(x));
                                    assert(t.contains(ev));
                                    assert(node_in(graph.edges@, ev));
                                    assert(parents_of(graph.edges@, ev).contains(x));
                                }
                            }
                        }
                        // the parents of every visited event remain seen
                        assert forall|x: Seq<u8>, p: Seq<u8>|
                            byte_views(visited@).contains(x) && node_in(graph.edges@, x)
                                && #[trigger] parents_of(graph.edges@, x).contains(p) implies
                            byte_views(visited@).contains(p) || byte_views(frontier@).contains(
                            p,
                        ) by {
                            if x == ev {
                                assert(psv.contains(p));
                            } else {
                                assert(vis_pre.contains(x));
                                if !byte_views(visited@).contains(p) {
                                    assert(front_pre.contains(p));
                                    if p != ev {
                                        assert(front_mid.contains(p));
                                    }
                                }
                            }
                        }
                        // each seed stays seen
                        assert forall|x: Seq<u8>| seedset.contains(x) implies byte_views(
                            visited@,
                        ).contains(x) || byte_views(frontier@).contains(x) by {
                            if !byte_views(visited@).contains(x) {
                                assert(vis_pre.contains(x) || front_pre.contains(x));
                                if front_pre.contains(x) && x != ev {
                                    assert(front_mid.contains(x));
                                }
                            }
                        }
                    }
                },
                None => {
                    proof {
                        assert(!node_in(graph.edges@, ev));
                        assert forall|x: Seq<u8>, p: Seq<u8>|
                            byte_views(visited@).contains(x) && node_in(graph.edges@, x)
                                && #[trigger] parents_of(graph.edges@, x).contains(p) implies
                            byte_views(visited@).contains(p) || byte_views(frontier@).contains(
                            p,
                        ) by {
                            assert(x != ev);
                            assert(vis_pre.contains(x));
                            if !byte_views(visited@).contains(p) {
                                assert(front_pre.contains(p));
                                if p == ev {
                                    assert(byte_views(visited@).contains(ev));
                                }
                            }
                        }
                        assert forall|x: Seq<u8>| seedset.contains(x) implies byte_views(
                            visited@,
                        ).contains(x) || byte_views(frontier@).contains(x) by {
                            if !byte_views(visited@).contains(x) {
                                assert(vis_pre.contains(x) || front_pre.contains(x));
                            }
                        }
                    }
                },
            }
        } else {
            proof {
                assert(byte_views(visited@).contains(e@));
                assert forall|x: Seq<u8>| seedset.contains(x) implies byte_views(
                    visited@,
                ).contains(x) || byte_views(frontier@).contains(x) by {
                    if !byte_views(visited@).contains(x) && front_pre.contains(x) {
                        if x == e@ {
                            assert(byte_views(visited@).contains(x));
                        }
                    }
                }
                assert forall|x: Seq<u8>, p: Seq<u8>|
                    byte_views(visited@).contains(x) && node_in(graph.edges@, x)
                        && #[trigger] parents_of(graph.edges@, x).contains(p) implies byte_views(
                    visited@,
                ).contains(p) || byte_views(frontier@).contains(p) by {
                    if !byte_views(visited@).contains(p) {
                        assert(front_pre.contains(p));
                        if p == e@ {
                            assert(byte_views(visited@).contains(p));
                        }
                    }
                }
            }
        }
    }
    proof {
        assert(byte_views(frontier@).len() == frontier@.len());
        assert(byte_views(frontier@).len() == 0);
        assert forall|t: Set<Seq<u8>>|
            seedset.subset_of(t) && #[trigger] closed_under(graph.edges@, t) implies byte_views(
            visited@,
        ).to_set().subset_of(t) by {
            assert forall|x: Seq<u8>| byte_views(visited@).to_set().contains(x) implies t.contains(
                x,
            ) by {
                assert(byte_views(visited@).contains(x));
            }
        }
        assert(closed_under(graph.edges@, byte_views(visited@).to_set())) by {
            assert forall|x: Seq<u8>, p: Seq<u8>|
                byte_views(visited@).to_set().contains(x) && node_in(graph.edges@, x)
                    && #[trigger] parents_of(graph.edges@, x).contains(p) implies byte_views(
                visited@,
            ).to_set().contains(p) by {
                assert(byte_views(visited@).contains(x));
                assert(byte_views(visited@).contains(p) || byte_views(frontier@).contains(p));
            }
        }
        assert forall|x: Seq<u8>| seedset.contains(x) implies byte_views(
            visited@,
        ).to_set().contains(x) by {
            assert(byte_views(visited@).contains(x));
        }
    }
    visited
}

} // verus!
