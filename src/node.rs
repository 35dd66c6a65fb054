use vstd::prelude::*;
use crate::routing::{Contact, RoutingTable, bucket_count, has_peer, is_nearest};
use crate::distance::bucket_of;
use crate::query::{Query, QueryResult, QueryState, Step, budget, fresh_ids};
use crate::routing::{lemma_nearest_of_nearest, sorted_by_distance, distinct_peers};
use crate::provider::{ProviderStore, providers_of};

verus! {

/// The two sources the event loop waits on.
#[derive(Clone, Copy, Debug, PartialEq, Eq, Structural)]
pub enum Source {
    Network,
    Command,
}

pub open spec fn other(s: Source) -> Source {
    match s {
        Source::Network => Source::Command,
        Source::Command => Source::Network,
    }
}

/// Which ready source the loop serves next, given the one it served last:
/// the only ready one, or, when both are ready, the one not served last.
pub open spec fn pick(last: Source, network_ready: bool, command_ready: bool) -> Option<Source> {
    if network_ready && command_ready {
        Some(other(last))
    } else if network_ready {
        Some(Source::Network)
    } else if command_ready {
        Some(Source::Command)
    } else {
        None
    }
}

/// A source that is ready at two successive waits is served at one of them,
/// whatever the other source does; when both stay ready they alternate.
pub proof fn lemma_no_starvation(last: Source, other_ready_1: bool, other_ready_2: bool)
    ensures
        ({
            let a = pick(last, other_ready_1, true).unwrap();
            let b = pick(a, other_ready_2, true).unwrap();
            a == Source::Command || b == Source::Command
        }),
        ({
            let a = pick(last, true, other_ready_1).unwrap();
            let b = pick(a, true, other_ready_2).unwrap();
            a == Source::Network || b == Source::Network
        }),
        pick(last, true, true).unwrap() != pick(pick(last, true, true).unwrap(), true, true).unwrap(),
{
}

/// How a finished closest-peers lookup turned out.
#[derive(Clone, Copy, Debug, PartialEq, Eq, Structural)]
pub enum Outcome {
    /// Converged, with at least one peer.
    Found,
    /// Converged without reaching any peer: a soft failure.
    FoundNone,
    /// Timed out, with the peers known by then.
    TimedOutWithPeers,
    /// Timed out knowing no peer: a soft failure.
    TimedOutEmpty,
}

/// Classifies a lookup's report by whether it timed out and whether it is empty.
pub fn classify(result: &QueryResult) -> (r: Outcome)
    ensures
        r == (if result.timed_out {
            if result.peers@.len() > 0 {
                Outcome::TimedOutWithPeers
            } else {
                Outcome::TimedOutEmpty
            }
        } else if result.peers@.len() > 0 {
            Outcome::Found
        } else {
            Outcome::FoundNone
        }),
{
    if result.timed_out {
        if result.peers.len() > 0 {
            Outcome::TimedOutWithPeers
        } else {
            Outcome::TimedOutEmpty
        }
    } else if result.peers.len() > 0 {
        Outcome::Found
    } else {
        Outcome::FoundNone
    }
}

/// What the node asks the network layer to do.
pub enum Action {
    /// Send FIND_NODE for `target` to `peer`.
    FindNode { peer: u64, target: u64 },
    /// Send ADD_PROVIDER for `key`, naming this node, to `peer`.
    AddProvider { peer: u64, key: u64 },
    /// A closest-peers lookup ended.
    Finished(QueryResult),
}

/// The actions that end a lookup over `known`: ADD_PROVIDER for `target` to
/// each of the `k` nearest for an announcement, else one report of them.
pub open spec fn ended_actions(
    r: Seq<Action>,
    known: Seq<Contact>,
    target: u64,
    k: nat,
    provide: bool,
    timed_out: bool,
) -> bool {
    if provide {
        exists|peers: Seq<Contact>|
            #[trigger] is_nearest(peers, known, target, k) && r.len() == peers.len() && forall|i: int|
                0 <= i < r.len() ==> (match #[trigger] r[i] {
                    Action::AddProvider { peer, key } => peer == peers[i].peer && key == target,
                    _ => false,
                })
    } else {
        r.len() == 1 && (match r[0] {
            Action::Finished(f) => f.target == target && f.timed_out == timed_out && is_nearest(
                f.peers@,
                known,
                target,
                k,
            ),
            _ => false,
        })
    }
}

/// The actions of one round of a lookup over `known` that has `contacted`
/// these peers and waits on `outstanding` answers: FIND_NODE for `target` to
/// the nearest peers not yet contacted, within the budget of `alpha`; when
/// there is none to ask and none to wait for, the lookup ends.
pub open spec fn round_actions(
    r: Seq<Action>,
    known: Seq<Contact>,
    target: u64,
    k: nat,
    contacted: Seq<u64>,
    outstanding: nat,
    alpha: usize,
    provide: bool,
) -> bool {
    exists|top: Seq<Contact>|
        #[trigger] is_nearest(top, known, target, k) && ({
            let f = fresh_ids(top, contacted, budget(alpha, outstanding));
            if outstanding + f.len() > 0 {
                r.len() == f.len() && forall|i: int|
                    0 <= i < r.len() ==> (match #[trigger] r[i] {
                        Action::FindNode { peer, target: t } => peer == f[i] && t == target,
                        _ => false,
                    })
            } else {
                ended_actions(r, known, target, k, provide, false)
            }
        })
}

/// `after` is `before` with the contacts of `answered` learnt: nothing
/// forgotten, every answered identifier known, nothing else added.
pub open spec fn learnt_from(before: Seq<Contact>, answered: Seq<Contact>, after: Seq<Contact>) -> bool {
    &&& forall|i: int| 0 <= i < before.len() ==> after.contains(#[trigger] before[i])
    &&& forall|i: int| 0 <= i < answered.len() ==> has_peer(after, #[trigger] answered[i].peer)
    &&& forall|i: int|
        0 <= i < after.len() ==> before.contains(#[trigger] after[i]) || answered.contains(after[i])
}

/// `after` is `before` with the answered contacts other than `local` learnt.
pub open spec fn learnt_answer(
    before: Seq<Contact>,
    answered: Seq<Contact>,
    local: u64,
    after: Seq<Contact>,
) -> bool {
    &&& forall|i: int| 0 <= i < before.len() ==> after.contains(#[trigger] before[i])
    &&& forall|i: int|
        0 <= i < answered.len() && answered[i].peer != local ==> has_peer(
            after,
            #[trigger] answered[i].peer,
        )
    &&& forall|i: int|
        0 <= i < after.len() ==> before.contains(#[trigger] after[i]) || (answered.contains(after[i])
            && after[i].peer != local)
}

/// A running lookup; `provide` marks one that announces this node as a
/// provider of its target once the closest peers are known.
pub struct Lookup {
    pub query: Query,
    pub provide: bool,
}

/// One peer's state, owned by its event loop alone.
pub struct Node {
    pub local: u64,
    pub k: usize,
    pub alpha: usize,
    pub table: RoutingTable,
    pub store: ProviderStore,
    pub lookups: Vec<Lookup>,
    pub last: Source,
}

/// Some lookup of `ls` is for `target`.
pub open spec fn has_lookup(ls: Seq<Lookup>, target: u64) -> bool {
    exists|i: int| 0 <= i < ls.len() && ls[i].query.target == target
}

impl Node {
    /// The table belongs to this node; every running lookup is well formed,
    /// still converging, and the only one for its target.
    pub open spec fn wf(&self) -> bool {
        &&& self.table.wf()
        &&& self.table.local == self.local
        &&& self.store.wf()
        &&& forall|i: int|
            0 <= i < self.lookups@.len() ==> {
                &&& (#[trigger] self.lookups@[i]).query.wf()
                &&& self.lookups@[i].query.state == QueryState::Converging
                &&& self.lookups@[i].query.k == self.k
                &&& self.lookups@[i].query.alpha == self.alpha
            }
        &&& forall|i: int, j: int|
            0 <= i < j < self.lookups@.len() ==> self.lookups@[i].query.target
                != self.lookups@[j].query.target
    }

    /// A node with an empty routing table of buckets of `capacity` contacts,
    /// whose lookups seek `k` peers with at most `alpha` requests outstanding.
    pub fn new(local: u64, capacity: usize, k: usize, alpha: usize) -> (r: Node)
        ensures
            r.wf(),
            r.local == local,
            r.k == k,
            r.alpha == alpha,
            r.table.capacity == capacity,
            r.table.contacts@.len() == 0,
            r.store.records@.len() == 0,
            r.lookups@.len() == 0,
    {
        Node {
            local,
            k,
            alpha,
            table: RoutingTable::new(local, capacity),
            store: ProviderStore::new(),
            lookups: Vec::new(),
            last: Source::Command,
        }
    }

    /// Chooses the source to serve next among the ready ones.
    pub fn next_source(&mut self, network_ready: bool, command_ready: bool) -> (r: Option<Source>)
        ensures
            r == pick(old(self).last, network_ready, command_ready),
            final(self).last == match r {
                Some(s) => s,
                None => old(self).last,
            },
            final(self).local == old(self).local,
            final(self).k == old(self).k,
            final(self).alpha == old(self).alpha,
            final(self).table == old(self).table,
            final(self).store == old(self).store,
            final(self).lookups == old(self).lookups,
    {
        let r = if network_ready && command_ready {
            match self.last {
                Source::Network => Some(Source::Command),
                Source::Command => Some(Source::Network),
            }
        } else if network_ready {
            Some(Source::Network)
        } else if command_ready {
            Some(Source::Command)
        } else {
            None
        };
        match r {
            Some(s) => {
                self.last = s;
            },
            None => {},
        }
        r
    }

    /// Seeds the routing table with a contact (a bootstrap peer or one learnt
    /// from an answer). Returns whether the table holds it now.
    pub fn add_address(&mut self, c: Contact) -> (r: bool)
        requires
            old(self).wf(),
        ensures
            final(self).wf(),
            final(self).local == old(self).local,
            final(self).k == old(self).k,
            final(self).alpha == old(self).alpha,
            final(self).store == old(self).store,
            final(self).lookups == old(self).lookups,
            final(self).table.capacity == old(self).table.capacity,
            r == (c.peer != old(self).local && (has_peer(old(self).table.contacts@, c.peer)
                || bucket_count(old(self).table.contacts@, old(self).local, bucket_of(old(self).local, c.peer))
                < old(self).table.capacity)),
            r ==> has_peer(final(self).table.contacts@, c.peer),
            !r ==> final(self).table.contacts@ == old(self).table.contacts@,
            forall|p: u64|
                has_peer(old(self).table.contacts@, p) ==> has_peer(final(self).table.contacts@, p),
            r && has_peer(old(self).table.contacts@, c.peer) ==> exists|i: int|
                0 <= i < old(self).table.contacts@.len() && old(self).table.contacts@[i].peer == c.peer
                    && final(self).table.contacts@ == old(self).table.contacts@.remove(i).push(c),
            r && !has_peer(old(self).table.contacts@, c.peer) ==> final(self).table.contacts@ == old(
                self,
            ).table.contacts@.push(c),
            forall|b: nat|
                bucket_count(final(self).table.contacts@, final(self).local, b) >= bucket_count(
                    old(self).table.contacts@,
                    old(self).local,
                    b,
                ),
    {
        let ghost t0 = self.table.contacts@;
        let r = self.table.add_contact(c);
        proof {
            let t1 = self.table.contacts@;
            if r && has_peer(t0, c.peer) {
                let w = choose|w: int|
                    0 <= w < t0.len() && t0[w].peer == c.peer && t1 == t0.remove(w).push(c);
                let tr = t0.remove(w);
                assert forall|j: int| 0 <= j < tr.len() implies tr[j] == if j < w {
                    t0[j]
                } else {
                    t0[j + 1]
                } by {}
                assert forall|b: nat| bucket_count(t1, self.local, b) >= bucket_count(t0, self.local, b) by {
                    crate::routing::lemma_bucket_count_remove(t0, self.local, w, b);
                    crate::routing::lemma_bucket_count_push(tr, self.local, c, b);
                }
                assert forall|p: u64| has_peer(t0, p) implies has_peer(t1, p) by {
                    let x = choose|x: int| 0 <= x < t0.len() && t0[x].peer == p;
                    if x == w {
                        assert(t1[tr.len() as int] == c);
                    } else if x < w {
                        assert(t1[x] == t0[x]);
                    } else {
                        assert(t1[x - 1] == t0[x]);
                    }
                }
                assert(t1[tr.len() as int] == c);
            } else if r {
                assert forall|b: nat| bucket_count(t1, self.local, b) >= bucket_count(t0, self.local, b) by {
                    crate::routing::lemma_bucket_count_push(t0, self.local, c, b);
                }
                assert forall|p: u64| has_peer(t0, p) implies has_peer(t1, p) by {
                    let x = choose|x: int| 0 <= x < t0.len() && t0[x].peer == p;
                    assert(t1[x] == t0[x]);
                }
                assert(t1[t0.len() as int] == c);
            }
        }
        r
    }

    /// Turns a lookup's step into actions: FIND_NODE to each peer to ask;
    /// at the end, ADD_PROVIDER to each closest peer for an announcement,
    /// else the lookup's report.
    pub fn actions_of(target: u64, step: Step, provide: bool) -> (r: Vec<Action>)
        ensures
            match step {
                Step::Send(v) => r@.len() == v@.len() && forall|i: int|
                    0 <= i < r@.len() ==> (match #[trigger] r@[i] {
                        Action::FindNode { peer, target: t } => peer == v@[i] && t == target,
                        _ => false,
                    }),
                Step::Done(res) => if provide {
                    r@.len() == res.peers@.len() && forall|i: int|
                        0 <= i < r@.len() ==> (match #[trigger] r@[i] {
                            Action::AddProvider { peer, key } => peer == res.peers@[i].peer && key
                                == target,
                            _ => false,
                        })
                } else {
                    r@.len() == 1 && (match r@[0] {
                        Action::Finished(f) => f == res,
                        _ => false,
                    })
                },
                Step::Ignored => r@.len() == 0,
            },
    {
        let mut r: Vec<Action> = Vec::new();
        match step {
            Step::Send(v) => {
                let mut i: usize = 0;
                while i < v.len()
                    invariant
                        i <= v@.len(),
                        r@.len() == i,
                        forall|j: int|
                            0 <= j < i ==> (match #[trigger] r@[j] {
                                Action::FindNode { peer, target: t } => peer == v@[j] && t == target,
                                _ => false,
                            }),
                    decreases v@.len() - i,
                {
                    r.push(Action::FindNode { peer: v[i], target });
                    i = i + 1;
                }
            },
            Step::Done(res) => {
                if provide {
                    let mut i: usize = 0;
                    while i < res.peers.len()
                        invariant
                            i <= res.peers@.len(),
                            r@.len() == i,
                            forall|j: int|
                                0 <= j < i ==> (match #[trigger] r@[j] {
                                    Action::AddProvider { peer, key } => peer == res.peers@[j].peer
                                        && key == target,
                                    _ => false,
                                }),
                        decreases res.peers@.len() - i,
                    {
                        r.push(Action::AddProvider { peer: res.peers[i].peer, key: target });
                        i = i + 1;
                    }
                } else {
                    r.push(Action::Finished(res));
                }
            },
            Step::Ignored => {},
        }
        r
    }

    /// Starts a lookup of `target` from the routing table's nearest contacts,
    /// unless one for `target` is running already.
    fn begin(&mut self, target: u64, provide: bool) -> (r: Vec<Action>)
        requires
            old(self).wf(),
        ensures
            final(self).wf(),
            final(self).local == old(self).local,
            final(self).k == old(self).k,
            final(self).alpha == old(self).alpha,
            final(self).table == old(self).table,
            final(self).store == old(self).store,
            has_lookup(old(self).lookups@, target) ==> r@.len() == 0 && final(self).lookups
                == old(self).lookups,
            forall|i: int|
                0 <= i < r@.len() ==> (match #[trigger] r@[i] {
                    Action::FindNode { peer, target: t } => t == target && has_peer(
                        old(self).table.contacts@,
                        peer,
                    ),
                    Action::AddProvider { peer, key } => provide && key == target,
                    Action::Finished(f) => !provide && f.target == target,
                }),
            !has_lookup(old(self).lookups@, target) ==> round_actions(
                r@,
                old(self).table.contacts@,
                target,
                old(self).k as nat,
                Seq::empty(),
                0,
                old(self).alpha,
                provide,
            ),
            !has_lookup(old(self).lookups@, target) ==> (has_lookup(final(self).lookups@, target)
                == (r@.len() > 0 && r@[0] is FindNode)),
            !has_lookup(old(self).lookups@, target) && old(self).table.contacts@.len() == 0 ==> {
                &&& !has_lookup(final(self).lookups@, target)
                &&& if provide {
                    r@.len() == 0
                } else {
                    r@.len() == 1 && (match r@[0] {
                        Action::Finished(f) => f.target == target && !f.timed_out && f.peers@.len()
                            == 0,
                        _ => false,
                    })
                }
            },
    {
        if self.find_lookup(target).is_some() {
            return Vec::new();
        }
        let mut q = Query::new(target, self.k, self.alpha);
        let seeds = self.table.closest(target, self.k);
        proof {
            assert(distinct_peers(seeds@)) by {
                assert forall|a: int, b: int| 0 <= a < b < seeds@.len() implies seeds@[a].peer != seeds@[b].peer by {
                    assert(sorted_by_distance(seeds@, target));
                }
            }
        }
        let step = q.start(&seeds);
        let ghost known = q.known@;
        let ghost gstep = step;
        proof {
            match &step {
                Step::Send(v) => {
                    assert forall|i: int| 0 <= i < v@.len() implies has_peer(
                        self.table.contacts@,
                        #[trigger] v@[i],
                    ) by {
                        assert(has_peer(known, v@[i]));
                        let w = choose|w: int| 0 <= w < known.len() && known[w].peer == v@[i];
                        assert(seeds@.contains(known[w]));
                        let x = choose|x: int| 0 <= x < seeds@.len() && seeds@[x] == known[w];
                        assert(crate::routing::has_contact(self.table.contacts@, seeds@[x]));
                        let y = choose|y: int|
                            0 <= y < self.table.contacts@.len() && self.table.contacts@[y]
                                == seeds@[x];
                        assert(self.table.contacts@[y].peer == v@[i]);
                    }
                },
                _ => {},
            }
            if self.table.contacts@.len() == 0 {
                assert(seeds@.len() == 0) by {
                    if seeds@.len() > 0 {
                        assert(crate::routing::has_contact(self.table.contacts@, seeds@[0]));
                    }
                }
                assert(known.len() == 0) by {
                    if known.len() > 0 {
                        assert(seeds@.contains(known[0]));
                    }
                }
                match &step {
                    Step::Send(v) => {
                        assert(q.pending@.len() > 0);
                        assert(has_peer(known, v@[0]));
                    },
                    Step::Done(res) => {
                        assert(res.peers@.len() == 0) by {
                            if res.peers@.len() > 0 {
                                assert(crate::routing::has_contact(known, res.peers@[0]));
                            }
                        }
                    },
                    Step::Ignored => {},
                }
            }
        }
        let running = q.state == QueryState::Converging;
        if running {
            let ghost l0 = self.lookups@;
            self.lookups.push(Lookup { query: q, provide });
            proof {
                assert forall|i: int, j: int|
                    0 <= i < j < self.lookups@.len() implies self.lookups@[i].query.target
                    != self.lookups@[j].query.target by {
                    if j == l0.len() {
                        assert(self.lookups@[i] == l0[i]);
                    } else {
                        assert(self.lookups@[i] == l0[i]);
                        assert(self.lookups@[j] == l0[j]);
                    }
                }
                assert forall|i: int| 0 <= i < self.lookups@.len() implies {
                    &&& (#[trigger] self.lookups@[i]).query.wf()
                    &&& self.lookups@[i].query.state == QueryState::Converging
                    &&& self.lookups@[i].query.k == self.k
                    &&& self.lookups@[i].query.alpha == self.alpha
                } by {
                    if i < l0.len() {
                        assert(self.lookups@[i] == l0[i]);
                    }
                }
                assert(has_lookup(self.lookups@, target)) by {
                    assert(self.lookups@[l0.len() as int].query.target == target);
                }
            }
        }
        let r = Node::actions_of(target, step, provide);
        proof {
            let tbl = self.table.contacts@;
            let kk = self.k as nat;
            match gstep {
                Step::Send(v) => {
                    let top = choose|top: Seq<Contact>|
                        is_nearest(top, known, target, kk) && v@ == fresh_ids(top, Seq::empty(), budget(self.alpha, 0));
                    lemma_nearest_of_nearest(top, seeds@, tbl, target, kk);
                    assert(v@.len() > 0);
                    assert(is_nearest(top, tbl, target, kk));
                },
                Step::Done(res) => {
                    let top = choose|top: Seq<Contact>|
                        is_nearest(top, known, target, kk) && fresh_ids(top, Seq::empty(), budget(self.alpha, 0)).len() == 0;
                    lemma_nearest_of_nearest(top, seeds@, tbl, target, kk);
                    lemma_nearest_of_nearest(res.peers@, seeds@, tbl, target, kk);
                    assert(is_nearest(top, tbl, target, kk));
                    if provide {
                        assert(is_nearest(res.peers@, tbl, target, kk));
                    }
                },
                Step::Ignored => {},
            }
        }
        r
    }

    /// Starts a closest-peers lookup of `target`; at most one runs per target.
    pub fn get_closest_peers(&mut self, target: u64) -> (r: Vec<Action>)
        requires
            old(self).wf(),
        ensures
            final(self).wf(),
            final(self).local == old(self).local,
            final(self).table == old(self).table,
            final(self).store == old(self).store,
            has_lookup(old(self).lookups@, target) ==> r@.len() == 0 && final(self).lookups
                == old(self).lookups,
            forall|i: int|
                0 <= i < r@.len() ==> (match #[trigger] r@[i] {
                    Action::FindNode { peer, target: t } => t == target && has_peer(
                        old(self).table.contacts@,
                        peer,
                    ),
                    Action::AddProvider { .. } => false,
                    Action::Finished(f) => f.target == target,
                }),
            !has_lookup(old(self).lookups@, target) && old(self).table.contacts@.len() == 0 ==> {
                &&& !has_lookup(final(self).lookups@, target)
                &&& r@.len() == 1
                &&& match r@[0] {
                    Action::Finished(f) => f.target == target && !f.timed_out && f.peers@.len()
                        == 0,
                    _ => false,
                }
            },
            !has_lookup(old(self).lookups@, target) ==> round_actions(
                r@,
                old(self).table.contacts@,
                target,
                old(self).k as nat,
                Seq::empty(),
                0,
                old(self).alpha,
                false,
            ),
            !has_lookup(old(self).lookups@, target) ==> (has_lookup(final(self).lookups@, target)
                == (r@.len() > 0 && r@[0] is FindNode)),
    {
        self.begin(target, false)
    }

    /// Records this node as a provider of `key` and starts pushing the
    /// announcement: a lookup of `key` whose closest peers are then sent
    /// ADD_PROVIDER. Returns at once; no caller waits for the push.
    pub fn start_providing(&mut self, key: u64) -> (r: Vec<Action>)
        requires
            old(self).wf(),
        ensures
            final(self).wf(),
            final(self).local == old(self).local,
            final(self).table == old(self).table,
            forall|kk: u64|
                providers_of(final(self).store.records@, kk) == if kk == key {
                    providers_of(old(self).store.records@, kk).insert(old(self).local)
                } else {
                    providers_of(old(self).store.records@, kk)
                },
            has_lookup(old(self).lookups@, key) ==> r@.len() == 0 && final(self).lookups
                == old(self).lookups,
            forall|i: int|
                0 <= i < r@.len() ==> (match #[trigger] r@[i] {
                    Action::FindNode { peer, target: t } => t == key && has_peer(
                        old(self).table.contacts@,
                        peer,
                    ),
                    Action::AddProvider { peer, key: kk } => kk == key,
                    Action::Finished(_) => false,
                }),
            !has_lookup(old(self).lookups@, key) ==> round_actions(
                r@,
                old(self).table.contacts@,
                key,
                old(self).k as nat,
                Seq::empty(),
                0,
                old(self).alpha,
                true,
            ),
            !has_lookup(old(self).lookups@, key) ==> (has_lookup(final(self).lookups@, key)
                == (r@.len() > 0 && r@[0] is FindNode)),
    {
        let local = self.local;
        self.store.add_provider(key, local);
        self.begin(key, true)
    }

    /// Moves the lookup at position `i` on by `step_input`: the answer of
    /// `from` carrying `peers`, or, with `timeout`, the expiry of its timer.
    /// The lookup is dropped once it has ended.
    fn advance(&mut self, i: usize, from: u64, peers: &Vec<Contact>, timeout: bool) -> (r: Vec<Action>)
        requires
            old(self).wf(),
            i < old(self).lookups@.len(),
        ensures
            final(self).wf(),
            final(self).k == old(self).k,
            final(self).alpha == old(self).alpha,
            final(self).local == old(self).local,
            final(self).table == old(self).table,
            final(self).store == old(self).store,
            timeout ==> !has_lookup(final(self).lookups@, old(self).lookups@[i as int].query.target),
            timeout ==> forall|j: int|
                0 <= j < r@.len() ==> (match #[trigger] r@[j] {
                    Action::FindNode { .. } => false,
                    Action::Finished(f) => f.timed_out,
                    Action::AddProvider { .. } => true,
                }),
            timeout && !old(self).lookups@[i as int].provide ==> r@.len() == 1 && (match r@[0] {
                Action::Finished(f) => f.timed_out && f.target == old(self).lookups@[i as int].query.target,
                _ => false,
            }),
            forall|j: int|
                0 <= j < r@.len() ==> (match #[trigger] r@[j] {
                    Action::FindNode { peer, target: t } => t == old(self).lookups@[i as int].query.target
                        && !old(self).lookups@[i as int].query.contacted@.contains(peer),
                    Action::AddProvider { key, .. } => key == old(self).lookups@[i as int].query.target,
                    Action::Finished(f) => f.target == old(self).lookups@[i as int].query.target,
                }),
            timeout ==> ended_actions(
                r@,
                old(self).lookups@[i as int].query.known@,
                old(self).lookups@[i as int].query.target,
                old(self).k as nat,
                old(self).lookups@[i as int].provide,
                true,
            ),
            !timeout && !old(self).lookups@[i as int].query.pending@.contains(from) ==> r@.len() == 0
                && final(self).lookups@ == old(self).lookups@,
            !timeout && old(self).lookups@[i as int].query.pending@.contains(from) ==> exists|known2: Seq<Contact>|
                #[trigger] learnt_from(old(self).lookups@[i as int].query.known@, peers@, known2) && round_actions(
                    r@,
                    known2,
                    old(self).lookups@[i as int].query.target,
                    old(self).k as nat,
                    old(self).lookups@[i as int].query.contacted@,
                    (old(self).lookups@[i as int].query.pending@.len() - 1) as nat,
                    old(self).alpha,
                    old(self).lookups@[i as int].provide,
                ),
            !timeout ==> forall|j: int|
                0 <= j < final(self).lookups@.len() && final(self).lookups@[j].query.target
                    == old(self).lookups@[i as int].query.target ==> !(#[trigger] final(self).lookups@[j]).query.pending@.contains(from),
    {
        let ghost l0 = self.lookups@;
        let mut l = self.lookups.remove(i);
        let target = l.query.target;
        let provide = l.provide;
        let ghost c0 = l.query.contacted@;
        let ghost q0 = l.query;
        let step = if timeout {
            l.query.on_timeout()
        } else {
            l.query.on_response(from, peers)
        };
        let ghost gstep = step;
        let ghost q1 = l.query;
        proof {
            match &step {
                Step::Send(v) => {
                    assert forall|j: int| 0 <= j < v@.len() implies !c0.contains(#[trigger] v@[j]) by {}
                },
                _ => {},
            }
        }
        let ghost lm = self.lookups@;
        if l.query.state == QueryState::Converging {
            self.lookups.insert(i, l);
            proof {
                assert(self.lookups@ =~= l0.update(i as int, self.lookups@[i as int]));
                assert forall|a: int, b: int|
                    0 <= a < b < self.lookups@.len() implies self.lookups@[a].query.target
                    != self.lookups@[b].query.target by {
                    assert(l0[a].query.target != l0[b].query.target);
                }
            }
        } else {
            proof {
                assert forall|a: int| 0 <= a < lm.len() implies lm[a] == if a < i {
                    l0[a]
                } else {
                    l0[a + 1]
                } by {}
                assert forall|a: int, b: int|
                    0 <= a < b < lm.len() implies lm[a].query.target != lm[b].query.target by {
                    let a0 = if a < i { a } else { a + 1 };
                    let b0 = if b < i { b } else { b + 1 };
                    assert(l0[a0].query.target != l0[b0].query.target);
                }
                assert forall|a: int| 0 <= a < lm.len() implies {
                    &&& (#[trigger] lm[a]).query.wf()
                    &&& lm[a].query.state == QueryState::Converging
                    &&& lm[a].query.k == self.k
                    &&& lm[a].query.alpha == self.alpha
                } by {
                    let a0 = if a < i { a } else { a + 1 };
                    assert(lm[a] == l0[a0]);
                }
                assert(!has_lookup(lm, target)) by {
                    if has_lookup(lm, target) {
                        let w = choose|w: int| 0 <= w < lm.len() && lm[w].query.target == target;
                        let w0 = if w < i { w } else { w + 1 };
                        assert(l0[w0].query.target == l0[i as int].query.target);
                    }
                }
            }
        }
        let r = Node::actions_of(target, step, provide);
        proof {
            let kk = self.k as nat;
            if !timeout && !q0.pending@.contains(from) {
                assert(self.lookups@ =~= l0);
            }
            if !timeout && q0.pending@.contains(from) {
                assert(learnt_from(q0.known@, peers@, q1.known@));
                match gstep {
                    Step::Send(v) => {
                        let top = choose|top: Seq<Contact>|
                            is_nearest(top, q1.known@, target, kk) && v@ == fresh_ids(
                                top,
                                q0.contacted@,
                                budget(self.alpha, (q0.pending@.len() - 1) as nat),
                            );
                        assert(is_nearest(top, q1.known@, target, kk));
                        assert(q1.pending@.len() > 0);
                        let idx = choose|idx: int|
                            0 <= idx < q0.pending@.len() && q0.pending@[idx] == from && q1.pending@
                                == q0.pending@.remove(idx) + v@;
                        assert(q1.pending@.len() == q0.pending@.len() - 1 + v@.len());
                    },
                    Step::Done(res) => {
                        let top = choose|top: Seq<Contact>|
                            is_nearest(top, q1.known@, target, kk) && fresh_ids(
                                top,
                                q0.contacted@,
                                budget(self.alpha, 0),
                            ).len() == 0;
                        assert(is_nearest(top, q1.known@, target, kk));
                        if provide {
                            assert(is_nearest(res.peers@, q1.known@, target, kk));
                        }
                    },
                    Step::Ignored => {},
                }
            }
            if timeout {
                match gstep {
                    Step::Done(res) => {
                        if provide {
                            assert(is_nearest(res.peers@, q0.known@, target, kk));
                        }
                    },
                    _ => {},
                }
            }
        }
        r
    }

    /// Handles the answer of `from` to FIND_NODE for `target`: the contacts
    /// it returned, other than this node, enter the routing table, and the
    /// lookup of `target`, if one runs, moves on.
    pub fn on_find_node_response(&mut self, from: u64, target: u64, peers: &Vec<Contact>) -> (r: Vec<Action>)
        requires
            old(self).wf(),
        ensures
            final(self).wf(),
            final(self).local == old(self).local,
            final(self).store == old(self).store,
            forall|p: u64| has_peer(old(self).table.contacts@, p) ==> has_peer(final(self).table.contacts@, p),
            !has_lookup(old(self).lookups@, target) ==> r@.len() == 0 && final(self).lookups
                == old(self).lookups,
            forall|j: int|
                0 <= j < r@.len() ==> (match #[trigger] r@[j] {
                    Action::FindNode { peer, target: t } => t == target && exists|i: int|
                        0 <= i < old(self).lookups@.len() && old(self).lookups@[i].query.target
                            == target && !old(self).lookups@[i].query.contacted@.contains(peer),
                    Action::AddProvider { key, .. } => key == target,
                    Action::Finished(f) => f.target == target,
                }),
            forall|j: int|
                0 <= j < final(self).lookups@.len() && final(self).lookups@[j].query.target == target
                    ==> !(#[trigger] final(self).lookups@[j]).query.pending@.contains(from),
            forall|i: int|
                0 <= i < old(self).lookups@.len() && (#[trigger] old(self).lookups@[i]).query.target == target ==> {
                    &&& !old(self).lookups@[i].query.pending@.contains(from) ==> r@.len() == 0
                    &&& old(self).lookups@[i].query.pending@.contains(from) ==> exists|known2: Seq<Contact>|
                        #[trigger] learnt_answer(old(self).lookups@[i].query.known@, peers@, old(self).local, known2)
                            && round_actions(
                            r@,
                            known2,
                            target,
                            old(self).k as nat,
                            old(self).lookups@[i].query.contacted@,
                            (old(self).lookups@[i].query.pending@.len() - 1) as nat,
                            old(self).alpha,
                            old(self).lookups@[i].provide,
                        )
                },
            forall|j: int|
                0 <= j < peers@.len() && (#[trigger] peers@[j]).peer != old(self).local ==> has_peer(
                    final(self).table.contacts@,
                    peers@[j].peer,
                ) || bucket_count(
                    final(self).table.contacts@,
                    old(self).local,
                    bucket_of(old(self).local, peers@[j].peer),
                ) >= final(self).table.capacity,
    {
        let mut learnt: Vec<Contact> = Vec::new();
        let mut j: usize = 0;
        while j < peers.len()
            invariant
                j <= peers@.len(),
                self.wf(),
                self.local == old(self).local,
                self.store == old(self).store,
                self.lookups == old(self).lookups,
                forall|p: u64| has_peer(old(self).table.contacts@, p) ==> has_peer(self.table.contacts@, p),
                forall|x: int| 0 <= x < learnt@.len() ==> peers@.contains(#[trigger] learnt@[x]) && learnt@[x].peer != self.local,
                forall|x: int| 0 <= x < j && (#[trigger] peers@[x]).peer != self.local ==> learnt@.contains(peers@[x]),
                self.table.capacity == old(self).table.capacity,
                forall|x: int|
                    0 <= x < j && (#[trigger] peers@[x]).peer != self.local ==> has_peer(
                        self.table.contacts@,
                        peers@[x].peer,
                    ) || bucket_count(
                        self.table.contacts@,
                        self.local,
                        bucket_of(self.local, peers@[x].peer),
                    ) >= self.table.capacity,
            decreases peers@.len() - j,
        {
            let c = peers[j];
            if c.peer != self.local {
                let ghost t0 = self.table.contacts@;
                self.add_address(c);
                proof {
                    let t1 = self.table.contacts@;
                    assert forall|x: int|
                        0 <= x < j + 1 && (#[trigger] peers@[x]).peer != self.local implies has_peer(
                            t1,
                            peers@[x].peer,
                        ) || bucket_count(t1, self.local, bucket_of(self.local, peers@[x].peer))
                            >= self.table.capacity by {
                        if x < j {
                            if has_peer(t0, peers@[x].peer) {
                            } else {
                                assert(bucket_count(t1, self.local, bucket_of(self.local, peers@[x].peer))
                                    >= bucket_count(t0, self.local, bucket_of(self.local, peers@[x].peer)));
                            }
                        }
                    }
                }
                let ghost lt0 = learnt@;
                learnt.push(c);
                proof {
                    assert(learnt@[lt0.len() as int] == peers@[j as int]);
                    assert forall|x: int| 0 <= x < j + 1 && (#[trigger] peers@[x]).peer != self.local implies learnt@.contains(peers@[x]) by {
                        if x < j {
                            let w = choose|w: int| 0 <= w < lt0.len() && lt0[w] == peers@[x];
                            assert(learnt@[w] == peers@[x]);
                        }
                    }
                    assert forall|x: int| 0 <= x < learnt@.len() implies peers@.contains(#[trigger] learnt@[x]) && learnt@[x].peer != self.local by {
                        if x < lt0.len() {
                            assert(learnt@[x] == lt0[x]);
                        } else {
                            assert(learnt@[x] == peers@[j as int]);
                        }
                    }
                }
                proof {
                    assert forall|p: u64| has_peer(old(self).table.contacts@, p) implies has_peer(self.table.contacts@, p) by {
                        assert(has_peer(t0, p));
                    }
                }
            }
            j = j + 1;
        }
        match self.find_lookup(target) {
            None => Vec::new(),
            Some(i) => {
                let ghost lk = self.lookups@;
                let r = self.advance(i, from, &learnt, false);
                proof {
                    assert forall|x: int|
                        0 <= x < lk.len() && (#[trigger] lk[x]).query.target == target implies {
                        &&& !lk[x].query.pending@.contains(from) ==> r@.len() == 0
                        &&& lk[x].query.pending@.contains(from) ==> exists|known2: Seq<Contact>|
                            #[trigger] learnt_answer(lk[x].query.known@, peers@, self.local, known2)
                                && round_actions(
                                r@,
                                known2,
                                target,
                                self.k as nat,
                                lk[x].query.contacted@,
                                (lk[x].query.pending@.len() - 1) as nat,
                                self.alpha,
                                lk[x].provide,
                            )
                    } by {
                        if x != i {
                            if x < i {
                                assert(lk[x].query.target != lk[i as int].query.target);
                            } else {
                                assert(lk[i as int].query.target != lk[x].query.target);
                            }
                        }
                        assert(x == i);
                        if lk[x].query.pending@.contains(from) {
                            let q = lk[i as int].query;
                            assert(lk == old(self).lookups@);
                            assert(exists|known2: Seq<Contact>|
                                #[trigger] learnt_from(q.known@, learnt@, known2) && round_actions(
                                    r@,
                                    known2,
                                    target,
                                    self.k as nat,
                                    q.contacted@,
                                    (q.pending@.len() - 1) as nat,
                                    self.alpha,
                                    lk[i as int].provide,
                                ));
                            let known2 = choose|known2: Seq<Contact>|
                                #[trigger] learnt_from(q.known@, learnt@, known2) && round_actions(
                                    r@,
                                    known2,
                                    target,
                                    self.k as nat,
                                    q.contacted@,
                                    (q.pending@.len() - 1) as nat,
                                    self.alpha,
                                    lk[x].provide,
                                );
                            assert forall|y: int| 0 <= y < peers@.len() && peers@[y].peer != self.local implies has_peer(known2, #[trigger] peers@[y].peer) by {
                                assert(learnt@.contains(peers@[y]));
                                let w = choose|w: int| 0 <= w < learnt@.len() && learnt@[w] == peers@[y];
                                assert(has_peer(known2, learnt@[w].peer));
                            }
                            assert forall|y: int| 0 <= y < known2.len() implies q.known@.contains(#[trigger] known2[y]) || (peers@.contains(known2[y]) && known2[y].peer != self.local) by {
                                if !q.known@.contains(known2[y]) {
                                    assert(learnt@.contains(known2[y]));
                                    let w = choose|w: int| 0 <= w < learnt@.len() && learnt@[w] == known2[y];
                                    assert(peers@.contains(learnt@[w]) && learnt@[w].peer != self.local);
                                }
                            }
                            assert(learnt_answer(q.known@, peers@, self.local, known2));
                        }
                    }
                    assert forall|j: int| 0 <= j < r@.len() implies (match #[trigger] r@[j] {
                        Action::FindNode { peer, target: t } => t == target && exists|x: int|
                            0 <= x < old(self).lookups@.len() && old(self).lookups@[x].query.target
                                == target && !old(self).lookups@[x].query.contacted@.contains(peer),
                        Action::AddProvider { key, .. } => key == target,
                        Action::Finished(f) => f.target == target,
                    }) by {
                        match r@[j] {
                            Action::FindNode { peer, target: t } => {
                                assert(old(self).lookups@[i as int].query.target == target);
                            },
                            _ => {},
                        }
                    }
                }
                r
            },
        }
    }

    /// FIND_NODE to `from` for `target` failed: the lookup counts it as
    /// answered with no contacts and moves on.
    pub fn on_rpc_failure(&mut self, from: u64, target: u64) -> (r: Vec<Action>)
        requires
            old(self).wf(),
        ensures
            final(self).wf(),
            final(self).local == old(self).local,
            final(self).table == old(self).table,
            final(self).store == old(self).store,
            !has_lookup(old(self).lookups@, target) ==> r@.len() == 0 && final(self).lookups
                == old(self).lookups,
            forall|j: int|
                0 <= j < final(self).lookups@.len() && final(self).lookups@[j].query.target == target
                    ==> !(#[trigger] final(self).lookups@[j]).query.pending@.contains(from),
            forall|i: int|
                0 <= i < old(self).lookups@.len() && (#[trigger] old(self).lookups@[i]).query.target == target ==> {
                    &&& !old(self).lookups@[i].query.pending@.contains(from) ==> r@.len() == 0
                    &&& old(self).lookups@[i].query.pending@.contains(from) ==> exists|known2: Seq<Contact>|
                        #[trigger] learnt_from(old(self).lookups@[i].query.known@, Seq::empty(), known2)
                            && round_actions(
                            r@,
                            known2,
                            target,
                            old(self).k as nat,
                            old(self).lookups@[i].query.contacted@,
                            (old(self).lookups@[i].query.pending@.len() - 1) as nat,
                            old(self).alpha,
                            old(self).lookups@[i].provide,
                        )
                },
    {
        match self.find_lookup(target) {
            None => Vec::new(),
            Some(i) => {
                let none: Vec<Contact> = Vec::new();
                self.advance(i, from, &none, false)
            },
        }
    }

    /// The overall timer of the lookup of `target` expired: it ends as timed
    /// out, reporting (or announcing to) the closest peers it knows.
    pub fn on_query_timeout(&mut self, target: u64) -> (r: Vec<Action>)
        requires
            old(self).wf(),
        ensures
            final(self).wf(),
            final(self).local == old(self).local,
            final(self).table == old(self).table,
            final(self).store == old(self).store,
            !has_lookup(final(self).lookups@, target),
            !has_lookup(old(self).lookups@, target) ==> r@.len() == 0 && final(self).lookups
                == old(self).lookups,
            forall|j: int|
                0 <= j < r@.len() ==> (match #[trigger] r@[j] {
                    Action::FindNode { .. } => false,
                    Action::AddProvider { key, .. } => key == target,
                    Action::Finished(f) => f.target == target && f.timed_out,
                }),
            forall|i: int|
                0 <= i < old(self).lookups@.len() && (#[trigger] old(self).lookups@[i]).query.target == target
                    ==> ended_actions(
                    r@,
                    old(self).lookups@[i].query.known@,
                    target,
                    old(self).k as nat,
                    old(self).lookups@[i].provide,
                    true,
                ),
    {
        match self.find_lookup(target) {
            None => Vec::new(),
            Some(i) => {
                let none: Vec<Contact> = Vec::new();
                self.advance(i, target, &none, true)
            },
        }
    }

    /// Position of the running lookup for `target`, if any.
    pub fn find_lookup(&self, target: u64) -> (r: Option<usize>)
        ensures
            match r {
                Some(i) => i < self.lookups@.len() && self.lookups@[i as int].query.target == target,
                None => !has_lookup(self.lookups@, target),
            },
    {
        let mut i: usize = 0;
        while i < self.lookups.len()
            invariant
                i <= self.lookups@.len(),
                forall|j: int| 0 <= j < i ==> self.lookups@[j].query.target != target,
            decreases self.lookups@.len() - i,
        {
            if self.lookups[i].query.target == target {
                return Some(i);
            }
            i = i + 1;
        }
        None
    }

    /// The answer to an inbound FIND_NODE: the `k` known contacts nearest to `target`.
    pub fn on_find_node_request(&self, target: u64) -> (r: Vec<Contact>)
        requires
            self.wf(),
        ensures
            is_nearest(r@, self.table.contacts@, target, self.k as nat),
    {
        self.table.closest(target, self.k)
    }

    /// Handles an inbound ADD_PROVIDER.
    pub fn on_add_provider(&mut self, key: u64, provider: u64)
        requires
            old(self).wf(),
        ensures
            final(self).wf(),
            forall|kk: u64|
                providers_of(final(self).store.records@, kk) == if kk == key {
                    providers_of(old(self).store.records@, kk).insert(provider)
                } else {
                    providers_of(old(self).store.records@, kk)
                },
    {
        self.store.add_provider(key, provider);
    }

    /// The answer to an inbound GET_PROVIDERS: the providers recorded for `key`.
    pub fn on_get_providers(&self, key: u64) -> (r: Vec<u64>)
        requires
            self.wf(),
        ensures
            r@.to_set() == providers_of(self.store.records@, key),
            r@.no_duplicates(),
    {
        self.store.providers(key)
    }
}

} // verus!
