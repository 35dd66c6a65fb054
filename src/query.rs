use vstd::prelude::*;
use crate::distance::dist;
use crate::routing::{Contact, distinct_peers, has_peer, is_nearest, nearest, position_of, sorted_by_distance};

verus! {

/// Where an iterative closest-peers lookup stands.
#[derive(Clone, Copy, Debug, PartialEq, Eq, Structural)]
pub enum QueryState {
    Pending,
    Converging,
    Completed,
    TimedOut,
}

/// Completed or TimedOut: the lookup has reported and takes no more events.
pub open spec fn is_terminal(s: QueryState) -> bool {
    s == QueryState::Completed || s == QueryState::TimedOut
}

/// The final report of a lookup: the closest contacts known when it ended.
pub struct QueryResult {
    pub target: u64,
    pub timed_out: bool,
    pub peers: Vec<Contact>,
}

/// What a lookup asks of the node after an event.
pub enum Step {
    /// Send FIND_NODE for the target to each of these peers.
    Send(Vec<u64>),
    /// The lookup ended with this result.
    Done(QueryResult),
    /// The event did not concern this lookup in its current state.
    Ignored,
}

/// The identifiers of `top` not in `contacted`, in order, at most `budget` of them.
pub open spec fn fresh_ids(top: Seq<Contact>, contacted: Seq<u64>, budget: nat) -> Seq<u64>
    decreases top.len(),
{
    if top.len() == 0 || budget == 0 {
        Seq::empty()
    } else if contacted.contains(top[0].peer) {
        fresh_ids(top.drop_first(), contacted, budget)
    } else {
        seq![top[0].peer] + fresh_ids(top.drop_first(), contacted, (budget - 1) as nat)
    }
}

/// How many more requests may be outstanding.
pub open spec fn budget(alpha: usize, outstanding: nat) -> nat {
    if outstanding < alpha {
        (alpha - outstanding) as nat
    } else {
        0
    }
}

/// Contacting a peer that `top` does not hold changes nothing of `fresh_ids`.
pub proof fn lemma_fresh_ids_extend(top: Seq<Contact>, contacted: Seq<u64>, x: u64, budget: nat)
    requires
        forall|i: int| 0 <= i < top.len() ==> top[i].peer != x,
    ensures
        fresh_ids(top, contacted.push(x), budget) == fresh_ids(top, contacted, budget),
    decreases top.len(),
{
    if top.len() > 0 && budget > 0 {
        assert(contacted.push(x).contains(top[0].peer) == contacted.contains(top[0].peer)) by {
            if contacted.push(x).contains(top[0].peer) {
                let w = choose|w: int|
                    0 <= w < contacted.push(x).len() && contacted.push(x)[w] == top[0].peer;
                assert(w < contacted.len());
                assert(contacted[w] == top[0].peer);
            }
            if contacted.contains(top[0].peer) {
                let w = choose|w: int| 0 <= w < contacted.len() && contacted[w] == top[0].peer;
                assert(contacted.push(x)[w] == top[0].peer);
            }
        }
        lemma_fresh_ids_extend(top.drop_first(), contacted, x, budget);
        lemma_fresh_ids_extend(top.drop_first(), contacted, x, (budget - 1) as nat);
    }
}

/// The peers one round asks, taken from contacts sorted by distance, are
/// pairwise distinct and none of them was contacted before: a lookup never has
/// two FIND_NODE requests out to one peer.
pub proof fn lemma_fresh_ids_new_and_distinct(
    top: Seq<Contact>,
    target: u64,
    contacted: Seq<u64>,
    budget: nat,
)
    requires
        sorted_by_distance(top, target),
    ensures
        fresh_ids(top, contacted, budget).no_duplicates(),
        forall|i: int|
            0 <= i < fresh_ids(top, contacted, budget).len() ==> !contacted.contains(
                #[trigger] fresh_ids(top, contacted, budget)[i],
            ),
        forall|i: int|
            0 <= i < fresh_ids(top, contacted, budget).len() ==> exists|j: int|
                0 <= j < top.len() && top[j].peer == #[trigger] fresh_ids(top, contacted, budget)[i],
    decreases top.len(),
{
    if top.len() > 0 && budget > 0 {
        let rest = top.drop_first();
        assert(sorted_by_distance(rest, target)) by {
            assert forall|a: int, b: int| 0 <= a < b < rest.len() implies dist(rest[a].peer, target)
                < dist(rest[b].peer, target) by {
                assert(rest[a] == top[a + 1] && rest[b] == top[b + 1]);
            }
        }
        lemma_fresh_ids_new_and_distinct(rest, target, contacted, budget);
        lemma_fresh_ids_new_and_distinct(rest, target, contacted, (budget - 1) as nat);
        let f = fresh_ids(top, contacted, budget);
        if !contacted.contains(top[0].peer) {
            let x = fresh_ids(rest, contacted, (budget - 1) as nat);
            assert(f == seq![top[0].peer] + x);
            assert forall|i: int| 0 <= i < x.len() implies x[i] != top[0].peer by {
                let j = choose|j: int| 0 <= j < rest.len() && rest[j].peer == x[i];
                assert(rest[j] == top[j + 1]);
            }
            assert forall|a: int, b: int| 0 <= a < b < f.len() implies f[a] != f[b] by {
                if a == 0 {
                    assert(f[b] == x[b - 1]);
                } else {
                    assert(f[a] == x[a - 1] && f[b] == x[b - 1]);
                }
            }
            assert forall|i: int| 0 <= i < f.len() implies !contacted.contains(#[trigger] f[i])
                && exists|j: int| 0 <= j < top.len() && top[j].peer == f[i] by {
                if i > 0 {
                    assert(f[i] == x[i - 1]);
                    let j = choose|j: int| 0 <= j < rest.len() && rest[j].peer == x[i - 1];
                    assert(top[j + 1].peer == f[i]);
                } else {
                    assert(top[0].peer == f[0]);
                }
            }
        } else {
            let x = fresh_ids(rest, contacted, budget);
            assert forall|i: int| 0 <= i < f.len() implies exists|j: int|
                0 <= j < top.len() && top[j].peer == #[trigger] f[i] by {
                let j = choose|j: int| 0 <= j < rest.len() && rest[j].peer == x[i];
                assert(top[j + 1].peer == f[i]);
            }
        }
    }
}

/// Position of `x` in `v`, if any.
pub fn find_id(v: &Vec<u64>, x: u64) -> (r: Option<usize>)
    ensures
        match r {
            Some(i) => i < v@.len() && v@[i as int] == x,
            None => !v@.contains(x),
        },
{
    let mut i: usize = 0;
    while i < v.len()
        invariant
            i <= v@.len(),
            forall|j: int| 0 <= j < i ==> v@[j] != x,
        decreases v@.len() - i,
    {
        if v[i] == x {
            return Some(i);
        }
        i = i + 1;
    }
    None
}

/// One lookup of the peers closest to `target`: `k` results, at most `alpha`
/// FIND_NODE requests outstanding at once.
pub struct Query {
    pub target: u64,
    pub k: usize,
    pub alpha: usize,
    pub state: QueryState,
    /// Every contact heard of during the lookup, one per identifier.
    pub known: Vec<Contact>,
    /// Peers that were sent FIND_NODE, in order.
    pub contacted: Vec<u64>,
    /// Peers whose answer is outstanding.
    pub pending: Vec<u64>,
}

impl Query {
    /// Contacts known once each; no peer asked twice; every outstanding
    /// request went to a contacted peer.
    pub open spec fn core_wf(&self) -> bool {
        &&& distinct_peers(self.known@)
        &&& self.contacted@.no_duplicates()
        &&& self.pending@.no_duplicates()
        &&& forall|i: int|
            0 <= i < self.pending@.len() ==> self.contacted@.contains(#[trigger] self.pending@[i])
    }

    /// `core_wf`, and a lookup still converging always waits on an answer.
    pub open spec fn wf(&self) -> bool {
        &&& self.core_wf()
        &&& self.state == QueryState::Pending ==> self.contacted@.len() == 0
            && self.pending@.len() == 0
        &&& self.state == QueryState::Converging ==> self.pending@.len() > 0
        &&& is_terminal(self.state) ==> self.pending@.len() == 0
    }

    /// A lookup that has not started.
    pub fn new(target: u64, k: usize, alpha: usize) -> (r: Query)
        ensures
            r.wf(),
            r.target == target,
            r.k == k,
            r.alpha == alpha,
            r.state == QueryState::Pending,
            r.known@.len() == 0,
            r.contacted@.len() == 0,
            r.pending@.len() == 0,
    {
        Query {
            target,
            k,
            alpha,
            state: QueryState::Pending,
            known: Vec::new(),
            contacted: Vec::new(),
            pending: Vec::new(),
        }
    }

    /// The `k` known contacts nearest to the target, nearest first.
    pub fn closest_known(&self) -> (r: Vec<Contact>)
        requires
            distinct_peers(self.known@),
        ensures
            is_nearest(r@, self.known@, self.target, self.k as nat),
    {
        nearest(&self.known, self.target, self.k)
    }

    /// Records `c` among the known contacts unless its identifier is known already.
    pub fn learn(&mut self, c: Contact)
        requires
            old(self).core_wf(),
        ensures
            final(self).core_wf(),
            old(self).wf() ==> final(self).wf(),
            final(self).target == old(self).target,
            final(self).k == old(self).k,
            final(self).alpha == old(self).alpha,
            final(self).state == old(self).state,
            final(self).contacted@ == old(self).contacted@,
            final(self).pending@ == old(self).pending@,
            final(self).known@ == if has_peer(old(self).known@, c.peer) {
                old(self).known@
            } else {
                old(self).known@.push(c)
            },
    {
        if position_of(&self.known, c.peer).is_none() {
            self.known.push(c);
        }
    }

    /// Sends FIND_NODE to the nearest known peers not yet contacted, nearest
    /// first, until `alpha` requests are outstanding. Returns the peers asked.
    pub fn issue(&mut self) -> (r: Vec<u64>)
        requires
            old(self).core_wf(),
        ensures
            final(self).target == old(self).target,
            final(self).k == old(self).k,
            final(self).alpha == old(self).alpha,
            final(self).state == old(self).state,
            final(self).known@ == old(self).known@,
            final(self).contacted@ == old(self).contacted@ + r@,
            final(self).pending@ == old(self).pending@ + r@,
            final(self).contacted@.no_duplicates(),
            final(self).pending@.no_duplicates(),
            forall|i: int| 0 <= i < r@.len() ==> !old(self).contacted@.contains(#[trigger] r@[i]),
            forall|i: int| 0 <= i < r@.len() ==> has_peer(old(self).known@, #[trigger] r@[i]),
            old(self).pending@.len() < old(self).alpha ==> final(self).pending@.len()
                <= old(self).alpha,
            old(self).pending@.len() >= old(self).alpha ==> r@.len() == 0,
            exists|top: Seq<Contact>|
                is_nearest(top, old(self).known@, old(self).target, old(self).k as nat) && r@
                    == fresh_ids(top, old(self).contacted@, budget(old(self).alpha, old(self).pending@.len())),
    {
        let top = nearest(&self.known, self.target, self.k);
        let ghost n0 = budget(self.alpha, self.pending@.len());
        let ghost c0 = self.contacted@;
        let ghost pend0 = self.pending@;
        let mut r: Vec<u64> = Vec::new();
        let mut i: usize = 0;
        proof {
            assert(top@.skip(0) =~= top@);
            assert(r@ + fresh_ids(top@, c0, n0) =~= fresh_ids(top@, c0, n0));
        }
        while i < top.len() && self.pending.len() < self.alpha
            invariant
                i <= top@.len(),
                self.target == old(self).target,
                self.k == old(self).k,
                self.alpha == old(self).alpha,
                self.state == old(self).state,
                self.known@ == old(self).known@,
                is_nearest(top@, self.known@, self.target, self.k as nat),
                self.contacted@ == c0 + r@,
                self.pending@ == pend0 + r@,
                self.contacted@.no_duplicates(),
                self.pending@.no_duplicates(),
                pend0.len() < self.alpha ==> self.pending@.len() <= self.alpha,
                pend0.len() >= self.alpha ==> r@.len() == 0,
                forall|j: int| 0 <= j < r@.len() ==> !c0.contains(#[trigger] r@[j]),
                forall|j: int| 0 <= j < r@.len() ==> has_peer(self.known@, #[trigger] r@[j]),
                forall|j: int|
                    0 <= j < pend0.len() ==> c0.contains(#[trigger] pend0[j]),
                n0 == budget(self.alpha, pend0.len()),
                r@.len() <= n0,
                r@ + fresh_ids(top@.skip(i as int), self.contacted@, (n0 - r@.len()) as nat)
                    == fresh_ids(top@, c0, n0),
            decreases top@.len() - i,
        {
            let peer = top[i].peer;
            let ghost sk = top@.skip(i as int);
            let ghost m = (n0 - r@.len()) as nat;
            proof {
                assert(sk.drop_first() =~= top@.skip(i + 1));
                assert(sk[0] == top@[i as int]);
                assert(m > 0);
            }
            match find_id(&self.contacted, peer) {
                Some(_) => {},
                None => {
                    proof {
                        assert(crate::routing::has_contact(self.known@, top@[i as int]));
                        let w = choose|w: int|
                            0 <= w < self.known@.len() && self.known@[w] == top@[i as int];
                        assert(self.known@[w].peer == peer);
                        assert(!pend0.contains(peer)) by {
                            if pend0.contains(peer) {
                                let q = choose|q: int| 0 <= q < pend0.len() && pend0[q] == peer;
                                assert(c0.contains(pend0[q]));
                                let q2 = choose|q2: int| 0 <= q2 < c0.len() && c0[q2] == peer;
                                assert(self.contacted@[q2] == peer);
                            }
                        }
                        assert(!c0.contains(peer)) by {
                            if c0.contains(peer) {
                                let q = choose|q: int| 0 <= q < c0.len() && c0[q] == peer;
                                assert(self.contacted@[q] == peer);
                            }
                        }
                        assert(!r@.contains(peer)) by {
                            if r@.contains(peer) {
                                let q = choose|q: int| 0 <= q < r@.len() && r@[q] == peer;
                                assert(self.contacted@[c0.len() + q] == peer);
                            }
                        }
                    }
                    let ghost r0 = r@;
                    let ghost cb = self.contacted@;
                    self.contacted.push(peer);
                    self.pending.push(peer);
                    r.push(peer);
                    proof {
                        assert(self.contacted@ =~= c0 + r@);
                        assert(self.pending@ =~= pend0 + r@);
                        let rest = top@.skip(i + 1);
                        assert forall|j: int| 0 <= j < rest.len() implies rest[j].peer != peer by {
                            assert(rest[j] == top@[i + 1 + j]);
                        }
                        lemma_fresh_ids_extend(rest, cb, peer, (m - 1) as nat);
                        assert(cb.push(peer) =~= self.contacted@);
                        assert(r@ =~= r0 + seq![peer]);
                        let x = fresh_ids(rest, cb, (m - 1) as nat);
                        assert(fresh_ids(sk, cb, m) == seq![peer] + x);
                        assert((r0 + seq![peer]) + x =~= r0 + (seq![peer] + x));
                    }
                },
            }
            i = i + 1;
        }
        proof {
            if i == top@.len() {
                assert(top@.skip(i as int).len() == 0);
            }
            assert(r@ + fresh_ids(top@.skip(i as int), self.contacted@, (n0 - r@.len()) as nat) =~= r@);
        }
        r
    }

    /// The lookup's report, with the closest contacts known now.
    fn report(&self, timed_out: bool) -> (r: QueryResult)
        requires
            distinct_peers(self.known@),
        ensures
            r.target == self.target,
            r.timed_out == timed_out,
            is_nearest(r.peers@, self.known@, self.target, self.k as nat),
    {
        QueryResult { target: self.target, timed_out, peers: self.closest_known() }
    }

    /// Issues what the current round allows; with nothing outstanding after
    /// that, the lookup has converged and completes.
    fn finish_round(&mut self) -> (r: Step)
        requires
            old(self).core_wf(),
            old(self).state == QueryState::Converging,
        ensures
            final(self).wf(),
            final(self).target == old(self).target,
            final(self).k == old(self).k,
            final(self).alpha == old(self).alpha,
            final(self).known@ == old(self).known@,
            match r {
                Step::Send(v) => {
                    &&& final(self).state == QueryState::Converging
                    &&& final(self).contacted@ == old(self).contacted@ + v@
                    &&& final(self).pending@ == old(self).pending@ + v@
                    &&& forall|i: int|
                        0 <= i < v@.len() ==> !old(self).contacted@.contains(#[trigger] v@[i])
                    &&& forall|i: int| 0 <= i < v@.len() ==> has_peer(old(self).known@, #[trigger] v@[i])
                    &&& exists|top: Seq<Contact>|
                        is_nearest(top, old(self).known@, old(self).target, old(self).k as nat) && v@
                            == fresh_ids(top, old(self).contacted@, budget(old(self).alpha, old(self).pending@.len()))
                },
                Step::Done(res) => {
                    &&& final(self).state == QueryState::Completed
                    &&& !res.timed_out
                    &&& res.target == old(self).target
                    &&& is_nearest(res.peers@, old(self).known@, old(self).target, old(self).k as nat)
                    &&& old(self).pending@.len() == 0
                    &&& exists|top: Seq<Contact>|
                        is_nearest(top, old(self).known@, old(self).target, old(self).k as nat)
                            && fresh_ids(top, old(self).contacted@, budget(old(self).alpha, 0)).len() == 0
                },
                Step::Ignored => false,
            },
    {
        let v = self.issue();
        if self.pending.len() == 0 {
            self.state = QueryState::Completed;
            Step::Done(self.report(false))
        } else {
            proof {
                assert forall|i: int| 0 <= i < self.pending@.len() implies self.contacted@.contains(
                    #[trigger] self.pending@[i],
                ) by {
                    if i < old(self).pending@.len() {
                        assert(old(self).contacted@.contains(old(self).pending@[i]));
                        let w = choose|w: int|
                            0 <= w < old(self).contacted@.len() && old(self).contacted@[w]
                                == old(self).pending@[i];
                        assert(self.contacted@[w] == self.pending@[i]);
                    } else {
                        assert(self.contacted@[old(self).contacted@.len() + i - old(
                            self,
                        ).pending@.len()] == self.pending@[i]);
                    }
                }
            }
            Step::Send(v)
        }
    }

    /// Takes the request to the peer at position `i` off the outstanding ones.
    fn drop_pending(&mut self, i: usize)
        requires
            old(self).core_wf(),
            i < old(self).pending@.len(),
        ensures
            final(self).core_wf(),
            final(self).pending@ == old(self).pending@.remove(i as int),
            !final(self).pending@.contains(old(self).pending@[i as int]),
            final(self).target == old(self).target,
            final(self).k == old(self).k,
            final(self).alpha == old(self).alpha,
            final(self).state == old(self).state,
            final(self).known@ == old(self).known@,
            final(self).contacted@ == old(self).contacted@,
    {
        let ghost pend0 = self.pending@;
        self.pending.remove(i);
        proof {
            assert forall|j: int| 0 <= j < self.pending@.len() implies self.pending@[j] == if j < i {
                pend0[j]
            } else {
                pend0[j + 1]
            } by {}
            assert forall|a: int, b: int|
                0 <= a < b < self.pending@.len() implies self.pending@[a] != self.pending@[b] by {
                let a0 = if a < i { a } else { a + 1 };
                let b0 = if b < i { b } else { b + 1 };
                assert(pend0[a0] != pend0[b0]);
            }
            assert forall|j: int| 0 <= j < self.pending@.len() implies self.contacted@.contains(
                #[trigger] self.pending@[j],
            ) by {
                let j0 = if j < i { j } else { j + 1 };
                assert(self.contacted@.contains(pend0[j0]));
            }
            assert(!self.pending@.contains(pend0[i as int])) by {
                if self.pending@.contains(pend0[i as int]) {
                    let w = choose|w: int| 0 <= w < self.pending@.len() && self.pending@[w] == pend0[i as int];
                    let w0 = if w < i { w } else { w + 1 };
                    assert(pend0[w0] == pend0[i as int]);
                }
            }
        }
    }

    /// Handles the answer of `from` to FIND_NODE: learns the contacts it
    /// returned, then issues the next requests or completes.
    pub fn on_response(&mut self, from: u64, peers: &Vec<Contact>) -> (r: Step)
        requires
            old(self).wf(),
        ensures
            final(self).wf(),
            final(self).target == old(self).target,
            final(self).k == old(self).k,
            final(self).alpha == old(self).alpha,
            !(old(self).state == QueryState::Converging && old(self).pending@.contains(from)) ==> {
                &&& r is Ignored
                &&& *final(self) == *old(self)
            },
            old(self).state == QueryState::Converging && old(self).pending@.contains(from) ==> {
                &&& !(r is Ignored)
                &&& forall|i: int| 0 <= i < old(self).known@.len() ==> final(self).known@.contains(#[trigger] old(self).known@[i])
                &&& forall|i: int| 0 <= i < peers@.len() ==> has_peer(final(self).known@, #[trigger] peers@[i].peer)
                &&& forall|i: int| 0 <= i < final(self).known@.len() ==> old(self).known@.contains(#[trigger] final(self).known@[i]) || peers@.contains(final(self).known@[i])
                &&& !final(self).pending@.contains(from)
                &&& match r {
                    Step::Send(v) => exists|top: Seq<Contact>|
                        is_nearest(top, final(self).known@, old(self).target, old(self).k as nat) && v@
                            == fresh_ids(top, old(self).contacted@, budget(old(self).alpha, (old(self).pending@.len() - 1) as nat)),
                    Step::Done(_) => old(self).pending@.len() == 1 && exists|top: Seq<Contact>|
                        is_nearest(top, final(self).known@, old(self).target, old(self).k as nat)
                            && fresh_ids(top, old(self).contacted@, budget(old(self).alpha, 0)).len() == 0,
                    Step::Ignored => false,
                }
            },
            match r {
                Step::Send(v) => {
                    &&& final(self).state == QueryState::Converging
                    &&& forall|i: int|
                        0 <= i < v@.len() ==> !old(self).contacted@.contains(#[trigger] v@[i])
                    &&& final(self).contacted@ == old(self).contacted@ + v@
                    &&& exists|idx: int|
                        0 <= idx < old(self).pending@.len() && old(self).pending@[idx] == from
                            && final(self).pending@ == old(self).pending@.remove(idx) + v@
                },
                Step::Done(res) => {
                    &&& final(self).state == QueryState::Completed
                    &&& final(self).pending@.len() == 0
                    &&& !res.timed_out
                    &&& res.target == old(self).target
                    &&& is_nearest(res.peers@, final(self).known@, old(self).target, old(self).k as nat)
                },
                Step::Ignored => true,
            },
    {
        if self.state != QueryState::Converging {
            return Step::Ignored;
        }
        let i = match find_id(&self.pending, from) {
            None => {
                return Step::Ignored;
            },
            Some(i) => i,
        };
        self.drop_pending(i);
        let ghost k_in = self.known@;
        let ghost pend1 = self.pending@;
        let mut j: usize = 0;
        while j < peers.len()
            invariant
                j <= peers@.len(),
                self.core_wf(),
                self.target == old(self).target,
                self.k == old(self).k,
                self.alpha == old(self).alpha,
                self.state == QueryState::Converging,
                self.contacted@ == old(self).contacted@,
                self.pending@.len() == old(self).pending@.len() - 1,
                !self.pending@.contains(from),
                forall|a: int| 0 <= a < k_in.len() ==> self.known@.contains(#[trigger] k_in[a]),
                k_in == old(self).known@,
                pend1 == self.pending@,
                forall|a: int| 0 <= a < self.known@.len() ==> k_in.contains(#[trigger] self.known@[a]) || peers@.contains(self.known@[a]),
                forall|a: int| 0 <= a < j ==> has_peer(self.known@, #[trigger] peers@[a].peer),
            decreases peers@.len() - j,
        {
            let ghost k0 = self.known@;
            self.learn(peers[j]);
            proof {
                assert forall|a: int| 0 <= a < k0.len() implies self.known@[a] == k0[a] by {}
                assert forall|a: int| 0 <= a < k_in.len() implies self.known@.contains(#[trigger] k_in[a]) by {
                    let w = choose|w: int| 0 <= w < k0.len() && k0[w] == k_in[a];
                    assert(self.known@[w] == k_in[a]);
                }
                assert forall|a: int| 0 <= a < j + 1 implies has_peer(self.known@, #[trigger] peers@[a].peer) by {
                    if a < j || has_peer(k0, peers@[a].peer) {
                        let w = choose|w: int| 0 <= w < k0.len() && k0[w].peer == peers@[a].peer;
                        assert(self.known@[w] == k0[w]);
                    } else {
                        assert(self.known@[k0.len() as int] == peers@[a]);
                    }
                }
                assert forall|a: int| 0 <= a < self.known@.len() implies k_in.contains(#[trigger] self.known@[a]) || peers@.contains(self.known@[a]) by {
                    if a < k0.len() {
                        assert(self.known@[a] == k0[a]);
                    } else {
                        assert(self.known@[a] == peers@[j as int]);
                    }
                }
            }
            j = j + 1;
        }
        let ghost before = self.known@;
        let r = self.finish_round();
        proof {
            assert(self.known@ == before);
            let idx = i as int;
            assert(old(self).pending@[idx] == from);
        }
        r
    }

    /// The lookup's overall timer expired: a lookup still running ends as
    /// timed out and reports the closest contacts it knows; an ended one ignores it.
    pub fn on_timeout(&mut self) -> (r: Step)
        requires
            old(self).wf(),
        ensures
            final(self).wf(),
            is_terminal(final(self).state),
            is_terminal(old(self).state) ==> {
                &&& r is Ignored
                &&& *final(self) == *old(self)
            },
            !is_terminal(old(self).state) ==> {
                &&& final(self).state == QueryState::TimedOut
                &&& final(self).known@ == old(self).known@
                &&& final(self).contacted@ == old(self).contacted@
                &&& match r {
                    Step::Done(res) => {
                        &&& res.timed_out
                        &&& res.target == old(self).target
                        &&& is_nearest(res.peers@, old(self).known@, old(self).target, old(self).k as nat)
                    },
                    _ => false,
                }
            },
    {
        if self.state == QueryState::Completed || self.state == QueryState::TimedOut {
            return Step::Ignored;
        }
        self.pending = Vec::new();
        self.state = QueryState::TimedOut;
        Step::Done(self.report(true))
    }

    /// Starts the lookup from `seeds`, the routing table's contacts nearest to
    /// the target: asks the nearest of them, or completes at once when there
    /// is no one to ask.
    pub fn start(&mut self, seeds: &Vec<Contact>) -> (r: Step)
        requires
            old(self).wf(),
            old(self).state == QueryState::Pending,
        ensures
            final(self).wf(),
            final(self).target == old(self).target,
            final(self).k == old(self).k,
            final(self).alpha == old(self).alpha,
            forall|i: int| 0 <= i < seeds@.len() ==> has_peer(final(self).known@, #[trigger] seeds@[i].peer),
            distinct_peers(seeds@) && old(self).known@.len() == 0 ==> final(self).known@ == seeds@,
            forall|i: int| 0 <= i < final(self).known@.len() ==> old(self).known@.contains(#[trigger] final(self).known@[i]) || seeds@.contains(final(self).known@[i]),
            match r {
                Step::Send(v) => {
                    &&& final(self).state == QueryState::Converging
                    &&& final(self).contacted@ == v@
                    &&& final(self).pending@ == v@
                    &&& forall|i: int| 0 <= i < v@.len() ==> has_peer(final(self).known@, #[trigger] v@[i])
                    &&& exists|top: Seq<Contact>|
                        is_nearest(top, final(self).known@, old(self).target, old(self).k as nat) && v@
                            == fresh_ids(top, Seq::empty(), budget(old(self).alpha, 0))
                },
                Step::Done(res) => {
                    &&& final(self).state == QueryState::Completed
                    &&& !res.timed_out
                    &&& res.target == old(self).target
                    &&& is_nearest(res.peers@, final(self).known@, old(self).target, old(self).k as nat)
                    &&& exists|top: Seq<Contact>|
                        is_nearest(top, final(self).known@, old(self).target, old(self).k as nat)
                            && fresh_ids(top, Seq::empty(), budget(old(self).alpha, 0)).len() == 0
                },
                Step::Ignored => false,
            },
    {
        let mut i: usize = 0;
        while i < seeds.len()
            invariant
                i <= seeds@.len(),
                self.wf(),
                self.target == old(self).target,
                self.k == old(self).k,
                self.alpha == old(self).alpha,
                self.state == QueryState::Pending,
                forall|j: int| 0 <= j < i ==> has_peer(self.known@, #[trigger] seeds@[j].peer),
                distinct_peers(seeds@) && old(self).known@.len() == 0 ==> self.known@ == seeds@.take(i as int),
                forall|j: int| 0 <= j < self.known@.len() ==> old(self).known@.contains(#[trigger] self.known@[j]) || seeds@.contains(self.known@[j]),
            decreases seeds@.len() - i,
        {
            let ghost k0 = self.known@;
            self.learn(seeds[i]);
            proof {
                if distinct_peers(seeds@) && old(self).known@.len() == 0 {
                    assert(!has_peer(k0, seeds@[i as int].peer)) by {
                        if has_peer(k0, seeds@[i as int].peer) {
                            let w = choose|w: int| 0 <= w < k0.len() && k0[w].peer == seeds@[i as int].peer;
                            assert(k0[w] == seeds@[w]);
                        }
                    }
                    assert(self.known@ =~= seeds@.take(i + 1));
                }
                assert forall|j: int| 0 <= j < i + 1 implies has_peer(self.known@, #[trigger] seeds@[j].peer) by {
                    if j < i {
                        let w = choose|w: int| 0 <= w < k0.len() && k0[w].peer == seeds@[j].peer;
                        assert(self.known@[w] == k0[w]);
                    } else if !has_peer(k0, seeds@[j].peer) {
                        assert(self.known@[k0.len() as int] == seeds@[j]);
                    } else {
                        let w = choose|w: int| 0 <= w < k0.len() && k0[w].peer == seeds@[j].peer;
                        assert(self.known@[w] == k0[w]);
                    }
                }
                assert forall|j: int| 0 <= j < self.known@.len() implies old(self).known@.contains(#[trigger] self.known@[j]) || seeds@.contains(self.known@[j]) by {
                    if j < k0.len() {
                        assert(self.known@[j] == k0[j]);
                    } else {
                        assert(self.known@[j] == seeds@[i as int]);
                    }
                }
            }
            i = i + 1;
        }
        proof {
            if distinct_peers(seeds@) && old(self).known@.len() == 0 {
                assert(seeds@.take(i as int) =~= seeds@);
            }
        }
        self.state = QueryState::Converging;
        proof {
            assert(self.contacted@ =~= Seq::<u64>::empty());
            assert(self.pending@.len() == 0);
        }
        self.finish_round()
    }
}

} // verus!
