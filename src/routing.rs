use vstd::prelude::*;
use crate::distance::{bucket_of, bucket_index, dist, lemma_dist_injective, xor_distance};

verus! {

/// A known peer: its identifier and the IPv4 address and TCP port it listens on.
#[derive(Clone, Copy, Debug, PartialEq, Eq, Structural)]
pub struct Contact {
    pub peer: u64,
    pub ip: u32,
    pub port: u16,
}

/// Number of contacts of `s` that fall into bucket `b` as seen from `local`.
pub open spec fn bucket_count(s: Seq<Contact>, local: u64, b: nat) -> nat
    decreases s.len(),
{
    if s.len() == 0 {
        0
    } else {
        bucket_count(s.drop_last(), local, b) + if bucket_of(local, s.last().peer) == b {
            1nat
        } else {
            0nat
        }
    }
}

/// Some contact of `s` has identifier `p`.
pub open spec fn has_peer(s: Seq<Contact>, p: u64) -> bool {
    exists|i: int| 0 <= i < s.len() && s[i].peer == p
}

/// `c` is an element of `s`.
pub open spec fn has_contact(s: Seq<Contact>, c: Contact) -> bool {
    exists|i: int| 0 <= i < s.len() && s[i] == c
}

/// Identifiers are pairwise distinct.
pub open spec fn distinct_peers(s: Seq<Contact>) -> bool {
    forall|i: int, j: int| 0 <= i < j < s.len() ==> s[i].peer != s[j].peer
}

/// Distances to `target` strictly increase along `s`.
pub open spec fn sorted_by_distance(s: Seq<Contact>, target: u64) -> bool {
    forall|i: int, j: int|
        0 <= i < j < s.len() ==> dist(s[i].peer, target) < dist(s[j].peer, target)
}

/// `r` is the at most `count` contacts of `s` nearest to `target`, nearest
/// first: the `count` nearest, or all of `s` when it holds fewer.
pub open spec fn is_nearest(r: Seq<Contact>, s: Seq<Contact>, target: u64, count: nat) -> bool {
    &&& r.len() <= count
    &&& sorted_by_distance(r, target)
    &&& forall|i: int| 0 <= i < r.len() ==> has_contact(s, #[trigger] r[i])
    &&& forall|j: int|
        0 <= j < s.len() ==> has_contact(r, #[trigger] s[j]) || (r.len() == count && forall|i: int|
            0 <= i < r.len() ==> dist(r[i].peer, target) < dist(s[j].peer, target))
}

/// Contacts sorted strictly by distance hold no contact twice.
pub proof fn lemma_sorted_no_duplicates(s: Seq<Contact>, target: u64)
    requires
        sorted_by_distance(s, target),
    ensures
        s.no_duplicates(),
{
    assert forall|a: int, b: int| 0 <= a < b < s.len() implies s[a] != s[b] by {
        assert(dist(s[a].peer, target) < dist(s[b].peer, target));
    }
}

/// The nearest contacts among the nearest contacts of a set are its nearest
/// contacts: seeding a lookup with the table's `k` nearest loses nothing.
pub proof fn lemma_nearest_of_nearest(
    top: Seq<Contact>,
    seeds: Seq<Contact>,
    table: Seq<Contact>,
    target: u64,
    k: nat,
)
    requires
        is_nearest(seeds, table, target, k),
        is_nearest(top, seeds, target, k),
    ensures
        is_nearest(top, table, target, k),
{
    lemma_sorted_no_duplicates(top, target);
    lemma_sorted_no_duplicates(seeds, target);
    top.unique_seq_to_set();
    seeds.unique_seq_to_set();
    seeds.lemma_cardinality_of_set();
    top.lemma_cardinality_of_set();
    assert forall|j: int| 0 <= j < seeds.len() implies has_contact(top, #[trigger] seeds[j]) by {
        if !has_contact(top, seeds[j]) {
            let x = seeds[j];
            assert(seeds.contains(x));
            assert forall|c: Contact| top.to_set().contains(c) implies seeds.to_set().remove(x).contains(c) by {
                let i = choose|i: int| 0 <= i < top.len() && top[i] == c;
                assert(has_contact(seeds, top[i]));
                assert(dist(top[i].peer, target) < dist(x.peer, target));
            }
            vstd::set_lib::lemma_len_subset(top.to_set(), seeds.to_set().remove(x));
            assert(seeds.to_set().contains(x));
        }
    }
    assert forall|c: Contact| seeds.to_set().contains(c) implies top.to_set().contains(c) by {
        let j = choose|j: int| 0 <= j < seeds.len() && seeds[j] == c;
        assert(has_contact(top, seeds[j]));
    }
    vstd::set_lib::lemma_len_subset(seeds.to_set(), top.to_set());
    assert forall|c: Contact| top.to_set().contains(c) implies seeds.to_set().contains(c) by {
        let i = choose|i: int| 0 <= i < top.len() && top[i] == c;
        assert(has_contact(seeds, top[i]));
    }
    vstd::set_lib::lemma_len_subset(top.to_set(), seeds.to_set());
    assert(top.len() == seeds.len());
    assert forall|j: int| 0 <= j < table.len() implies has_contact(top, #[trigger] table[j]) || (
    top.len() == k && forall|i: int|
        0 <= i < top.len() ==> dist(top[i].peer, target) < dist(table[j].peer, target)) by {
        if has_contact(seeds, table[j]) {
            let w = choose|w: int| 0 <= w < seeds.len() && seeds[w] == table[j];
            assert(has_contact(top, seeds[w]));
        } else {
            assert forall|i: int| 0 <= i < top.len() implies dist(top[i].peer, target) < dist(
                table[j].peer,
                target,
            ) by {
                assert(has_contact(seeds, top[i]));
                let w = choose|w: int| 0 <= w < seeds.len() && seeds[w] == top[i];
            }
        }
    }
    assert forall|i: int| 0 <= i < top.len() implies has_contact(table, #[trigger] top[i]) by {
        assert(has_contact(seeds, top[i]));
        let w = choose|w: int| 0 <= w < seeds.len() && seeds[w] == top[i];
    }
}

/// Removing a contact lowers the count of its own bucket by one.
pub proof fn lemma_bucket_count_remove(s: Seq<Contact>, local: u64, i: int, b: nat)
    requires
        0 <= i < s.len(),
    ensures
        bucket_count(s.remove(i), local, b) + (if bucket_of(local, s[i].peer) == b {
            1nat
        } else {
            0nat
        }) == bucket_count(s, local, b),
    decreases s.len(),
{
    let t = s.remove(i);
    if i < s.len() - 1 {
        assert(t.drop_last() =~= s.drop_last().remove(i));
        assert(t.last() == s.last());
        lemma_bucket_count_remove(s.drop_last(), local, i, b);
    } else {
        assert(t =~= s.drop_last());
    }
}

/// Appending a contact raises the count of its own bucket by one.
pub proof fn lemma_bucket_count_push(s: Seq<Contact>, local: u64, c: Contact, b: nat)
    ensures
        bucket_count(s.push(c), local, b) == bucket_count(s, local, b) + if bucket_of(
            local,
            c.peer,
        ) == b {
            1nat
        } else {
            0nat
        },
{
    assert(s.push(c).drop_last() =~= s);
}

/// The contacts this node knows, held in buckets by XOR distance from its own
/// identifier; each bucket holds at most `capacity` contacts.
pub struct RoutingTable {
    pub local: u64,
    pub capacity: usize,
    pub contacts: Vec<Contact>,
}

impl RoutingTable {
    /// No identifier twice, never the local one, and no bucket over capacity.
    pub open spec fn wf(&self) -> bool {
        &&& distinct_peers(self.contacts@)
        &&& forall|i: int| 0 <= i < self.contacts@.len() ==> self.contacts@[i].peer != self.local
        &&& forall|b: nat| bucket_count(self.contacts@, self.local, b) <= self.capacity
    }

    pub fn new(local: u64, capacity: usize) -> (r: RoutingTable)
        ensures
            r.wf(),
            r.local == local,
            r.capacity == capacity,
            r.contacts@.len() == 0,
    {
        RoutingTable { local, capacity, contacts: Vec::new() }
    }

    pub fn len(&self) -> (r: usize)
        ensures
            r == self.contacts@.len(),
    {
        self.contacts.len()
    }

    /// Position of the contact with identifier `peer`, if any.
    pub fn find(&self, peer: u64) -> (r: Option<usize>)
        ensures
            match r {
                Some(i) => i < self.contacts@.len() && self.contacts@[i as int].peer == peer,
                None => !has_peer(self.contacts@, peer),
            },
    {
        position_of(&self.contacts, peer)
    }

    /// Number of contacts in bucket `b`.
    pub fn bucket_size(&self, b: u32) -> (r: usize)
        ensures
            r as nat == bucket_count(self.contacts@, self.local, b as nat),
    {
        let s = Ghost(self.contacts@);
        let mut i: usize = 0;
        let mut n: usize = 0;
        while i < self.contacts.len()
            invariant
                s@ == self.contacts@,
                i <= s@.len(),
                n as nat == bucket_count(s@.take(i as int), self.local, b as nat),
                n <= i,
            decreases s@.len() - i,
        {
            assert(s@.take(i + 1).drop_last() =~= s@.take(i as int));
            if bucket_index(self.local, self.contacts[i].peer) == b {
                n = n + 1;
            }
            i = i + 1;
        }
        assert(s@.take(i as int) =~= s@);
        n
    }

    /// Learns of `c` or refreshes it: a known contact takes the new address and
    /// moves to the most recently seen end. Returns false, and changes
    /// nothing, for the local identifier or when `c` is new and its bucket is full.
    pub fn add_contact(&mut self, c: Contact) -> (r: bool)
        requires
            old(self).wf(),
        ensures
            final(self).wf(),
            final(self).local == old(self).local,
            final(self).capacity == old(self).capacity,
            r == (c.peer != old(self).local && (has_peer(old(self).contacts@, c.peer)
                || bucket_count(old(self).contacts@, old(self).local, bucket_of(old(self).local, c.peer))
                < old(self).capacity)),
            !r ==> final(self).contacts@ == old(self).contacts@,
            r && has_peer(old(self).contacts@, c.peer) ==> exists|i: int|
                0 <= i < old(self).contacts@.len() && old(self).contacts@[i].peer == c.peer
                    && final(self).contacts@ == old(self).contacts@.remove(i).push(c),
            r && !has_peer(old(self).contacts@, c.peer) ==> final(self).contacts@ == old(
                self,
            ).contacts@.push(c),
    {
        if c.peer == self.local {
            return false;
        }
        match self.find(c.peer) {
            Some(i) => {
                let ghost s = self.contacts@;
                self.contacts.remove(i);
                self.contacts.push(c);
                proof {
                    let t = s.remove(i as int);
                    assert(self.contacts@ == t.push(c));
                    assert forall|j: int| 0 <= j < t.len() implies t[j] == if j < i {
                        s[j]
                    } else {
                        s[j + 1]
                    } by {}
                    assert forall|b: nat|
                        bucket_count(self.contacts@, self.local, b) <= self.capacity by {
                        lemma_bucket_count_remove(s, self.local, i as int, b);
                        lemma_bucket_count_push(t, self.local, c, b);
                    }
                    assert forall|a: int, bb: int|
                        0 <= a < bb < self.contacts@.len() implies self.contacts@[a].peer
                        != self.contacts@[bb].peer by {
                        let a0 = if a < i { a } else { a + 1 };
                        if bb == t.len() {
                            assert(s[a0].peer != s[i as int].peer);
                        } else {
                            let b0 = if bb < i { bb } else { bb + 1 };
                            assert(s[a0].peer != s[b0].peer);
                        }
                    }
                    assert forall|j: int| 0 <= j < self.contacts@.len() implies self.contacts@[j].peer
                        != self.local by {
                        if j < t.len() {
                            let j0 = if j < i { j } else { j + 1 };
                            assert(s[j0].peer != self.local);
                        }
                    }
                }
                true
            },
            None => {
                let b = bucket_index(self.local, c.peer);
                if self.bucket_size(b) < self.capacity {
                    let ghost s = self.contacts@;
                    self.contacts.push(c);
                    proof {
                        assert forall|bb: nat|
                            bucket_count(self.contacts@, self.local, bb) <= self.capacity by {
                            lemma_bucket_count_push(s, self.local, c, bb);
                        }
                    }
                    true
                } else {
                    false
                }
            },
        }
    }

    /// Forgets the contact with identifier `peer`. Returns whether there was one.
    pub fn remove_contact(&mut self, peer: u64) -> (r: bool)
        requires
            old(self).wf(),
        ensures
            final(self).wf(),
            final(self).local == old(self).local,
            final(self).capacity == old(self).capacity,
            r == has_peer(old(self).contacts@, peer),
            !has_peer(final(self).contacts@, peer),
            forall|c: Contact|
                c.peer != peer ==> (has_contact(final(self).contacts@, c) == has_contact(
                    old(self).contacts@,
                    c,
                )),
    {
        match self.find(peer) {
            None => false,
            Some(i) => {
                let ghost s = self.contacts@;
                self.contacts.remove(i);
                proof {
                    let t = self.contacts@;
                    assert forall|j: int| 0 <= j < t.len() implies t[j] == if j < i {
                        s[j]
                    } else {
                        s[j + 1]
                    } by {}
                    assert forall|a: int, b: int| 0 <= a < b < t.len() implies t[a].peer != t[b].peer by {
                        let a0 = if a < i { a } else { a + 1 };
                        let b0 = if b < i { b } else { b + 1 };
                        assert(s[a0].peer != s[b0].peer);
                    }
                    assert forall|j: int| 0 <= j < t.len() implies t[j].peer != self.local by {
                        let j0 = if j < i { j } else { j + 1 };
                        assert(s[j0].peer != self.local);
                    }
                    assert forall|b: nat| bucket_count(t, self.local, b) <= self.capacity by {
                        lemma_bucket_count_remove(s, self.local, i as int, b);
                    }
                    assert(!has_peer(t, peer)) by {
                        if has_peer(t, peer) {
                            let w = choose|w: int| 0 <= w < t.len() && t[w].peer == peer;
                            let w0 = if w < i { w } else { w + 1 };
                            assert(s[w0].peer == s[i as int].peer);
                        }
                    }
                    assert forall|c: Contact| c.peer != peer implies (has_contact(t, c) == has_contact(s, c)) by {
                        if has_contact(s, c) {
                            let w = choose|w: int| 0 <= w < s.len() && s[w] == c;
                            assert(w != i);
                            let w1 = if w < i { w } else { w - 1 };
                            assert(t[w1] == c);
                        }
                        if has_contact(t, c) {
                            let w = choose|w: int| 0 <= w < t.len() && t[w] == c;
                            let w0 = if w < i { w } else { w + 1 };
                            assert(s[w0] == c);
                        }
                    }
                }
                true
            },
        }
    }

    /// The at most `count` known contacts nearest to `target`, nearest first.
    pub fn closest(&self, target: u64, count: usize) -> (r: Vec<Contact>)
        requires
            self.wf(),
        ensures
            is_nearest(r@, self.contacts@, target, count as nat),
    {
        nearest(&self.contacts, target, count)
    }
}

/// Position in `s` of the contact with identifier `peer`, if any.
pub fn position_of(s: &Vec<Contact>, peer: u64) -> (r: Option<usize>)
    ensures
        match r {
            Some(i) => i < s@.len() && s@[i as int].peer == peer,
            None => !has_peer(s@, peer),
        },
{
    let mut i: usize = 0;
    while i < s.len()
        invariant
            i <= s@.len(),
            forall|j: int| 0 <= j < i ==> s@[j].peer != peer,
        decreases s@.len() - i,
    {
        if s[i].peer == peer {
            return Some(i);
        }
        i = i + 1;
    }
    None
}

/// Among contacts farther than `bound` from `target` (all contacts when
/// `!have_bound`), the position and distance of the nearest one, if any.
fn nearest_beyond(s: &Vec<Contact>, target: u64, have_bound: bool, bound: u64) -> (r: (bool, usize, u64))
    ensures
        r.0 ==> r.1 < s@.len() && (!have_bound || dist(
            s@[r.1 as int].peer,
            target,
        ) > bound) && r.2 == dist(s@[r.1 as int].peer, target),
        r.0 ==> forall|k: int|
            0 <= k < s@.len() && (!have_bound || dist(s@[k].peer, target)
                > bound) ==> r.2 <= dist(#[trigger] s@[k].peer, target),
        !r.0 ==> s@.len() == 0 || have_bound,
        !r.0 ==> forall|k: int|
            0 <= k < s@.len() ==> dist(#[trigger] s@[k].peer, target)
                <= bound,
{
    let n = s.len();
    let mut found = false;
    let mut bi: usize = 0;
    let mut best_d: u64 = 0;
    let mut j: usize = 0;
    while j < n
        invariant
            n == s@.len(),
            j <= n,
            found ==> bi < j && (!have_bound || dist(s@[bi as int].peer, target)
                > bound) && best_d == dist(s@[bi as int].peer, target),
            found ==> forall|k: int|
                0 <= k < j && (!have_bound || dist(s@[k].peer, target) > bound)
                    ==> best_d <= dist(#[trigger] s@[k].peer, target),
            !found ==> j == 0 || have_bound,
            !found ==> forall|k: int|
                0 <= k < j ==> dist(#[trigger] s@[k].peer, target) <= bound,
        decreases n - j,
    {
        let d = xor_distance(s[j].peer, target);
        if (!have_bound || d > bound) && (!found || d < best_d) {
            found = true;
            bi = j;
            best_d = d;
        }
        j = j + 1;
    }
    (found, bi, best_d)
}

/// The at most `count` contacts of `contacts` nearest to `target`, nearest
/// first: the `count` nearest, or all of them when there are fewer. Distinct
/// identifiers lie at distinct distances from a target, so the order has no ties.
pub fn nearest(contacts: &Vec<Contact>, target: u64, count: usize) -> (r: Vec<Contact>)
    requires
        distinct_peers(contacts@),
    ensures
        is_nearest(r@, contacts@, target, count as nat),
{
    let s = Ghost(contacts@);
    let n = contacts.len();
    let mut r: Vec<Contact> = Vec::new();
    let mut bound: u64 = 0;
    let mut have_bound = false;
    let mut exhausted = false;
    while r.len() < count && !exhausted
        invariant
            s@ == contacts@,
            n == s@.len(),
            distinct_peers(contacts@),
            r@.len() <= count,
            sorted_by_distance(r@, target),
            forall|i: int| 0 <= i < r@.len() ==> has_contact(s@, #[trigger] r@[i]),
            have_bound == (r@.len() > 0),
            have_bound ==> bound == dist(r@.last().peer, target),
            have_bound ==> forall|j: int|
                0 <= j < n && dist(s@[j].peer, target) <= bound ==> has_contact(
                    r@,
                    #[trigger] s@[j],
                ),
            exhausted ==> n == 0 || have_bound,
            exhausted ==> forall|k: int| 0 <= k < n ==> dist(#[trigger] s@[k].peer, target) <= bound,
        decreases count - r@.len() + if exhausted {
            0int
        } else {
            1int
        },
    {
        let (found, bi, best_d) = nearest_beyond(contacts, target, have_bound, bound);
        if !found {
            exhausted = true;
        } else {
            let b = bi;
            {
                let ghost old_r = r@;
                let c = contacts[b];
                r.push(c);
                proof {
                    assert(has_contact(s@, c));
                    assert forall|i: int| 0 <= i < r@.len() implies has_contact(
                        s@,
                        #[trigger] r@[i],
                    ) by {
                        if i < old_r.len() {
                            assert(has_contact(s@, old_r[i]));
                        }
                    }
                    assert forall|k: int|
                        0 <= k < n && dist(s@[k].peer, target) <= best_d implies has_contact(
                        r@,
                        #[trigger] s@[k],
                    ) by {
                        if have_bound && dist(s@[k].peer, target) <= bound {
                            assert(has_contact(old_r, s@[k]));
                            let w = choose|w: int| 0 <= w < old_r.len() && old_r[w] == s@[k];
                            assert(r@[w] == s@[k]);
                        } else {
                            lemma_dist_injective(s@[k].peer, s@[b as int].peer, target);
                            assert(r@[old_r.len() as int] == s@[k]);
                        }
                    }
                }
                bound = best_d;
                have_bound = true;
            }
        }
    }
    proof {
        assert forall|j: int| 0 <= j < n implies has_contact(r@, #[trigger] s@[j]) || (r@.len()
            == count && forall|i: int|
            0 <= i < r@.len() ==> dist(r@[i].peer, target) < dist(s@[j].peer, target)) by {
            if exhausted {
                assert(has_contact(r@, s@[j]));
            } else if !has_contact(r@, s@[j]) {
                assert forall|i: int| 0 <= i < r@.len() implies dist(r@[i].peer, target) < dist(
                    s@[j].peer,
                    target,
                ) by {
                    assert(dist(r@[i].peer, target) <= bound);
                }
            }
        }
    }
    r
}
} // verus!
