use vstd::prelude::*;

verus! {

/// A claim that `provider` serves the content under `key`.
#[derive(Clone, Copy, Debug, PartialEq, Eq, Structural)]
pub struct ProviderRecord {
    pub key: u64,
    pub provider: u64,
}

/// The providers that `records` list for `key`.
pub open spec fn providers_of(records: Seq<ProviderRecord>, key: u64) -> Set<u64> {
    Set::new(|p: u64| records.contains(ProviderRecord { key, provider: p }))
}

/// Once `provider` is recorded for `key`, a lookup of `key` lists it, and
/// recording it again changes nothing.
pub proof fn lemma_recorded_provider_listed(records: Seq<ProviderRecord>, key: u64, provider: u64)
    ensures
        providers_of(records.push(ProviderRecord { key, provider }), key).contains(provider),
        providers_of(records.push(ProviderRecord { key, provider }), key) == providers_of(
            records,
            key,
        ).insert(provider),
{
    let rec = ProviderRecord { key, provider };
    let s = records.push(rec);
    assert(s[records.len() as int] == rec);
    assert forall|p: u64| providers_of(s, key).contains(p) == providers_of(records, key).insert(
        provider,
    ).contains(p) by {
        let rp = ProviderRecord { key, provider: p };
        if records.contains(rp) {
            let w = choose|w: int| 0 <= w < records.len() && records[w] == rp;
            assert(s[w] == rp);
        }
        if s.contains(rp) && p != provider {
            let w = choose|w: int| 0 <= w < s.len() && s[w] == rp;
            assert(w < records.len());
            assert(records[w] == rp);
        }
    }
    assert(providers_of(s, key) =~= providers_of(records, key).insert(provider));
}

/// Provider announcements this node holds, its own and those pushed to it,
/// each once.
pub struct ProviderStore {
    pub records: Vec<ProviderRecord>,
}

impl ProviderStore {
    pub open spec fn wf(&self) -> bool {
        self.records@.no_duplicates()
    }

    pub fn new() -> (r: ProviderStore)
        ensures
            r.wf(),
            r.records@.len() == 0,
    {
        ProviderStore { records: Vec::new() }
    }

    /// Records that `provider` serves `key` (ADD_PROVIDER).
    pub fn add_provider(&mut self, key: u64, provider: u64)
        requires
            old(self).wf(),
        ensures
            final(self).wf(),
            final(self).records@ == if old(self).records@.contains(
                ProviderRecord { key, provider },
            ) {
                old(self).records@
            } else {
                old(self).records@.push(ProviderRecord { key, provider })
            },
            forall|k: u64|
                providers_of(final(self).records@, k) == if k == key {
                    providers_of(old(self).records@, k).insert(provider)
                } else {
                    providers_of(old(self).records@, k)
                },
    {
        let rec = ProviderRecord { key, provider };
        let ghost s = self.records@;
        let mut i: usize = 0;
        while i < self.records.len()
            invariant
                i <= s.len(),
                self.records@ == s,
                s == old(self).records@,
                s.no_duplicates(),
                rec == (ProviderRecord { key, provider }),
                forall|j: int| 0 <= j < i ==> s[j] != rec,
            decreases s.len() - i,
        {
            let cur = self.records[i];
            if cur.key == key && cur.provider == provider {
                proof {
                    assert(s[i as int] == rec);
                    assert(s.contains(rec));
                    assert forall|k: u64|
                        providers_of(s, k) == if k == key {
                            providers_of(s, k).insert(provider)
                        } else {
                            providers_of(s, k)
                        } by {
                        if k == key {
                            assert(providers_of(s, k).contains(provider));
                            assert(providers_of(s, k) =~= providers_of(s, k).insert(provider));
                        }
                    }
                }
                return;
            }
            i = i + 1;
        }
        self.records.push(rec);
        proof {
            assert forall|k: u64|
                providers_of(self.records@, k) == if k == key {
                    providers_of(s, k).insert(provider)
                } else {
                    providers_of(s, k)
                } by {
                lemma_recorded_provider_listed(s, key, provider);
                if k != key {
                    assert forall|p: u64|
                        providers_of(self.records@, k).contains(p) == providers_of(s, k).contains(
                            p,
                        ) by {
                        let rp = ProviderRecord { key: k, provider: p };
                        if s.contains(rp) {
                            let w = choose|w: int| 0 <= w < s.len() && s[w] == rp;
                            assert(self.records@[w] == rp);
                        }
                        if self.records@.contains(rp) {
                            let w = choose|w: int|
                                0 <= w < self.records@.len() && self.records@[w] == rp;
                            assert(w < s.len());
                        }
                    }
                    assert(providers_of(self.records@, k) =~= providers_of(s, k));
                }
            }
        }
    }

    /// The providers recorded for `key` (GET_PROVIDERS), each once, in the
    /// order they were recorded.
    pub fn providers(&self, key: u64) -> (r: Vec<u64>)
        requires
            self.wf(),
        ensures
            r@.to_set() == providers_of(self.records@, key),
            r@.no_duplicates(),
    {
        let ghost s = self.records@;
        let mut r: Vec<u64> = Vec::new();
        let mut i: usize = 0;
        while i < self.records.len()
            invariant
                i <= s.len(),
                self.records@ == s,
                s.no_duplicates(),
                r@.no_duplicates(),
                forall|p: u64|
                    r@.contains(p) <==> s.subrange(0, i as int).contains(
                        ProviderRecord { key, provider: p },
                    ),
            decreases s.len() - i,
        {
            let rec = self.records[i];
            let ghost r0 = r@;
            if rec.key == key {
                proof {
                    assert(!r0.contains(rec.provider)) by {
                        if r0.contains(rec.provider) {
                            let ghost pre = s.subrange(0, i as int);
                            assert(pre.contains(rec));
                            let w = choose|w: int| 0 <= w < pre.len() && pre[w] == rec;
                            assert(s[w] == s[i as int]);
                        }
                    }
                }
                r.push(rec.provider);
            }
            proof {
                let ghost pre = s.subrange(0, i as int);
                let ghost post = s.subrange(0, i + 1);
                assert forall|p: u64|
                    r@.contains(p) <==> s.subrange(0, i + 1).contains(
                        ProviderRecord { key, provider: p },
                    ) by {
                    let rp = ProviderRecord { key, provider: p };
                    if pre.contains(rp) {
                        let w = choose|w: int| 0 <= w < pre.len() && pre[w] == rp;
                        assert(post[w] == rp);
                    }
                    if post.contains(rp) {
                        let w = choose|w: int| 0 <= w < post.len() && post[w] == rp;
                        if w < i {
                            assert(pre[w] == rp);
                        }
                    }
                    if r0.contains(p) {
                        let w = choose|w: int| 0 <= w < r0.len() && r0[w] == p;
                        assert(r@[w] == p);
                    }
                    if r@.contains(p) && !r0.contains(p) {
                        let w = choose|w: int| 0 <= w < r@.len() && r@[w] == p;
                        assert(w == r0.len());
                    }
                    if rec.key == key {
                        assert(r@[r0.len() as int] == rec.provider);
                    }
                    assert(post[i as int] == rec);
                }
            }
            i = i + 1;
        }
        proof {
            assert(s.subrange(0, s.len() as int) =~= s);
            assert(r@.to_set() =~= providers_of(s, key));
        }
        r
    }
}

} // verus!
