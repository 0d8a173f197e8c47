//! The Set Store: an array of independent associative sets, each holding up
//! to `set_capacity` resident tags with per-tag recency stamps.
//!
//! A set is a sequence of [`Entry`] values with pairwise distinct tags and
//! pairwise distinct stamps, all stamped below the store's global counter
//! `current`.  One `test_and_store` call either refreshes a resident tag's
//! stamp (a hit), inserts the tag into spare room (a miss), or evicts the
//! least-recently-used resident tag to make room (a miss with an eviction).
//! The counter advances by exactly one per call, so stamps order the calls.
//!
//! The specification function [`stored_entries`] pins down the entries left
//! behind by a call; the lemmas at the end state the laws the store obeys.

use vstd::prelude::*;

verus! {

/// One resident cache line: its tag and the stamp of its last use.
#[derive(Clone, Copy, Debug, PartialEq, Eq, Structural)]
pub struct Entry {
    pub tag: u64,
    pub stamp: usize,
}

/// Whether some entry of `s` carries `tag`.
pub open spec fn has_tag(s: Seq<Entry>, tag: u64) -> bool {
    exists|j: int| 0 <= j < s.len() && s[j].tag == tag
}

/// The position of the entry that a full set gives up: the first position
/// whose stamp is no larger than any other stamp.
pub open spec fn oldest_index(s: Seq<Entry>) -> int
    decreases s.len(),
{
    if s.len() <= 1 {
        0
    } else {
        let rest: int = 1 + oldest_index(s.drop_first());
        if s[0].stamp <= s[rest].stamp {
            0
        } else {
            rest
        }
    }
}

/// Whether a call with `tag` hits.
pub open spec fn store_hits(s: Seq<Entry>, tag: u64) -> bool {
    has_tag(s, tag)
}

/// Whether a call with `tag` evicts a resident entry.
pub open spec fn store_evicts(s: Seq<Entry>, cap: nat, tag: u64) -> bool {
    !has_tag(s, tag) && s.len() >= cap
}

/// The entries a set holds after one call: a hit restamps the resident tag,
/// a miss inserts the tag at the end, evicting the oldest entry first if the
/// set is full.
pub open spec fn stored_entries(s: Seq<Entry>, cap: nat, cur: usize, tag: u64) -> Seq<Entry> {
    if has_tag(s, tag) {
        s.map(
            |j: int, e: Entry|
                if e.tag == tag {
                    Entry { tag: e.tag, stamp: cur }
                } else {
                    e
                },
        )
    } else if s.len() < cap {
        s.push(Entry { tag: tag, stamp: cur })
    } else {
        s.remove(oldest_index(s)).push(Entry { tag: tag, stamp: cur })
    }
}

/// A set's internal invariant against capacity `cap` and counter `cur`:
/// bounded size, distinct tags, distinct stamps, stamps below the counter.
pub open spec fn set_inv(s: Seq<Entry>, cap: nat, cur: nat) -> bool {
    &&& s.len() <= cap
    &&& (forall|j: int| 0 <= j < s.len() ==> (#[trigger] s[j].stamp) < cur)
    &&& (forall|j: int, k: int|
        0 <= j < k < s.len() ==> (#[trigger] s[j].tag) != (#[trigger] s[k].tag))
    &&& (forall|j: int, k: int|
        0 <= j < k < s.len() ==> (#[trigger] s[j].stamp) != (#[trigger] s[k].stamp))
}

/// `oldest_index` lands in bounds, attains the minimum stamp, and is the
/// first position to do so.
pub proof fn lemma_oldest_index(s: Seq<Entry>)
    requires
        s.len() >= 1,
    ensures
        0 <= oldest_index(s) < s.len(),
        forall|t: int| 0 <= t < s.len() ==> s[oldest_index(s)].stamp <= (#[trigger] s[t].stamp),
        forall|t: int| 0 <= t < oldest_index(s) ==> (#[trigger] s[t].stamp) > s[oldest_index(s)].stamp,
    decreases s.len(),
{
    if s.len() > 1 {
        let d = s.drop_first();
        lemma_oldest_index(d);
        let rest: int = 1 + oldest_index(d);
        assert(s[rest] == d[oldest_index(d)]);
        assert forall|t: int| 1 <= t < s.len() implies s[rest].stamp <= (#[trigger] s[t].stamp) by {
            assert(d[t - 1] == s[t]);
            assert(d[oldest_index(d)].stamp <= d[t - 1].stamp);
        }
        assert forall|t: int| 1 <= t < rest implies (#[trigger] s[t].stamp) > s[rest].stamp by {
            assert(d[t - 1] == s[t]);
            assert(d[t - 1].stamp > d[oldest_index(d)].stamp);
        }
    }
}

/// The capacity invariant holds after every call: one call on a set that
/// satisfies the invariant against counter `cur` leaves a set that satisfies
/// it against `cur + 1`.  In particular `len <= cap` is never violated.
pub proof fn lemma_store_preserves_inv(s: Seq<Entry>, cap: nat, cur: usize, tag: u64)
    requires
        set_inv(s, cap, cur as nat),
        cap >= 1,
    ensures
        set_inv(stored_entries(s, cap, cur, tag), cap, cur as nat + 1),
{
    let r = stored_entries(s, cap, cur, tag);
    if has_tag(s, tag) {
        let j = choose|j: int| 0 <= j < s.len() && s[j].tag == tag;
        assert forall|a: int, b: int| 0 <= a < b < r.len() implies (#[trigger] r[a].stamp)
            != (#[trigger] r[b].stamp) by {
            assert(s[a].tag == tag && s[b].tag == tag ==> a == b);
        }
    } else if s.len() < cap {
        assert forall|a: int, b: int| 0 <= a < b < r.len() implies (#[trigger] r[a].tag)
            != (#[trigger] r[b].tag) by {
            if b == s.len() as int {
                assert(!(s[a].tag == tag));
            }
        }
    } else {
        lemma_oldest_index(s);
        let m = oldest_index(s);
        let d = s.remove(m);
        assert forall|a: int| 0 <= a < d.len() implies (#[trigger] d[a]) == (
        if a < m {
            s[a]
        } else {
            s[a + 1]
        }) by {}
        assert forall|a: int, b: int| 0 <= a < b < r.len() implies (#[trigger] r[a].tag)
            != (#[trigger] r[b].tag) by {
            if b == d.len() as int {
                if a < m {
                    assert(!(s[a].tag == tag));
                } else {
                    assert(!(s[a + 1].tag == tag));
                }
            }
        }
        assert forall|a: int, b: int| 0 <= a < b < r.len() implies (#[trigger] r[a].stamp)
            != (#[trigger] r[b].stamp) by {}
    }
}

/// Performs one call on the entries of a single set, returning
/// `(hit, evicted)`.
#[verifier::loop_isolation(false)]
fn store_in_set(set: &mut Vec<Entry>, cap: usize, cur: usize, tag: u64) -> (r: (bool, bool))
    requires
        set_inv(old(set)@, cap as nat, cur as nat),
        cap >= 1,
    ensures
        r.0 == store_hits(old(set)@, tag),
        r.1 == store_evicts(old(set)@, cap as nat, tag),
        final(set)@ == stored_entries(old(set)@, cap as nat, cur, tag),
        set_inv(final(set)@, cap as nat, cur as nat + 1),
{
    proof {
        lemma_store_preserves_inv(set@, cap as nat, cur, tag);
    }
    let ghost s0 = set@;
    let n = set.len();
    let mut j: usize = 0;
    while j < n
        invariant
            j <= n,
            n == s0.len(),
            set@ == s0,
            forall|k: int| 0 <= k < j ==> (#[trigger] s0[k].tag) != tag,
        decreases n - j,
    {
        if set[j].tag == tag {
            // A hit: restamp the resident tag with the current counter.
            set[j] = Entry { tag: tag, stamp: cur };
            proof {
                assert(set@ == s0.update(j as int, Entry { tag: tag, stamp: cur }));
                assert(set@ =~= stored_entries(s0, cap as nat, cur, tag)) by {
                    assert(forall|a: int, b: int|
                        0 <= a < b < s0.len() ==> (#[trigger] s0[a].tag) != (#[trigger] s0[b].tag));
                }
            }
            return (true, false);
        }
        j += 1;
    }
    // A miss: no entry of the set carries the tag.
    assert(!has_tag(s0, tag));
    if set.len() == cap {
        // The set is full: evict the entry with the smallest stamp.  The
        // scan keeps the first position attaining the minimum.
        let mut m: usize = 0;
        let mut k: usize = 1;
        while k < n
            invariant
                1 <= k <= n,
                m < k,
                n == s0.len(),
                set@ == s0,
                forall|t: int| 0 <= t < k ==> s0[m as int].stamp <= (#[trigger] s0[t].stamp),
                forall|t: int| 0 <= t < m ==> (#[trigger] s0[t].stamp) > s0[m as int].stamp,
            decreases n - k,
        {
            if set[k].stamp < set[m].stamp {
                m = k;
            }
            k += 1;
        }
        proof {
            lemma_oldest_index(s0);
            let oi = oldest_index(s0);
            assert(s0[m as int].stamp <= s0[oi].stamp);
            assert(s0[oi].stamp <= s0[m as int].stamp);
            assert(m as int == oi);
        }
        set.remove(m);
        set.push(Entry { tag: tag, stamp: cur });
        (false, true)
    } else {
        set.push(Entry { tag: tag, stamp: cur });
        (false, false)
    }
}

/// The Set Store: one sequence of entries per set, a shared capacity bound,
/// and the global call counter used as the next stamp.
pub struct Cache {
    pub data: Vec<Vec<Entry>>,
    pub set_capacity: usize,
    pub current: usize,
}

impl Cache {
    /// The entries of every set, as sequences.
    pub open spec fn sets(self) -> Seq<Seq<Entry>> {
        self.data@.map_values(|v: Vec<Entry>| v@)
    }

    /// Every set satisfies its invariant against the shared counter.
    pub open spec fn wf(self) -> bool {
        &&& self.set_capacity >= 1
        &&& forall|i: int|
            0 <= i < self.sets().len() ==> set_inv(
                #[trigger] self.sets()[i],
                self.set_capacity as nat,
                self.current as nat,
            )
    }

    /// Builds a store of `set_count` empty sets, each bounded by
    /// `set_capacity`, with the call counter at zero.
    #[verifier::loop_isolation(false)]
    pub fn new(set_count: usize, set_capacity: usize) -> (c: Cache)
        requires
            set_capacity >= 1,
        ensures
            c.wf(),
            c.sets().len() == set_count,
            forall|i: int| 0 <= i < set_count ==> #[trigger] c.sets()[i] == Seq::<Entry>::empty(),
            c.set_capacity == set_capacity,
            c.current == 0,
    {
        let mut data: Vec<Vec<Entry>> = Vec::new();
        while data.len() < set_count
            invariant
                data@.len() <= set_count,
                forall|i: int| 0 <= i < data@.len() ==> (#[trigger] data@[i])@ == Seq::<Entry>::empty(),
            decreases set_count - data.len(),
        {
            data.push(Vec::new());
        }
        let c = Cache { data, set_capacity, current: 0 };
        proof {
            assert(forall|i: int| 0 <= i < set_count ==> #[trigger] c.sets()[i] == c.data@[i]@);
        }
        c
    }

    /// Looks `tag` up in the set at `set_index` and leaves it resident with
    /// the current stamp, evicting the least-recently-used entry if the set
    /// was full.  Returns `(hit, evicted)` and advances the call counter by
    /// one.
    pub fn test_and_store(&mut self, set_index: usize, tag: u64) -> (r: (bool, bool))
        requires
            old(self).wf(),
            set_index < old(self).sets().len(),
            old(self).current < usize::MAX,
        ensures
            final(self).wf(),
            final(self).set_capacity == old(self).set_capacity,
            final(self).current == old(self).current + 1,
            final(self).sets() == old(self).sets().update(
                set_index as int,
                stored_entries(
                    old(self).sets()[set_index as int],
                    old(self).set_capacity as nat,
                    old(self).current,
                    tag,
                ),
            ),
            r.0 == store_hits(old(self).sets()[set_index as int], tag),
            r.1 == store_evicts(
                old(self).sets()[set_index as int],
                old(self).set_capacity as nat,
                tag,
            ),
    {
        let cap = self.set_capacity;
        let cur = self.current;
        proof {
            assert(old(self).sets()[set_index as int] == self.data@[set_index as int]@);
        }
        let r = store_in_set(&mut self.data[set_index], cap, cur, tag);
        self.current = cur + 1;
        proof {
            assert(self.sets() =~~= old(self).sets().update(
                set_index as int,
                stored_entries(
                    old(self).sets()[set_index as int],
                    old(self).set_capacity as nat,
                    old(self).current,
                    tag,
                ),
            ));
        }
        r
    }
}

/// After any call, the called tag is resident.
pub proof fn lemma_store_makes_resident(s: Seq<Entry>, cap: nat, cur: usize, tag: u64)
    requires
        cap >= 1,
    ensures
        has_tag(stored_entries(s, cap, cur, tag), tag),
{
    let r = stored_entries(s, cap, cur, tag);
    if has_tag(s, tag) {
        let j = choose|j: int| 0 <= j < s.len() && s[j].tag == tag;
        assert(r[j].tag == tag);
    } else if s.len() < cap {
        assert(r[s.len() as int].tag == tag);
    } else {
        lemma_oldest_index(s);
        assert(r[r.len() - 1].tag == tag);
    }
}

/// The first call on an empty set misses without evicting and leaves the
/// tag resident with the current stamp as its only entry.
pub proof fn lemma_first_access(cap: nat, cur: usize, tag: u64)
    requires
        cap >= 1,
    ensures
        !store_hits(Seq::<Entry>::empty(), tag),
        !store_evicts(Seq::<Entry>::empty(), cap, tag),
        stored_entries(Seq::<Entry>::empty(), cap, cur, tag) =~= seq![
            Entry { tag: tag, stamp: cur },
        ],
{
}

/// A resident tag always hits: nothing is evicted, no entry enters or
/// leaves, and only the hit tag's stamp moves to the current counter.
pub proof fn lemma_hit_on_present(s: Seq<Entry>, cap: nat, cur: usize, tag: u64)
    requires
        has_tag(s, tag),
    ensures
        store_hits(s, tag),
        !store_evicts(s, cap, tag),
        stored_entries(s, cap, cur, tag).len() == s.len(),
        forall|j: int|
            0 <= j < s.len() ==> (#[trigger] stored_entries(s, cap, cur, tag)[j]).tag == s[j].tag,
        forall|j: int|
            0 <= j < s.len() ==> (#[trigger] stored_entries(s, cap, cur, tag)[j]).stamp == (
            if s[j].tag == tag {
                cur
            } else {
                s[j].stamp
            }),
{
}

/// A miss on a full set evicts exactly the least-recently-used resident
/// tag: the entry with the strictly smallest stamp leaves the set, every
/// other entry stays, and the new tag enters with the current stamp.
pub proof fn lemma_lru_eviction(s: Seq<Entry>, cap: nat, cur: usize, tag: u64)
    requires
        set_inv(s, cap, cur as nat),
        s.len() == cap,
        cap >= 1,
        !has_tag(s, tag),
    ensures
        !store_hits(s, tag),
        store_evicts(s, cap, tag),
        0 <= oldest_index(s) < s.len(),
        forall|j: int|
            0 <= j < s.len() && j != oldest_index(s) ==> s[oldest_index(s)].stamp < (
            #[trigger] s[j].stamp),
        stored_entries(s, cap, cur, tag) == s.remove(oldest_index(s)).push(
            Entry { tag: tag, stamp: cur },
        ),
        !has_tag(stored_entries(s, cap, cur, tag), s[oldest_index(s)].tag),
        has_tag(stored_entries(s, cap, cur, tag), tag),
{
    lemma_oldest_index(s);
    let m = oldest_index(s);
    let r = stored_entries(s, cap, cur, tag);
    let d = s.remove(m);
    lemma_store_makes_resident(s, cap, cur, tag);
    assert forall|j: int| 0 <= j < s.len() && j != m implies s[m].stamp < (
    #[trigger] s[j].stamp) by {
        if j < m {
            assert(s[j].stamp > s[m].stamp);
        } else {
            assert(s[m].stamp <= s[j].stamp);
            assert(s[m].stamp != s[j].stamp);
        }
    }
    assert forall|j: int| 0 <= j < r.len() implies (#[trigger] r[j]).tag != s[m].tag by {
        if j < d.len() {
            if j < m {
                assert(r[j] == s[j]);
                assert(s[j].tag != s[m].tag);
            } else {
                assert(r[j] == s[j + 1]);
                assert(s[j + 1].tag != s[m].tag);
            }
        } else {
            assert(r[j].tag == tag);
            assert(0 <= m < s.len() && s[m].tag == s[m].tag);
            assert(has_tag(s, s[m].tag));
        }
    }
}

/// The outcome of `n` consecutive calls with the same `tag` on one set:
/// the entries afterwards, the number of hits, and the number of evictions.
pub open spec fn repeat_store(s: Seq<Entry>, cap: nat, cur: usize, tag: u64, n: nat) -> (
    Seq<Entry>,
    nat,
    nat,
)
    decreases n,
{
    if n == 0 {
        (s, 0, 0)
    } else {
        let h: nat = if store_hits(s, tag) {
            1
        } else {
            0
        };
        let e: nat = if store_evicts(s, cap, tag) {
            1
        } else {
            0
        };
        let rest = repeat_store(
            stored_entries(s, cap, cur, tag),
            cap,
            (cur + 1) as usize,
            tag,
            (n - 1) as nat,
        );
        (rest.0, h + rest.1, e + rest.2)
    }
}

/// Calls with a resident tag keep hitting: `n` repetitions are `n` hits and
/// no eviction, and the tag stays resident throughout.
pub proof fn lemma_repeat_hits_when_present(s: Seq<Entry>, cap: nat, cur: usize, tag: u64, n: nat)
    requires
        has_tag(s, tag),
    ensures
        repeat_store(s, cap, cur, tag, n).1 == n,
        repeat_store(s, cap, cur, tag, n).2 == 0,
        has_tag(repeat_store(s, cap, cur, tag, n).0, tag),
    decreases n,
{
    if n > 0 {
        let s1 = stored_entries(s, cap, cur, tag);
        let j = choose|j: int| 0 <= j < s.len() && s[j].tag == tag;
        assert(s1[j].tag == tag);
        lemma_repeat_hits_when_present(s1, cap, (cur + 1) as usize, tag, (n - 1) as nat);
    }
}

/// Idempotence of hits: `n` consecutive calls with one tag on a set with
/// spare room where the tag is not yet resident produce exactly one miss
/// (the first call) and `n - 1` hits, and never evict.
pub proof fn lemma_repeat_same_tag(s: Seq<Entry>, cap: nat, cur: usize, tag: u64, n: nat)
    requires
        !has_tag(s, tag),
        s.len() < cap,
        n >= 1,
    ensures
        repeat_store(s, cap, cur, tag, n).1 == n - 1,
        repeat_store(s, cap, cur, tag, n).2 == 0,
{
    let s1 = stored_entries(s, cap, cur, tag);
    assert(s1[s.len() as int].tag == tag);
    lemma_repeat_hits_when_present(s1, cap, (cur + 1) as usize, tag, (n - 1) as nat);
}

} // verus!
