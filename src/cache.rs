//! The cache facade: lookups and stores that count as accesses, and eviction
//! of the least frequently used key, the oldest among equals, when full.
use vstd::prelude::*;

use crate::ledger::{next_freq, Ledger};

verus! {

/// Why a cache could not be built.
#[derive(Debug, Clone, Copy, PartialEq, Eq)]
pub enum LfuError {
    /// A cache must be able to hold at least one entry.
    ZeroCapacity,
}

/// A key/value cache of fixed capacity with least-frequently-used eviction.
pub struct LFU {
    capacity: usize,
    frequency_list: Ledger,
}

impl View for LFU {
    type V = Map<Seq<char>, (Seq<char>, nat)>;

    /// Each cached key with its value and its access frequency.
    closed spec fn view(&self) -> Map<Seq<char>, (Seq<char>, nat)> {
        self.frequency_list@
    }
}

/// `new` is `old` after one access of `k` that leaves value `v` and frequency
/// `nf`: `k` moves behind every other key of frequency `nf`, and all other
/// keys keep their order.
pub open spec fn touched(old: LFU, new: LFU, k: Seq<char>, v: Seq<char>, nf: nat) -> bool {
    &&& new.capacity_spec() == old.capacity_spec()
    &&& new@ == old@.insert(k, (v, nf))
    &&& forall|x: Seq<char>, y: Seq<char>|
        #[trigger] new.before(x, y) <==> ((old.before(x, y) && x != k && y != k) || (y == k && x
            != k && old@.contains_key(x) && old@[x].1 == nf))
}

/// `new` is `old` with key `gone` dropped (if it was there) and the absent key
/// `k` added with value `v` at frequency one, behind every key already there.
pub open spec fn admitted(old: LFU, new: LFU, gone: Seq<char>, k: Seq<char>, v: Seq<char>) -> bool {
    &&& new.capacity_spec() == old.capacity_spec()
    &&& new@ == old@.remove(gone).insert(k, (v, 1))
    &&& forall|x: Seq<char>, y: Seq<char>|
        #[trigger] new.before(x, y) <==> ((old.before(x, y) && x != gone && y != gone) || (y == k
            && x != gone && old@.contains_key(x) && old@[x].1 == 1))
}

/// What `get(k)` does: a miss changes nothing; a hit returns the value and
/// counts as one access.
pub open spec fn get_effect(old: LFU, new: LFU, k: Seq<char>, r: Option<Seq<char>>) -> bool {
    if old@.contains_key(k) {
        &&& r == Some(old@[k].0)
        &&& touched(old, new, k, old@[k].0, next_freq(old@[k].1))
    } else {
        r is None && new == old
    }
}

/// What `set(k, v)` does: a cached key gets the new value and one access; a
/// new key enters at frequency one, after the eviction victim leaves when
/// the cache is full.
pub open spec fn set_effect(old: LFU, new: LFU, k: Seq<char>, v: Seq<char>) -> bool {
    if old@.contains_key(k) {
        touched(old, new, k, v, next_freq(old@[k].1))
    } else if old@.len() < old.capacity_spec() {
        admitted(old, new, k, k, v)
    } else {
        admitted(old, new, old.victim(), k, v)
    }
}

impl LFU {
    /// The cache holds between zero and `capacity` entries, and its ledger is
    /// well formed.
    pub closed spec fn wf(&self) -> bool {
        &&& self.frequency_list.wf()
        &&& 0 < self.capacity
        &&& self.frequency_list@.len() <= self.capacity
    }

    pub closed spec fn capacity_spec(&self) -> nat {
        self.capacity as nat
    }

    /// `a` and `b` share a frequency and `a` reached it first.
    pub closed spec fn before(&self, a: Seq<char>, b: Seq<char>) -> bool {
        self.frequency_list.before(a, b)
    }

    /// The key that the next eviction removes.
    pub closed spec fn victim(&self) -> Seq<char> {
        self.frequency_list.first_key()
    }

    /// The buckets as (frequency, keys oldest first) pairs, ascending.
    pub closed spec fn chain(&self) -> Seq<(nat, Seq<Seq<char>>)> {
        self.frequency_list.chain()
    }

    /// A well-formed cache never holds more entries than its capacity.
    pub proof fn lemma_within_capacity(c: LFU)
        requires
            c.wf(),
        ensures
            c@.len() <= c.capacity_spec(),
            c.capacity_spec() > 0,
    {
    }

    /// A `set` on a well-formed cache leaves it within its capacity, whichever
    /// of its cases applies.
    pub proof fn lemma_set_within_capacity(c0: LFU, c1: LFU, k: Seq<char>, v: Seq<char>)
        requires
            c0.wf(),
            set_effect(c0, c1, k, v),
        ensures
            c1@.len() <= c1.capacity_spec(),
    {
        c0.frequency_list.lemma_view_dom_finite();
        if c0@.contains_key(k) {
            assert(c1@.dom() =~= c0@.dom());
        } else if c0@.len() < c0.capacity_spec() {
            assert(c1@.dom() =~= c0@.dom().insert(k));
        } else {
            c0.frequency_list.lemma_first_key_is_least();
            assert(c1@.dom() =~= c0@.dom().remove(c0.victim()).insert(k));
        }
    }

    /// An access raises the accessed key's frequency by exactly one (until
    /// the largest `u64`, where it stays) and leaves every other entry as it was.
    pub proof fn lemma_access_increments(c0: LFU, c1: LFU, k: Seq<char>, v: Seq<char>)
        requires
            c0@.contains_key(k),
            touched(c0, c1, k, v, next_freq(c0@[k].1)),
        ensures
            c1@[k].1 >= c0@[k].1,
            c0@[k].1 < u64::MAX ==> c1@[k].1 == c0@[k].1 + 1,
            forall|x: Seq<char>| #[trigger] c0@.contains_key(x) && x != k ==> c1@.contains_key(x) && c1@[x] == c0@[x],
    {
    }

    /// The buckets' frequencies ascend strictly: no two buckets share one.
    pub proof fn lemma_buckets_ascending(c: LFU)
        requires
            c.wf(),
        ensures
            forall|i: int, j: int|
                0 <= i < j < c.chain().len() ==> #[trigger] c.chain()[i].0 < #[trigger] c.chain()[j].0,
    {
        c.frequency_list.lemma_chain_ascending();
    }

    /// No bucket is empty.
    pub proof fn lemma_buckets_nonempty(c: LFU)
        requires
            c.wf(),
        ensures
            forall|i: int| 0 <= i < c.chain().len() ==> #[trigger] c.chain()[i].1.len() > 0,
    {
        c.frequency_list.lemma_chain_nonempty();
    }

    /// Each bucket holds exactly the cached keys of its frequency, each key once.
    pub proof fn lemma_buckets_match_entries(c: LFU)
        requires
            c.wf(),
        ensures
            forall|i: int, j: int|
                0 <= i < c.chain().len() && 0 <= j < c.chain()[i].1.len() ==> {
                    &&& c@.contains_key(#[trigger] c.chain()[i].1[j])
                    &&& c@[c.chain()[i].1[j]].1 == c.chain()[i].0
                },
            forall|k: Seq<char>|
                #[trigger] c@.contains_key(k) ==> exists|i: int, j: int|
                    0 <= i < c.chain().len() && 0 <= j < c.chain()[i].1.len()
                        && #[trigger] c.chain()[i].1[j] == k && c.chain()[i].0 == c@[k].1,
            forall|i1: int, j1: int, i2: int, j2: int|
                0 <= i1 < c.chain().len() && 0 <= j1 < c.chain()[i1].1.len() && 0 <= i2
                    < c.chain().len() && 0 <= j2 < c.chain()[i2].1.len() && (i1, j1) != (i2, j2)
                    ==> #[trigger] c.chain()[i1].1[j1] != #[trigger] c.chain()[i2].1[j2],
    {
        c.frequency_list.lemma_chain_matches_entries();
    }

    /// When a `set` of a new key finds the cache full, the key it evicts had
    /// a frequency no greater than that of any other cached key.
    pub proof fn lemma_eviction_takes_least(c0: LFU, c1: LFU, k: Seq<char>, v: Seq<char>)
        requires
            c0.wf(),
            !c0@.contains_key(k),
            c0@.len() == c0.capacity_spec(),
            set_effect(c0, c1, k, v),
        ensures
            c0@.contains_key(c0.victim()),
            !c1@.contains_key(c0.victim()),
            c1@.dom() == c0@.dom().remove(c0.victim()).insert(k),
            forall|x: Seq<char>| #[trigger] c0@.contains_key(x) ==> c0@[c0.victim()].1 <= c0@[x].1,
    {
        c0.frequency_list.lemma_first_key_is_least();
        assert(c1@.dom() =~= c0@.dom().remove(c0.victim()).insert(k));
    }

    /// Of two keys tied at the least frequency, the one that reached it later
    /// survives an eviction, and the victim reached it no later than the other.
    pub proof fn lemma_eviction_tie_break(
        c0: LFU,
        c1: LFU,
        k: Seq<char>,
        v: Seq<char>,
        a: Seq<char>,
        b: Seq<char>,
    )
        requires
            c0.wf(),
            !c0@.contains_key(k),
            c0@.len() == c0.capacity_spec(),
            set_effect(c0, c1, k, v),
            c0.before(a, b),
            forall|x: Seq<char>| #[trigger] c0@.contains_key(x) ==> c0@[a].1 <= c0@[x].1,
        ensures
            c1@.contains_key(b),
            c0.victim() == a || c0.before(c0.victim(), a),
    {
        c0.frequency_list.lemma_first_key_is_least();
        c0.frequency_list.lemma_before_cached();
        c0.frequency_list.lemma_before_order();
        assert(c0@.contains_key(a) && c0@.contains_key(b));
        assert(c0@[a].1 == c0@[c0.victim()].1);
    }

    /// A key touched after another that then shares its frequency stands
    /// behind it in their bucket.
    pub proof fn lemma_later_touch_behind(c0: LFU, c1: LFU, a: Seq<char>, b: Seq<char>, v: Seq<char>, nf: nat)
        requires
            touched(c0, c1, b, v, nf),
            c0@.contains_key(a),
            a != b,
            c0@[a].1 == nf,
        ensures
            c1.before(a, b),
    {
    }

    /// A `set` of `k` to `v` followed by a `get` of `k` returns `v`.
    pub proof fn lemma_set_then_get(
        c0: LFU,
        c1: LFU,
        c2: LFU,
        k: Seq<char>,
        v: Seq<char>,
        r: Option<Seq<char>>,
    )
        requires
            c0.wf(),
            set_effect(c0, c1, k, v),
            get_effect(c1, c2, k, r),
        ensures
            r == Some(v),
    {
        if !c0@.contains_key(k) && c0@.len() >= c0.capacity_spec() {
            c0.frequency_list.lemma_first_key_is_least();
        }
        assert(c1@.contains_key(k));
    }

    /// Builds an empty cache; a capacity of zero is refused.
    pub fn new(capacity: usize) -> (r: Result<LFU, LfuError>)
        ensures
            capacity == 0 ==> r == Err::<LFU, LfuError>(LfuError::ZeroCapacity),
            capacity > 0 ==> (r matches Ok(c) && c.wf() && c@ == Map::<
                Seq<char>,
                (Seq<char>, nat),
            >::empty() && c.capacity_spec() == capacity as nat),
    {
        if capacity == 0 {
            Err(LfuError::ZeroCapacity)
        } else {
            Ok(LFU { capacity, frequency_list: Ledger::new() })
        }
    }

    /// Number of cached entries.
    pub fn len(&self) -> (r: usize)
        requires
            self.wf(),
        ensures
            r as nat == self@.len(),
    {
        self.frequency_list.len()
    }

    /// The most entries the cache holds.
    pub fn capacity(&self) -> (r: usize)
        ensures
            r as nat == self.capacity_spec(),
    {
        self.capacity
    }

    /// Looks `key` up; a hit counts as one access of it.
    pub fn get(&mut self, key: String) -> (r: Option<String>)
        requires
            old(self).wf(),
        ensures
            final(self).wf(),
            get_effect(
                *old(self),
                *final(self),
                key@,
                match r {
                    Some(s) => Some(s@),
                    None => None,
                },
            ),
    {
        let ghost k = key@;
        self.frequency_list.touch(&key, None)
    }

    /// Stores `data` under `key`. Storing under a cached key counts as one
    /// access of it; a new key evicts the victim first when the cache is full.
    pub fn set(&mut self, key: String, data: String)
        requires
            old(self).wf(),
        ensures
            final(self).wf(),
            final(self)@.len() <= final(self).capacity_spec(),
            set_effect(*old(self), *final(self), key@, data@),
    {
        let ghost k = key@;
        let ghost v = data@;
        let n = self.frequency_list.len();
        proof {
            self.frequency_list.lemma_before_cached();
        }
        let hit = self.frequency_list.touch(&key, Some(data.clone()));
        match hit {
            Some(_) => {},
            None => {
                if n == self.capacity {
                    let _ = self.frequency_list.pop_first();
                    proof {
                        self.frequency_list.lemma_before_cached();
                    }
                }
                self.frequency_list.insert_new(key, data);
                proof {
                    if n < self.capacity {
                        assert(old(self)@.remove(k) =~= old(self)@);
                    }
                }
            },
        }
    }

    /// Drops `key`; says whether it was cached.
    pub fn remove(&mut self, key: String) -> (r: bool)
        requires
            old(self).wf(),
        ensures
            final(self).wf(),
            final(self).capacity_spec() == old(self).capacity_spec(),
            r == old(self)@.contains_key(key@),
            final(self)@ == old(self)@.remove(key@),
            forall|x: Seq<char>, y: Seq<char>|
                #[trigger] final(self).before(x, y) <==> (old(self).before(x, y) && x != key@
                    && y != key@),
    {
        self.frequency_list.remove(&key)
    }

    /// The buckets as (frequency, keys oldest first) pairs, ascending.
    pub fn buckets(&self) -> (r: Vec<(u64, Vec<String>)>)
        requires
            self.wf(),
        ensures
            r@.len() == self.chain().len(),
            forall|i: int|
                0 <= i < r@.len() ==> (#[trigger] r@[i]).0 as nat == self.chain()[i].0
                    && r@[i].1@.map_values(|s: String| s@) == self.chain()[i].1,
    {
        self.frequency_list.snapshot()
    }
}

} // verus!
