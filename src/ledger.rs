//! The frequency ledger: buckets of keys that share one exact access count,
//! kept in strictly ascending order of that count.
//!
//! Buckets live in a vector and are addressed by position; a ghost index maps
//! every cached key to its position, which is how the two-way agreement between
//! keys and buckets is stated. A key is located by scanning the chain.
use vstd::prelude::*;

verus! {

/// One cached entry: its key, its value, and the frequency of the bucket
/// that holds it.
pub struct Item {
    data: String,
    key: String,
    frequency: u64,
}

impl Item {
    pub closed spec fn key_view(&self) -> Seq<char> {
        self.key@
    }

    pub closed spec fn data_view(&self) -> Seq<char> {
        self.data@
    }

    pub closed spec fn frequency_view(&self) -> nat {
        self.frequency as nat
    }

    pub fn new(data: String, key: String, frequency: u64) -> (r: Item)
        ensures
            r.data_view() == data@,
            r.key_view() == key@,
            r.frequency_view() == frequency as nat,
    {
        Item { data, key, frequency }
    }

    pub fn key(&self) -> (r: &String)
        ensures
            r@ == self.key_view(),
    {
        &self.key
    }

    pub fn data(&self) -> (r: &String)
        ensures
            r@ == self.data_view(),
    {
        &self.data
    }

    pub fn frequency(&self) -> (r: u64)
        ensures
            r as nat == self.frequency_view(),
    {
        self.frequency
    }
}

/// All keys observed exactly `frequency` times, in the order in which they
/// arrived at that frequency (oldest first).
pub struct FrequencyNode {
    frequency: u64,
    items: Vec<Item>,
}

impl FrequencyNode {
    pub closed spec fn frequency_view(&self) -> nat {
        self.frequency as nat
    }

    pub closed spec fn keys_view(&self) -> Seq<Seq<char>> {
        self.items@.map_values(|it: Item| it.key@)
    }

    pub fn new(frequency: u64, items: Vec<Item>) -> (r: FrequencyNode)
        ensures
            r.frequency_view() == frequency as nat,
            r.keys_view() == items@.map_values(|it: Item| it.key_view()),
    {
        FrequencyNode { frequency, items }
    }

    pub fn frequency(&self) -> (r: u64)
        ensures
            r as nat == self.frequency_view(),
    {
        self.frequency
    }

    /// Number of keys in the bucket.
    pub fn len(&self) -> (r: usize)
        ensures
            r as nat == self.keys_view().len(),
    {
        self.items.len()
    }
}

/// The frequency a key reaches when touched at frequency `f`: one more, up to
/// the largest `u64`.
pub open spec fn next_freq(f: nat) -> nat {
    if f < u64::MAX {
        f + 1
    } else {
        f
    }
}

/// Position `(i, j)` names item `j` of bucket `i`.
spec fn pos_ok(bs: Seq<FrequencyNode>, i: int, j: int) -> bool {
    0 <= i < bs.len() && 0 <= j < bs[i].items@.len()
}

spec fn key_at(bs: Seq<FrequencyNode>, i: int, j: int) -> Seq<char> {
    bs[i].items@[j].key@
}

spec fn ascending(bs: Seq<FrequencyNode>) -> bool {
    forall|i: int, j: int| 0 <= i < j < bs.len() ==> bs[i].frequency < bs[j].frequency
}

/// Where a position moves when item `(b, j)` leaves; `emptied` says whether
/// its bucket left with it.
spec fn detach_shift(p: (int, int), b: int, j: int, emptied: bool) -> (int, int) {
    if p.0 == b && p.1 > j {
        (p.0, p.1 - 1)
    } else if emptied && p.0 > b {
        (p.0 - 1, p.1)
    } else {
        p
    }
}

/// Where a position moves when an item is placed in bucket `t`; `fresh` says
/// whether that bucket was created for it.
spec fn attach_shift(p: (int, int), t: int, fresh: bool) -> (int, int) {
    if fresh && p.0 >= t {
        (p.0 + 1, p.1)
    } else {
        p
    }
}

/// The bucket chain together with a ghost index from each key to its position.
pub struct Ledger {
    buckets: Vec<FrequencyNode>,
    count: usize,
    index: Ghost<Map<Seq<char>, (int, int)>>,
}

impl View for Ledger {
    type V = Map<Seq<char>, (Seq<char>, nat)>;

    /// Each cached key with its value and its frequency.
    closed spec fn view(&self) -> Map<Seq<char>, (Seq<char>, nat)> {
        Map::new(
            |k: Seq<char>| self.index@.contains_key(k),
            |k: Seq<char>|
                (
                    self.buckets@[self.index@[k].0].items@[self.index@[k].1].data@,
                    self.buckets@[self.index@[k].0].frequency as nat,
                ),
        )
    }
}

impl Ledger {
    /// Buckets ascend strictly and are never empty; every item records its
    /// bucket's frequency; the index and the buckets agree in both directions.
    pub closed spec fn wf(&self) -> bool {
        let bs = self.buckets@;
        let ix = self.index@;
        &&& ix.dom().finite()
        &&& self.count as nat == ix.dom().len()
        &&& ascending(bs)
        &&& forall|i: int|
            0 <= i < bs.len() ==> (#[trigger] bs[i]).frequency >= 1 && bs[i].items@.len() > 0
        &&& forall|i: int, j: int|
            pos_ok(bs, i, j) ==> (#[trigger] bs[i].items@[j]).frequency == bs[i].frequency
        &&& forall|k: Seq<char>|
            #[trigger] ix.contains_key(k) ==> pos_ok(bs, ix[k].0, ix[k].1) && key_at(
                bs,
                ix[k].0,
                ix[k].1,
            ) == k
        &&& forall|i: int, j: int|
            pos_ok(bs, i, j) ==> ix.contains_key(#[trigger] key_at(bs, i, j)) && ix[key_at(
                bs,
                i,
                j,
            )] == (i, j)
    }

    /// `a` and `b` sit in the same bucket and `a` arrived there first.
    pub closed spec fn before(&self, a: Seq<char>, b: Seq<char>) -> bool {
        let ix = self.index@;
        &&& ix.contains_key(a)
        &&& ix.contains_key(b)
        &&& ix[a].0 == ix[b].0
        &&& ix[a].1 < ix[b].1
    }

    /// The oldest key of the lowest-frequency bucket.
    pub closed spec fn first_key(&self) -> Seq<char> {
        key_at(self.buckets@, 0, 0)
    }

    /// The chain as (frequency, keys oldest first) pairs, ascending.
    pub closed spec fn chain(&self) -> Seq<(nat, Seq<Seq<char>>)> {
        self.buckets@.map_values(|n: FrequencyNode| (n.frequency_view(), n.keys_view()))
    }

    proof fn lemma_view_dom(&self)
        ensures
            self@.dom() == self.index@.dom(),
    {
        assert(self@.dom() =~= self.index@.dom());
    }

    pub fn new() -> (r: Ledger)
        ensures
            r.wf(),
            r@ == Map::<Seq<char>, (Seq<char>, nat)>::empty(),
    {
        let r = Ledger { buckets: Vec::new(), count: 0, index: Ghost(Map::empty()) };
        assert(r@ =~= Map::<Seq<char>, (Seq<char>, nat)>::empty());
        r
    }

    /// Number of cached keys.
    pub fn len(&self) -> (r: usize)
        requires
            self.wf(),
        ensures
            r as nat == self@.len(),
    {
        proof {
            self.lemma_view_dom();
        }
        self.count
    }

    /// Removes item `(b, j)`, unlinking its bucket if that leaves it empty.
    fn detach(&mut self, b: usize, j: usize) -> (item: Item)
        requires
            old(self).wf(),
            pos_ok(old(self).buckets@, b as int, j as int),
        ensures
            final(self).wf(),
            item == old(self).buckets@[b as int].items@[j as int],
            old(self)@.contains_key(item.key@),
            item.data@ == old(self)@[item.key@].0,
            item.frequency as nat == old(self)@[item.key@].1,
            final(self)@ == old(self)@.remove(item.key@),
            final(self)@.len() == old(self)@.len() - 1,
            forall|x: Seq<char>, y: Seq<char>|
                #[trigger] final(self).before(x, y) <==> (old(self).before(x, y) && x != item.key@
                    && y != item.key@),
            final(self).buckets@.len() == old(self).buckets@.len() ==> forall|i: int|
                0 <= i < old(self).buckets@.len() ==> #[trigger] final(self).buckets@[i].frequency
                    == old(self).buckets@[i].frequency,
            final(self).buckets@.len() != old(self).buckets@.len() ==> {
                &&& final(self).buckets@.len() == old(self).buckets@.len() - 1
                &&& forall|i: int|
                    0 <= i < final(self).buckets@.len() ==> #[trigger] final(self).buckets@[i].frequency
                        == old(self).buckets@[if i < b { i } else { i + 1 }].frequency
            },
    {
        let ghost obs = self.buckets@;
        let ghost ix = self.index@;
        let ghost k = key_at(obs, b as int, j as int);
        let ghost ob = obs[b as int];
        let mut node = self.buckets.remove(b);
        let item = node.items.remove(j);
        let emptied = node.items.len() == 0;
        if !emptied {
            self.buckets.insert(b, node);
        }
        self.count = self.count - 1;
        let ghost nix = Map::new(
            |x: Seq<char>| ix.contains_key(x) && x != k,
            |x: Seq<char>| detach_shift(ix[x], b as int, j as int, emptied),
        );
        self.index = Ghost(nix);
        proof {
            let nbs = self.buckets@;
            ob.items@.remove_ensures(j as int);
            obs.remove_ensures(b as int);
            if !emptied {
                obs.remove(b as int).insert_ensures(b as int, node);
                assert(nbs =~= obs.update(b as int, node));
            }
            assert(ix.contains_key(k));
            assert(nix.dom() =~= ix.dom().remove(k));
            // old position of what now stands at (i, jj)
            assert forall|i: int, jj: int| pos_ok(nbs, i, jj) implies ({
                let q = if emptied && i >= b { (i + 1, jj) } else if i == b && jj >= j {
                    (i, jj + 1)
                } else {
                    (i, jj)
                };
                &&& pos_ok(obs, q.0, q.1)
                &&& nbs[i].items@[jj] == obs[q.0].items@[q.1]
                &&& nbs[i].frequency == obs[q.0].frequency
                &&& q != (b as int, j as int)
                &&& detach_shift(q, b as int, j as int, emptied) == (i, jj)
            }) by {}
            assert forall|x: Seq<char>| #[trigger] nix.contains_key(x) implies ({
                let p = nix[x];
                let q = ix[x];
                &&& pos_ok(nbs, p.0, p.1)
                &&& nbs[p.0].items@[p.1] == obs[q.0].items@[q.1]
                &&& nbs[p.0].frequency == obs[q.0].frequency
            }) by {
                let q = ix[x];
                assert(key_at(obs, q.0, q.1) == x);
                assert(q != (b as int, j as int));
            }
            assert forall|i: int, jj: int| pos_ok(nbs, i, jj) implies nix.contains_key(
                #[trigger] key_at(nbs, i, jj),
            ) && nix[key_at(nbs, i, jj)] == (i, jj) by {
                let q = if emptied && i >= b { (i + 1, jj) } else if i == b && jj >= j {
                    (i, jj + 1)
                } else {
                    (i, jj)
                };
                assert(key_at(obs, q.0, q.1) == key_at(nbs, i, jj));
            }
            assert(self.wf());
            assert(self@ =~= old(self)@.remove(k));
            self.lemma_view_dom();
            old(self).lemma_view_dom();
        }
        item
    }

    /// Places `item` last in the bucket at chain position `t`, creating that
    /// bucket there when none holds the item's frequency.
    #[verifier::rlimit(60)]
    fn attach(&mut self, t: usize, item: Item)
        requires
            old(self).wf(),
            !old(self)@.contains_key(item.key@),
            old(self)@.len() < usize::MAX,
            item.frequency >= 1,
            t <= old(self).buckets@.len(),
            t < old(self).buckets@.len() ==> item.frequency <= old(self).buckets@[t as int].frequency,
            t > 0 ==> old(self).buckets@[t - 1].frequency < item.frequency,
        ensures
            final(self).wf(),
            final(self)@ == old(self)@.insert(item.key@, (item.data@, item.frequency as nat)),
            final(self)@.len() == old(self)@.len() + 1,
            forall|x: Seq<char>, y: Seq<char>|
                #[trigger] final(self).before(x, y) <==> (old(self).before(x, y) || (y == item.key@
                    && old(self)@.contains_key(x) && old(self)@[x].1 == item.frequency as nat)),
    {
        let ghost obs = self.buckets@;
        let ghost ix = self.index@;
        let ghost k = item.key@;
        let ghost f = item.frequency;
        proof {
            self.lemma_view_dom();
        }
        let fresh = !(t < self.buckets.len() && self.buckets[t].frequency == item.frequency);
        let ghost kpos: (int, int);
        if !fresh {
            let mut node = self.buckets.remove(t);
            proof {
                kpos = (t as int, node.items@.len() as int);
            }
            node.items.push(item);
            self.buckets.insert(t, node);
            proof {
                obs.remove_ensures(t as int);
                obs.remove(t as int).insert_ensures(t as int, node);
                assert(self.buckets@ =~= obs.update(t as int, node));
            }
        } else {
            let node = FrequencyNode { frequency: item.frequency, items: vec![item] };
            self.buckets.insert(t, node);
            proof {
                kpos = (t as int, 0);
                obs.insert_ensures(t as int, node);
            }
        }
        self.count = self.count + 1;
        let ghost nix = Map::new(
            |x: Seq<char>| ix.contains_key(x) || x == k,
            |x: Seq<char>|
                if x == k {
                    kpos
                } else {
                    attach_shift(ix[x], t as int, fresh)
                },
        );
        self.index = Ghost(nix);
        proof {
            let nbs = self.buckets@;
            assert(nix.dom() =~= ix.dom().insert(k));
            assert(pos_ok(nbs, kpos.0, kpos.1) && nbs[kpos.0].items@[kpos.1] == item);
            assert forall|i: int, jj: int| pos_ok(nbs, i, jj) && (i, jj) != kpos implies ({
                let q = if fresh && i > t { (i - 1, jj) } else { (i, jj) };
                &&& pos_ok(obs, q.0, q.1)
                &&& nbs[i].items@[jj] == obs[q.0].items@[q.1]
                &&& nbs[i].frequency == obs[q.0].frequency
                &&& attach_shift(q, t as int, fresh) == (i, jj)
            }) by {}
            assert forall|x: Seq<char>| #[trigger] ix.contains_key(x) implies ({
                let p = nix[x];
                let q = ix[x];
                &&& x != k
                &&& pos_ok(nbs, p.0, p.1)
                &&& p != kpos
                &&& nbs[p.0].items@[p.1] == obs[q.0].items@[q.1]
                &&& nbs[p.0].frequency == obs[q.0].frequency
            }) by {
                let q = ix[x];
                assert(key_at(obs, q.0, q.1) == x);
            }
            assert forall|i: int, jj: int| pos_ok(nbs, i, jj) implies nix.contains_key(
                #[trigger] key_at(nbs, i, jj),
            ) && nix[key_at(nbs, i, jj)] == (i, jj) by {
                if (i, jj) != kpos {
                    let q = if fresh && i > t { (i - 1, jj) } else { (i, jj) };
                    assert(key_at(obs, q.0, q.1) == key_at(nbs, i, jj));
                }
            }
            assert(self.wf());
            assert(self@ =~= old(self)@.insert(k, (item.data@, f as nat)));
            self.lemma_view_dom();
            assert forall|x: Seq<char>, y: Seq<char>|
                #[trigger] self.before(x, y) <==> (old(self).before(x, y) || (y == k
                    && old(self)@.contains_key(x) && old(self)@[x].1 == f as nat)) by {
                if y == k && ix.contains_key(x) {
                    let q = ix[x];
                    assert(key_at(obs, q.0, q.1) == x);
                }
            }
        }
    }

    /// Records one access of `key`: moves it to the end of the bucket for its
    /// next frequency and, when `data` is given, replaces its value. Returns
    /// the value now stored, or `None` (and changes nothing) when `key` is absent.
    pub fn touch(&mut self, key: &String, data: Option<String>) -> (r: Option<String>)
        requires
            old(self).wf(),
        ensures
            final(self).wf(),
            !old(self)@.contains_key(key@) ==> r is None && *final(self) == *old(self),
            old(self)@.contains_key(key@) ==> {
                let v = match data {
                    Some(d) => d@,
                    None => old(self)@[key@].0,
                };
                let nf = next_freq(old(self)@[key@].1);
                &&& r is Some
                &&& r->0@ == v
                &&& final(self)@ == old(self)@.insert(key@, (v, nf))
                &&& final(self)@.len() == old(self)@.len()
                &&& forall|x: Seq<char>, y: Seq<char>|
                    #[trigger] final(self).before(x, y) <==> ((old(self).before(x, y) && x != key@
                        && y != key@) || (y == key@ && x != key@ && old(self)@.contains_key(x)
                        && old(self)@[x].1 == nf))
            },
    {
        match self.find(key) {
            None => None,
            Some((b, j)) => Some(self.touch_at(b, j, data)),
        }
    }

    fn touch_at(&mut self, b: usize, j: usize, data: Option<String>) -> (r: String)
        requires
            old(self).wf(),
            pos_ok(old(self).buckets@, b as int, j as int),
        ensures
            final(self).wf(),
            ({
                let k = key_at(old(self).buckets@, b as int, j as int);
                let v = match data {
                    Some(d) => d@,
                    None => old(self)@[k].0,
                };
                let nf = next_freq(old(self)@[k].1);
                &&& r@ == v
                &&& final(self)@ == old(self)@.insert(k, (v, nf))
                &&& final(self)@.len() == old(self)@.len()
                &&& forall|x: Seq<char>, y: Seq<char>|
                    #[trigger] final(self).before(x, y) <==> ((old(self).before(x, y) && x != k
                        && y != k) || (y == k && x != k && old(self)@.contains_key(x)
                        && old(self)@[x].1 == nf))
            }),
    {
        let ghost obs = self.buckets@;
        let ghost mid: Ledger;
        let old_len = self.buckets.len();
        let mut item = self.detach(b, j);
        proof {
            mid = *self;
            old(self).lemma_view_dom();
            mid.lemma_view_dom();
            assert(mid@.dom() =~= old(self)@.dom().remove(item.key@));
        }
        let survived = self.buckets.len() == old_len;
        let f = item.frequency;
        let nf = if f < u64::MAX {
            f + 1
        } else {
            f
        };
        let t = if survived && nf != f {
            b + 1
        } else {
            b
        };
        match data {
            Some(d) => {
                item.data = d;
            },
            None => {},
        }
        item.frequency = nf;
        let r = item.data.clone();
        proof {
            assert(obs[b as int].frequency >= 1);
            if b > 0 {
                assert(obs[b - 1].frequency < obs[b as int].frequency);
            }
            if b + 1 < obs.len() {
                assert(obs[b as int].frequency < obs[b + 1].frequency);
            }
        }
        self.attach(t, item);
        proof {
            assert(self@.dom() =~= old(self)@.dom());
        }
        r
    }

    /// Adds `key`, absent so far, at frequency one, last in that bucket.
    pub fn insert_new(&mut self, key: String, data: String)
        requires
            old(self).wf(),
            !old(self)@.contains_key(key@),
            old(self)@.len() < usize::MAX,
        ensures
            final(self).wf(),
            final(self)@ == old(self)@.insert(key@, (data@, 1)),
            final(self)@.len() == old(self)@.len() + 1,
            forall|x: Seq<char>, y: Seq<char>|
                #[trigger] final(self).before(x, y) <==> (old(self).before(x, y) || (y == key@
                    && old(self)@.contains_key(x) && old(self)@[x].1 == 1)),
    {
        proof {
            if self.buckets@.len() > 0 {
                assert(self.buckets@[0].frequency >= 1);
            }
        }
        self.attach(0, Item { data, key, frequency: 1 });
    }

    /// Drops `key`; says whether it was cached.
    pub fn remove(&mut self, key: &String) -> (r: bool)
        requires
            old(self).wf(),
        ensures
            final(self).wf(),
            r == old(self)@.contains_key(key@),
            final(self)@ == old(self)@.remove(key@),
            final(self)@.len() == old(self)@.len() - (if r { 1int } else { 0int }),
            forall|x: Seq<char>, y: Seq<char>|
                #[trigger] final(self).before(x, y) <==> (old(self).before(x, y) && x != key@
                    && y != key@),
    {
        match self.find(key) {
            None => {
                proof {
                    assert(self@ =~= self@.remove(key@));
                }
                false
            },
            Some((b, j)) => {
                let _ = self.detach(b, j);
                true
            },
        }
    }

    /// Removes and returns the oldest key of the lowest-frequency bucket.
    pub fn pop_first(&mut self) -> (r: String)
        requires
            old(self).wf(),
            old(self)@.len() > 0,
        ensures
            final(self).wf(),
            r@ == old(self).first_key(),
            old(self)@.contains_key(r@),
            final(self)@ == old(self)@.remove(r@),
            final(self)@.len() == old(self)@.len() - 1,
            forall|x: Seq<char>, y: Seq<char>|
                #[trigger] final(self).before(x, y) <==> (old(self).before(x, y) && x != r@
                    && y != r@),
    {
        proof {
            self.lemma_view_dom();
            if self.buckets@.len() == 0 {
                assert(self.index@.dom() =~= Set::empty());
            }
            assert(self.buckets@[0].items@.len() > 0);
        }
        let item = self.detach(0, 0);
        item.key
    }

    /// The first key of the chain has the least frequency of all cached keys,
    /// and among the keys of that frequency it arrived first.
    pub proof fn lemma_first_key_is_least(&self)
        requires
            self.wf(),
            self@.len() > 0,
        ensures
            self@.contains_key(self.first_key()),
            forall|k: Seq<char>|
                #[trigger] self@.contains_key(k) ==> self@[self.first_key()].1 <= self@[k].1,
            forall|k: Seq<char>|
                #[trigger] self@.contains_key(k) && k != self.first_key() && self@[k].1
                    == self@[self.first_key()].1 ==> self.before(self.first_key(), k),
    {
        self.lemma_view_dom();
        let bs = self.buckets@;
        if bs.len() == 0 {
            assert(self.index@.dom() =~= Set::empty());
        }
        assert(pos_ok(bs, 0, 0));
        assert(key_at(bs, 0, 0) == self.first_key());
        assert forall|k: Seq<char>| #[trigger] self@.contains_key(k) implies self@[self.first_key()].1
            <= self@[k].1 && (k != self.first_key() && self@[k].1 == self@[self.first_key()].1
            ==> self.before(self.first_key(), k)) by {
            let p = self.index@[k];
            assert(pos_ok(bs, p.0, p.1));
            if p.0 == 0 && p.1 == 0 {
                assert(key_at(bs, 0, 0) == k);
            }
        }
    }

    /// The arrival relation orders the keys of each bucket: it is transitive.
    pub proof fn lemma_before_order(&self)
        ensures
            forall|x: Seq<char>, y: Seq<char>, z: Seq<char>|
                #[trigger] self.before(x, y) && #[trigger] self.before(y, z) ==> self.before(x, z),
    {
    }

    /// The view's keys are finitely many.
    pub proof fn lemma_view_dom_finite(&self)
        requires
            self.wf(),
        ensures
            self@.dom().finite(),
    {
        self.lemma_view_dom();
    }

    /// Keys in the arrival relation are cached, distinct, and share a frequency.
    pub proof fn lemma_before_cached(&self)
        requires
            self.wf(),
        ensures
            forall|x: Seq<char>, y: Seq<char>|
                #[trigger] self.before(x, y) ==> self@.contains_key(x) && self@.contains_key(y)
                    && x != y && self@[x].1 == self@[y].1,
    {
    }

    /// The chain's frequencies ascend strictly, so no two buckets share one.
    pub proof fn lemma_chain_ascending(&self)
        requires
            self.wf(),
        ensures
            forall|i: int, j: int|
                0 <= i < j < self.chain().len() ==> #[trigger] self.chain()[i].0
                    < #[trigger] self.chain()[j].0,
    {
    }

    /// No bucket of the chain is empty.
    pub proof fn lemma_chain_nonempty(&self)
        requires
            self.wf(),
        ensures
            forall|i: int|
                0 <= i < self.chain().len() ==> #[trigger] self.chain()[i].1.len() > 0,
    {
    }

    /// Every key of a bucket is cached at that bucket's frequency, once, and
    /// every cached key stands in the bucket of its frequency.
    pub proof fn lemma_chain_matches_entries(&self)
        requires
            self.wf(),
        ensures
            forall|i: int, j: int|
                0 <= i < self.chain().len() && 0 <= j < self.chain()[i].1.len() ==> {
                    &&& self@.contains_key(#[trigger] self.chain()[i].1[j])
                    &&& self@[self.chain()[i].1[j]].1 == self.chain()[i].0
                },
            forall|k: Seq<char>|
                #[trigger] self@.contains_key(k) ==> exists|i: int, j: int|
                    0 <= i < self.chain().len() && 0 <= j < self.chain()[i].1.len()
                        && #[trigger] self.chain()[i].1[j] == k && self.chain()[i].0
                        == self@[k].1,
            forall|i1: int, j1: int, i2: int, j2: int|
                0 <= i1 < self.chain().len() && 0 <= j1 < self.chain()[i1].1.len() && 0 <= i2
                    < self.chain().len() && 0 <= j2 < self.chain()[i2].1.len() && (i1, j1) != (
                    i2,
                    j2,
                ) ==> #[trigger] self.chain()[i1].1[j1] != #[trigger] self.chain()[i2].1[j2],
    {
        let bs = self.buckets@;
        assert forall|i: int, j: int|
            0 <= i < self.chain().len() && 0 <= j < self.chain()[i].1.len() implies
                #[trigger] self.chain()[i].1[j] == key_at(bs, i, j) && pos_ok(bs, i, j) by {}
        assert forall|k: Seq<char>| #[trigger] self@.contains_key(k) implies exists|i: int, j: int|
            0 <= i < self.chain().len() && 0 <= j < self.chain()[i].1.len()
                && #[trigger] self.chain()[i].1[j] == k && self.chain()[i].0 == self@[k].1 by {
            let p = self.index@[k];
            assert(self.chain()[p.0].1[p.1] == key_at(bs, p.0, p.1));
        }
    }

    /// The chain as (frequency, keys oldest first) pairs, ascending.
    pub fn snapshot(&self) -> (r: Vec<(u64, Vec<String>)>)
        requires
            self.wf(),
        ensures
            r@.len() == self.chain().len(),
            forall|i: int|
                0 <= i < r@.len() ==> (#[trigger] r@[i]).0 as nat == self.chain()[i].0
                    && r@[i].1@.map_values(|s: String| s@) == self.chain()[i].1,
    {
        let mut r: Vec<(u64, Vec<String>)> = Vec::new();
        let mut i: usize = 0;
        while i < self.buckets.len()
            invariant
                0 <= i <= self.buckets@.len(),
                r@.len() == i,
                forall|a: int|
                    0 <= a < i ==> (#[trigger] r@[a]).0 as nat == self.chain()[a].0
                        && r@[a].1@.map_values(|s: String| s@) == self.chain()[a].1,
            decreases self.buckets@.len() - i,
        {
            let node = &self.buckets[i];
            let mut keys: Vec<String> = Vec::new();
            let mut j: usize = 0;
            while j < node.items.len()
                invariant
                    0 <= i < self.buckets@.len(),
                    *node == self.buckets@[i as int],
                    0 <= j <= node.items@.len(),
                    keys@.len() == j,
                    forall|b: int| 0 <= b < j ==> (#[trigger] keys@[b])@ == node.items@[b].key@,
                decreases node.items@.len() - j,
            {
                keys.push(node.items[j].key.clone());
                j += 1;
            }
            assert(keys@.map_values(|s: String| s@) =~= self.chain()[i as int].1);
            r.push((node.frequency, keys));
            i += 1;
        }
        r
    }

    /// Position of `key` in the chain, if it is cached.
    fn find(&self, key: &String) -> (r: Option<(usize, usize)>)
        requires
            self.wf(),
        ensures
            r is None <==> !self@.contains_key(key@),
            match r {
                Some(p) => self.index@.contains_key(key@) && self.index@[key@] == (
                    p.0 as int,
                    p.1 as int,
                ) && pos_ok(self.buckets@, p.0 as int, p.1 as int),
                None => true,
            },
    {
        let mut i: usize = 0;
        while i < self.buckets.len()
            invariant
                self.wf(),
                0 <= i <= self.buckets@.len(),
                forall|a: int, b: int|
                    0 <= a < i && pos_ok(self.buckets@, a, b) ==> #[trigger] key_at(
                        self.buckets@,
                        a,
                        b,
                    ) != key@,
            decreases self.buckets@.len() - i,
        {
            let node = &self.buckets[i];
            let mut j: usize = 0;
            while j < node.items.len()
                invariant
                    self.wf(),
                    0 <= i < self.buckets@.len(),
                    *node == self.buckets@[i as int],
                    0 <= j <= node.items@.len(),
                    forall|a: int, b: int|
                        0 <= a < i && pos_ok(self.buckets@, a, b) ==> #[trigger] key_at(
                            self.buckets@,
                            a,
                            b,
                        ) != key@,
                    forall|b: int| 0 <= b < j ==> #[trigger] key_at(self.buckets@, i as int, b) != key@,
                decreases node.items@.len() - j,
            {
                if node.items[j].key == *key {
                    assert(key_at(self.buckets@, i as int, j as int) == key@);
                    return Some((i, j));
                }
                j += 1;
            }
            i += 1;
        }
        proof {
            if self.index@.contains_key(key@) {
                let p = self.index@[key@];
                assert(key_at(self.buckets@, p.0, p.1) == key@);
            }
        }
        None
    }
}

} // verus!
