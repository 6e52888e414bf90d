//! A fixed-size cache with LRU expiration criteria.
//!
//! Entries live in an append-only arena and are threaded into a doubly
//! linked recency list through arena indices; a hash map gives O(1)
//! access from a key to its arena slot.

use std::collections::HashMap;
use std::hash::Hash;
use vstd::pervasive::strictly_cloned;
use vstd::prelude::*;
use vstd::std_specs::hash::obeys_key_model;

verus! {

/// What a key type must honour for the cache to behave as a map: hashing is
/// deterministic, `==` is identity, and `clone` returns an identical key.
pub open spec fn key_model<K: Clone>() -> bool {
    &&& obeys_key_model::<K>()
    &&& forall|a: K, b: K| #[trigger] strictly_cloned(a, b) ==> a == b
}

/// The position of the entry that holds key `k` in `s`, if there is one.
pub open spec fn find<K, V>(s: Seq<(K, V)>, k: K) -> Option<int> {
    if exists|i: int| 0 <= i < s.len() && (#[trigger] s[i]).0 == k {
        Some(choose|i: int| 0 <= i < s.len() && (#[trigger] s[i]).0 == k)
    } else {
        None
    }
}

/// Where keys are distinct, `find` gives the one position that holds `k`.
pub proof fn lemma_find_at<K, V>(s: Seq<(K, V)>, k: K, i: int)
    requires
        unique_keys(s),
        0 <= i < s.len(),
        s[i].0 == k,
    ensures
        find(s, k) == Some(i),
{
    assert(0 <= i < s.len() && s[i].0 == k);
}

/// No key occurs twice in `s`.
pub open spec fn unique_keys<K, V>(s: Seq<(K, V)>) -> bool {
    forall|a: int, b: int|
        0 <= a < s.len() && 0 <= b < s.len() && (#[trigger] s[a]).0 == (#[trigger] s[b]).0 ==> a
            == b
}

/// `s` after its entry at position `i` has been used: it moves to the front.
pub open spec fn promoted<K, V>(s: Seq<(K, V)>, i: int) -> Seq<(K, V)> {
    seq![s[i]] + s.remove(i)
}

/// `s` after a new entry `e` was put in front, dropping the least recently
/// used entry when the result would hold more than `cap` entries.
pub open spec fn pushed<K, V>(s: Seq<(K, V)>, e: (K, V), cap: nat) -> Seq<(K, V)> {
    let t = seq![e] + s;
    if t.len() > cap {
        t.drop_last()
    } else {
        t
    }
}

/// `s` after `k` was inserted with value `v` into a cache of capacity `cap`:
/// a present key is updated and used, a new key is pushed in front.
pub open spec fn inserted<K, V>(s: Seq<(K, V)>, k: K, v: V, cap: nat) -> Seq<(K, V)> {
    match find(s, k) {
        Some(p) => seq![(k, v)] + s.remove(p),
        None => pushed(s, (k, v), cap),
    }
}

/// Using an entry keeps the keys distinct and puts the entry first.
pub proof fn lemma_promoted<K, V>(s: Seq<(K, V)>, p: int)
    requires
        unique_keys(s),
        0 <= p < s.len(),
    ensures
        unique_keys(promoted(s, p)),
        promoted(s, p).len() == s.len(),
        promoted(s, p)[0] == s[p],
        find(promoted(s, p), s[p].0) == Some(0int),
{
    let t = promoted(s, p);
    assert forall|a: int, b: int|
        0 <= a < t.len() && 0 <= b < t.len() && (#[trigger] t[a]).0 == (#[trigger] t[b]).0 implies a
        == b by {
        let a2 = if a == 0 {
            p
        } else if a - 1 < p {
            a - 1
        } else {
            a
        };
        let b2 = if b == 0 {
            p
        } else if b - 1 < p {
            b - 1
        } else {
            b
        };
        assert(t[a] == s[a2]);
        assert(t[b] == s[b2]);
    }
    lemma_find_at(t, s[p].0, 0);
}

/// Pushing an entry with a new key keeps the keys distinct and the length
/// within `cap`; where `cap` leaves room for one entry, it is then first.
pub proof fn lemma_pushed<K, V>(s: Seq<(K, V)>, e: (K, V), cap: nat)
    requires
        unique_keys(s),
        find(s, e.0) is None,
        s.len() <= cap,
    ensures
        unique_keys(pushed(s, e, cap)),
        pushed(s, e, cap).len() <= cap,
        cap > 0 ==> pushed(s, e, cap)[0] == e && find(pushed(s, e, cap), e.0) == Some(0int),
{
    let t = seq![e] + s;
    let u = pushed(s, e, cap);
    assert forall|i: int| 0 <= i < s.len() implies (#[trigger] s[i]).0 != e.0 by {
        if s[i].0 == e.0 {
            assert(0 <= i < s.len() && s[i].0 == e.0);
        }
    }
    assert forall|a: int, b: int|
        0 <= a < u.len() && 0 <= b < u.len() && (#[trigger] u[a]).0 == (#[trigger] u[b]).0 implies a
        == b by {
        assert(u[a] == t[a]);
        assert(u[b] == t[b]);
        if a > 0 {
            assert(t[a] == s[a - 1]);
        }
        if b > 0 {
            assert(t[b] == s[b - 1]);
        }
    }
    if cap > 0 {
        assert(u[0] == e);
        lemma_find_at(u, e.0, 0);
    }
}

struct CacheEntry<K, V> {
    key: K,
    value: Option<V>,
    next: Option<usize>,
    prev: Option<usize>,
}

pub struct LRUCache<K, V> {
    table: HashMap<K, usize>,
    entries: Vec<CacheEntry<K, V>>,
    first: Option<usize>,
    last: Option<usize>,
    capacity: usize,
    /// Arena indices of the live entries, most recently used first.
    order: Ghost<Seq<usize>>,
}

impl<K: Clone + Hash + Eq, V> LRUCache<K, V> {
    spec fn slot(&self, j: int) -> CacheEntry<K, V> {
        self.entries@[self.order@[j] as int]
    }

    /// Position `j` of the recency list names a live arena slot whose links
    /// point at its neighbours in the list.
    spec fn link_ok(&self, j: int) -> bool {
        let ord = self.order@;
        &&& ord[j] < self.entries@.len()
        &&& self.slot(j).value is Some
        &&& self.slot(j).prev == if j == 0 {
            None
        } else {
            Some(ord[j - 1])
        }
        &&& self.slot(j).next == if j == ord.len() - 1 {
            None
        } else {
            Some(ord[j + 1])
        }
    }

    /// The shape of the recency list: `order` lists distinct live arena
    /// slots, and the links, `first` and `last` thread exactly those slots.
    spec fn list_wf(&self) -> bool {
        let ord = self.order@;
        let n = ord.len();
        &&& ord.no_duplicates()
        &&& forall|j: int| 0 <= j < n ==> #[trigger] self.link_ok(j)
        &&& self.first == if n == 0 {
            None
        } else {
            Some(ord[0])
        }
        &&& self.last == if n == 0 {
            None
        } else {
            Some(ord[n - 1])
        }
    }

    /// The index maps the key of each live slot to that slot, and nothing else.
    spec fn table_wf(&self) -> bool {
        let ord = self.order@;
        &&& self.table@.len() == ord.len()
        &&& forall|k: K| #[trigger]
            self.table@.contains_key(k) ==> ord.contains(self.table@[k])
                && self.entries@[self.table@[k] as int].key == k
        &&& forall|j: int|
            0 <= j < ord.len() ==> self.table@.contains_key((#[trigger] self.slot(j)).key)
                && self.table@[self.slot(j).key] == ord[j]
    }

    /// Well-formedness of the cache.
    pub closed spec fn wf(&self) -> bool {
        &&& key_model::<K>()
        &&& self.list_wf()
        &&& self.table_wf()
        &&& self.order@.len() <= self.capacity
    }

    /// The number of entries the cache holds at most.
    pub closed spec fn cap(&self) -> nat {
        self.capacity as nat
    }

    ///
    /// Creates a new cache that can hold the specified number of elements.
    ///
    pub fn new(cap: usize) -> (r: Self)
        requires
            key_model::<K>(),
        ensures
            r.wf(),
            r@ == Seq::<(K, V)>::empty(),
            r.cap() == cap,
    {
        LRUCache {
            table: HashMap::with_capacity(cap),
            entries: Vec::with_capacity(cap),
            first: None,
            last: None,
            capacity: cap,
            order: Ghost(Seq::empty()),
        }
    }

    ///
    /// Returns the number of elements currently in the cache.
    ///
    pub fn len(&self) -> (r: usize)
        requires
            self.wf(),
        ensures
            r == self@.len(),
    {
        self.table.len()
    }

    /// Every arena slot keeps its key.
    spec fn same_keys(&self, other: &Self) -> bool {
        &&& self.entries@.len() == other.entries@.len()
        &&& forall|x: int|
            0 <= x < self.entries@.len() ==> (#[trigger] self.entries@[x]).key
                == other.entries@[x].key
    }

    /// Every arena slot keeps its key and value; only links may differ.
    spec fn same_payload(&self, other: &Self) -> bool {
        &&& self.same_keys(other)
        &&& forall|x: int|
            0 <= x < self.entries@.len() ==> (#[trigger] self.entries@[x]).value
                == other.entries@[x].value
    }

    ///
    /// Removes an item from the linked list.
    ///
    fn remove_from_list(&mut self, i: usize, Ghost(p): Ghost<int>)
        requires
            old(self).list_wf(),
            0 <= p < old(self).order@.len(),
            old(self).order@[p] == i,
        ensures
            final(self).list_wf(),
            final(self).order@ == old(self).order@.remove(p),
            !final(self).order@.contains(i),
            final(self).same_payload(old(self)),
            final(self).table == old(self).table,
            final(self).capacity == old(self).capacity,
    {
        let ghost ord = self.order@;
        let ghost n = ord.len();
        let ghost olds = *self;
        proof {
            assert(self.link_ok(p));
            if p > 0 {
                assert(self.link_ok(p - 1));
            }
            if p < n - 1 {
                assert(self.link_ok(p + 1));
            }
        }
        let prev = self.entries[i].prev;
        let next = self.entries[i].next;
        match prev {
            Some(j) => {
                self.entries[j].next = next;
            },
            None => {
                self.first = next;
            },
        }
        match next {
            Some(k) => {
                self.entries[k].prev = prev;
            },
            None => {
                self.last = prev;
            },
        }
        self.order = Ghost(ord.remove(p));
        proof {
            let nord = self.order@;
            let pj: int = if p > 0 {
                ord[p - 1] as int
            } else {
                -1
            };
            let nk: int = if p < n - 1 {
                ord[p + 1] as int
            } else {
                -1
            };
            assert forall|x: int|
                0 <= x < self.entries@.len() && x != pj && x != nk implies self.entries@[x]
                == olds.entries@[x] by {}
            assert forall|j: int| 0 <= j < nord.len() implies #[trigger] self.link_ok(j) by {
                if j < p {
                    assert(olds.link_ok(j));
                    assert(nord[j] == ord[j]);
                    if j > 0 {
                        assert(nord[j - 1] == ord[j - 1]);
                    }
                    if j + 1 < p {
                        assert(nord[j + 1] == ord[j + 1]);
                    } else if p + 1 < n {
                        assert(nord[j + 1] == ord[p + 1]);
                    }
                    if j < p - 1 {
                        assert(ord[j] != ord[p - 1]);
                    }
                    if p < n - 1 {
                        assert(ord[j] != ord[p + 1]);
                    }
                } else {
                    assert(olds.link_ok(j + 1));
                    assert(nord[j] == ord[j + 1]);
                    if j > p {
                        assert(nord[j - 1] == ord[j]);
                        assert(ord[j + 1] != ord[p + 1]);
                    } else if p > 0 {
                        assert(nord[j - 1] == ord[p - 1]);
                    }
                    if p > 0 {
                        assert(ord[j + 1] != ord[p - 1]);
                    }
                    if j + 1 < nord.len() {
                        assert(nord[j + 1] == ord[j + 2]);
                    }
                }
            }
            assert(self.same_payload(&olds));
            assert(!nord.contains(i)) by {
                if nord.contains(i) {
                    let j = choose|j: int| 0 <= j < nord.len() && nord[j] == i;
                    if j < p {
                        assert(ord[j] == i);
                    } else {
                        assert(ord[j + 1] == i);
                    }
                }
            }
        }
    }

    ///
    /// Links a detached slot in at the front of the list.
    ///
    fn push_front(&mut self, i: usize)
        requires
            old(self).list_wf(),
            i < old(self).entries@.len(),
            !old(self).order@.contains(i),
            old(self).entries@[i as int].value is Some,
        ensures
            final(self).list_wf(),
            final(self).order@ == seq![i] + old(self).order@,
            final(self).same_payload(old(self)),
            final(self).table == old(self).table,
            final(self).capacity == old(self).capacity,
    {
        let ghost ord = self.order@;
        let ghost olds = *self;
        proof {
            if ord.len() > 0 {
                assert(self.link_ok(0));
                assert(ord[0] != i);
            }
        }
        self.entries[i].prev = None;
        self.entries[i].next = self.first;
        match self.first {
            Some(h) => {
                self.entries[h].prev = Some(i);
            },
            None => {
                self.last = Some(i);
            },
        }
        self.first = Some(i);
        self.order = Ghost(seq![i] + ord);
        proof {
            let nord = self.order@;
            assert forall|j: int| 0 <= j < nord.len() implies #[trigger] self.link_ok(j) by {
                if j > 0 {
                    assert(olds.link_ok(j - 1));
                    assert(nord[j] == ord[j - 1]);
                    assert(ord[j - 1] != i);
                    if j > 1 {
                        assert(nord[j - 1] == ord[j - 2]);
                        assert(ord[j - 1] != ord[0]);
                    }
                    if j + 1 < nord.len() {
                        assert(nord[j + 1] == ord[j]);
                    }
                } else if nord.len() > 1 {
                    assert(nord[1] == ord[0]);
                }
            }
            assert(nord.no_duplicates());
            assert(self.same_payload(&olds));
        }
    }

    /// The entries of a well-formed cache have distinct keys, and there are
    /// never more of them than the capacity.
    pub proof fn lemma_view_valid(&self)
        requires
            self.wf(),
        ensures
            unique_keys(self@),
            self@.len() <= self.cap(),
    {
        assert forall|a: int, b: int|
            0 <= a < self@.len() && 0 <= b < self@.len() && (#[trigger] self@[a]).0 == (
            #[trigger] self@[b]).0 implies a == b by {
            assert(self@[a].0 == self.slot(a).key);
            assert(self@[b].0 == self.slot(b).key);
        }
    }

    /// The index holds a key exactly when the view does, and points at its
    /// position there.
    proof fn lemma_find(&self, k: K)
        requires
            self.list_wf(),
            self.table_wf(),
        ensures
            self.table@.contains_key(k) <==> find(self@, k) is Some,
            find(self@, k) matches Some(p) ==> 0 <= p < self@.len() && self.order@[p]
                == self.table@[k],
    {
        let ord = self.order@;
        if self.table@.contains_key(k) {
            let t = self.table@[k];
            assert(ord.contains(t));
            let j = choose|j: int| 0 <= j < ord.len() && ord[j] == t;
            assert(self@[j].0 == k);
            let c = choose|i: int| 0 <= i < self@.len() && (#[trigger] self@[i]).0 == k;
            assert(self@[c].0 == self.slot(c).key);
            assert(self.table@[self.slot(c).key] == ord[c]);
        } else {
            if exists|i: int| 0 <= i < self@.len() && (#[trigger] self@[i]).0 == k {
                let c = choose|i: int| 0 <= i < self@.len() && (#[trigger] self@[i]).0 == k;
                assert(self@[c].0 == self.slot(c).key);
            }
        }
    }

    /// Moving live slots around the list, with the index and the payload left
    /// alone, keeps the index consistent.
    proof fn lemma_reorder_table(&self, old_self: &Self)
        requires
            old_self.table_wf(),
            self.table == old_self.table,
            self.same_payload(old_self),
            self.order@.len() == old_self.order@.len(),
            forall|x: usize| self.order@.contains(x) <==> old_self.order@.contains(x),
            forall|j: int|
                0 <= j < self.order@.len() ==> self.table@[(#[trigger] self.slot(j)).key]
                    == self.order@[j],
            forall|j: int| 0 <= j < self.order@.len() ==> #[trigger] self.order@[j] < self.entries@.len(),
        ensures
            self.table_wf(),
    {
        let ord = self.order@;
        assert forall|k: K| #[trigger] self.table@.contains_key(k) implies ord.contains(
            self.table@[k],
        ) && self.entries@[self.table@[k] as int].key == k by {
            assert(old_self.order@.contains(self.table@[k]));
            let j = choose|j: int| 0 <= j < old_self.order@.len() && old_self.order@[j] == self.table@[k];
            assert(old_self.order@[j] < old_self.entries@.len());
        }
        assert forall|j: int| 0 <= j < ord.len() implies self.table@.contains_key(
            (#[trigger] self.slot(j)).key,
        ) && self.table@[self.slot(j).key] == ord[j] by {
            assert(ord.contains(ord[j]));
            assert(old_self.order@.contains(ord[j]));
            let j2 = choose|j2: int| 0 <= j2 < old_self.order@.len() && old_self.order@[j2] == ord[j];
            assert(old_self.slot(j2).key == self.slot(j).key);
        }
    }

    ///
    /// Promotes the specified key to the top of the cache.
    ///
    fn access(&mut self, key: &K)
        requires
            old(self).wf(),
            find(old(self)@, *key) is Some,
        ensures
            final(self).wf(),
            final(self)@ == promoted(old(self)@, find(old(self)@, *key)->0),
            final(self).capacity == old(self).capacity,
            final(self).first == Some(final(self).order@[0]),
    {
        proof {
            self.lemma_find(*key);
        }
        let ghost olds = *self;
        let ghost p = find(self@, *key)->0;
        let i = *self.table.get(key).unwrap();
        self.remove_from_list(i, Ghost(p));
        proof {
            assert(olds.link_ok(p));
        }
        self.push_front(i);
        proof {
            let ord = olds.order@;
            let nord = self.order@;
            assert(nord =~= seq![ord[p]] + ord.remove(p));
            assert forall|x: usize| nord.contains(x) <==> ord.contains(x) by {
                if ord.contains(x) {
                    let j = choose|j: int| 0 <= j < ord.len() && ord[j] == x;
                    if j < p {
                        assert(nord[j + 1] == x);
                    } else if j > p {
                        assert(nord[j] == x);
                    } else {
                        assert(nord[0] == x);
                    }
                }
                if nord.contains(x) {
                    let j = choose|j: int| 0 <= j < nord.len() && nord[j] == x;
                    if j == 0 {
                        assert(ord[p] == x);
                    } else if j <= p {
                        assert(ord[j - 1] == x);
                    } else {
                        assert(ord[j] == x);
                    }
                }
            }
            assert forall|j: int| 0 <= j < nord.len() implies self.table@[(
            #[trigger] self.slot(j)).key] == nord[j] by {
                if j == 0 {
                    assert(olds.link_ok(p));
                    assert(olds.slot(p).key == self.slot(j).key);
                } else if j <= p {
                    assert(olds.link_ok(j - 1));
                    assert(olds.slot(j - 1).key == self.slot(j).key);
                } else {
                    assert(olds.link_ok(j));
                    assert(olds.slot(j).key == self.slot(j).key);
                }
            }
            assert forall|j: int| 0 <= j < nord.len() implies #[trigger] nord[j] < self.entries@.len() by {
                assert(self.link_ok(j));
            }
            self.lemma_reorder_table(&olds);
            assert(self@ =~= promoted(olds@, p));
        }
    }

    ///
    /// Returns true if the key is in the cache.
    ///
    /// This does not promote its position in the cache.
    ///
    pub fn contains_key(&mut self, key: &K) -> (r: bool)
        requires
            old(self).wf(),
        ensures
            r == find(old(self)@, *key) is Some,
            *final(self) == *old(self),
    {
        proof {
            self.lemma_find(*key);
        }
        self.table.contains_key(key)
    }

    ///
    /// Retrieves a reference to the item associated with `key` from the cache
    /// without promoting it.
    ///
    pub fn peek(&mut self, key: &K) -> (r: Option<&V>)
        requires
            old(self).wf(),
        ensures
            *final(self) == *old(self),
            match find(old(self)@, *key) {
                Some(p) => r matches Some(v) && *v == old(self)@[p].1,
                None => r is None,
            },
    {
        proof {
            self.lemma_find(*key);
        }
        match self.table.get(key) {
            Some(i) => {
                proof {
                    let p = find(self@, *key)->0;
                    assert(self.link_ok(p));
                }
                self.entries[*i].value.as_ref()
            },
            None => None,
        }
    }

    ///
    /// Retrieves a reference to the item associated with `key` from the cache.
    ///
    pub fn get(&mut self, key: &K) -> (r: Option<&V>)
        requires
            old(self).wf(),
        ensures
            final(self).wf(),
            final(self).cap() == old(self).cap(),
            match find(old(self)@, *key) {
                Some(p) => r matches Some(v) && *v == old(self)@[p].1 && final(self)@ == promoted(
                    old(self)@,
                    p,
                ),
                None => r is None && final(self)@ == old(self)@,
            },
    {
        let ghost olds = *self;
        if self.contains_key(key) {
            self.access(key);
            proof {
                let p = find(olds@, *key)->0;
                olds.lemma_view_valid();
                self.lemma_view_valid();
                assert(self@[0] == olds@[p]);
                assert(find(self@, *key) == Some(0int));
            }
        }
        self.peek(key)
    }

    /// Detaching the slot at position `p` from the list and dropping its key
    /// from the index keeps the index consistent.
    proof fn lemma_detach_table(&self, old_self: &Self, p: int)
        requires
            old_self.list_wf(),
            old_self.table_wf(),
            0 <= p < old_self.order@.len(),
            self.order@ == old_self.order@.remove(p),
            self.same_keys(old_self),
            self.table@ == old_self.table@.remove(old_self.slot(p).key),
        ensures
            self.table_wf(),
    {
        let ord = old_self.order@;
        let nord = self.order@;
        let key = old_self.slot(p).key;
        assert forall|k: K| #[trigger] self.table@.contains_key(k) implies nord.contains(
            self.table@[k],
        ) && self.entries@[self.table@[k] as int].key == k by {
            let t = self.table@[k];
            assert(ord.contains(t));
            let j = choose|j: int| 0 <= j < ord.len() && ord[j] == t;
            assert(old_self.link_ok(j));
            if j == p {
                assert(old_self.slot(p).key == k);
            } else if j < p {
                assert(nord[j] == t);
            } else {
                assert(nord[j - 1] == t);
            }
        }
        assert forall|j: int| 0 <= j < nord.len() implies self.table@.contains_key(
            (#[trigger] self.slot(j)).key,
        ) && self.table@[self.slot(j).key] == nord[j] by {
            let j2 = if j < p {
                j
            } else {
                j + 1
            };
            assert(nord[j] == ord[j2]);
            assert(old_self.link_ok(j2));
            assert(old_self.slot(j2).key == self.slot(j).key);
            assert(old_self.table@[old_self.slot(j2).key] == ord[j2]);
            assert(old_self.table@[old_self.slot(p).key] == ord[p]);
        }
        assert(old_self.table@.contains_key(key));
    }

    /// The list's shape depends on the arena, the order and the two ends alone.
    proof fn lemma_list_frame(&self, other: &Self)
        requires
            other.list_wf(),
            self.entries == other.entries,
            self.order == other.order,
            self.first == other.first,
            self.last == other.last,
        ensures
            self.list_wf(),
    {
        assert forall|j: int| 0 <= j < self.order@.len() implies #[trigger] self.link_ok(j) by {
            assert(other.link_ok(j));
        }
    }

    /// Changing the value of a slot that is off the list touches neither the
    /// list, the index nor the view.
    proof fn lemma_dead_slot(&self, old_self: &Self, x: usize)
        requires
            old_self.list_wf(),
            old_self.table_wf(),
            !old_self.order@.contains(x),
            self.order == old_self.order,
            self.table == old_self.table,
            self.first == old_self.first,
            self.last == old_self.last,
            self.entries@.len() == old_self.entries@.len(),
            forall|y: int|
                0 <= y < self.entries@.len() && y != x ==> self.entries@[y] == old_self.entries@[y],
            x < self.entries@.len() ==> self.entries@[x as int].key == old_self.entries@[x as int].key,
        ensures
            self.list_wf(),
            self.table_wf(),
            self@ == old_self@,
    {
        let ord = self.order@;
        assert forall|j: int| 0 <= j < ord.len() implies #[trigger] self.link_ok(j) by {
            assert(old_self.link_ok(j));
            assert(ord[j] != x);
        }
        assert forall|j: int| 0 <= j < ord.len() implies self@[j] == old_self@[j] by {
            assert(old_self.link_ok(j));
            assert(ord[j] != x);
        }
        assert forall|k: K| #[trigger] self.table@.contains_key(k) implies ord.contains(
            self.table@[k],
        ) && self.entries@[self.table@[k] as int].key == k by {
            let j = choose|j: int| 0 <= j < ord.len() && ord[j] == self.table@[k];
            assert(old_self.link_ok(j));
        }
        assert forall|j: int| 0 <= j < ord.len() implies self.table@.contains_key(
            (#[trigger] self.slot(j)).key,
        ) && self.table@[self.slot(j).key] == ord[j] by {
            assert(old_self.link_ok(j));
            assert(ord[j] != x);
            assert(self.slot(j) == old_self.slot(j));
        }
        assert(self@ =~= old_self@);
    }

    ///
    /// Removes the item associated with `key` from the cache and returns its value, if any.
    ///
    pub fn remove(&mut self, key: &K) -> (r: Option<V>)
        requires
            old(self).wf(),
        ensures
            final(self).wf(),
            final(self).cap() == old(self).cap(),
            match find(old(self)@, *key) {
                Some(p) => r == Some(old(self)@[p].1) && final(self)@ == old(self)@.remove(p),
                None => r is None && final(self)@ == old(self)@,
            },
            find(final(self)@, *key) is None,
    {
        proof {
            self.lemma_find(*key);
        }
        let ghost olds = *self;
        let ghost p = find(self@, *key)->0;
        match self.table.get(key) {
            Some(i) => {
                let idx = *i;
                proof {
                    assert(self.link_ok(p));
                    assert(olds.slot(p).key == *key);
                }
                self.remove_from_list(idx, Ghost(p));
                let ghost detached = *self;
                self.table.remove(key);
                proof {
                    self.lemma_list_frame(&detached);
                }
                let ghost mid = *self;
                let v = self.entries[idx].value.take();
                proof {
                    mid.lemma_detach_table(&olds, p);
                    self.lemma_dead_slot(&mid, idx);
                    self.lemma_find(*key);
                    assert(mid@ =~= olds@.remove(p)) by {
                        assert forall|j: int| 0 <= j < mid@.len() implies mid@[j] == olds@.remove(
                            p,
                        )[j] by {
                            if j < p {
                                assert(olds.link_ok(j));
                            } else {
                                assert(olds.link_ok(j + 1));
                            }
                        }
                    }
                }
                v
            },
            None => None,
        }
    }

    ///
    /// Removes the oldest item in the cache.
    ///
    fn remove_last(&mut self)
        requires
            old(self).list_wf(),
            old(self).table_wf(),
            key_model::<K>(),
        ensures
            final(self).list_wf(),
            final(self).table_wf(),
            final(self)@ == if old(self)@.len() == 0 {
                old(self)@
            } else {
                old(self)@.drop_last()
            },
            final(self).capacity == old(self).capacity,
    {
        let ghost olds = *self;
        let ghost n = self.order@.len();
        if let Some(idx) = self.last {
            proof {
                assert(self.link_ok(n - 1));
            }
            self.remove_from_list(idx, Ghost(n - 1));
            let ghost detached = *self;
            self.table.remove(&self.entries[idx].key);
            proof {
                self.lemma_list_frame(&detached);
            }
            let ghost mid = *self;
            self.entries[idx].value = None;
            proof {
                mid.lemma_detach_table(&olds, n - 1);
                self.lemma_dead_slot(&mid, idx);
                assert(mid@ =~= olds@.drop_last()) by {
                    assert forall|j: int| 0 <= j < mid@.len() implies mid@[j]
                        == olds@.drop_last()[j] by {
                        assert(olds.link_ok(j));
                    }
                }
            }
        }
    }

    ///
    /// Evicts the least recently used entry while the cache holds more than
    /// its capacity.
    ///
    fn trim_to_capacity(&mut self)
        requires
            old(self).list_wf(),
            old(self).table_wf(),
            key_model::<K>(),
            old(self).order@.len() <= old(self).capacity + 1,
        ensures
            final(self).wf(),
            final(self)@ == if old(self)@.len() > old(self).capacity {
                old(self)@.drop_last()
            } else {
                old(self)@
            },
            final(self).capacity == old(self).capacity,
    {
        if self.table.len() > self.capacity {
            self.remove_last();
        }
        proof {
            assert(self.order@.len() == self@.len());
            assert(old(self).order@.len() == old(self)@.len());
        }
    }

    ///
    /// Inserts a key-value pair into the cache and returns the previous value, if any.
    ///
    /// If there is no room in the cache the oldest item will be removed.
    ///
    pub fn insert(&mut self, key: K, value: V) -> (r: Option<V>)
        requires
            old(self).wf(),
        ensures
            final(self).wf(),
            final(self).cap() == old(self).cap(),
            final(self)@ == inserted(old(self)@, key, value, old(self).cap()),
            final(self)@.len() <= final(self).cap(),
            r == match find(old(self)@, key) {
                Some(p) => Some(old(self)@[p].1),
                None => None,
            },
    {
        proof {
            self.lemma_find(key);
        }
        let ghost olds = *self;
        if self.table.contains_key(&key) {
            self.access(&key);
            let i = self.first.unwrap();
            let ghost mid = *self;
            proof {
                assert(mid.link_ok(0));
            }
            let old = self.entries[i].value.take();
            self.entries[i].value = Some(value);
            proof {
                let ord = self.order@;
                assert forall|j: int| 0 <= j < ord.len() implies #[trigger] self.link_ok(j) by {
                    assert(mid.link_ok(j));
                    if j > 0 {
                        assert(ord[j] != ord[0]);
                    }
                }
                assert forall|k: K| #[trigger] self.table@.contains_key(k) implies ord.contains(
                    self.table@[k],
                ) && self.entries@[self.table@[k] as int].key == k by {
                    let j = choose|j: int| 0 <= j < ord.len() && ord[j] == self.table@[k];
                    assert(mid.link_ok(j));
                }
                assert forall|j: int| 0 <= j < ord.len() implies self.table@.contains_key(
                    (#[trigger] self.slot(j)).key,
                ) && self.table@[self.slot(j).key] == ord[j] by {
                    assert(mid.link_ok(j));
                    assert(self.slot(j).key == mid.slot(j).key);
                }
                let p = find(olds@, key)->0;
                assert(olds@[p].0 == key);
                assert(mid@[0] == olds@[p]);
                assert(self@[0] == (key, value));
                assert(self@ =~= seq![(key, value)] + olds@.remove(p)) by {
                    assert(mid@ == promoted(olds@, p));
                    assert(self@.len() == mid@.len());
                    assert forall|j: int| 1 <= j < self@.len() implies self@[j] == (seq![(key, value)]
                        + olds@.remove(p))[j] by {
                        assert(mid.link_ok(j));
                        assert(ord[j] != ord[0]);
                        assert(self@[j] == mid@[j]);
                        assert(mid@[j] == olds@.remove(p)[j - 1]);
                    }
                }
                self.lemma_view_valid();
            }
            old
        } else {
            let idx = self.entries.len();
            let kc = key.clone();
            proof {
                assert(strictly_cloned(key, kc));
            }
            self.entries.push(CacheEntry { key: kc, value: Some(value), next: None, prev: None });
            let ghost pushed_self = *self;
            proof {
                let ord = self.order@;
                assert forall|j: int| 0 <= j < ord.len() implies #[trigger] self.link_ok(j) by {
                    assert(olds.link_ok(j));
                }
                assert(!ord.contains(idx)) by {
                    if ord.contains(idx) {
                        let j = choose|j: int| 0 <= j < ord.len() && ord[j] == idx;
                        assert(olds.link_ok(j));
                    }
                }
            }
            self.push_front(idx);
            let ghost linked = *self;
            self.table.insert(key, idx);
            proof {
                self.lemma_list_frame(&linked);
                let ord = self.order@;
                assert(self.entries@[idx as int].key == key);
                assert forall|k: K| #[trigger] self.table@.contains_key(k) implies ord.contains(
                    self.table@[k],
                ) && self.entries@[self.table@[k] as int].key == k by {
                    if k != key {
                        let j = choose|j: int|
                            0 <= j < olds.order@.len() && olds.order@[j] == self.table@[k];
                        assert(olds.link_ok(j));
                        assert(ord[j + 1] == olds.order@[j]);
                    } else {
                        assert(ord[0] == idx);
                    }
                }
                assert forall|j: int| 0 <= j < ord.len() implies self.table@.contains_key(
                    (#[trigger] self.slot(j)).key,
                ) && self.table@[self.slot(j).key] == ord[j] by {
                    if j > 0 {
                        assert(olds.link_ok(j - 1));
                        assert(self.slot(j).key == olds.slot(j - 1).key);
                    }
                }
                assert(self@ =~= seq![(key, value)] + olds@) by {
                    assert forall|j: int| 1 <= j < self@.len() implies self@[j] == olds@[j - 1] by {
                        assert(olds.link_ok(j - 1));
                    }
                }
            }
            self.trim_to_capacity();
            proof {
                self.lemma_view_valid();
            }
            None
        }
    }

    /// A well-formed cache stays well-formed when the value of its most
    /// recently used entry is replaced.
    proof fn lemma_front_value(&self, mid: &Self)
        requires
            mid.wf(),
            mid.order@.len() > 0,
            self.order == mid.order,
            self.table == mid.table,
            self.first == mid.first,
            self.last == mid.last,
            self.capacity == mid.capacity,
            self.entries@.len() == mid.entries@.len(),
            forall|y: int|
                0 <= y < self.entries@.len() && y != mid.order@[0] ==> self.entries@[y]
                    == mid.entries@[y],
            self.slot(0).key == mid.slot(0).key,
            self.slot(0).prev == mid.slot(0).prev,
            self.slot(0).next == mid.slot(0).next,
            self.slot(0).value is Some,
        ensures
            self.wf(),
            self@ == seq![(mid@[0].0, self@[0].1)] + mid@.drop_first(),
    {
        let ord = self.order@;
        assert(mid.link_ok(0));
        assert forall|j: int| 0 <= j < ord.len() implies #[trigger] self.link_ok(j) by {
            assert(mid.link_ok(j));
            if j > 0 {
                assert(ord[j] != ord[0]);
            }
        }
        assert forall|k: K| #[trigger] self.table@.contains_key(k) implies ord.contains(
            self.table@[k],
        ) && self.entries@[self.table@[k] as int].key == k by {
            let j = choose|j: int| 0 <= j < ord.len() && ord[j] == self.table@[k];
            assert(mid.link_ok(j));
        }
        assert forall|j: int| 0 <= j < ord.len() implies self.table@.contains_key(
            (#[trigger] self.slot(j)).key,
        ) && self.table@[self.slot(j).key] == ord[j] by {
            assert(mid.link_ok(j));
            if j > 0 {
                assert(ord[j] != ord[0]);
            }
            assert(self.slot(j).key == mid.slot(j).key);
        }
        assert(self@ =~= seq![(mid@[0].0, self@[0].1)] + mid@.drop_first()) by {
            assert forall|j: int| 1 <= j < self@.len() implies self@[j] == mid@[j] by {
                assert(mid.link_ok(j));
                assert(ord[j] != ord[0]);
            }
        }
    }

    ///
    /// Retrieves a mutable reference to the item associated with `key` from the cache.
    ///
    pub fn get_mut(&mut self, key: &K) -> (r: Option<&mut V>)
        requires
            old(self).wf(),
        ensures
            final(self).wf(),
            final(self).cap() == old(self).cap(),
            match find(old(self)@, *key) {
                Some(p) => r is Some && *r.unwrap() == old(self)@[p].1 && final(self)@ == seq![
                    (*key, *final(r.unwrap())),
                ] + old(self)@.remove(p),
                None => r is None && final(self)@ == old(self)@,
            },
    {
        let ghost olds = *self;
        if self.contains_key(key) {
            self.access(key);
            proof {
                let p = find(olds@, *key)->0;
                olds.lemma_view_valid();
                self.lemma_view_valid();
                assert(self@[0] == olds@[p]);
                assert(find(self@, *key) == Some(0int));
            }
        }
        proof {
            self.lemma_find(*key);
        }
        let ghost mid = *self;
        let ghost fin = *final(self);
        match self.table.get(key) {
            Some(i) => {
                proof {
                    assert(mid.link_ok(0));
                }
                let r = self.entries[*i].value.as_mut();
                proof {
                    fin.lemma_front_value(&mid);
                }
                r
            },
            None => None,
        }
    }

    ///
    /// Returns true if the cache contains no elements.
    ///
    pub fn is_empty(&self) -> (r: bool)
        requires
            self.wf(),
        ensures
            r == (self@.len() == 0),
    {
        self.table.is_empty()
    }

    ///
    /// Returns true if the cache is at full capacity. Any subsequent insertions of keys not
    /// already present will eject the oldest element from the cache.
    ///
    pub fn is_full(&self) -> (r: bool)
        requires
            self.wf(),
        ensures
            r == (self@.len() == self.cap()),
    {
        self.table.len() == self.capacity
    }

}

impl<K, V> View for LRUCache<K, V> {
    type V = Seq<(K, V)>;

    /// The live entries as key-value pairs, most recently used first.
    closed spec fn view(&self) -> Seq<(K, V)> {
        self.order@.map_values(
            |i: usize| (self.entries@[i as int].key, self.entries@[i as int].value->0),
        )
    }
}

} // verus!
