//! A least-recently-used cache of string keys and values: a doubly linked
//! list threaded through an arena of nodes, most recently used first, with a
//! map from keys to arena positions.
use vstd::prelude::*;
use vstd::hash_map::StringHashMap;

verus! {

broadcast use vstd::hash_map::group_hash_map_axioms;

/// Entries of a cache, most recently used first: (key, value).
pub type Entries = Seq<(Seq<char>, Seq<char>)>;

/// No key occurs in two entries.
pub open spec fn keys_distinct(s: Entries) -> bool {
    forall|i: int, j: int| 0 <= i < j < s.len() ==> (#[trigger] s[i]).0 != (#[trigger] s[j]).0
}

/// Whether some entry has key `k`.
pub open spec fn has_key(s: Entries, k: Seq<char>) -> bool {
    exists|i: int| 0 <= i < s.len() && (#[trigger] s[i]).0 == k
}

/// The index of the entry with key `k`.
pub open spec fn key_index(s: Entries, k: Seq<char>) -> int {
    choose|i: int| 0 <= i < s.len() && (#[trigger] s[i]).0 == k
}

/// The value cached for `k`, if any.
pub open spec fn lru_lookup(s: Entries, k: Seq<char>) -> Option<Seq<char>> {
    if has_key(s, k) {
        Some(s[key_index(s, k)].1)
    } else {
        None
    }
}

/// The entries after a hit on `k`: its entry moves to the front.
pub open spec fn lru_touch(s: Entries, k: Seq<char>) -> Entries {
    if has_key(s, k) {
        seq![s[key_index(s, k)]] + s.remove(key_index(s, k))
    } else {
        s
    }
}

/// The entries after putting `(k, v)` into a cache of capacity `cap`: the
/// entry goes to the front, replacing the old entry for `k`; a new key in a
/// full cache evicts the least recently used entry.
pub open spec fn lru_put(s: Entries, k: Seq<char>, v: Seq<char>, cap: nat) -> Entries {
    if has_key(s, k) {
        seq![(k, v)] + s.remove(key_index(s, k))
    } else if s.len() >= cap {
        seq![(k, v)] + s.drop_last()
    } else {
        seq![(k, v)] + s
    }
}

/// The entries after deleting `k`.
pub open spec fn lru_del(s: Entries, k: Seq<char>) -> Entries {
    if has_key(s, k) {
        s.remove(key_index(s, k))
    } else {
        s
    }
}

/// A slot of the arena.  Slots 0 and 1 are the head and tail sentinels.
struct Node {
    key: Option<String>,
    val: Option<String>,
    pos: usize,
    prev: Option<usize>,
    next: Option<usize>,
}

impl Node {
    fn new(k: Option<String>, v: Option<String>, p: usize) -> (r: Self)
        ensures
            r.key == k,
            r.val == v,
            r.pos == p,
            r.prev.is_none(),
            r.next.is_none(),
    {
        Node { key: k, val: v, pos: p, prev: None, next: None }
    }
}

/// The slot before index `k` of `order` (the head sentinel for the first).
spec fn prev_of(order: Seq<usize>, k: int) -> usize {
    if k == 0 {
        0
    } else {
        order[k - 1]
    }
}

/// The slot after index `k` of `order` (the tail sentinel for the last).
spec fn next_of(order: Seq<usize>, k: int) -> usize {
    if k == order.len() - 1 {
        1
    } else {
        order[k + 1]
    }
}

/// The arena links the slots of `order`, in that order, between the sentinels.
spec fn links_ok(a: Seq<Node>, order: Seq<usize>) -> bool {
    let n = order.len();
    &&& a.len() >= 2
    &&& order.no_duplicates()
    &&& forall|k: int| 0 <= k < n ==> 2 <= #[trigger] order[k] < a.len()
    &&& a[0].next == Some(if n == 0 { 1usize } else { order[0] })
    &&& a[1].prev == Some(if n == 0 { 0usize } else { order[n - 1] })
    &&& forall|k: int|
        0 <= k < n ==> (#[trigger] a[order[k] as int]).prev == Some(prev_of(order, k)) && a[order[k] as int].next
            == Some(next_of(order, k))
}

/// Only the links of the arena differ.
spec fn same_contents(a: Seq<Node>, b: Seq<Node>) -> bool {
    &&& a.len() == b.len()
    &&& forall|p: int| 0 <= p < a.len() ==> (#[trigger] a[p]).key == b[p].key && a[p].val == b[p].val
}

pub struct LRUCache {
    arena: Vec<Node>,
    key_to_pos: StringHashMap<usize>,
    cache: StringHashMap<String>,
    free_indices: Vec<usize>,
    head: usize,
    tail: usize,
    capacity: usize,
    /// Arena slots of the entries, most recently used first.
    order: Ghost<Seq<usize>>,
}

impl View for LRUCache {
    type V = Entries;

    closed spec fn view(&self) -> Entries {
        Seq::new(
            self.order@.len(),
            |k: int|
                (
                    self.arena@[self.order@[k] as int].key->0@,
                    self.arena@[self.order@[k] as int].val->0@,
                ),
        )
    }
}

impl LRUCache {
    /// The capacity the cache was made with.
    pub closed spec fn spec_capacity(&self) -> nat {
        self.capacity as nat
    }

    pub closed spec fn wf(&self) -> bool {
        let ord = self.order@;
        let n = ord.len();
        &&& self.head == 0
        &&& self.tail == 1
        &&& 0 < self.capacity
        &&& n <= self.capacity
        &&& links_ok(self.arena@, ord)
        &&& forall|k: int|
            0 <= k < n ==> (#[trigger] self.arena@[ord[k] as int]).key is Some
                && self.arena@[ord[k] as int].val is Some
        &&& keys_distinct(self@)
        &&& self.key_to_pos@.dom().finite()
        &&& self.cache@.dom().finite()
        &&& self.cache@.len() == n
        &&& forall|k: int|
            0 <= k < n ==> #[trigger] self.key_to_pos@.contains_key(self@[k].0)
                && self.key_to_pos@[self@[k].0] == ord[k]
        &&& forall|m: Seq<char>|
            #[trigger] self.key_to_pos@.contains_key(m) ==> ord.contains(self.key_to_pos@[m])
                && self.arena@[self.key_to_pos@[m] as int].key->0@ == m
        &&& forall|m: Seq<char>|
            #[trigger] self.cache@.contains_key(m) <==> self.key_to_pos@.contains_key(m)
        &&& forall|m: Seq<char>|
            #[trigger] self.cache@.contains_key(m) ==> self.cache@[m] == self.arena@[self.key_to_pos@[m] as int].val->0
        &&& self.free_indices@.no_duplicates()
        &&& forall|i: int|
            0 <= i < self.free_indices@.len() ==> 2 <= #[trigger] self.free_indices@[i] < self.arena@.len()
                && !ord.contains(self.free_indices@[i])
    }

    /// What well-formedness gives callers: distinct keys, within capacity.
    pub proof fn lemma_wf(&self)
        requires
            self.wf(),
        ensures
            keys_distinct(self@),
            self@.len() <= self.spec_capacity(),
            self.spec_capacity() > 0,
    {
    }

    /// An empty cache holding at most `cap` entries.
    pub fn new(cap: usize) -> (r: Self)
        requires
            cap > 0,
        ensures
            r.wf(),
            r@ == Entries::empty(),
            r.spec_capacity() == cap,
    {
        let mut h = Node::new(None, None, 0);
        let mut t = Node::new(None, None, 1);
        h.next = Some(1);
        t.prev = Some(0);
        let mut arena = Vec::<Node>::new();
        arena.push(h);
        arena.push(t);
        let r = LRUCache {
            arena,
            key_to_pos: StringHashMap::new(),
            cache: StringHashMap::new(),
            free_indices: Vec::new(),
            head: 0,
            tail: 1,
            capacity: cap,
            order: Ghost(Seq::empty()),
        };
        assert(r@ =~= Entries::empty());
        r
    }
}


impl LRUCache {
    /// The fields other than the arena's links and the order are those of `other`.
    closed spec fn same_except_links(&self, other: &Self) -> bool {
        &&& same_contents(self.arena@, other.arena@)
        &&& self.key_to_pos == other.key_to_pos
        &&& self.cache == other.cache
        &&& self.free_indices == other.free_indices
        &&& self.head == other.head
        &&& self.tail == other.tail
        &&& self.capacity == other.capacity
    }

    /// Links slot `cur` in at the front of the list.
    #[allow(non_snake_case)]
    fn addNode(&mut self, cur: usize)
        requires
            links_ok(old(self).arena@, old(self).order@),
            old(self).head == 0,
            old(self).tail == 1,
            2 <= cur < old(self).arena@.len(),
            !old(self).order@.contains(cur),
        ensures
            final(self).order@ == seq![cur] + old(self).order@,
            links_ok(final(self).arena@, final(self).order@),
            final(self).same_except_links(old(self)),
    {
        let ghost ord = self.order@;
        let ghost a0 = self.arena@;
        let temp = self.arena[self.head].next.unwrap();
        let h = self.head;
        self.arena[cur].prev = Some(h);
        self.arena[cur].next = Some(temp);
        self.arena[h].next = Some(cur);
        self.arena[temp].prev = Some(cur);
        self.order = Ghost(seq![cur] + self.order@);
        proof {
            let o2 = self.order@;
            let a = self.arena@;
            assert(o2.no_duplicates()) by {
                assert forall|i: int, j: int| 0 <= i < j < o2.len() implies o2[i] != o2[j] by {
                    if i == 0 {
                        assert(o2[j] == ord[j - 1]);
                    }
                }
            }
            assert forall|k: int| 0 <= k < o2.len() implies (#[trigger] a[o2[k] as int]).prev == Some(prev_of(o2, k))
                && a[o2[k] as int].next == Some(next_of(o2, k)) by {
                if k > 0 {
                    assert(o2[k] == ord[k - 1]);
                    assert(a0[ord[k - 1] as int].prev == Some(prev_of(ord, k - 1)));
                    if k == 1 {
                        assert(temp == ord[0]);
                    } else {
                        assert(ord[k - 1] != ord[0]);
                    }
                }
            }
            assert(same_contents(self.arena@, a0));
        }
    }

    /// Unlinks slot `cur` from the list.
    #[allow(non_snake_case)]
    fn removeNode(&mut self, cur: usize)
        requires
            links_ok(old(self).arena@, old(self).order@),
            old(self).order@.contains(cur),
        ensures
            final(self).order@ == old(self).order@.remove(old(self).order@.index_of(cur)),
            links_ok(final(self).arena@, final(self).order@),
            final(self).same_except_links(old(self)),
    {
        let ghost ord = self.order@;
        let ghost a0 = self.arena@;
        let ghost k = ord.index_of(cur);
        let ghost n = ord.len();
        let org_prev = self.arena[cur].prev.unwrap();
        let org_next = self.arena[cur].next.unwrap();
        proof {
            assert(org_prev == prev_of(ord, k));
            assert(org_next == next_of(ord, k));
            assert(org_prev != org_next) by {
                if k > 0 && k < n - 1 {
                    assert(ord[k - 1] != ord[k + 1]);
                }
            }
        }
        self.arena[org_prev].next = Some(org_next);
        self.arena[org_next].prev = Some(org_prev);
        self.order = Ghost(self.order@.remove(k));
        proof {
            let o2 = self.order@;
            let a = self.arena@;
            assert forall|j: int| 0 <= j < o2.len() implies (#[trigger] a[o2[j] as int]).prev == Some(prev_of(o2, j))
                && a[o2[j] as int].next == Some(next_of(o2, j)) by {
                if j < k {
                    assert(o2[j] == ord[j]);
                    assert(a0[ord[j] as int].prev == Some(prev_of(ord, j)));
                    if j < k - 1 {
                        assert(ord[j] != ord[k - 1]);
                        if k < n - 1 {
                            assert(ord[j] != ord[k + 1]);
                        }
                    }
                    if k < n - 1 {
                        assert(ord[j] != ord[k + 1]);
                    }
                } else {
                    assert(o2[j] == ord[j + 1]);
                    assert(a0[ord[j + 1] as int].prev == Some(prev_of(ord, j + 1)));
                    if j > k {
                        assert(ord[j + 1] != ord[k + 1]);
                    }
                    if k > 0 {
                        assert(ord[j + 1] != ord[k - 1]);
                    }
                }
            }
            assert forall|j: int| 0 <= j < o2.len() implies 2 <= #[trigger] o2[j] < a.len() by {
                if j < k {
                    assert(o2[j] == ord[j]);
                } else {
                    assert(o2[j] == ord[j + 1]);
                }
            }
            assert(same_contents(self.arena@, a0));
        }
    }

    /// Moves slot `cur` to the front of the list.
    #[allow(non_snake_case)]
    fn moveToHead(&mut self, cur: usize)
        requires
            links_ok(old(self).arena@, old(self).order@),
            old(self).head == 0,
            old(self).tail == 1,
            old(self).order@.contains(cur),
        ensures
            final(self).order@ == seq![cur] + old(self).order@.remove(old(self).order@.index_of(cur)),
            links_ok(final(self).arena@, final(self).order@),
            final(self).same_except_links(old(self)),
    {
        self.removeNode(cur);
        proof {
            let o = old(self).order@;
            let k = o.index_of(cur);
            assert(!self.order@.contains(cur)) by {
                if self.order@.contains(cur) {
                    let j = self.order@.index_of(cur);
                    if j < k {
                        assert(o[j] == cur);
                    } else {
                        assert(o[j + 1] == cur);
                    }
                }
            }
        }
        self.addNode(cur);
    }
}


impl LRUCache {
    /// Moving the entry at index `k` to the front, with value `v`, keeps the
    /// cache well formed.
    proof fn lemma_front_wf(old: LRUCache, new: LRUCache, k: int, v: String)
        requires
            old.wf(),
            0 <= k < old.order@.len(),
            new.order@ == seq![old.order@[k]] + old.order@.remove(k),
            links_ok(new.arena@, new.order@),
            new.arena@.len() == old.arena@.len(),
            forall|p: int|
                0 <= p < old.arena@.len() && p != old.order@[k] ==> (#[trigger] new.arena@[p]).key
                    == old.arena@[p].key && new.arena@[p].val == old.arena@[p].val,
            new.arena@[old.order@[k] as int].key == old.arena@[old.order@[k] as int].key,
            new.arena@[old.order@[k] as int].val == Some(v),
            new.key_to_pos == old.key_to_pos,
            new.cache@ == old.cache@.insert(old@[k].0, v),
            new.free_indices == old.free_indices,
            new.head == old.head,
            new.tail == old.tail,
            new.capacity == old.capacity,
        ensures
            new.wf(),
            new@ == seq![(old@[k].0, v@)] + old@.remove(k),
    {
        let o = old.order@;
        let o2 = new.order@;
        let n = o.len();
        let p0 = o[k];
        assert(new@ =~= seq![(old@[k].0, v@)] + old@.remove(k)) by {
            assert forall|i: int| 0 <= i < n implies new@[i] == (seq![(old@[k].0, v@)] + old@.remove(k))[i] by {
                if i > 0 {
                    let j = if i - 1 < k { i - 1 } else { i };
                    assert(o2[i] == o[j]);
                    assert(o[j] != p0);
                }
            }
        }
        assert forall|p: usize| o2.contains(p) <==> o.contains(p) by {
            if o2.contains(p) {
                let i = o2.index_of(p);
                if i > 0 {
                    let j = if i - 1 < k { i - 1 } else { i };
                    assert(o2[i] == o[j]);
                }
            }
            if o.contains(p) {
                let j = o.index_of(p);
                if j < k {
                    assert(o2[j + 1] == p);
                } else if j > k {
                    assert(o2[j] == p);
                } else {
                    assert(o2[0] == p);
                }
            }
        }
        assert forall|i: int| 0 <= i < n implies (#[trigger] new.arena@[o2[i] as int]).key is Some
            && new.arena@[o2[i] as int].val is Some by {
            assert(o.contains(o2[i]));
            let j = o.index_of(o2[i]);
            assert(old.arena@[o[j] as int].key is Some);
        }
        assert forall|i: int| 0 <= i < n implies #[trigger] new.key_to_pos@.contains_key(new@[i].0)
            && new.key_to_pos@[new@[i].0] == o2[i] by {
            assert(o.contains(o2[i]));
            let j = o.index_of(o2[i]);
            assert(old.key_to_pos@.contains_key(old@[j].0));
        }
        assert(keys_distinct(new@)) by {
            assert forall|i: int, j: int| 0 <= i < j < n implies (#[trigger] new@[i]).0 != (#[trigger] new@[j]).0 by {
                assert(new.key_to_pos@.contains_key(new@[i].0));
                assert(new.key_to_pos@.contains_key(new@[j].0));
                assert(new.key_to_pos@[new@[i].0] == o2[i]);
                assert(new.key_to_pos@[new@[j].0] == o2[j]);
            }
        }
        assert forall|m: Seq<char>| #[trigger] new.key_to_pos@.contains_key(m) implies o2.contains(new.key_to_pos@[m])
            && new.arena@[new.key_to_pos@[m] as int].key->0@ == m by {
            assert(o.contains(old.key_to_pos@[m]));
        }
        assert(old.key_to_pos@.contains_key(old@[k].0));
        assert(old.cache@.contains_key(old@[k].0));
        assert(new.cache@.len() == n);
        assert forall|m: Seq<char>| #[trigger] new.cache@.contains_key(m) implies new.cache@[m] == new.arena@[new.key_to_pos@[m] as int].val->0 by {
            if m != old@[k].0 {
                assert(o.contains(old.key_to_pos@[m]));
                assert(old.key_to_pos@[m] != p0);
            }
        }
        assert forall|i: int| 0 <= i < new.free_indices@.len() implies 2 <= #[trigger] new.free_indices@[i]
            < new.arena@.len() && !o2.contains(new.free_indices@[i]) by {
            assert(!o.contains(old.free_indices@[i]));
        }
    }

    /// Dropping the entry at index `k` keeps the cache well formed.
    proof fn lemma_removed_wf(old: LRUCache, new: LRUCache, k: int)
        requires
            old.wf(),
            0 <= k < old.order@.len(),
            new.order@ == old.order@.remove(k),
            links_ok(new.arena@, new.order@),
            same_contents(new.arena@, old.arena@),
            new.key_to_pos@ == old.key_to_pos@.remove(old@[k].0),
            new.cache@ == old.cache@.remove(old@[k].0),
            new.free_indices@ == old.free_indices@.push(old.order@[k]),
            new.head == old.head,
            new.tail == old.tail,
            new.capacity == old.capacity,
        ensures
            new.wf(),
            new@ == old@.remove(k),
    {
        let o = old.order@;
        let o2 = new.order@;
        let n = o.len();
        let p0 = o[k];
        assert(new@ =~= old@.remove(k)) by {
            assert forall|i: int| 0 <= i < n - 1 implies new@[i] == old@.remove(k)[i] by {
                let j = if i < k { i } else { i + 1 };
                assert(o2[i] == o[j]);
                assert(new.arena@[o[j] as int] == new.arena@[o[j] as int]);
            }
        }
        assert forall|i: int| 0 <= i < n - 1 implies (#[trigger] new.arena@[o2[i] as int]).key is Some
            && new.arena@[o2[i] as int].val is Some by {
            let j = if i < k { i } else { i + 1 };
            assert(o2[i] == o[j]);
            assert(old.arena@[o[j] as int].key is Some);
        }
        assert forall|i: int| 0 <= i < n - 1 implies #[trigger] new.key_to_pos@.contains_key(new@[i].0)
            && new.key_to_pos@[new@[i].0] == o2[i] by {
            let j = if i < k { i } else { i + 1 };
            assert(new@[i] == old@[j]);
            assert(old.key_to_pos@.contains_key(old@[j].0));
            assert(old@[j].0 != old@[k].0);
        }
        assert forall|m: Seq<char>| #[trigger] new.key_to_pos@.contains_key(m) implies o2.contains(new.key_to_pos@[m])
            && new.arena@[new.key_to_pos@[m] as int].key->0@ == m by {
            let q = old.key_to_pos@[m];
            assert(o.contains(q));
            let j = o.index_of(q);
            assert(old.key_to_pos@[old@[j].0] == o[j]);
            if j == k {
                assert(old@[k].0 == m);
            }
            let i = if j < k { j } else { j - 1 };
            assert(o2[i] == q);
        }
        assert(old.cache@.contains_key(old@[k].0)) by {
            assert(old.key_to_pos@.contains_key(old@[k].0));
        }
        assert forall|m: Seq<char>| #[trigger] new.cache@.contains_key(m) implies new.cache@[m] == new.arena@[new.key_to_pos@[m] as int].val->0 by {
            assert(new.arena@[new.key_to_pos@[m] as int] == new.arena@[new.key_to_pos@[m] as int]);
        }
        assert forall|i: int| 0 <= i < new.free_indices@.len() implies 2 <= #[trigger] new.free_indices@[i]
            < new.arena@.len() && !o2.contains(new.free_indices@[i]) by {
            if o2.contains(new.free_indices@[i]) {
                let j = o2.index_of(new.free_indices@[i]);
                let jj = if j < k { j } else { j + 1 };
                assert(o2[j] == o[jj]);
            }
        }
        assert(new.free_indices@.no_duplicates()) by {
            assert forall|i: int| 0 <= i < old.free_indices@.len() implies old.free_indices@[i] != p0 by {}
        }
    }

    /// Linking a new entry `(key, val)` in at slot `pos`, at the front, keeps
    /// the cache well formed.
    proof fn lemma_added_wf(old: LRUCache, new: LRUCache, pos: usize, key: String, val: String)
        requires
            old.wf(),
            old.order@.len() < old.capacity,
            !has_key(old@, key@),
            new.order@ == seq![pos] + old.order@,
            links_ok(new.arena@, new.order@),
            forall|p: int|
                0 <= p < old.arena@.len() && p != pos ==> (#[trigger] new.arena@[p]).key == old.arena@[p].key
                    && new.arena@[p].val == old.arena@[p].val,
            new.arena@[pos as int].key == Some(key),
            new.arena@[pos as int].val == Some(val),
            new.key_to_pos@ == old.key_to_pos@.insert(key@, pos),
            new.cache@ == old.cache@.insert(key@, val),
            (new.free_indices@.push(pos) == old.free_indices@ && new.arena@.len() == old.arena@.len())
                || (new.free_indices@ == old.free_indices@ && pos == old.arena@.len()
                && new.arena@.len() == old.arena@.len() + 1),
            new.head == old.head,
            new.tail == old.tail,
            new.capacity == old.capacity,
        ensures
            new.wf(),
            new@ == seq![(key@, val@)] + old@,
    {
        let o = old.order@;
        let o2 = new.order@;
        let n = o.len();
        assert(!o.contains(pos)) by {
            if o.contains(pos) {
                let j = o.index_of(pos);
                if new.free_indices@.push(pos) == old.free_indices@ {
                    assert(old.free_indices@[new.free_indices@.len() as int] == pos);
                }
            }
        }
        assert(new@ =~= seq![(key@, val@)] + old@) by {
            assert forall|i: int| 0 < i < n + 1 implies new@[i] == old@[i - 1] by {
                assert(o2[i] == o[i - 1]);
            }
        }
        assert(!old.key_to_pos@.contains_key(key@)) by {
            if old.key_to_pos@.contains_key(key@) {
                let q = old.key_to_pos@[key@];
                let j = o.index_of(q);
                assert(old@[j].0 == key@);
            }
        }
        assert(!old.cache@.contains_key(key@));
        assert forall|i: int| 0 <= i < n + 1 implies (#[trigger] new.arena@[o2[i] as int]).key is Some
            && new.arena@[o2[i] as int].val is Some by {
            if i > 0 {
                assert(o2[i] == o[i - 1]);
                assert(old.arena@[o[i - 1] as int].key is Some);
            }
        }
        assert forall|i: int| 0 <= i < n + 1 implies #[trigger] new.key_to_pos@.contains_key(new@[i].0)
            && new.key_to_pos@[new@[i].0] == o2[i] by {
            if i > 0 {
                assert(old.key_to_pos@.contains_key(old@[i - 1].0));
                assert(old@[i - 1].0 != key@);
            }
        }
        assert(keys_distinct(new@)) by {
            assert forall|i: int, j: int| 0 <= i < j < n + 1 implies (#[trigger] new@[i]).0 != (#[trigger] new@[j]).0 by {
                if i > 0 {
                    assert(old@[i - 1].0 != old@[j - 1].0);
                } else {
                    assert(old@[j - 1].0 != key@);
                }
            }
        }
        assert forall|m: Seq<char>| #[trigger] new.key_to_pos@.contains_key(m) implies o2.contains(new.key_to_pos@[m])
            && new.arena@[new.key_to_pos@[m] as int].key->0@ == m by {
            if m == key@ {
                assert(o2[0] == pos);
            } else {
                let q = old.key_to_pos@[m];
                assert(o.contains(q));
                let j = o.index_of(q);
                assert(o2[j + 1] == q);
            }
        }
        assert forall|m: Seq<char>| #[trigger] new.cache@.contains_key(m) implies new.cache@[m] == new.arena@[new.key_to_pos@[m] as int].val->0 by {
            if m != key@ {
                assert(o.contains(old.key_to_pos@[m]));
            }
        }
        assert forall|i: int| 0 <= i < new.free_indices@.len() implies 2 <= #[trigger] new.free_indices@[i]
            < new.arena@.len() && !o2.contains(new.free_indices@[i]) by {
            let f = new.free_indices@[i];
            assert(old.free_indices@[i] == f);
            if o2.contains(f) {
                let j = o2.index_of(f);
                if j == 0 {
                    if new.free_indices@.push(pos) == old.free_indices@ {
                        assert(old.free_indices@[new.free_indices@.len() as int] == pos);
                    }
                } else {
                    assert(o2[j] == o[j - 1]);
                }
            }
        }
        assert(new.free_indices@.no_duplicates()) by {
            if new.free_indices@.push(pos) == old.free_indices@ {
                assert forall|i: int, j: int| 0 <= i < j < new.free_indices@.len() implies new.free_indices@[i]
                    != new.free_indices@[j] by {
                    assert(old.free_indices@[i] == new.free_indices@[i]);
                    assert(old.free_indices@[j] == new.free_indices@[j]);
                }
            }
        }
    }
}


/// With distinct keys, the entry of a key is the one found at its index.
pub proof fn lemma_key_index(s: Entries, k: int)
    requires
        keys_distinct(s),
        0 <= k < s.len(),
    ensures
        has_key(s, s[k].0),
        key_index(s, s[k].0) == k,
{
    assert(s[k].0 == s[k].0);
    let i = key_index(s, s[k].0);
    if i != k {
        if i < k {
            assert(s[i].0 != s[k].0);
        } else {
            assert(s[k].0 != s[i].0);
        }
    }
}

impl LRUCache {
    /// Looks `key` up; a hit makes it the most recently used entry.
    pub fn get(&mut self, key: &String) -> (r: Option<String>)
        requires
            old(self).wf(),
        ensures
            final(self).wf(),
            final(self).spec_capacity() == old(self).spec_capacity(),
            match r {
                Some(v) => lru_lookup(old(self)@, key@) == Some(v@),
                None => lru_lookup(old(self)@, key@) is None,
            },
            final(self)@ == lru_touch(old(self)@, key@),
    {
        match self.cache.get(key.as_str()) {
            Some(value) => {
                let value = value.clone();
                let pos = *self.key_to_pos.get(key.as_str()).unwrap();
                let ghost old_self = *self;
                let ghost k = self.order@.index_of(pos);
                proof {
                    assert(self.order@[k] == pos);
                    assert(self.key_to_pos@.contains_key(self@[k].0));
                    assert(self@[k].0 == key@);
                    lemma_key_index(self@, k);
                    assert(self.cache@ =~= self.cache@.insert(key@, value));
                }
                self.moveToHead(pos);
                proof {
                    LRUCache::lemma_front_wf(old_self, *self, k, value);
                }
                Some(value)
            },
            None => {
                proof {
                    if has_key(self@, key@) {
                        let i = key_index(self@, key@);
                        assert(self.key_to_pos@.contains_key(self@[i].0));
                    }
                }
                None
            },
        }
    }

    /// Puts `(key, value)` in as the most recently used entry, evicting the
    /// least recently used one when a new key finds the cache full.
    pub fn put(&mut self, key: String, value: String)
        requires
            old(self).wf(),
        ensures
            final(self).wf(),
            final(self).spec_capacity() == old(self).spec_capacity(),
            final(self)@ == lru_put(old(self)@, key@, value@, old(self).spec_capacity()),
    {
        match self.cache.get(key.as_str()) {
            Some(_) => {
                let p = *self.key_to_pos.get(key.as_str()).unwrap();
                let ghost old_self = *self;
                let ghost k = self.order@.index_of(p);
                proof {
                    assert(self.order@[k] == p);
                    assert(self.key_to_pos@.contains_key(self@[k].0));
                    lemma_key_index(self@, k);
                }
                self.arena[p].val = Some(value.clone());
                self.cache.insert(key, value);
                let ghost mid = *self;
                proof {
                    assert(links_ok(self.arena@, self.order@)) by {
                        assert forall|j: int| 0 <= j < self.order@.len() implies (#[trigger] self.arena@[self.order@[j] as int]).prev
                            == Some(prev_of(self.order@, j)) && self.arena@[self.order@[j] as int].next == Some(next_of(self.order@, j)) by {
                            assert(old_self.arena@[old_self.order@[j] as int].prev == Some(prev_of(old_self.order@, j)));
                        }
                    }
                }
                self.moveToHead(p);
                proof {
                    LRUCache::lemma_front_wf(old_self, *self, k, value);
                }
            },
            None => {
                proof {
                    if has_key(self@, key@) {
                        let i = key_index(self@, key@);
                        assert(self.key_to_pos@.contains_key(self@[i].0));
                    }
                }
                let ghost start = *self;
                if self.cache.len() == self.capacity {
                    let ghost before = *self;
                    let ghost n = self.order@.len();
                    let last_node = self.arena[self.tail].prev.unwrap();
                    proof {
                        assert(last_node == self.order@[n - 1]);
                        assert(self.arena@[self.order@[n - 1] as int].key is Some);
                    }
                    let last_key = self.arena[last_node].key.clone().unwrap();
                    proof {
                        assert(last_key@ == self@[n - 1].0);
                        assert(self.key_to_pos@.contains_key(self@[n - 1].0));
                    }
                    self.free_indices.push(*self.key_to_pos.get(last_key.as_str()).unwrap());
                    self.cache.remove(last_key.as_str());
                    self.key_to_pos.remove(last_key.as_str());
                    self.removeNode(last_node);
                    proof {
                        assert(before.order@.index_of(last_node) == n - 1) by {
                            assert(before.order@[n - 1] == last_node);
                            assert(before.order@.contains(last_node));
                            let i = before.order@.index_of(last_node);
                            assert(before.order@[i] == last_node);
                        }
                        LRUCache::lemma_removed_wf(before, *self, n - 1);
                        assert(before@.remove(n - 1) =~= before@.drop_last());
                    }
                }
                let ghost pre = *self;
                proof {
                    assert(!has_key(pre@, key@)) by {
                        if has_key(pre@, key@) {
                            let i = key_index(pre@, key@);
                            if pre@ != start@ {
                                assert(pre@[i] == start@[i]);
                            }
                        }
                    }
                }
                let pos;
                if self.free_indices.len() == 0 {
                    pos = self.arena.len();
                    let cur = Node::new(Some(key.clone()), Some(value.clone()), pos);
                    self.arena.push(cur);
                    self.key_to_pos.insert(key.clone(), pos);
                } else {
                    pos = self.free_indices.pop().unwrap();
                    proof {
                        assert(pre.free_indices@[pre.free_indices@.len() - 1] == pos);
                    }
                    let cur = Node::new(Some(key.clone()), Some(value.clone()), pos);
                    self.arena.set(pos, cur);
                    self.key_to_pos.insert(key.clone(), pos);
                }
                proof {
                    assert(!pre.order@.contains(pos)) by {
                        if pre.order@.contains(pos) && pre.free_indices@.len() > 0 {
                            assert(pre.free_indices@[pre.free_indices@.len() - 1] == pos);
                        }
                    }
                    assert(links_ok(self.arena@, self.order@)) by {
                        assert forall|j: int| 0 <= j < self.order@.len() implies (#[trigger] self.arena@[self.order@[j] as int]).prev
                            == Some(prev_of(self.order@, j)) && self.arena@[self.order@[j] as int].next == Some(next_of(self.order@, j)) by {
                            assert(pre.arena@[pre.order@[j] as int].prev == Some(prev_of(pre.order@, j)));
                            assert(pre.order@[j] != pos);
                        }
                    }
                    assert((self.free_indices@.push(pos) =~= pre.free_indices@ && self.arena@.len() == pre.arena@.len())
                        || (self.free_indices@ == pre.free_indices@ && pos == pre.arena@.len()
                        && self.arena@.len() == pre.arena@.len() + 1));
                }
                self.addNode(pos);
                self.cache.insert(key, value);
                proof {
                    LRUCache::lemma_added_wf(pre, *self, pos, key, value);
                }
            },
        }
    }

    /// Forgets every entry.
    pub fn clear(&mut self)
        requires
            old(self).wf(),
        ensures
            final(self).wf(),
            final(self).spec_capacity() == old(self).spec_capacity(),
            final(self)@ == Entries::empty(),
    {
        *self = LRUCache::new(self.capacity);
    }


    /// Drops the entry of `key`, if any.
    pub fn del(&mut self, key: &String)
        requires
            old(self).wf(),
        ensures
            final(self).wf(),
            final(self).spec_capacity() == old(self).spec_capacity(),
            final(self)@ == lru_del(old(self)@, key@),
    {
        match self.key_to_pos.get(key.as_str()) {
            Some(p) => {
                let pos = *p;
                let ghost before = *self;
                let ghost k = self.order@.index_of(pos);
                proof {
                    assert(self.order@[k] == pos);
                    assert(self.key_to_pos@.contains_key(self@[k].0));
                    lemma_key_index(self@, k);
                }
                self.removeNode(pos);
                self.free_indices.push(pos);
                self.cache.remove(key.as_str());
                self.key_to_pos.remove(key.as_str());
                proof {
                    LRUCache::lemma_removed_wf(before, *self, k);
                }
            },
            None => {
                proof {
                    if has_key(self@, key@) {
                        let i = key_index(self@, key@);
                        assert(self.key_to_pos@.contains_key(self@[i].0));
                    }
                }
            },
        }
    }
}


/// A value put into the cache is what a lookup of its key then finds, and the
/// keys stay distinct.
pub proof fn law_put_then_lookup(s: Entries, k: Seq<char>, v: Seq<char>, cap: nat)
    requires
        keys_distinct(s),
        cap > 0,
    ensures
        keys_distinct(lru_put(s, k, v, cap)),
        lru_lookup(lru_put(s, k, v, cap), k) == Some(v),
{
    let r = lru_put(s, k, v, cap);
    let rest = if has_key(s, k) {
        s.remove(key_index(s, k))
    } else if s.len() >= cap {
        s.drop_last()
    } else {
        s
    };
    assert(r == seq![(k, v)] + rest);
    assert forall|i: int| 0 <= i < rest.len() implies (#[trigger] rest[i]).0 != k by {
        if has_key(s, k) {
            let x = key_index(s, k);
            let j = if i < x { i } else { i + 1 };
            assert(rest[i] == s[j]);
            if j < x {
                assert(s[j].0 != s[x].0);
            } else {
                assert(s[x].0 != s[j].0);
            }
        } else {
            assert(rest[i] == s[i]);
        }
    }
    assert forall|i: int, j: int| 0 <= i < j < r.len() implies (#[trigger] r[i]).0 != (#[trigger] r[j]).0 by {
        if i > 0 {
            if has_key(s, k) {
                let x = key_index(s, k);
                let ii = if i - 1 < x { i - 1 } else { i };
                let jj = if j - 1 < x { j - 1 } else { j };
                assert(rest[i - 1] == s[ii]);
                assert(rest[j - 1] == s[jj]);
            } else {
                assert(rest[i - 1] == s[i - 1]);
                assert(rest[j - 1] == s[j - 1]);
            }
        } else {
            assert(rest[j - 1].0 != k);
        }
    }
    lemma_key_index(r, 0);
}

/// The cache never holds more entries than its capacity.
pub proof fn law_put_within_capacity(s: Entries, k: Seq<char>, v: Seq<char>, cap: nat)
    requires
        s.len() <= cap,
        cap > 0,
    ensures
        lru_put(s, k, v, cap).len() <= cap,
        has_key(s, k) || s.len() < cap ==> lru_put(s, k, v, cap).len() == (if has_key(s, k) {
            s.len()
        } else {
            s.len() + 1
        }),
{
}

/// Putting a new key into a full cache evicts exactly its least recently used
/// entry; every other key keeps its value.
pub proof fn law_put_evicts_least_recent(s: Entries, k: Seq<char>, v: Seq<char>, cap: nat, k2: Seq<char>)
    requires
        keys_distinct(s),
        cap > 0,
        k2 != k,
    ensures
        !has_key(s, k) && s.len() >= cap && s.len() > 0 ==> lru_lookup(lru_put(s, k, v, cap), s.last().0) is None,
        !(!has_key(s, k) && s.len() >= cap && s.len() > 0 && k2 == s.last().0) ==> lru_lookup(
            lru_put(s, k, v, cap),
            k2,
        ) == lru_lookup(s, k2),
{
    law_put_then_lookup(s, k, v, cap);
    let r = lru_put(s, k, v, cap);
    let n = s.len();
    if !has_key(s, k) && n >= cap && n > 0 {
        let last = s.last().0;
        if has_key(r, last) {
            let i = key_index(r, last);
            if i > 0 {
                assert(r[i] == s[i - 1]);
                assert(s[i - 1].0 != s[n - 1].0);
            }
        }
    }
    if !(!has_key(s, k) && n >= cap && n > 0 && k2 == s.last().0) {
        // Locate k2 in r and in s.
        if has_key(s, k2) {
            let j = key_index(s, k2);
            let i: int = if has_key(s, k) {
                let x = key_index(s, k);
                assert(s[j].0 != s[x].0);
                if j < x { j + 1 } else { j }
            } else {
                j + 1
            };
            if !has_key(s, k) && n >= cap {
                assert(j != n - 1);
            }
            assert(r[i] == s[j]);
            lemma_key_index(r, i);
        } else {
            if has_key(r, k2) {
                let i = key_index(r, k2);
                assert(i > 0);
                if has_key(s, k) {
                    let x = key_index(s, k);
                    let jj = if i - 1 < x { i - 1 } else { i };
                    assert(r[i] == s[jj]);
                } else {
                    assert(r[i] == s[i - 1]);
                }
            }
        }
    }
}

/// A lookup that hits makes its key the most recently used; a deleted key is
/// gone.
pub proof fn law_touch_and_del(s: Entries, k: Seq<char>)
    requires
        keys_distinct(s),
    ensures
        has_key(s, k) ==> lru_touch(s, k)[0].0 == k && lru_touch(s, k).len() == s.len(),
        lru_lookup(lru_del(s, k), k) is None,
{
    if has_key(lru_del(s, k), k) {
        let d = lru_del(s, k);
        let i = key_index(d, k);
        if has_key(s, k) {
            let x = key_index(s, k);
            let j = if i < x { i } else { i + 1 };
            assert(d[i] == s[j]);
            if j < x {
                assert(s[j].0 != s[x].0);
            } else {
                assert(s[x].0 != s[j].0);
            }
        }
    }
}


/// Every entry after a put is the new one or an entry from before with
/// another key; likewise after a touch (any entry from before) and a delete.
pub proof fn lemma_entries_from(s: Entries, k: Seq<char>, v: Seq<char>, cap: nat)
    requires
        keys_distinct(s),
        cap > 0,
    ensures
        lru_put(s, k, v, cap)[0] == (k, v),
        forall|i: int|
            0 < i < lru_put(s, k, v, cap).len() ==> s.contains(#[trigger] lru_put(s, k, v, cap)[i])
                && lru_put(s, k, v, cap)[i].0 != k,
        forall|i: int| 0 <= i < lru_touch(s, k).len() ==> s.contains(#[trigger] lru_touch(s, k)[i]),
        forall|i: int|
            0 <= i < lru_del(s, k).len() ==> s.contains(#[trigger] lru_del(s, k)[i]) && lru_del(s, k)[i].0 != k,
{
    let r = lru_put(s, k, v, cap);
    assert forall|i: int| 0 < i < r.len() implies s.contains(#[trigger] r[i]) && r[i].0 != k by {
        if has_key(s, k) {
            let x = key_index(s, k);
            let j = if i - 1 < x { i - 1 } else { i };
            assert(r[i] == s[j]);
            if j < x {
                assert(s[j].0 != s[x].0);
            } else {
                assert(s[x].0 != s[j].0);
            }
        } else {
            assert(r[i] == s[i - 1]);
        }
    }
    let t = lru_touch(s, k);
    assert forall|i: int| 0 <= i < t.len() implies s.contains(#[trigger] t[i]) by {
        if has_key(s, k) {
            let x = key_index(s, k);
            if i == 0 {
                assert(t[0] == s[x]);
            } else {
                let j = if i - 1 < x { i - 1 } else { i };
                assert(t[i] == s[j]);
            }
        } else {
            assert(t[i] == s[i]);
        }
    }
    let d = lru_del(s, k);
    assert forall|i: int| 0 <= i < d.len() implies s.contains(#[trigger] d[i]) && d[i].0 != k by {
        if has_key(s, k) {
            let x = key_index(s, k);
            let j = if i < x { i } else { i + 1 };
            assert(d[i] == s[j]);
            if j < x {
                assert(s[j].0 != s[x].0);
            } else {
                assert(s[x].0 != s[j].0);
            }
        } else {
            assert(d[i] == s[i]);
        }
    }
}

} // verus!
