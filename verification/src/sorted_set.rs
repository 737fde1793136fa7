//! The skip list behind each sorted set.  Entries are kept in ascending
//! order of (score, member); every node also stores, per level, the number of
//! level-0 steps its forward link spans, so that entries can be found by rank.
use vstd::prelude::*;
use vstd::hash_map::StringHashMap;
use crate::order::{entry_lt, entry_less, lemma_entry_lt_properties, rank_of_score, score_rank};

verus! {

broadcast use vstd::hash_map::group_hash_map_axioms;

/// The first index after `j` whose height exceeds `l`, or `hs.len()` if none.
pub open spec fn next_above(hs: Seq<int>, l: int, j: int) -> int
    decreases hs.len() - j,
{
    if j + 1 >= hs.len() {
        hs.len() as int
    } else if hs[j + 1] > l {
        j + 1
    } else {
        next_above(hs, l, j + 1)
    }
}

/// `k` is the first index after `j` whose height exceeds `l` (`hs.len()` if none).
pub open spec fn is_next(hs: Seq<int>, l: int, j: int, k: int) -> bool {
    &&& j < k <= hs.len()
    &&& (k == hs.len() || hs[k] > l)
    &&& forall|m: int| j < m < k ==> #[trigger] hs[m] <= l
}

pub proof fn lemma_next_above(hs: Seq<int>, l: int, j: int)
    requires
        -1 <= j < hs.len(),
    ensures
        is_next(hs, l, j, next_above(hs, l, j)),
    decreases hs.len() - j,
{
    if j + 1 < hs.len() && hs[j + 1] <= l {
        lemma_next_above(hs, l, j + 1);
    }
}

pub proof fn lemma_next_above_is(hs: Seq<int>, l: int, j: int, k: int)
    requires
        -1 <= j < hs.len(),
        is_next(hs, l, j, k),
    ensures
        next_above(hs, l, j) == k,
{
    lemma_next_above(hs, l, j);
    let k2 = next_above(hs, l, j);
    if k2 < k {
        assert(hs[k2] <= l);
    } else if k < k2 {
        assert(hs[k] <= l);
    }
}

/// The pointer that the level-`l` link after index `j` must hold.
pub open spec fn expected_ptr(order: Seq<usize>, hs: Seq<int>, l: int, j: int) -> Option<usize> {
    let k = next_above(hs, l, j);
    if k < hs.len() {
        Some(order[k])
    } else {
        None
    }
}

/// The span that the level-`l` link after index `j` must hold: the number of
/// level-0 steps to the next node, or to the last node when there is none.
pub open spec fn expected_span(hs: Seq<int>, l: int, j: int) -> int {
    let k = next_above(hs, l, j);
    if k < hs.len() {
        k - j
    } else {
        hs.len() - 1 - j
    }
}

/// Inserting a node of height `h` at index `t`: how the next-above function
/// changes, given for each level `l` the last index `upd[l]` before `t`
/// whose height exceeds `l`.
pub proof fn lemma_next_above_insert(hs: Seq<int>, t: int, h: int, upd: Seq<int>, l: int, j: int)
    requires
        0 <= t <= hs.len(),
        0 <= l < upd.len(),
        -1 <= upd[l] < t,
        upd[l] == -1 || hs[upd[l]] > l,
        next_above(hs, l, upd[l]) >= t,
        -1 <= j < hs.len(),
    ensures
        ({
            let hs2 = hs.insert(t, h);
            let k = next_above(hs, l, j);
            &&& j < t && upd[l] == j && l < h ==> next_above(hs2, l, j) == t
            &&& j < t && upd[l] == j && l >= h ==> next_above(hs2, l, j) == k + 1
            &&& j < t && upd[l] != j && (j == -1 || hs[j] > l) ==> k < t && next_above(hs2, l, j) == k
            &&& j >= t ==> next_above(hs2, l, j + 1) == k + 1
            &&& j == upd[l] && l < h ==> next_above(hs2, l, t) == k + 1
        }),
{
    let hs2 = hs.insert(t, h);
    let u = upd[l];
    lemma_next_above(hs, l, j);
    lemma_next_above(hs, l, u);
    let k = next_above(hs, l, j);
    let ku = next_above(hs, l, u);
    assert(hs2.len() == hs.len() + 1);
    assert(forall|m: int| 0 <= m < t ==> hs2[m] == hs[m]);
    assert(forall|m: int| t < m <= hs.len() ==> hs2[m] == hs[m - 1]);
    assert(hs2[t] == h);
    if j < t && u == j && l < h {
        assert(is_next(hs2, l, j, t));
        lemma_next_above_is(hs2, l, j, t);
    }
    if j < t && u == j && l >= h {
        assert forall|m: int| j < m < k + 1 implies #[trigger] hs2[m] <= l by {
            if m < t {
                assert(hs[m] <= l);
            } else if m > t {
                assert(hs[m - 1] <= l);
            }
        }
        assert(is_next(hs2, l, j, k + 1));
        lemma_next_above_is(hs2, l, j, k + 1);
    }
    if j < t && u != j && (j == -1 || hs[j] > l) {
        if j > u {
            assert(hs[j] <= l);
        }
        assert(j < u);
        assert(k <= u);
        assert(is_next(hs2, l, j, k));
        lemma_next_above_is(hs2, l, j, k);
    }
    if j >= t {
        assert forall|m: int| j + 1 < m < k + 1 implies #[trigger] hs2[m] <= l by {
            assert(hs[m - 1] <= l);
        }
        assert(is_next(hs2, l, j + 1, k + 1));
        lemma_next_above_is(hs2, l, j + 1, k + 1);
    }
    if j == u && l < h {
        assert forall|m: int| t < m < k + 1 implies #[trigger] hs2[m] <= l by {
            assert(hs[m - 1] <= l);
        }
        assert(is_next(hs2, l, t, k + 1));
        lemma_next_above_is(hs2, l, t, k + 1);
    }
}

/// Removing the node at index `t`, whose height is `hs[t]`: how the
/// next-above function changes, given for each level `l` the last index
/// `upd[l]` before `t` whose height exceeds `l`.
pub proof fn lemma_next_above_remove(hs: Seq<int>, t: int, upd: Seq<int>, l: int, j: int)
    requires
        0 <= t < hs.len(),
        0 <= l < upd.len(),
        -1 <= upd[l] < t,
        upd[l] == -1 || hs[upd[l]] > l,
        next_above(hs, l, upd[l]) >= t,
        -1 <= j < hs.len(),
        j != t,
    ensures
        ({
            let hs2 = hs.remove(t);
            let k = next_above(hs, l, j);
            let kt = next_above(hs, l, t);
            &&& j == upd[l] && l < hs[t] ==> k == t && next_above(hs2, l, j) == kt - 1
            &&& j == upd[l] && l >= hs[t] ==> k > t && next_above(hs2, l, j) == k - 1
            &&& j < t && upd[l] != j && (j == -1 || hs[j] > l) ==> k < t && next_above(hs2, l, j) == k
            &&& j > t ==> next_above(hs2, l, j - 1) == k - 1
        }),
{
    let hs2 = hs.remove(t);
    let u = upd[l];
    lemma_next_above(hs, l, j);
    lemma_next_above(hs, l, u);
    lemma_next_above(hs, l, t);
    let k = next_above(hs, l, j);
    let kt = next_above(hs, l, t);
    assert(hs2.len() == hs.len() - 1);
    assert(forall|m: int| 0 <= m < t ==> hs2[m] == hs[m]);
    assert(forall|m: int| t <= m < hs2.len() ==> hs2[m] == hs[m + 1]);
    if j == u && l < hs[t] {
        if k < t {
            assert(hs[k] > l);
        }
        assert(k == t);
        assert forall|m: int| j < m < kt - 1 implies #[trigger] hs2[m] <= l by {
            if m >= t {
                assert(hs[m + 1] <= l);
            }
        }
        assert(is_next(hs2, l, j, kt - 1));
        lemma_next_above_is(hs2, l, j, kt - 1);
    }
    if j == u && l >= hs[t] {
        assert(k > t);
        assert forall|m: int| j < m < k - 1 implies #[trigger] hs2[m] <= l by {
            if m >= t {
                assert(hs[m + 1] <= l);
            }
        }
        assert(is_next(hs2, l, j, k - 1));
        lemma_next_above_is(hs2, l, j, k - 1);
    }
    if j < t && u != j && (j == -1 || hs[j] > l) {
        if j > u {
            assert(hs[j] <= l);
        }
        assert(k <= u);
        assert(is_next(hs2, l, j, k));
        lemma_next_above_is(hs2, l, j, k);
    }
    if j > t {
        assert forall|m: int| j - 1 < m < k - 1 implies #[trigger] hs2[m] <= l by {
            assert(hs[m + 1] <= l);
        }
        assert(is_next(hs2, l, j - 1, k - 1));
        lemma_next_above_is(hs2, l, j - 1, k - 1);
    }
}


/// One entry of the list: its member, its score (the bit pattern of an
/// IEEE-754 double), its forward link on each level it takes part in, and
/// the span of each such link.
struct Node {
    key: String,
    score: u64,
    forward: Vec<Option<usize>>,
    span: Vec<usize>,
}

impl Node {
    fn new(key: String, score: u64, height: usize) -> (r: Self)
        ensures
            r.key == key,
            r.score == score,
            r.forward@ == Seq::new(height as nat, |i: int| None::<usize>),
            r.span@ == Seq::new(height as nat, |i: int| 0usize),
    {
        Node { key, score, forward: vec![None; height], span: vec![0; height] }
    }
}

/// A skip list of (member, score) entries ordered by `entry_lt`, with spans
/// for rank queries.  Nodes live in an arena; freed slots are reused.
pub struct SkipList {
    nodes: Vec<Node>,
    head: Vec<Option<usize>>,
    head_span: Vec<usize>,
    free_list: Vec<usize>,
    key_to_pos: StringHashMap<usize>,
    max_level: usize,
    level: usize,
    /// Arena positions of the entries, in ascending order.
    order: Ghost<Seq<usize>>,
}

impl View for SkipList {
    type V = Seq<(Seq<char>, u64)>;

    /// The entries in ascending order: (member, score bits).
    closed spec fn view(&self) -> Seq<(Seq<char>, u64)> {
        Seq::new(
            self.order@.len(),
            |k: int|
                (self.nodes@[self.order@[k] as int].key@, self.nodes@[self.order@[k] as int].score),
        )
    }
}

/// The entries are in strictly ascending `entry_lt` order, so no member occurs twice.
pub open spec fn entries_sorted(s: Seq<(Seq<char>, u64)>) -> bool {
    forall|i: int, j: int| 0 <= i < j < s.len() ==> entry_lt(#[trigger] s[i], #[trigger] s[j])
}

/// No member occurs in two entries.
pub open spec fn members_distinct(s: Seq<(Seq<char>, u64)>) -> bool {
    forall|i: int, j: int| 0 <= i < j < s.len() ==> (#[trigger] s[i]).0 != (#[trigger] s[j]).0
}

/// Whether some entry has member `m`.
pub open spec fn has_member(s: Seq<(Seq<char>, u64)>, m: Seq<char>) -> bool {
    exists|i: int| 0 <= i < s.len() && (#[trigger] s[i]).0 == m
}

impl SkipList {
    /// The height of the node at arena position `p`.
    closed spec fn height_at(&self, p: usize) -> int {
        self.nodes@[p as int].forward@.len() as int
    }

    /// Heights of the entries, in order.
    closed spec fn hts(&self) -> Seq<int> {
        Seq::new(self.order@.len(), |k: int| self.height_at(self.order@[k]))
    }

    /// The level-`l` link after index `j` (`-1` is the head).
    closed spec fn ptr(&self, l: int, j: int) -> Option<usize> {
        if j == -1 {
            self.head@[l]
        } else {
            self.nodes@[self.order@[j] as int].forward@[l]
        }
    }

    /// The span of the level-`l` link after index `j` (`-1` is the head).
    closed spec fn spn(&self, l: int, j: int) -> int {
        if j == -1 {
            self.head_span@[l] as int
        } else {
            self.nodes@[self.order@[j] as int].span@[l] as int
        }
    }

    /// Whether index `j` (`-1`: the head) takes part in level `l`.
    closed spec fn on_level(&self, l: int, j: int) -> bool {
        &&& 0 <= l <= self.level
        &&& -1 <= j < self.order@.len()
        &&& (j == -1 || l < self.hts()[j])
    }

    closed spec fn link_ok(&self, l: int, j: int) -> bool {
        &&& self.ptr(l, j) == expected_ptr(self.order@, self.hts(), l, j)
        &&& self.spn(l, j) == expected_span(self.hts(), l, j)
    }

    closed spec fn links_ok(&self) -> bool {
        forall|l: int, j: int| #[trigger] self.on_level(l, j) ==> #[trigger] self.link_ok(l, j)
    }

    /// The well-formedness of the list.
    pub closed spec fn wf(&self) -> bool {
        let ord = self.order@;
        let n = ord.len();
        &&& 0 < self.max_level
        &&& self.level < self.max_level
        &&& self.head@.len() == self.level + 1
        &&& self.head_span@.len() == self.level + 1
        &&& ord.no_duplicates()
        &&& forall|k: int| 0 <= k < n ==> #[trigger] ord[k] < self.nodes@.len()
        &&& forall|k: int|
            0 <= k < n ==> {
                let node = #[trigger] self.nodes@[ord[k] as int];
                &&& 1 <= node.forward@.len() <= self.level + 1
                &&& node.span@.len() == node.forward@.len()
            }
        &&& self.links_ok()
        &&& entries_sorted(self@)
        &&& members_distinct(self@)
        &&& self.key_to_pos@.dom().finite()
        &&& self.key_to_pos@.len() == n
        &&& forall|k: int|
            0 <= k < n ==> #[trigger] self.key_to_pos@.contains_key(
                self.nodes@[ord[k] as int].key@,
            ) && self.key_to_pos@[self.nodes@[ord[k] as int].key@] == ord[k]
        &&& forall|m: Seq<char>|
            #[trigger] self.key_to_pos@.contains_key(m) ==> ord.contains(self.key_to_pos@[m])
                && self.nodes@[self.key_to_pos@[m] as int].key@ == m
        &&& self.free_list@.no_duplicates()
        &&& forall|i: int|
            0 <= i < self.free_list@.len() ==> #[trigger] self.free_list@[i] < self.nodes@.len()
                && !ord.contains(self.free_list@[i])
    }

    /// What well-formedness gives callers: ascending entries, no member twice.
    pub proof fn lemma_valid(&self)
        requires
            self.wf(),
        ensures
            entries_sorted(self@),
            members_distinct(self@),
    {
    }

    /// The most levels a node may take part in.
    pub closed spec fn spec_max_level(&self) -> nat {
        self.max_level as nat
    }

    /// An empty list whose nodes take part in at most `max_level` levels.
    pub fn new(max_level: usize) -> (r: Self)
        requires
            max_level > 0,
        ensures
            r.wf(),
            r@ == Seq::<(Seq<char>, u64)>::empty(),
            r.spec_max_level() == max_level,
    {
        let r = SkipList {
            nodes: Vec::new(),
            head: vec![None; 1],
            head_span: vec![0; 1],
            free_list: Vec::new(),
            key_to_pos: StringHashMap::new(),
            max_level,
            level: 0,
            order: Ghost(Seq::empty()),
        };
        assert(r@ =~= Seq::<(Seq<char>, u64)>::empty());
        assert forall|l: int, j: int| #[trigger] r.on_level(l, j) implies #[trigger] r.link_ok(l, j) by {
            assert(l == 0 && j == -1);
            assert(r.hts() =~= Seq::<int>::empty());
        }
        r
    }

    /// Whether the list holds no entry.
    pub fn is_empty(&self) -> (r: bool)
        requires
            self.wf(),
        ensures
            r == (self@.len() == 0),
    {
        self.key_to_pos.is_empty()
    }

    /// The score of member `key`, if it is in the list.
    pub fn get(&self, key: &String) -> (r: Option<&u64>)
        requires
            self.wf(),
        ensures
            match r {
                Some(s) => self@.contains((key@, *s)),
                None => !has_member(self@, key@),
            },
    {
        match self.key_to_pos.get(key.as_str()) {
            Some(p) => {
                let pos = *p;
                let ghost k = self.order@.index_of(pos);
                assert(self@[k] == (key@, self.nodes@[pos as int].score));
                Some(&self.nodes[pos].score)
            },
            None => {
                assert forall|i: int| 0 <= i < self@.len() implies (#[trigger] self@[i]).0 != key@ by {
                    assert(self.key_to_pos@.contains_key(self.nodes@[self.order@[i] as int].key@));
                }
                None
            },
        }
    }
}


/// The link that index `j` holds on level `l` once the node at index `t`
/// (of height `h`) is unlinked, `upd[l]` being its predecessor on level `l`.
spec fn removed_ptr(pre: SkipList, upd: Seq<int>, t: int, h: int, l: int, j: int) -> Option<usize> {
    if j == upd[l] && l < h {
        pre.ptr(l, t)
    } else {
        pre.ptr(l, j)
    }
}

/// The span that index `j` holds on level `l` once the node at index `t` is unlinked.
spec fn removed_span(pre: SkipList, upd: Seq<int>, t: int, h: int, l: int, j: int) -> int {
    if j == upd[l] {
        if l < h {
            pre.spn(l, j) + pre.spn(l, t) - 1
        } else {
            pre.spn(l, j) - 1
        }
    } else {
        pre.spn(l, j)
    }
}

/// Facts about the predecessor `upd[l]` of index `t` on level `l`.
spec fn pred_ok(hs: Seq<int>, upd: Seq<int>, t: int, l: int) -> bool {
    &&& 0 <= l < upd.len()
    &&& -1 <= upd[l] < t
    &&& (upd[l] == -1 || hs[upd[l]] > l)
    &&& next_above(hs, l, upd[l]) >= t
}

impl SkipList {
    proof fn lemma_span_bound(&self, l: int, j: int)
        requires
            self.wf(),
            self.on_level(l, j),
        ensures
            self.link_ok(l, j),
            0 <= self.spn(l, j) <= self.order@.len(),
            match self.ptr(l, j) {
                Some(q) => j < next_above(self.hts(), l, j) < self.order@.len() && q == self.order@[next_above(self.hts(), l, j)]
                    && self.hts()[next_above(self.hts(), l, j)] > l,
                None => next_above(self.hts(), l, j) == self.order@.len(),
            },
    {
        assert(self.link_ok(l, j));
        lemma_next_above(self.hts(), l, j);
    }

    /// The list after unlinking index `t` is well formed.
    proof fn lemma_remove_wf(pre: SkipList, post: SkipList, t: int, upd: Seq<int>)
        requires
            pre.wf(),
            0 <= t < pre.order@.len(),
            upd.len() == pre.level + 1,
            forall|l: int| 0 <= l <= pre.level ==> #[trigger] pred_ok(pre.hts(), upd, t, l),
            post.order@ == pre.order@.remove(t),
            post.nodes@.len() == pre.nodes@.len(),
            post.level == pre.level,
            post.max_level == pre.max_level,
            post.head@.len() == pre.head@.len(),
            post.head_span@.len() == pre.head_span@.len(),
            forall|k: int|
                0 <= k < pre.order@.len() && k != t ==> {
                    let a = #[trigger] post.nodes@[pre.order@[k] as int];
                    let b = pre.nodes@[pre.order@[k] as int];
                    &&& a.key == b.key
                    &&& a.score == b.score
                    &&& a.forward@.len() == b.forward@.len()
                    &&& a.span@.len() == b.span@.len()
                },
            forall|l: int, k: int|
                pre.on_level(l, k) && k != t ==> {
                    &&& #[trigger] pre.ptr_at(post, l, k) == removed_ptr(pre, upd, t, pre.hts()[t], l, k)
                    &&& pre.spn_at(post, l, k) == removed_span(pre, upd, t, pre.hts()[t], l, k)
                },
            post.key_to_pos@ == pre.key_to_pos@.remove(pre.nodes@[pre.order@[t] as int].key@),
            post.free_list@ == pre.free_list@.push(pre.order@[t]),
        ensures
            post.wf(),
            post@ == pre@.remove(t),
    {
        let hs = pre.hts();
        let hs2 = post.hts();
        let n = pre.order@.len();
        let h = hs[t];
        let pos = pre.order@[t];
        assert(hs2 =~= hs.remove(t)) by {
            assert forall|k: int| 0 <= k < n - 1 implies hs2[k] == hs.remove(t)[k] by {
                if k < t {
                    assert(post.order@[k] == pre.order@[k]);
                } else {
                    assert(post.order@[k] == pre.order@[k + 1]);
                }
            }
        }
        assert(post@ =~= pre@.remove(t)) by {
            assert forall|k: int| 0 <= k < n - 1 implies post@[k] == pre@.remove(t)[k] by {
                if k < t {
                    assert(post.order@[k] == pre.order@[k]);
                } else {
                    assert(post.order@[k] == pre.order@[k + 1]);
                }
            }
        }
        assert forall|l: int, j: int| #[trigger] post.on_level(l, j) implies #[trigger] post.link_ok(l, j) by {
            let jp = if j < t { j } else { j + 1 };
            assert(pre.on_level(l, jp));
            assert(pred_ok(hs, upd, t, l));
            assert(pre.link_ok(l, jp));
            assert(pre.link_ok(l, upd[l])) by {
                assert(pre.on_level(l, upd[l]));
            }
            if l < h {
                assert(pre.on_level(l, t));
                assert(pre.link_ok(l, t));
            }
            lemma_next_above_remove(hs, t, upd, l, jp);
            lemma_next_above(hs, l, jp);
            lemma_next_above(hs, l, t);
            assert(post.ptr(l, j) == pre.ptr_at(post, l, jp));
            assert(post.spn(l, j) == pre.spn_at(post, l, jp));
            let k = next_above(hs, l, jp);
            let kt = next_above(hs, l, t);
            if jp == upd[l] && l < h {
                if kt < n {
                    assert(post.order@[kt - 1] == pre.order@[kt]);
                }
            } else if jp == upd[l] {
                if k < n {
                    assert(post.order@[k - 1] == pre.order@[k]);
                }
            } else if jp < t {
                assert(post.order@[k] == pre.order@[k]);
            } else {
                if k < n {
                    assert(post.order@[k - 1] == pre.order@[k]);
                }
            }
        }
        assert forall|k: int| 0 <= k < n - 1 implies #[trigger] post.order@[k] < post.nodes@.len() by {
            if k < t {
                assert(post.order@[k] == pre.order@[k]);
            } else {
                assert(post.order@[k] == pre.order@[k + 1]);
            }
        }
        assert forall|k: int| 0 <= k < n - 1 implies {
            let node = #[trigger] post.nodes@[post.order@[k] as int];
            &&& 1 <= node.forward@.len() <= post.level + 1
            &&& node.span@.len() == node.forward@.len()
        } by {
            let kp = if k < t { k } else { k + 1 };
            assert(post.order@[k] == pre.order@[kp]);
            assert(pre.nodes@[pre.order@[kp] as int].forward@.len() <= pre.level + 1);
        }
        let key = pre.nodes@[pos as int].key@;
        assert forall|k: int| 0 <= k < n - 1 implies #[trigger] post.key_to_pos@.contains_key(
            post.nodes@[post.order@[k] as int].key@,
        ) && post.key_to_pos@[post.nodes@[post.order@[k] as int].key@] == post.order@[k] by {
            let kp = if k < t { k } else { k + 1 };
            assert(post.order@[k] == pre.order@[kp]);
            assert(pre.order@[kp] != pos);
            assert(pre.key_to_pos@.contains_key(pre.nodes@[pre.order@[kp] as int].key@));
        }
        assert forall|m: Seq<char>| #[trigger] post.key_to_pos@.contains_key(m) implies post.order@.contains(
            post.key_to_pos@[m],
        ) && post.nodes@[post.key_to_pos@[m] as int].key@ == m by {
            assert(pre.key_to_pos@.contains_key(m));
            let q = pre.key_to_pos@[m];
            let kq = pre.order@.index_of(q);
            assert(pre.order@[kq] == q);
            assert(kq != t);
            let kk = if kq < t { kq } else { kq - 1 };
            assert(post.order@[kk] == q);
        }
        assert(pre.key_to_pos@.contains_key(key));
        assert forall|i: int| 0 <= i < post.free_list@.len() implies #[trigger] post.free_list@[i]
            < post.nodes@.len() && !post.order@.contains(post.free_list@[i]) by {
            if i < pre.free_list@.len() {
                assert(pre.free_list@[i] == post.free_list@[i]);
                if post.order@.contains(post.free_list@[i]) {
                    let kk = post.order@.index_of(post.free_list@[i]);
                    let kp = if kk < t { kk } else { kk + 1 };
                    assert(post.order@[kk] == pre.order@[kp]);
                }
            } else {
                if post.order@.contains(pos) {
                    let kk = post.order@.index_of(pos);
                    let kp = if kk < t { kk } else { kk + 1 };
                    assert(post.order@[kk] == pre.order@[kp]);
                }
            }
        }
        assert(post.free_list@.no_duplicates()) by {
            assert forall|i: int| 0 <= i < pre.free_list@.len() implies pre.free_list@[i] != pos by {
                assert(pre.order@[t] == pos);
            }
        }
        assert(post.order@.no_duplicates());
    }

    /// The link of pre-index `k` on level `l`, read in `post`.
    closed spec fn ptr_at(&self, post: SkipList, l: int, k: int) -> Option<usize> {
        if k == -1 {
            post.head@[l]
        } else {
            post.nodes@[self.order@[k] as int].forward@[l]
        }
    }

    /// The span of pre-index `k` on level `l`, read in `post`.
    closed spec fn spn_at(&self, post: SkipList, l: int, k: int) -> int {
        if k == -1 {
            post.head_span@[l] as int
        } else {
            post.nodes@[self.order@[k] as int].span@[l] as int
        }
    }
}


impl SkipList {
    /// Removes member `key`; returns its score if it was in the list.
    pub fn remove(&mut self, key: &String) -> (r: Option<u64>)
        requires
            old(self).wf(),
        ensures
            final(self).wf(),
            final(self).spec_max_level() == old(self).spec_max_level(),
            match r {
                Some(s) => exists|t: int|
                    0 <= t < old(self)@.len() && old(self)@[t] == (key@, s) && final(self)@ == old(
                        self,
                    )@.remove(t),
                None => !has_member(old(self)@, key@) && final(self)@ == old(self)@,
            },
    {
        let pos = match self.key_to_pos.get(key.as_str()) {
            Some(p) => *p,
            None => {
                assert forall|i: int| 0 <= i < self@.len() implies (#[trigger] self@[i]).0 != key@ by {
                    assert(self.key_to_pos@.contains_key(self.nodes@[self.order@[i] as int].key@));
                }
                return None;
            },
        };
        let ghost pre = *self;
        let ghost hs = self.hts();
        let ghost n = self.order@.len();
        let ghost t = self.order@.index_of(pos);
        let score = self.nodes[pos].score;
        let height = self.nodes[pos].forward.len();
        proof {
            lemma_entry_lt_properties();
            assert(self@[t] == (key@, score));
            assert(self.key_to_pos.spec_len() == self.key_to_pos@.len());
        }
        let mut index: Option<usize> = None;
        let ghost mut c: int = -1;
        let ghost mut upd: Seq<int> = Seq::new((self.level + 1) as nat, |l: int| -1int);
        let mut i: usize = self.level + 1;
        while i > 0
            invariant
                pre.wf(),
                0 <= t < n == pre.order@.len(),
                pre.order@[t] == pos,
                pre@[t] == (key@, score),
                hs == pre.hts(),
                height == hs[t],
                i <= pre.level + 1,
                n <= usize::MAX,
                upd.len() == pre.level + 1,
                -1 <= c < t,
                c == -1 || hs[c] >= i,
                index == (if c == -1 { None } else { Some(pre.order@[c]) }),
                forall|l: int| i <= l <= pre.level ==> #[trigger] pred_ok(hs, upd, t, l),
                self.order == pre.order,
                self.nodes@.len() == pre.nodes@.len(),
                self.level == pre.level,
                self.max_level == pre.max_level,
                self.head@.len() == pre.head@.len(),
                self.head_span@.len() == pre.head_span@.len(),
                self.key_to_pos == pre.key_to_pos,
                self.free_list == pre.free_list,
                forall|k: int|
                    0 <= k < n ==> {
                        let a = #[trigger] self.nodes@[pre.order@[k] as int];
                        let b = pre.nodes@[pre.order@[k] as int];
                        &&& a.key == b.key
                        &&& a.score == b.score
                        &&& a.forward@.len() == b.forward@.len()
                        &&& a.span@.len() == b.span@.len()
                    },
                forall|l: int, k: int|
                    pre.on_level(l, k) && k != t ==> {
                        &&& #[trigger] pre.ptr_at(*self, l, k) == (if l >= i {
                            removed_ptr(pre, upd, t, height as int, l, k)
                        } else {
                            pre.ptr(l, k)
                        })
                        &&& pre.spn_at(*self, l, k) == (if l >= i {
                            removed_span(pre, upd, t, height as int, l, k)
                        } else {
                            pre.spn(l, k)
                        })
                    },
                forall|l: int| 0 <= l <= pre.level ==> pre.ptr_at(*self, l, t) == pre.ptr(l, t)
                    && pre.spn_at(*self, l, t) == pre.spn(l, t),
            decreases i,
        {
            i = i - 1;
            let lv = i;
            let ghost mid = *self;
            let ghost upd0 = upd;
            proof {
                assert(pre.on_level(lv as int, c));
                assert(pre.ptr_at(*self, lv as int, c) == pre.ptr(lv as int, c));
            }
            let mut next = match index {
                Some(p) => self.nodes[p].forward[lv],
                None => self.head[lv],
            };
            loop
                invariant
                    pre.wf(),
                    0 <= t < n == pre.order@.len(),
                    pre.order@[t] == pos,
                    pre@[t] == (key@, score),
                    hs == pre.hts(),
                    lv < pre.level + 1,
                    -1 <= c < t,
                    c == -1 || hs[c] > lv,
                    index == (if c == -1 { None } else { Some(pre.order@[c]) }),
                    next == pre.ptr(lv as int, c),
                    self.order == pre.order,
                    self.nodes@.len() == pre.nodes@.len(),
                    forall|k: int|
                        0 <= k < n ==> {
                            let a = #[trigger] self.nodes@[pre.order@[k] as int];
                            let b = pre.nodes@[pre.order@[k] as int];
                            &&& a.key == b.key
                            &&& a.score == b.score
                            &&& a.forward@.len() == b.forward@.len()
                            &&& a.span@.len() == b.span@.len()
                        },
                    forall|k: int|
                        pre.on_level(lv as int, k) && k != t ==> #[trigger] pre.ptr_at(*self, lv as int, k)
                            == pre.ptr(lv as int, k),
                ensures
                    -1 <= c < t,
                    c == -1 || hs[c] > lv,
                    index == (if c == -1 { None } else { Some(pre.order@[c]) }),
                    next_above(hs, lv as int, c) >= t,
                decreases n - c,
            {
                proof {
                    assert(pre.on_level(lv as int, c));
                    pre.lemma_span_bound(lv as int, c);
                    lemma_entry_lt_properties();
                }
                match next {
                    Some(nv) => {
                        let ghost k = next_above(hs, lv as int, c);
                        proof {
                            assert(self.nodes@[nv as int].key == pre.nodes@[nv as int].key);
                            assert(pre@[k] == (pre.nodes@[nv as int].key@, pre.nodes@[nv as int].score));
                        }
                        if entry_less(self.nodes[nv].key.as_str(), self.nodes[nv].score, key.as_str(), score) {
                            proof {
                                if k >= t {
                                    if k > t {
                                        assert(entry_lt(pre@[t], pre@[k]));
                                    }
                                }
                                assert(k < t);
                                assert(pre.on_level(lv as int, k));
                                assert(pre.ptr_at(*self, lv as int, k) == pre.ptr(lv as int, k));
                            }
                            index = Some(nv);
                            proof {
                                c = k;
                            }
                            next = self.nodes[nv].forward[lv];
                        } else {
                            proof {
                                if k < t {
                                    assert(entry_lt(pre@[k], pre@[t]));
                                }
                            }
                            break;
                        }
                    },
                    None => {
                        break;
                    },
                }
            }
            proof {
                upd = upd.update(lv as int, c);
                assert(pre.on_level(lv as int, c));
                pre.lemma_span_bound(lv as int, c);
                lemma_next_above_remove(hs, t, upd, lv as int, c);
                if lv < height {
                    assert(pre.on_level(lv as int, t));
                    pre.lemma_span_bound(lv as int, t);
                    assert(pre.ptr_at(*self, lv as int, t) == pre.ptr(lv as int, t));
                }
                if c != -1 {
                    assert(pre.ptr_at(*self, lv as int, c) == pre.ptr(lv as int, c));
                } else {
                    assert(pre.ptr_at(*self, lv as int, -1) == pre.ptr(lv as int, -1));
                }
                assert(pre.spn(lv as int, c) == expected_span(hs, lv as int, c));
            }
            if lv < height {
                let f = self.nodes[pos].forward[lv];
                let s = self.nodes[pos].span[lv];
                match index {
                    Some(prev) => {
                        if let Some(q) = self.nodes[prev].forward[lv] {
                            if q == pos {
                                self.nodes[prev].forward[lv] = f;
                                let ps = self.nodes[prev].span[lv];
                                self.nodes[prev].span[lv] = ps + s - 1;
                            }
                        }
                    },
                    None => {
                        if let Some(q) = self.head[lv] {
                            if q == pos {
                                self.head[lv] = f;
                                let hsp = self.head_span[lv];
                                self.head_span[lv] = hsp + s - 1;
                            }
                        }
                    },
                }
            } else {
                match index {
                    Some(prev) => {
                        let ps = self.nodes[prev].span[lv];
                        self.nodes[prev].span[lv] = ps - 1;
                    },
                    None => {
                        let hsp = self.head_span[lv];
                        self.head_span[lv] = hsp - 1;
                    },
                }
            }
            proof {
                assert forall|l: int| i <= l <= pre.level implies #[trigger] pred_ok(hs, upd, t, l) by {
                    if l > lv {
                        assert(pred_ok(hs, upd0, t, l));
                        assert(upd[l] == upd0[l]);
                    }
                }
                assert forall|l: int, k: int| pre.on_level(l, k) && k != t implies {
                    &&& #[trigger] pre.ptr_at(*self, l, k) == (if l >= lv {
                        removed_ptr(pre, upd, t, height as int, l, k)
                    } else {
                        pre.ptr(l, k)
                    })
                    &&& pre.spn_at(*self, l, k) == (if l >= lv {
                        removed_span(pre, upd, t, height as int, l, k)
                    } else {
                        pre.spn(l, k)
                    })
                } by {
                    assert(pre.ptr_at(mid, l, k) == pre.ptr_at(mid, l, k));
                    if l > lv {
                        assert(upd[l] == upd0[l]);
                    }
                    if k != -1 && k != c && c != -1 {
                        assert(pre.order@[k] != pre.order@[c]);
                    }
                }
            }
        }
        let ghost after_links = *self;
        self.key_to_pos.remove(key.as_str());
        self.free_list.push(pos);
        self.order = Ghost(self.order@.remove(t));
        proof {
            assert forall|l: int, k: int| pre.on_level(l, k) && k != t implies {
                &&& #[trigger] pre.ptr_at(*self, l, k) == removed_ptr(pre, upd, t, pre.hts()[t], l, k)
                &&& pre.spn_at(*self, l, k) == removed_span(pre, upd, t, pre.hts()[t], l, k)
            } by {
                assert(pre.ptr_at(after_links, l, k) == pre.ptr_at(*self, l, k));
                assert(pre.spn_at(after_links, l, k) == pre.spn_at(*self, l, k));
            }
            SkipList::lemma_remove_wf(pre, *self, t, upd);
        }
        while self.level > 0 && self.head[self.level].is_none()
            invariant
                self.wf(),
                self@ == pre@.remove(t),
                self.max_level == pre.max_level,
            decreases self.level,
        {
            let ghost before = *self;
            proof {
                assert(before.on_level(before.level as int, -1));
                assert(before.link_ok(before.level as int, -1));
                lemma_next_above(before.hts(), before.level as int, -1);
            }
            self.level = self.level - 1;
            self.head.pop();
            self.head_span.pop();
            proof {
                assert(self.hts() =~= before.hts());
                assert forall|l: int, j: int| #[trigger] self.on_level(l, j) implies #[trigger] self.link_ok(l, j) by {
                    assert(before.on_level(l, j));
                    assert(before.link_ok(l, j));
                }
                assert forall|k: int| 0 <= k < self.order@.len() implies {
                    let node = #[trigger] self.nodes@[self.order@[k] as int];
                    &&& 1 <= node.forward@.len() <= self.level + 1
                    &&& node.span@.len() == node.forward@.len()
                } by {
                    assert(before.hts()[k] <= before.level);
                }
                assert(self@ =~= before@);
            }
        }
        Some(score)
    }
}


/// The link that index `j` holds on level `l` once the node at `pos`, of
/// height `h`, is linked in after `upd[l]` on each of its levels.
spec fn inserted_ptr(pre: SkipList, upd: Seq<int>, h: int, pos: usize, l: int, j: int) -> Option<usize> {
    if l < h && upd[l] == j {
        Some(pos)
    } else {
        pre.ptr(l, j)
    }
}

/// The span that index `j` holds on level `l` once a node is linked in at index `t`.
spec fn inserted_span(pre: SkipList, upd: Seq<int>, t: int, h: int, l: int, j: int) -> int {
    if upd[l] == j {
        if l < h {
            t - j
        } else {
            pre.spn(l, j) + 1
        }
    } else {
        pre.spn(l, j)
    }
}

/// A coin toss that picks the height of a new node.
///
/// Calls `rand::random::<bool>()`.  Nothing is claimed of the outcome: it
/// rests on chance, and every height it leads to is handled.
#[verifier::external_body]
fn coin_flip() -> bool {
    rand::random::<bool>()
}

impl SkipList {
    /// The list after linking a node in at index `t` is well formed.
    proof fn lemma_insert_wf(
        pre: SkipList,
        post: SkipList,
        t: int,
        upd: Seq<int>,
        h: int,
        pos: usize,
        e: (Seq<char>, u64),
    )
        requires
            pre.wf(),
            0 <= t <= pre.order@.len(),
            1 <= h <= pre.level + 1,
            upd.len() >= pre.level + 1,
            forall|l: int| 0 <= l <= pre.level ==> #[trigger] pred_ok(pre.hts(), upd, t, l),
            forall|k: int| 0 <= k < t ==> entry_lt(#[trigger] pre@[k], e),
            forall|k: int| t <= k < pre.order@.len() ==> entry_lt(e, #[trigger] pre@[k]),
            !has_member(pre@, e.0),
            !pre.order@.contains(pos),
            post.order@ == pre.order@.insert(t, pos),
            pos < post.nodes@.len(),
            post.level == pre.level,
            post.max_level == pre.max_level,
            post.head@.len() == pre.head@.len(),
            post.head_span@.len() == pre.head_span@.len(),
            forall|k: int|
                0 <= k < pre.order@.len() ==> {
                    let a = #[trigger] post.nodes@[pre.order@[k] as int];
                    let b = pre.nodes@[pre.order@[k] as int];
                    &&& a.key == b.key
                    &&& a.score == b.score
                    &&& a.forward@.len() == b.forward@.len()
                    &&& a.span@.len() == b.span@.len()
                },
            post.nodes@[pos as int].key@ == e.0,
            post.nodes@[pos as int].score == e.1,
            post.nodes@[pos as int].forward@.len() == h,
            post.nodes@[pos as int].span@.len() == h,
            forall|l: int|
                0 <= l < h ==> {
                    &&& #[trigger] post.nodes@[pos as int].forward@[l] == pre.ptr(l, upd[l])
                    &&& post.nodes@[pos as int].span@[l] == pre.spn(l, upd[l]) - (t - 1 - upd[l])
                },
            forall|l: int, k: int|
                pre.on_level(l, k) ==> {
                    &&& #[trigger] pre.ptr_at(post, l, k) == inserted_ptr(pre, upd, h, pos, l, k)
                    &&& pre.spn_at(post, l, k) == inserted_span(pre, upd, t, h, l, k)
                },
            post.key_to_pos@ == pre.key_to_pos@.insert(e.0, pos),
            (post.free_list@.push(pos) == pre.free_list@ && post.nodes@.len() == pre.nodes@.len())
                || (post.free_list@ == pre.free_list@ && pos == pre.nodes@.len()
                && post.nodes@.len() == pre.nodes@.len() + 1),
        ensures
            post.wf(),
            post@ == pre@.insert(t, e),
    {
        let hs = pre.hts();
        let hs2 = post.hts();
        let n = pre.order@.len();
        assert(hs2 =~= hs.insert(t, h)) by {
            assert forall|k: int| 0 <= k < n + 1 implies hs2[k] == hs.insert(t, h)[k] by {
                if k < t {
                    assert(post.order@[k] == pre.order@[k]);
                } else if k > t {
                    assert(post.order@[k] == pre.order@[k - 1]);
                }
            }
        }
        assert(post@ =~= pre@.insert(t, e)) by {
            assert forall|k: int| 0 <= k < n + 1 implies post@[k] == pre@.insert(t, e)[k] by {
                if k < t {
                    assert(post.order@[k] == pre.order@[k]);
                } else if k > t {
                    assert(post.order@[k] == pre.order@[k - 1]);
                }
            }
        }
        assert forall|l: int, j: int| #[trigger] post.on_level(l, j) implies #[trigger] post.link_ok(l, j) by {
            assert(pred_ok(hs, upd, t, l));
            assert(pre.on_level(l, upd[l]));
            assert(pre.link_ok(l, upd[l]));
            lemma_next_above(hs, l, upd[l]);
            if j == t {
                lemma_next_above_insert(hs, t, h, upd, l, upd[l]);
                let ku = next_above(hs, l, upd[l]);
                assert(post.ptr(l, j) == post.nodes@[pos as int].forward@[l]);
                if ku < n {
                    assert(post.order@[ku + 1] == pre.order@[ku]);
                }
            } else {
                let jp = if j < t { j } else { j - 1 };
                assert(pre.on_level(l, jp));
                assert(pre.link_ok(l, jp));
                lemma_next_above_insert(hs, t, h, upd, l, jp);
                lemma_next_above(hs, l, jp);
                assert(post.ptr(l, j) == pre.ptr_at(post, l, jp));
                assert(post.spn(l, j) == pre.spn_at(post, l, jp));
                let k = next_above(hs, l, jp);
                if jp < t && upd[l] == jp && l < h {
                } else if jp < t && upd[l] == jp {
                    if k < n {
                        assert(post.order@[k + 1] == pre.order@[k]);
                    }
                } else if jp < t {
                    assert(post.order@[k] == pre.order@[k]);
                } else {
                    if k < n {
                        assert(post.order@[k + 1] == pre.order@[k]);
                    }
                }
            }
        }
        assert forall|k: int| 0 <= k < n + 1 implies #[trigger] post.order@[k] < post.nodes@.len() by {
            if k < t {
                assert(post.order@[k] == pre.order@[k]);
            } else if k > t {
                assert(post.order@[k] == pre.order@[k - 1]);
            }
        }
        assert forall|k: int| 0 <= k < n + 1 implies {
            let node = #[trigger] post.nodes@[post.order@[k] as int];
            &&& 1 <= node.forward@.len() <= post.level + 1
            &&& node.span@.len() == node.forward@.len()
        } by {
            if k != t {
                let kp = if k < t { k } else { k - 1 };
                assert(post.order@[k] == pre.order@[kp]);
                assert(pre.nodes@[pre.order@[kp] as int].forward@.len() <= pre.level + 1);
            }
        }
        lemma_entry_lt_properties();
        assert(entries_sorted(post@)) by {
            assert forall|i: int, j: int| 0 <= i < j < n + 1 implies entry_lt(#[trigger] post@[i], #[trigger] post@[j]) by {
                if i < t && j < t {
                    assert(entry_lt(pre@[i], pre@[j]));
                } else if i < t && j == t {
                } else if i < t {
                    assert(entry_lt(pre@[i], e));
                    assert(entry_lt(e, pre@[j - 1]));
                } else if i == t {
                    assert(entry_lt(e, pre@[j - 1]));
                } else {
                    assert(entry_lt(pre@[i - 1], pre@[j - 1]));
                }
            }
        }
        assert(members_distinct(post@)) by {
            assert forall|i: int, j: int| 0 <= i < j < n + 1 implies (#[trigger] post@[i]).0 != (#[trigger] post@[j]).0 by {
                if i == t {
                    assert(pre@[j - 1].0 != e.0);
                } else if j == t {
                    assert(pre@[i].0 != e.0);
                } else {
                    let ip = if i < t { i } else { i - 1 };
                    let jp = if j < t { j } else { j - 1 };
                    assert(pre@[ip].0 != pre@[jp].0);
                }
            }
        }
        assert(!pre.key_to_pos@.contains_key(e.0)) by {
            if pre.key_to_pos@.contains_key(e.0) {
                let q = pre.key_to_pos@[e.0];
                let kq = pre.order@.index_of(q);
                assert(pre@[kq].0 == e.0);
            }
        }
        assert forall|k: int| 0 <= k < n + 1 implies #[trigger] post.key_to_pos@.contains_key(
            post.nodes@[post.order@[k] as int].key@,
        ) && post.key_to_pos@[post.nodes@[post.order@[k] as int].key@] == post.order@[k] by {
            if k != t {
                let kp = if k < t { k } else { k - 1 };
                assert(post.order@[k] == pre.order@[kp]);
                assert(pre.key_to_pos@.contains_key(pre.nodes@[pre.order@[kp] as int].key@));
                assert(pre@[kp].0 != e.0);
            }
        }
        assert forall|m: Seq<char>| #[trigger] post.key_to_pos@.contains_key(m) implies post.order@.contains(
            post.key_to_pos@[m],
        ) && post.nodes@[post.key_to_pos@[m] as int].key@ == m by {
            if m == e.0 {
                assert(post.order@[t] == pos);
            } else {
                assert(pre.key_to_pos@.contains_key(m));
                let q = pre.key_to_pos@[m];
                let kq = pre.order@.index_of(q);
                assert(pre.order@[kq] == q);
                let kk = if kq < t { kq } else { kq + 1 };
                assert(post.order@[kk] == q);
            }
        }
        assert forall|i: int| 0 <= i < post.free_list@.len() implies #[trigger] post.free_list@[i]
            < post.nodes@.len() && !post.order@.contains(post.free_list@[i]) by {
            let f = post.free_list@[i];
            assert(pre.free_list@[i] == f);
            if post.order@.contains(f) {
                let kk = post.order@.index_of(f);
                if kk == t {
                    assert(f == pos);
                    if post.free_list@.push(pos) == pre.free_list@ {
                        assert(pre.free_list@[post.free_list@.len() as int] == pos);
                    }
                } else {
                    let kp = if kk < t { kk } else { kk - 1 };
                    assert(post.order@[kk] == pre.order@[kp]);
                }
            }
        }
        assert(post.free_list@.no_duplicates()) by {
            if post.free_list@.push(pos) == pre.free_list@ {
                assert forall|i: int, j: int| 0 <= i < j < post.free_list@.len() implies post.free_list@[i]
                    != post.free_list@[j] by {
                    assert(pre.free_list@[i] == post.free_list@[i]);
                    assert(pre.free_list@[j] == post.free_list@[j]);
                }
            }
        }
        assert(post.order@.no_duplicates()) by {
            assert forall|i: int, j: int| 0 <= i < j < n + 1 implies post.order@[i] != post.order@[j] by {
                if i == t {
                    assert(post.order@[j] == pre.order@[j - 1]);
                } else if j == t {
                    assert(post.order@[i] == pre.order@[i]);
                } else {
                    let ip = if i < t { i } else { i - 1 };
                    let jp = if j < t { j } else { j - 1 };
                    assert(post.order@[i] == pre.order@[ip]);
                    assert(post.order@[j] == pre.order@[jp]);
                }
            }
        }
    }
}


/// Facts gathered by the search for the place of `target` on level `l`:
/// `upd[l]` is before it, and the node after `upd[l]` on level `l` is not.
spec fn search_ok(s: Seq<(Seq<char>, u64)>, hs: Seq<int>, upd: Seq<int>, target: (Seq<char>, u64), l: int) -> bool {
    &&& 0 <= l < upd.len()
    &&& -1 <= upd[l] < s.len()
    &&& (upd[l] == -1 || (hs[upd[l]] > l && entry_lt(s[upd[l]], target)))
    &&& (next_above(hs, l, upd[l]) == s.len() || !entry_lt(s[next_above(hs, l, upd[l])], target))
}

/// What the search for the place of an entry yields: for each level, the
/// predecessor index `upd[l]` (`-1`: the head), the pointer to it and its rank.
spec fn path_ok(
    sl: SkipList,
    upd: Seq<int>,
    to_update: Seq<Option<usize>>,
    rank: Seq<usize>,
    target: (Seq<char>, u64),
) -> bool {
    let n = sl.order@.len();
    let t = upd[0] + 1;
    &&& upd.len() == sl.max_level
    &&& to_update.len() == sl.max_level
    &&& rank.len() == sl.max_level
    &&& 0 <= t <= n
    &&& forall|l: int| 0 <= l <= sl.level ==> #[trigger] pred_ok(sl.hts(), upd, t, l)
    &&& forall|l: int| sl.level < l < sl.max_level ==> #[trigger] upd[l] == -1
    &&& forall|l: int|
        0 <= l < sl.max_level ==> #[trigger] to_update[l] == (if upd[l] == -1 {
            None
        } else {
            Some(sl.order@[upd[l]])
        }) && rank[l] == upd[l] + 1
    &&& forall|k: int| 0 <= k < t ==> entry_lt(#[trigger] sl@[k], target)
    &&& forall|k: int| t <= k < n ==> entry_lt(target, #[trigger] sl@[k])
}

/// The state of the list while a new node at `pos` is linked in: levels
/// below `i` are done, the others are as in `pre`.
spec fn linking(
    pre: SkipList,
    post: SkipList,
    upd: Seq<int>,
    t: int,
    h: int,
    pos: usize,
    i: int,
) -> bool {
    &&& post.order == pre.order
    &&& post.level == pre.level
    &&& post.max_level == pre.max_level
    &&& post.head@.len() == pre.head@.len()
    &&& post.head_span@.len() == pre.head_span@.len()
    &&& pre.nodes@.len() <= post.nodes@.len()
    &&& pos < post.nodes@.len()
    &&& forall|k: int|
        0 <= k < pre.order@.len() ==> {
            let a = #[trigger] post.nodes@[pre.order@[k] as int];
            let b = pre.nodes@[pre.order@[k] as int];
            &&& a.key == b.key
            &&& a.score == b.score
            &&& a.forward@.len() == b.forward@.len()
            &&& a.span@.len() == b.span@.len()
        }
    &&& post.nodes@[pos as int].forward@.len() == h
    &&& post.nodes@[pos as int].span@.len() == h
    &&& forall|l: int|
        0 <= l < i && l < h ==> {
            &&& #[trigger] post.nodes@[pos as int].forward@[l] == pre.ptr(l, upd[l])
            &&& post.nodes@[pos as int].span@[l] == pre.spn(l, upd[l]) - (t - 1 - upd[l])
        }
    &&& forall|l: int, k: int|
        pre.on_level(l, k) ==> {
            &&& #[trigger] pre.ptr_at(post, l, k) == (if l < i {
                inserted_ptr(pre, upd, h, pos, l, k)
            } else {
                pre.ptr(l, k)
            })
            &&& pre.spn_at(post, l, k) == (if l < i {
                inserted_span(pre, upd, t, h, l, k)
            } else {
                pre.spn(l, k)
            })
        }
}

impl SkipList {
    /// Finds, on each level, the last node before the place of `(key, value)`.
    fn search_path(&self, key: &String, value: u64) -> (r: (Vec<Option<usize>>, Vec<usize>, Ghost<Seq<int>>))
        requires
            self.wf(),
            !has_member(self@, key@),
        ensures
            path_ok(*self, r.2@, r.0@, r.1@, (key@, value)),
    {
        let ghost target = (key@, value);
        let ghost hs = self.hts();
        let ghost n = self.order@.len();
        proof {
            assert(self.key_to_pos.spec_len() == self.key_to_pos@.len());
        }
        let mut to_update: Vec<Option<usize>> = vec![None; self.max_level];
        let mut rank: Vec<usize> = vec![0; self.max_level];
        let mut index: Option<usize> = None;
        let ghost mut c: int = -1;
        let ghost mut upd: Seq<int> = Seq::new(self.max_level as nat, |l: int| -1int);
        let mut steps: usize = 0;
        let mut i: usize = self.level + 1;
        while i > 0
            invariant
                self.wf(),
                hs == self.hts(),
                n == self.order@.len(),
                n <= usize::MAX,
                !has_member(self@, key@),
                target == (key@, value),
                i <= self.level + 1,
                upd.len() == self.max_level,
                to_update@.len() == self.max_level,
                rank@.len() == self.max_level,
                -1 <= c < n,
                c == -1 || (hs[c] >= i && entry_lt(self@[c], target)),
                index == (if c == -1 { None } else { Some(self.order@[c]) }),
                steps == c + 1,
                forall|l: int| i <= l <= self.level ==> #[trigger] search_ok(self@, hs, upd, target, l),
                forall|l: int|
                    0 <= l < self.max_level ==> #[trigger] to_update@[l] == (if upd[l] == -1 {
                        None
                    } else {
                        Some(self.order@[upd[l]])
                    }) && rank@[l] == upd[l] + 1,
                forall|l: int| self.level < l < self.max_level ==> #[trigger] upd[l] == -1,
            decreases i,
        {
            i = i - 1;
            let lv = i;
            let ghost upd0 = upd;
            let mut next = match index {
                Some(p) => self.nodes[p].forward[lv],
                None => self.head[lv],
            };
            loop
                invariant
                    self.wf(),
                    hs == self.hts(),
                    n == self.order@.len(),
                    n <= usize::MAX,
                    lv <= self.level,
                    !has_member(self@, key@),
                    target == (key@, value),
                    -1 <= c < n,
                    c == -1 || (hs[c] > lv && entry_lt(self@[c], target)),
                    index == (if c == -1 { None } else { Some(self.order@[c]) }),
                    next == self.ptr(lv as int, c),
                    steps == c + 1,
                ensures
                    -1 <= c < n,
                    c == -1 || (hs[c] > lv && entry_lt(self@[c], target)),
                    index == (if c == -1 { None } else { Some(self.order@[c]) }),
                    steps == c + 1,
                    next_above(hs, lv as int, c) == n || !entry_lt(
                        self@[next_above(hs, lv as int, c)],
                        target,
                    ),
                decreases n - c,
            {
                proof {
                    assert(self.on_level(lv as int, c));
                    self.lemma_span_bound(lv as int, c);
                }
                match next {
                    Some(nv) => {
                        let ghost k = next_above(hs, lv as int, c);
                        proof {
                            assert(self@[k] == (self.nodes@[nv as int].key@, self.nodes@[nv as int].score));
                            assert(self.on_level(lv as int, k));
                            self.lemma_span_bound(lv as int, k);
                        }
                        if entry_less(self.nodes[nv].key.as_str(), self.nodes[nv].score, key.as_str(), value) {
                            let d = match index {
                                Some(ip) => self.nodes[ip].span[lv],
                                None => self.head_span[lv],
                            };
                            steps = steps + d;
                            index = Some(nv);
                            proof {
                                c = k;
                            }
                            next = self.nodes[nv].forward[lv];
                        } else {
                            break;
                        }
                    },
                    None => {
                        break;
                    },
                }
            }
            to_update.set(lv, index);
            rank.set(lv, steps);
            proof {
                upd = upd.update(lv as int, c);
                assert forall|l: int| i <= l <= self.level implies #[trigger] search_ok(self@, hs, upd, target, l) by {
                    if l > lv {
                        assert(search_ok(self@, hs, upd0, target, l));
                    }
                }
                assert forall|l: int| self.level < l < self.max_level implies #[trigger] upd[l] == -1 by {
                    assert(upd0[l] == -1);
                }
            }
        }
        proof {
            let t = upd[0] + 1;
            lemma_entry_lt_properties();
            assert(search_ok(self@, hs, upd, target, 0));
            lemma_next_above(hs, 0, upd[0]);
            if upd[0] + 1 < n {
                assert(self.nodes@[self.order@[upd[0] + 1] as int].forward@.len() >= 1);
                assert(hs[upd[0] + 1] >= 1);
                lemma_next_above_is(hs, 0, upd[0], upd[0] + 1);
            } else {
                lemma_next_above_is(hs, 0, upd[0], n as int);
            }
            assert forall|k: int| 0 <= k < t implies entry_lt(#[trigger] self@[k], target) by {
                if k < upd[0] {
                    assert(entry_lt(self@[k], self@[upd[0]]));
                }
            }
            if t < n {
                assert(self@[t].0 != key@);
                assert(!entry_lt(self@[t], target));
                assert(entry_lt(self@[t], target) || entry_lt(target, self@[t]));
            }
            assert forall|k: int| t <= k < n implies entry_lt(target, #[trigger] self@[k]) by {
                if k > t {
                    assert(entry_lt(self@[t], self@[k]));
                }
            }
            assert forall|l: int| 0 <= l <= self.level implies #[trigger] pred_ok(hs, upd, t, l) by {
                assert(search_ok(self@, hs, upd, target, l));
                if upd[l] >= t {
                    assert(entry_lt(target, self@[upd[l]]));
                }
                lemma_next_above(hs, l, upd[l]);
                let k = next_above(hs, l, upd[l]);
                if k < t {
                    assert(entry_lt(self@[k], target));
                }
            }
            assert(to_update@[0] == (if upd[0] == -1 { None } else { Some(self.order@[upd[0]]) }));
        }
        (to_update, rank, Ghost(upd))
    }

    /// Raises the list to `new_level` levels, with empty heads.
    fn raise_level(&mut self, new_level: usize, Ghost(upd): Ghost<Seq<int>>, Ghost(t): Ghost<int>)
        requires
            old(self).wf(),
            new_level < old(self).max_level,
            upd.len() == old(self).max_level,
            0 <= t <= old(self).order@.len(),
            forall|l: int| 0 <= l <= old(self).level ==> #[trigger] pred_ok(old(self).hts(), upd, t, l),
            forall|l: int| old(self).level < l < old(self).max_level ==> #[trigger] upd[l] == -1,
        ensures
            final(self).wf(),
            final(self)@ == old(self)@,
            final(self).order == old(self).order,
            final(self).nodes == old(self).nodes,
            final(self).key_to_pos == old(self).key_to_pos,
            final(self).free_list == old(self).free_list,
            final(self).max_level == old(self).max_level,
            final(self).hts() == old(self).hts(),
            final(self).level >= new_level,
            final(self).level >= old(self).level,
            forall|l: int| 0 <= l <= final(self).level ==> #[trigger] pred_ok(final(self).hts(), upd, t, l),
            forall|l: int| final(self).level < l < final(self).max_level ==> #[trigger] upd[l] == -1,
    {
        let ghost hs = self.hts();
        let ghost n = self.order@.len();
        proof {
            assert(self.key_to_pos.spec_len() == self.key_to_pos@.len());
        }
        let len = self.key_to_pos.len();
        while self.level < new_level
            invariant
                self.wf(),
                self@ == old(self)@,
                self.order == old(self).order,
                self.nodes == old(self).nodes,
                self.key_to_pos == old(self).key_to_pos,
                self.free_list == old(self).free_list,
                self.max_level == old(self).max_level,
                self.hts() == hs,
                n == self.order@.len(),
                old(self).level <= self.level,
                new_level < self.max_level,
                upd.len() == self.max_level,
                0 <= t <= n,
                len == n,
                forall|l: int| 0 <= l <= self.level ==> #[trigger] pred_ok(hs, upd, t, l),
                forall|l: int| self.level < l < self.max_level ==> #[trigger] upd[l] == -1,
            decreases new_level - self.level,
        {
            let ghost before = *self;
            self.level = self.level + 1;
            self.head.push(None);
            self.head_span.push(len);
            proof {
                let l = self.level as int;
                assert forall|k: int| 0 <= k < n implies #[trigger] hs[k] <= l by {
                    assert(before.nodes@[before.order@[k] as int].forward@.len() <= before.level + 1);
                }
                assert(is_next(hs, l, -1, n as int));
                lemma_next_above_is(hs, l, -1, n as int);
                assert(upd[l] == -1);
                assert(pred_ok(hs, upd, t, l));
                assert(self.hts() =~= before.hts());
                assert forall|l2: int, j: int| #[trigger] self.on_level(l2, j) implies #[trigger] self.link_ok(l2, j) by {
                    if l2 < l {
                        assert(before.on_level(l2, j));
                        assert(before.link_ok(l2, j));
                    } else {
                        assert(j == -1);
                    }
                }
            }
        }
    }

    /// Links the node at `pos`, of height `new_level + 1`, into each of its
    /// levels after the predecessors found by `search_path`, and counts it in
    /// the spans of the levels above.
    fn link_node(
        &mut self,
        pos: usize,
        new_level: usize,
        to_update: &Vec<Option<usize>>,
        rank: &Vec<usize>,
        Ghost(pre): Ghost<SkipList>,
        Ghost(upd): Ghost<Seq<int>>,
    )
        requires
            pre.wf(),
            new_level <= pre.level,
            !pre.order@.contains(pos),
            pre.order@.len() + 1 <= usize::MAX,
            upd.len() == pre.max_level,
            0 <= upd[0] + 1 <= pre.order@.len(),
            forall|l: int| 0 <= l <= pre.level ==> #[trigger] pred_ok(pre.hts(), upd, upd[0] + 1, l),
            to_update@.len() == pre.max_level,
            rank@.len() == pre.max_level,
            forall|l: int|
                0 <= l < pre.max_level ==> #[trigger] to_update@[l] == (if upd[l] == -1 {
                    None
                } else {
                    Some(pre.order@[upd[l]])
                }) && rank@[l] == upd[l] + 1,
            linking(pre, *old(self), upd, upd[0] + 1, new_level + 1, pos, 0),
        ensures
            linking(pre, *final(self), upd, upd[0] + 1, new_level + 1, pos, pre.level + 1),
            final(self).key_to_pos == old(self).key_to_pos,
            final(self).free_list == old(self).free_list,
            final(self).nodes@.len() == old(self).nodes@.len(),
            final(self).nodes@[pos as int].key == old(self).nodes@[pos as int].key,
            final(self).nodes@[pos as int].score == old(self).nodes@[pos as int].score,
    {
        let ghost t = upd[0] + 1;
        let ghost hs = pre.hts();
        let ghost n = pre.order@.len();
        let h = new_level + 1;
        proof {
            assert(to_update@[0] == (if upd[0] == -1 { None } else { Some(pre.order@[upd[0]]) }));
        }
        let mut i: usize = 0;
        while i <= self.level
            invariant
                pre.wf(),
                n == pre.order@.len(),
                hs == pre.hts(),
                !pre.order@.contains(pos),
                n + 1 <= usize::MAX,
                0 <= t <= n,
                t == upd[0] + 1,
                h == new_level + 1,
                new_level <= pre.level,
                i <= pre.level + 1,
                self.level == pre.level,
                upd.len() == pre.max_level,
                forall|l: int| 0 <= l <= pre.level ==> #[trigger] pred_ok(hs, upd, t, l),
                to_update@.len() == pre.max_level,
                rank@.len() == pre.max_level,
                rank@[0] == t,
                forall|l: int|
                    0 <= l < pre.max_level ==> #[trigger] to_update@[l] == (if upd[l] == -1 {
                        None
                    } else {
                        Some(pre.order@[upd[l]])
                    }) && rank@[l] == upd[l] + 1,
                linking(pre, *self, upd, t, h as int, pos, i as int),
                self.key_to_pos == old(self).key_to_pos,
                self.free_list == old(self).free_list,
                self.nodes@.len() == old(self).nodes@.len(),
                self.nodes@[pos as int].key == old(self).nodes@[pos as int].key,
                self.nodes@[pos as int].score == old(self).nodes@[pos as int].score,
            decreases pre.level + 1 - i,
        {
            let ghost mid = *self;
            let ghost u = upd[i as int];
            proof {
                assert(pred_ok(hs, upd, t, i as int));
                assert(pre.on_level(i as int, u));
                pre.lemma_span_bound(i as int, u);
                lemma_next_above(hs, i as int, u);
                assert(pre.ptr_at(mid, i as int, u) == pre.ptr(i as int, u));
                assert(to_update@[i as int] == (if u == -1 { None } else { Some(pre.order@[u]) }));
                assert(rank@[i as int] == u + 1);
                if u != -1 {
                    assert(self.nodes@[pre.order@[u] as int].forward@.len() == hs[u]);
                    assert(pre.order@[u] != pos);
                }
            }
            if i <= new_level {
                match to_update[i] {
                    Some(prev) => {
                        let f = self.nodes[prev].forward[i];
                        self.nodes[pos].forward.set(i, f);
                        self.nodes[prev].forward.set(i, Some(pos));
                        let ps = self.nodes[prev].span[i];
                        self.nodes[pos].span.set(i, ps - (rank[0] - rank[i]));
                        self.nodes[prev].span.set(i, (rank[0] - rank[i]) + 1);
                    },
                    None => {
                        let f = self.head[i];
                        self.nodes[pos].forward.set(i, f);
                        self.head.set(i, Some(pos));
                        let ps = self.head_span[i];
                        self.nodes[pos].span.set(i, ps - (rank[0] - rank[i]));
                        self.head_span.set(i, (rank[0] - rank[i]) + 1);
                    },
                }
            } else {
                match to_update[i] {
                    Some(prev) => {
                        let ps = self.nodes[prev].span[i];
                        self.nodes[prev].span.set(i, ps + 1);
                    },
                    None => {
                        let ps = self.head_span[i];
                        self.head_span.set(i, ps + 1);
                    },
                }
            }
            proof {
                assert forall|l: int, k: int| pre.on_level(l, k) implies {
                    &&& #[trigger] pre.ptr_at(*self, l, k) == (if l < i + 1 {
                        inserted_ptr(pre, upd, h as int, pos, l, k)
                    } else {
                        pre.ptr(l, k)
                    })
                    &&& pre.spn_at(*self, l, k) == (if l < i + 1 {
                        inserted_span(pre, upd, t, h as int, l, k)
                    } else {
                        pre.spn(l, k)
                    })
                } by {
                    assert(pre.ptr_at(mid, l, k) == pre.ptr_at(mid, l, k));
                    if k != -1 && u != -1 && k != u {
                        assert(pre.order@[k] != pre.order@[u]);
                    }
                    if k != -1 {
                        assert(pre.order@[k] != pos);
                    }
                }
                assert forall|k: int| 0 <= k < pre.order@.len() implies {
                    let a = #[trigger] self.nodes@[pre.order@[k] as int];
                    let b = pre.nodes@[pre.order@[k] as int];
                    &&& a.key == b.key
                    &&& a.score == b.score
                    &&& a.forward@.len() == b.forward@.len()
                    &&& a.span@.len() == b.span@.len()
                } by {
                    assert(mid.nodes@[pre.order@[k] as int].key == pre.nodes@[pre.order@[k] as int].key);
                    assert(pre.order@[k] != pos);
                }
                assert forall|l: int| 0 <= l < i + 1 && l < h implies {
                    &&& #[trigger] self.nodes@[pos as int].forward@[l] == pre.ptr(l, upd[l])
                    &&& self.nodes@[pos as int].span@[l] == pre.spn(l, upd[l]) - (t - 1 - upd[l])
                } by {
                    if l < i {
                        assert(mid.nodes@[pos as int].forward@[l] == pre.ptr(l, upd[l]));
                    }
                }
            }
            i = i + 1;
        }
    }
}

impl SkipList {
    /// Sets member `key` to `value`.  A member already present with an equal
    /// score (same rank) is left as it is; one with another score is moved.
    #[verifier::spinoff_prover]
    #[verifier::rlimit(40)]
    pub fn insert(&mut self, key: String, value: u64)
        requires
            old(self).wf(),
        ensures
            final(self).wf(),
            final(self).spec_max_level() == old(self).spec_max_level(),
            (exists|i: int|
                0 <= i < old(self)@.len() && (#[trigger] old(self)@[i]).0 == key@ && score_rank(
                    old(self)@[i].1,
                ) == score_rank(value)) ==> final(self)@ == old(self)@,
            !(exists|i: int|
                0 <= i < old(self)@.len() && (#[trigger] old(self)@[i]).0 == key@ && score_rank(
                    old(self)@[i].1,
                ) == score_rank(value)) ==> forall|e: (Seq<char>, u64)|
                #[trigger] final(self)@.contains(e) <==> ((old(self)@.contains(e) && e.0 != key@) || e
                    == (key@, value)),
    {
        let ghost target = (key@, value);
        if let Some(p) = self.key_to_pos.get(key.as_str()) {
            let pos = *p;
            proof {
                let k = self.order@.index_of(pos);
                assert(self@[k] == (key@, self.nodes@[pos as int].score));
            }
            if rank_of_score(self.nodes[pos].score) == rank_of_score(value) {
                return;
            }
            proof {
                assert forall|i: int| 0 <= i < self@.len() && (#[trigger] self@[i]).0 == key@ implies score_rank(self@[i].1) != score_rank(value) by {
                    let k = self.order@.index_of(pos);
                    if i != k {
                        assert(self@[k].0 == key@);
                    }
                }
            }
            self.remove(&key);
        } else {
            proof {
                assert forall|i: int| 0 <= i < self@.len() implies (#[trigger] self@[i]).0 != key@ by {
                    assert(self.key_to_pos@.contains_key(self.nodes@[self.order@[i] as int].key@));
                }
            }
        }
        let ghost base = *self;
        proof {
            assert forall|e: (Seq<char>, u64)| base@.contains(e) <==> (old(self)@.contains(e) && e.0 != key@) by {
                if base@.contains(e) {
                    let k = base@.index_of(e);
                    assert(base@[k] == e);
                }
                if old(self)@.contains(e) && e.0 != key@ {
                    let k = old(self)@.index_of(e);
                    assert(old(self)@[k] == e);
                    if base@ != old(self)@ {
                        let t0 = choose|t0: int| 0 <= t0 < old(self)@.len() && old(self)@[t0].0 == key@ && base@ == old(self)@.remove(t0);
                        assert(k != t0);
                        let kk = if k < t0 { k } else { k - 1 };
                        assert(base@[kk] == e);
                    }
                }
            }
            assert(!has_member(base@, key@));
        }
        let (to_update, rank, Ghost(upd)) = self.search_path(&key, value);
        let ghost t = upd[0] + 1;
        let mut new_level: usize = 0;
        while coin_flip() && new_level < self.max_level - 1
            invariant
                new_level < self.max_level,
            decreases self.max_level - new_level,
        {
            new_level = new_level + 1;
        }
        self.raise_level(new_level, Ghost(upd), Ghost(t));
        let ghost pre = *self;
        proof {
            assert(self@ == base@);
            assert(forall|k: int| 0 <= k < t ==> entry_lt(#[trigger] self@[k], target));
            assert(forall|k: int| t <= k < self@.len() ==> entry_lt(target, #[trigger] self@[k]));
            assert(self.key_to_pos.spec_len() == self.key_to_pos@.len());
        }
        let h = new_level + 1;
        let pos = if let Some(free) = self.free_list.pop() {
            proof {
                assert(pre.free_list@[pre.free_list@.len() - 1] == free);
            }
            self.nodes.set(free, Node::new(key.clone(), value, h));
            free
        } else {
            self.nodes.push(Node::new(key.clone(), value, h));
            self.nodes.len() - 1
        };
        proof {
            assert((self.free_list@.push(pos) =~= pre.free_list@ && self.nodes@.len() == pre.nodes@.len())
                || (self.free_list@ == pre.free_list@ && pos == pre.nodes@.len()
                && self.nodes@.len() == pre.nodes@.len() + 1));
            assert(!pre.order@.contains(pos));
            assert(!pre.key_to_pos@.contains_key(key@)) by {
                if pre.key_to_pos@.contains_key(key@) {
                    let q = pre.key_to_pos@[key@];
                    let kq = pre.order@.index_of(q);
                    assert(pre@[kq].0 == key@);
                }
            }
        }
        self.key_to_pos.insert(key, pos);
        proof {
            assert(self.key_to_pos.spec_len() == self.key_to_pos@.len());
            assert(self.key_to_pos@.len() == pre.order@.len() + 1);
            assert forall|k: int| 0 <= k < pre.order@.len() implies pre.order@[k] != pos by {}
            assert forall|k: int| 0 <= k < pre.order@.len() implies {
                let a = #[trigger] self.nodes@[pre.order@[k] as int];
                let b = pre.nodes@[pre.order@[k] as int];
                &&& a.key == b.key
                &&& a.score == b.score
                &&& a.forward@.len() == b.forward@.len()
                &&& a.span@.len() == b.span@.len()
            } by {
                assert(pre.order@[k] != pos);
            }
            assert forall|l: int, k: int| pre.on_level(l, k) implies {
                &&& #[trigger] pre.ptr_at(*self, l, k) == pre.ptr(l, k)
                &&& pre.spn_at(*self, l, k) == pre.spn(l, k)
            } by {
                if k != -1 {
                    assert(pre.order@[k] != pos);
                }
            }
            assert(linking(pre, *self, upd, t, h as int, pos, 0));
        }
        let ghost before_link = *self;
        self.link_node(pos, new_level, &to_update, &rank, Ghost(pre), Ghost(upd));
        let ghost linked = *self;
        self.order = Ghost(self.order@.insert(t, pos));
        proof {
            assert forall|l: int, k: int| pre.on_level(l, k) implies {
                &&& #[trigger] pre.ptr_at(*self, l, k) == inserted_ptr(pre, upd, h as int, pos, l, k)
                &&& pre.spn_at(*self, l, k) == inserted_span(pre, upd, t, h as int, l, k)
            } by {
                assert(l < pre.level + 1);
                assert(pre.ptr_at(linked, l, k) == pre.ptr_at(*self, l, k));
                assert(pre.spn_at(linked, l, k) == pre.spn_at(*self, l, k));
            }
            assert forall|l: int| 0 <= l < h implies {
                &&& #[trigger] self.nodes@[pos as int].forward@[l] == pre.ptr(l, upd[l])
                &&& self.nodes@[pos as int].span@[l] == pre.spn(l, upd[l]) - (t - 1 - upd[l])
            } by {
                assert(l < pre.level + 1);
            }
            SkipList::lemma_insert_wf(pre, *self, t, upd, h as int, pos, target);
            lemma_entry_lt_properties();
            assert forall|e: (Seq<char>, u64)| #[trigger] self@.contains(e) <==> ((old(self)@.contains(e) && e.0 != key@) || e == target) by {
                if self@.contains(e) {
                    let k = self@.index_of(e);
                    if k < t {
                        assert(base@[k] == e);
                    } else if k > t {
                        assert(base@[k - 1] == e);
                    }
                }
                if base@.contains(e) {
                    let k = base@.index_of(e);
                    let kk = if k < t { k } else { k + 1 };
                    assert(self@[kk] == e);
                }
                if e == target {
                    assert(self@[t] == e);
                }
            }
        }
    }
}


/// The rank at which `range(from, ..)` starts: ranks are counted from 1, and
/// a `from` of 0 starts at the first entry too.
pub open spec fn range_start(from: int) -> int {
    if from == 0 {
        0
    } else {
        from - 1
    }
}

impl SkipList {
    /// The members at ranks `from..=to` (ranks counted from 1; `from == 0`
    /// counts as rank 1), each paired with `from` plus its offset, found by
    /// following spans down the levels.
    pub fn range(&self, from: usize, to: usize) -> (r: Vec<(usize, String)>)
        requires
            self.wf(),
            from <= to,
            range_start(from as int) + (to - from) < self@.len(),
        ensures
            r@.len() == to - from + 1,
            forall|i: int|
                0 <= i < r@.len() ==> (#[trigger] r@[i]).0 == from + i && r@[i].1@ == self@[range_start(
                    from as int,
                ) + i].0,
    {
        let ghost hs = self.hts();
        let ghost n = self.order@.len();
        proof {
            assert(self.key_to_pos.spec_len() == self.key_to_pos@.len());
        }
        let mut current: Option<usize> = None;
        let ghost mut c: int = -1;
        let mut count: usize = 0;
        let mut i: usize = self.level + 1;
        while i > 0
            invariant
                self.wf(),
                hs == self.hts(),
                n == self.order@.len(),
                n <= usize::MAX,
                range_start(from as int) + (to - from) < n,
                from <= to,
                i <= self.level + 1,
                -1 <= c < n,
                c == -1 || (hs[c] >= i && c + 1 < from),
                current == (if c == -1 { None } else { Some(self.order@[c]) }),
                count == c + 1,
                i == 0 ==> c + 1 == range_start(from as int),
            decreases i,
        {
            i = i - 1;
            let lv = i;
            let mut next = match current {
                Some(p) => self.nodes[p].forward[lv],
                None => self.head[lv],
            };
            loop
                invariant
                    self.wf(),
                    hs == self.hts(),
                    n == self.order@.len(),
                    n <= usize::MAX,
                    range_start(from as int) + (to - from) < n,
                    from <= to,
                    lv <= self.level,
                    -1 <= c < n,
                    c == -1 || (hs[c] > lv && c + 1 < from),
                    current == (if c == -1 { None } else { Some(self.order@[c]) }),
                    next == self.ptr(lv as int, c),
                    count == c + 1,
                ensures
                    -1 <= c < n,
                    c == -1 || (hs[c] > lv && c + 1 < from),
                    current == (if c == -1 { None } else { Some(self.order@[c]) }),
                    count == c + 1,
                    next_above(hs, lv as int, c) == n || next_above(hs, lv as int, c) + 1 >= from,
                decreases n - c,
            {
                proof {
                    assert(self.on_level(lv as int, c));
                    self.lemma_span_bound(lv as int, c);
                }
                match next {
                    Some(nv) => {
                        let ghost k = next_above(hs, lv as int, c);
                        let dist = match current {
                            Some(cp) => self.nodes[cp].span[lv],
                            None => self.head_span[lv],
                        };
                        if count + dist >= from {
                            break;
                        }
                        count = count + dist;
                        current = next;
                        proof {
                            assert(self.on_level(lv as int, k));
                            c = k;
                        }
                        next = self.nodes[nv].forward[lv];
                    },
                    None => {
                        break;
                    },
                }
            }
            proof {
                if lv == 0 {
                    lemma_next_above(hs, 0, c);
                    if c + 1 < n {
                        assert(self.nodes@[self.order@[c + 1] as int].forward@.len() >= 1);
                        lemma_next_above_is(hs, 0, c, c + 1);
                    } else {
                        lemma_next_above_is(hs, 0, c, n as int);
                    }
                    assert(c + 1 == range_start(from as int));
                }
            }
        }
        let mut list: Vec<(usize, String)> = Vec::new();
        let ghost start = range_start(from as int);
        let mut j: usize = 0;
        while j <= to - from
            invariant
                self.wf(),
                hs == self.hts(),
                n == self.order@.len(),
                from <= to,
                start == range_start(from as int),
                start + (to - from) < n,
                n <= usize::MAX,
                j <= to - from + 1,
                c == start - 1 + j,
                current == (if c == -1 { None } else { Some(self.order@[c]) }),
                list@.len() == j,
                forall|x: int| 0 <= x < j ==> (#[trigger] list@[x]).0 == from + x && list@[x].1@ == self@[start + x].0,
            decreases to - from + 1 - j,
        {
            proof {
                assert(self.on_level(0, c));
                self.lemma_span_bound(0, c);
                lemma_next_above(hs, 0, c);
                assert(self.nodes@[self.order@[c + 1] as int].forward@.len() >= 1);
                lemma_next_above_is(hs, 0, c, c + 1);
            }
            let nxt = match current {
                Some(cp) => self.nodes[cp].forward[0],
                None => self.head[0],
            };
            let p = nxt.unwrap();
            list.push((from + j, self.nodes[p].key.clone()));
            current = Some(p);
            proof {
                c = c + 1;
            }
            j = j + 1;
        }
        list
    }
}


impl SkipList {
    /// The number of entries.
    pub fn len(&self) -> (r: usize)
        requires
            self.wf(),
        ensures
            r == self@.len(),
    {
        self.key_to_pos.len()
    }

    /// All entries in ascending order, as (member, score).
    pub fn iter_all(&self) -> (r: Vec<(String, u64)>)
        requires
            self.wf(),
        ensures
            r@.len() == self@.len(),
            forall|i: int| 0 <= i < r@.len() ==> (#[trigger] r@[i]).0@ == self@[i].0 && r@[i].1 == self@[i].1,
    {
        let ghost hs = self.hts();
        let ghost n = self.order@.len();
        let mut out: Vec<(String, u64)> = Vec::new();
        let mut current = self.head[0];
        let ghost mut c: int = -1;
        while current.is_some()
            invariant
                self.wf(),
                hs == self.hts(),
                n == self.order@.len(),
                -1 <= c < n,
                current == self.ptr(0, c),
                out@.len() == c + 1,
                forall|i: int| 0 <= i < out@.len() ==> (#[trigger] out@[i]).0@ == self@[i].0 && out@[i].1 == self@[i].1,
            decreases n - c,
        {
            proof {
                assert(self.on_level(0, c));
                self.lemma_span_bound(0, c);
                lemma_next_above(hs, 0, c);
                if c + 1 < n {
                    assert(self.nodes@[self.order@[c + 1] as int].forward@.len() >= 1);
                    lemma_next_above_is(hs, 0, c, c + 1);
                }
            }
            let p = current.unwrap();
            out.push((self.nodes[p].key.clone(), self.nodes[p].score));
            current = self.nodes[p].forward[0];
            proof {
                c = c + 1;
            }
        }
        proof {
            assert(self.on_level(0, c));
            self.lemma_span_bound(0, c);
            lemma_next_above(hs, 0, c);
            if c + 1 < n {
                assert(self.nodes@[self.order@[c + 1] as int].forward@.len() >= 1);
                lemma_next_above_is(hs, 0, c, c + 1);
            }
        }
        out
    }
}

} // verus!
