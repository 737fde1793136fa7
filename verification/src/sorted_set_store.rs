//! The sorted sets of the database, each a skip list, found by their key.
use vstd::prelude::*;
use vstd::hash_map::StringHashMap;
use crate::order::{entry_lt, lemma_entry_lt_properties, score_rank};
use crate::sorted_set::{SkipList, entries_sorted, has_member, members_distinct};

verus! {

broadcast use vstd::hash_map::group_hash_map_axioms;

/// How many levels the skip list of a sorted set may have.
pub const TREE_HEIGHT: usize = 16;

/// The entries of one sorted set, ascending: (member, score bits).
pub type SetEntries = Seq<(Seq<char>, u64)>;

/// A valid sorted set: ascending, no member twice.
pub open spec fn set_valid(s: SetEntries) -> bool {
    entries_sorted(s) && members_distinct(s)
}

/// `new` is `old` after setting `member` to `score`: unchanged if the
/// member is there with an equal score, else with the member's entry replaced
/// or added.
pub open spec fn zadd_result(old: SetEntries, new: SetEntries, member: Seq<char>, score: u64) -> bool {
    &&& set_valid(new)
    &&& (exists|i: int| 0 <= i < old.len() && (#[trigger] old[i]).0 == member && score_rank(old[i].1) == score_rank(score))
        ==> new == old
    &&& !(exists|i: int| 0 <= i < old.len() && (#[trigger] old[i]).0 == member && score_rank(old[i].1) == score_rank(score))
        ==> forall|e: (Seq<char>, u64)| #[trigger] new.contains(e) <==> ((old.contains(e) && e.0 != member) || e == (member, score))
}

/// The indices `start..=stop` that `ZRANGE from to` covers in a set of `n`
/// entries (negative indices count from the end), or `None` when it covers
/// nothing.
pub open spec fn zrange_bounds(n: int, from: int, to: int) -> Option<(int, int)> {
    let start0 = if from < 0 { from + n } else { from };
    let stop0 = if to < 0 { to + n } else { to };
    let start = if start0 < 0 { 0 } else { start0 };
    let stop = if stop0 >= n { n - 1 } else { stop0 };
    if start > stop || start >= n {
        None
    } else {
        Some((start, stop))
    }
}

/// `ZRANGE from to` on a set of `n` entries covers exactly the positions
/// between `from` and `to`, both included, where a non-negative index counts
/// from the start (0 is the first entry) and a negative one from the end (-1
/// is the last entry, so position `p` is also index `p - n`); what it covers
/// lies within the set.
pub proof fn law_zrange_positions(n: int, from: int, to: int, p: int)
    requires
        0 <= p < n,
    ensures
        (zrange_bounds(n, from, to) matches Some((a, b)) && a <= p <= b) <==> ((if from < 0 {
            p - n >= from
        } else {
            p >= from
        }) && (if to < 0 {
            p - n <= to
        } else {
            p <= to
        })),
        zrange_bounds(n, from, to) matches Some((a, b)) ==> 0 <= a <= b < n,
{
}

/// The index of member `m`'s entry.
pub open spec fn member_index(s: SetEntries, m: Seq<char>) -> int {
    choose|i: int| 0 <= i < s.len() && (#[trigger] s[i]).0 == m
}

/// The score of member `m`, if it is in the set.
pub open spec fn score_of(s: SetEntries, m: Seq<char>) -> Option<u64> {
    if has_member(s, m) {
        Some(s[member_index(s, m)].1)
    } else {
        None
    }
}

/// The set without member `m`.
pub open spec fn set_without(s: SetEntries, m: Seq<char>) -> SetEntries {
    if has_member(s, m) {
        s.remove(member_index(s, m))
    } else {
        s
    }
}

/// With distinct members, the entry of a member is the one at its index.
pub proof fn lemma_member_index(s: SetEntries, i: int)
    requires
        members_distinct(s),
        0 <= i < s.len(),
    ensures
        has_member(s, s[i].0),
        member_index(s, s[i].0) == i,
        score_of(s, s[i].0) == Some(s[i].1),
{
    assert(s[i].0 == s[i].0);
    let j = member_index(s, s[i].0);
    if j != i {
        if j < i {
            assert(s[j].0 != s[i].0);
        } else {
            assert(s[i].0 != s[j].0);
        }
    }
}

/// A valid sorted set is determined by its entries: two valid sets with the
/// same entries are the same sequence.
pub proof fn law_set_determined_by_entries(a: SetEntries, b: SetEntries)
    requires
        set_valid(a),
        set_valid(b),
        forall|e: (Seq<char>, u64)| a.contains(e) <==> b.contains(e),
    ensures
        a == b,
    decreases a.len(),
{
    lemma_entry_lt_properties();
    if a.len() == 0 {
        if b.len() > 0 {
            assert(b.contains(b[0]));
        }
        assert(a =~= b);
    } else {
        assert(a.contains(a[0]));
        assert(b.len() > 0);
        assert(b.contains(b[0]));
        if a[0] != b[0] {
            let j = a.index_of(b[0]);
            let k = b.index_of(a[0]);
            assert(entry_lt(a[0], a[j]));
            assert(entry_lt(b[0], b[k]));
        }
        let a2 = a.drop_first();
        let b2 = b.drop_first();
        assert forall|e: (Seq<char>, u64)| a2.contains(e) <==> b2.contains(e) by {
            if a2.contains(e) {
                let i = a2.index_of(e);
                assert(a[i + 1] == e);
                assert(b.contains(e));
                let j = b.index_of(e);
                if j == 0 {
                    assert(entry_lt(a[0], a[i + 1]));
                }
                assert(b2[j - 1] == e);
            }
            if b2.contains(e) {
                let i = b2.index_of(e);
                assert(b[i + 1] == e);
                assert(a.contains(e));
                let j = a.index_of(e);
                if j == 0 {
                    assert(entry_lt(b[0], b[i + 1]));
                }
                assert(a2[j - 1] == e);
            }
        }
        law_set_determined_by_entries(a2, b2);
        assert(a =~= seq![a[0]] + a2);
        assert(b =~= seq![b[0]] + b2);
    }
}

/// The set after `ZADD member score`.
pub open spec fn zadd_spec(old: SetEntries, member: Seq<char>, score: u64) -> SetEntries {
    choose|new: SetEntries| zadd_result(old, new, member, score)
}

/// There is one set that `ZADD` can give.
pub proof fn lemma_zadd_spec(old: SetEntries, new: SetEntries, member: Seq<char>, score: u64)
    requires
        zadd_result(old, new, member, score),
        set_valid(old),
    ensures
        zadd_spec(old, member, score) == new,
{
    let c = zadd_spec(old, member, score);
    assert(zadd_result(old, c, member, score));
    if exists|i: int| 0 <= i < old.len() && (#[trigger] old[i]).0 == member && score_rank(old[i].1) == score_rank(score) {
    } else {
        law_set_determined_by_entries(c, new);
    }
}

struct Slot {
    key: String,
    list: SkipList,
}

/// Sorted sets by key.
pub struct SortedSetStore {
    index: StringHashMap<usize>,
    sets: Vec<Slot>,
}

impl SortedSetStore {
    /// The sets: key to entries.
    pub closed spec fn view_sets(&self) -> Map<Seq<char>, SetEntries> {
        Map::new(|k: Seq<char>| self.index@.contains_key(k), |k: Seq<char>| self.sets@[self.index@[k] as int].list@)
    }

    pub closed spec fn wf(&self) -> bool {
        &&& self.index@.dom().finite()
        &&& forall|i: int|
            0 <= i < self.sets@.len() ==> #[trigger] self.index@.contains_key(self.sets@[i].key@) && self.index@[self.sets@[i].key@] == i
        &&& forall|k: Seq<char>|
            #[trigger] self.index@.contains_key(k) ==> self.index@[k] < self.sets@.len() && self.sets@[self.index@[k] as int].key@ == k
        &&& forall|i: int|
            0 <= i < self.sets@.len() ==> (#[trigger] self.sets@[i]).list.wf()
                && self.sets@[i].list.spec_max_level() == TREE_HEIGHT && self.sets@[i].list@.len() > 0
    }

    /// What well-formedness gives callers: every set is valid and non-empty.
    pub proof fn lemma_wf(&self)
        requires
            self.wf(),
        ensures
            forall|k: Seq<char>| #[trigger] self.view_sets().contains_key(k) ==> set_valid(self.view_sets()[k])
                && self.view_sets()[k].len() > 0,
            self.view_sets().dom().finite(),
    {
        assert forall|k: Seq<char>| #[trigger] self.view_sets().contains_key(k) implies set_valid(self.view_sets()[k])
            && self.view_sets()[k].len() > 0 by {
            let i = self.index@[k] as int;
            assert(self.sets@[i].list.wf());
            self.sets@[i].list.lemma_valid();
        }
        assert(self.view_sets().dom() =~= self.index@.dom());
    }

    /// No sets.
    pub fn new() -> (r: Self)
        ensures
            r.wf(),
            r.view_sets() == Map::<Seq<char>, SetEntries>::empty(),
    {
        let r = Self { index: StringHashMap::new(), sets: Vec::new() };
        assert(r.view_sets() =~= Map::<Seq<char>, SetEntries>::empty());
        r
    }
}


impl SortedSetStore {
    /// Adds member `member` with score `score` to the set at `key`, creating
    /// the set if needed; true when the member was not there before.
    pub fn zadd(&mut self, key: &String, member: String, score: u64) -> (r: bool)
        requires
            old(self).wf(),
        ensures
            final(self).wf(),
            final(self).view_sets() == old(self).view_sets().insert(key@, final(self).view_sets()[key@]),
            ({
                let before = if old(self).view_sets().contains_key(key@) {
                    old(self).view_sets()[key@]
                } else {
                    SetEntries::empty()
                };
                &&& zadd_result(before, final(self).view_sets()[key@], member@, score)
                &&& final(self).view_sets()[key@] == zadd_spec(before, member@, score)
                &&& r == !has_member(before, member@)
            }),
            store_step(old(self).view_sets(), final(self).view_sets(), StoreOp::Add(key@, member@, score)),
    {
        let i = match self.index.get(key.as_str()) {
            Some(i) => *i,
            None => {
                let n = self.sets.len();
                self.sets.push(Slot { key: key.clone(), list: SkipList::new(TREE_HEIGHT) });
                self.index.insert(key.clone(), n);
                n
            },
        };
        let ghost mid = *self;
        let ghost before = self.sets@[i as int].list@;
        proof {
            assert(before == (if old(self).view_sets().contains_key(key@) {
                old(self).view_sets()[key@]
            } else {
                SetEntries::empty()
            }));
            assert forall|j: int| 0 <= j < mid.sets@.len() implies #[trigger] mid.index@.contains_key(mid.sets@[j].key@)
                && mid.index@[mid.sets@[j].key@] == j by {
                if j < old(self).sets@.len() {
                    assert(old(self).index@.contains_key(old(self).sets@[j].key@));
                }
            }
        }
        let is_new = match self.sets[i].list.get(&member) {
            Some(_) => {
                proof {
                    assert(has_member(before, member@)) by {
                        let e = choose|e: (Seq<char>, u64)| before.contains(e) && e.0 == member@;
                    }
                }
                false
            },
            None => true,
        };
        self.sets[i].list.insert(member, score);
        proof {
            let after = self.sets@[i as int].list@;
            self.sets@[i as int].list.lemma_valid();
            mid.sets@[i as int].list.lemma_valid();
            assert(self.view_sets() =~= old(self).view_sets().insert(key@, after));
            lemma_zadd_spec(before, after, member@, score);
            if exists|j: int| 0 <= j < before.len() && (#[trigger] before[j]).0 == member@ && score_rank(before[j].1) == score_rank(score) {
                let j = choose|j: int| 0 <= j < before.len() && (#[trigger] before[j]).0 == member@ && score_rank(before[j].1) == score_rank(score);
                assert(after.len() > 0);
            } else {
                assert(after.contains((member@, score)));
            }
            assert forall|j: int| 0 <= j < self.sets@.len() implies (#[trigger] self.sets@[j]).list.wf()
                && self.sets@[j].list.spec_max_level() == TREE_HEIGHT && self.sets@[j].list@.len() > 0 by {
                if j != i {
                    assert(self.sets@[j] == mid.sets@[j]);
                    if j < old(self).sets@.len() {
                        assert(old(self).sets@[j].list.wf());
                    }
                }
            }
        }
        is_new
    }
}


/// After `ZADD member score`, the member's score ranks equal to `score`
/// (it is `score` itself unless an equal score was already there).
pub proof fn law_zadd_then_zscore(old: SetEntries, new: SetEntries, member: Seq<char>, score: u64)
    requires
        set_valid(old),
        zadd_result(old, new, member, score),
    ensures
        score_of(new, member) is Some,
        score_rank(score_of(new, member)->0) == score_rank(score),
        !(score_of(old, member) matches Some(s) && score_rank(s) == score_rank(score)) ==> score_of(new, member)
            == Some(score),
{
    if exists|i: int| 0 <= i < old.len() && (#[trigger] old[i]).0 == member && score_rank(old[i].1) == score_rank(score) {
        let i = choose|i: int| 0 <= i < old.len() && (#[trigger] old[i]).0 == member && score_rank(old[i].1) == score_rank(
            score,
        );
        lemma_member_index(old, i);
    } else {
        assert(new.contains((member, score)));
        let j = new.index_of((member, score));
        lemma_member_index(new, j);
        if score_of(old, member) matches Some(s) {
            let i = member_index(old, member);
            assert(old[i].0 == member);
        }
    }
}

/// `ZADD` leaves the scores of the other members as they were.
pub proof fn law_zadd_keeps_others(old: SetEntries, new: SetEntries, member: Seq<char>, score: u64, other: Seq<char>)
    requires
        set_valid(old),
        zadd_result(old, new, member, score),
        other != member,
    ensures
        score_of(new, other) == score_of(old, other),
{
    if exists|i: int| 0 <= i < old.len() && (#[trigger] old[i]).0 == member && score_rank(old[i].1) == score_rank(score) {
    } else {
        if has_member(old, other) {
            let i = member_index(old, other);
            assert(new.contains(old[i]));
            let j = new.index_of(old[i]);
            lemma_member_index(new, j);
            lemma_member_index(old, i);
        }
        if has_member(new, other) {
            let j = member_index(new, other);
            assert(new.contains(new[j]));
            assert(old.contains(new[j]));
            let i = old.index_of(new[j]);
            lemma_member_index(old, i);
        }
    }
}

/// `ZREM member` takes the member out and leaves the other members' scores
/// as they were.
pub proof fn law_zrem_then_zscore(old: SetEntries, member: Seq<char>, other: Seq<char>)
    requires
        members_distinct(old),
        other != member,
    ensures
        score_of(set_without(old, member), member) is None,
        score_of(set_without(old, member), other) == score_of(old, other),
{
    if has_member(old, member) {
        let i = member_index(old, member);
        let new = old.remove(i);
        if has_member(new, member) {
            let j = member_index(new, member);
            if j < i {
                assert(old[j] == new[j]);
            } else {
                assert(old[j + 1] == new[j]);
            }
        }
        if has_member(old, other) {
            let k = member_index(old, other);
            lemma_member_index(old, k);
            let kk = if k < i { k } else { k - 1 };
            assert(new[kk] == old[k]);
            assert forall|x: int, y: int| 0 <= x < y < new.len() implies (#[trigger] new[x]).0 != (#[trigger] new[y]).0 by {
                let ox = if x < i { x } else { x + 1 };
                let oy = if y < i { y } else { y + 1 };
                assert(old[ox] == new[x]);
                assert(old[oy] == new[y]);
            }
            lemma_member_index(new, kk);
        }
        if has_member(new, other) {
            let j = member_index(new, other);
            let oj = if j < i { j } else { j + 1 };
            assert(old[oj] == new[j]);
            lemma_member_index(old, oj);
        }
    }
}

/// A write to one sorted set: `ZADD member score` or `ZREM member`.
pub ghost enum SetOp {
    Add(Seq<char>, u64),
    Rem(Seq<char>),
}

/// `new` is `old` after `op`, as `zadd`, `zrem` (and `SkipList::insert`,
/// `remove`) state it.
pub open spec fn set_step(old: SetEntries, new: SetEntries, op: SetOp) -> bool {
    match op {
        SetOp::Add(m, sc) => zadd_result(old, new, m, sc),
        SetOp::Rem(m) => new == set_without(old, m),
    }
}

/// The score last written for `m` by `ops`: `None` if it was last removed or
/// never added.
pub open spec fn last_score(ops: Seq<SetOp>, m: Seq<char>) -> Option<u64>
    decreases ops.len(),
{
    if ops.len() == 0 {
        None
    } else {
        match ops.last() {
            SetOp::Add(x, sc) => if x == m {
                Some(sc)
            } else {
                last_score(ops.drop_last(), m)
            },
            SetOp::Rem(x) => if x == m {
                None
            } else {
                last_score(ops.drop_last(), m)
            },
        }
    }
}

proof fn lemma_without_valid(s: SetEntries, m: Seq<char>)
    requires
        set_valid(s),
    ensures
        set_valid(set_without(s, m)),
{
    if has_member(s, m) {
        let i = member_index(s, m);
        let n = s.remove(i);
        assert forall|x: int, y: int| 0 <= x < y < n.len() implies entry_lt(#[trigger] n[x], #[trigger] n[y]) by {
            let ox = if x < i { x } else { x + 1 };
            let oy = if y < i { y } else { y + 1 };
            assert(s[ox] == n[x] && s[oy] == n[y]);
        }
        assert forall|x: int, y: int| 0 <= x < y < n.len() implies (#[trigger] n[x]).0 != (#[trigger] n[y]).0 by {
            let ox = if x < i { x } else { x + 1 };
            let oy = if y < i { y } else { y + 1 };
            assert(s[ox] == n[x] && s[oy] == n[y]);
        }
    }
}

/// A sorted set read through `ZSCORE` (or `SkipList::get`) is a map from
/// member to score: after any sequence of writes from the empty set, a
/// member has no score if it was last removed or never added, and otherwise
/// a score ranking equal to the one last added for it (it is that score,
/// unless `ZADD` found an equal score there and kept it).
pub proof fn law_zscore_after_writes(states: Seq<SetEntries>, ops: Seq<SetOp>, m: Seq<char>)
    requires
        states.len() == ops.len() + 1,
        states[0] == SetEntries::empty(),
        forall|i: int| 0 <= i < ops.len() ==> set_step(#[trigger] states[i], states[i + 1], ops[i]),
    ensures
        set_valid(states.last()),
        match last_score(ops, m) {
            None => score_of(states.last(), m) is None,
            Some(sc) => score_of(states.last(), m) matches Some(x) && score_rank(x) == score_rank(sc),
        },
    decreases ops.len(),
{
    if ops.len() == 0 {
        assert(!has_member(states[0], m));
    } else {
        let n = ops.len() - 1;
        let st = states.drop_last();
        let os = ops.drop_last();
        assert forall|i: int| 0 <= i < os.len() implies set_step(#[trigger] st[i], st[i + 1], os[i]) by {
            assert(set_step(states[i], states[i + 1], ops[i]));
        }
        law_zscore_after_writes(st, os, m);
        let old = states[n];
        let new = states[n + 1];
        assert(st.last() == old);
        assert(set_step(old, new, ops[n]));
        match ops[n] {
            SetOp::Add(x, sc) => {
                if x == m {
                    law_zadd_then_zscore(old, new, x, sc);
                } else {
                    law_zadd_keeps_others(old, new, x, sc, m);
                }
            },
            SetOp::Rem(x) => {
                lemma_without_valid(old, x);
                if x == m {
                    law_zrem_then_zscore(old, x, x + seq!['a']);
                } else {
                    law_zrem_then_zscore(old, x, m);
                }
            },
        }
    }
}

/// A write to the sorted sets of a store: `ZADD key member score` or
/// `ZREM key member`.
pub ghost enum StoreOp {
    Add(Seq<char>, Seq<char>, u64),
    Rem(Seq<char>, Seq<char>),
}

/// The set at `k`, or no entries when there is none.
pub open spec fn set_at(sets: Map<Seq<char>, SetEntries>, k: Seq<char>) -> SetEntries {
    if sets.contains_key(k) {
        sets[k]
    } else {
        SetEntries::empty()
    }
}

/// What `ZSCORE k m` gives.
pub open spec fn store_score(sets: Map<Seq<char>, SetEntries>, k: Seq<char>, m: Seq<char>) -> Option<u64> {
    if sets.contains_key(k) {
        score_of(sets[k], m)
    } else {
        None
    }
}

/// `new` is the sets after `op` on `old`, as `SortedSetStore::zadd` and
/// `SortedSetStore::zrem` state it.
pub open spec fn store_step(old: Map<Seq<char>, SetEntries>, new: Map<Seq<char>, SetEntries>, op: StoreOp) -> bool {
    match op {
        StoreOp::Add(k, m, sc) => {
            &&& new == old.insert(k, new[k])
            &&& zadd_result(set_at(old, k), new[k], m, sc)
        },
        StoreOp::Rem(k, m) => new == (if old.contains_key(k) {
            if set_without(old[k], m).len() == 0 {
                old.remove(k)
            } else {
                old.insert(k, set_without(old[k], m))
            }
        } else {
            old
        }),
    }
}

/// The score last written for member `m` of set `k` by `ops`: `None` if it
/// was last removed or never added.
pub open spec fn last_store_score(ops: Seq<StoreOp>, k: Seq<char>, m: Seq<char>) -> Option<u64>
    decreases ops.len(),
{
    if ops.len() == 0 {
        None
    } else {
        match ops.last() {
            StoreOp::Add(k2, m2, sc) => if k2 == k && m2 == m {
                Some(sc)
            } else {
                last_store_score(ops.drop_last(), k, m)
            },
            StoreOp::Rem(k2, m2) => if k2 == k && m2 == m {
                None
            } else {
                last_store_score(ops.drop_last(), k, m)
            },
        }
    }
}

/// `ZSCORE` over the whole store is a map from (key, member) to score: after
/// any sequence of `ZADD`/`ZREM` writes, on any keys, from a store with no
/// sets, `ZSCORE k m` gives nothing if `m` was last removed from `k` or never
/// added to it, and otherwise a score ranking equal to the one last added
/// for it (it is that score, unless `ZADD` found an equal score there and
/// kept it).  Every set stays valid along the way.
pub proof fn law_store_zscore_after_writes(
    states: Seq<Map<Seq<char>, SetEntries>>,
    ops: Seq<StoreOp>,
    k: Seq<char>,
    m: Seq<char>,
)
    requires
        states.len() == ops.len() + 1,
        states[0] == Map::<Seq<char>, SetEntries>::empty(),
        forall|i: int| 0 <= i < ops.len() ==> store_step(#[trigger] states[i], states[i + 1], ops[i]),
    ensures
        forall|x: Seq<char>| #[trigger] states.last().contains_key(x) ==> set_valid(states.last()[x]),
        match last_store_score(ops, k, m) {
            None => store_score(states.last(), k, m) is None,
            Some(sc) => store_score(states.last(), k, m) matches Some(x) && score_rank(x) == score_rank(sc),
        },
    decreases ops.len(),
{
    if ops.len() > 0 {
        let n = ops.len() - 1;
        let st = states.drop_last();
        let os = ops.drop_last();
        assert forall|i: int| 0 <= i < os.len() implies store_step(#[trigger] st[i], st[i + 1], os[i]) by {
            assert(store_step(states[i], states[i + 1], ops[i]));
        }
        law_store_zscore_after_writes(st, os, k, m);
        let old = states[n];
        let new = states[n + 1];
        assert(st.last() == old);
        assert(store_step(old, new, ops[n]));
        assert(set_valid(set_at(old, k)));
        match ops[n] {
            StoreOp::Add(k2, m2, sc) => {
                let before = set_at(old, k2);
                assert(set_valid(before));
                assert(new.contains_key(k2));
                assert forall|x: Seq<char>| #[trigger] new.contains_key(x) implies set_valid(new[x]) by {
                    if x != k2 {
                        assert(old.contains_key(x));
                    }
                }
                if k2 == k {
                    if m2 == m {
                        law_zadd_then_zscore(before, new[k2], m2, sc);
                    } else {
                        law_zadd_keeps_others(before, new[k2], m2, sc, m);
                    }
                } else {
                    assert(new.contains_key(k) == old.contains_key(k));
                }
            },
            StoreOp::Rem(k2, m2) => {
                if old.contains_key(k2) {
                    lemma_without_valid(old[k2], m2);
                    let after = set_without(old[k2], m2);
                    assert forall|x: Seq<char>| #[trigger] new.contains_key(x) implies set_valid(new[x]) by {
                        if x != k2 {
                            assert(old.contains_key(x));
                        }
                    }
                    if k2 == k {
                        if m2 == m {
                            law_zrem_then_zscore(old[k2], m2, m2 + seq!['a']);
                        } else {
                            law_zrem_then_zscore(old[k2], m2, m);
                            if after.len() == 0 {
                                assert(!has_member(after, m));
                            }
                        }
                    } else {
                        assert(new.contains_key(k) == old.contains_key(k));
                    }
                }
            },
        }
    }
}

/// What `SortedSetStore::zrem` states is a `ZREM` step of `store_step`.
pub proof fn lemma_zrem_is_step(
    old: Map<Seq<char>, SetEntries>,
    new: Map<Seq<char>, SetEntries>,
    k: Seq<char>,
    m: Seq<char>,
)
    requires
        !old.contains_key(k) ==> new == old,
        old.contains_key(k) ==> new == (if set_without(old[k], m).len() == 0 {
            old.remove(k)
        } else {
            old.insert(k, set_without(old[k], m))
        }),
    ensures
        store_step(old, new, StoreOp::Rem(k, m)),
{
}

/// What `SkipList::insert` states of a well-formed list (whose entries are
/// a valid set) is a `ZADD` step.
pub proof fn lemma_list_insert_is_step(old: SetEntries, new: SetEntries, m: Seq<char>, sc: u64)
    requires
        set_valid(new),
        (exists|i: int| 0 <= i < old.len() && (#[trigger] old[i]).0 == m && score_rank(old[i].1) == score_rank(sc))
            ==> new == old,
        !(exists|i: int| 0 <= i < old.len() && (#[trigger] old[i]).0 == m && score_rank(old[i].1) == score_rank(sc))
            ==> forall|e: (Seq<char>, u64)| #[trigger] new.contains(e) <==> ((old.contains(e) && e.0 != m) || e == (m, sc)),
    ensures
        set_step(old, new, SetOp::Add(m, sc)),
{
}

/// What `SkipList::remove` states of a well-formed list is a `ZREM` step.
pub proof fn lemma_list_remove_is_step(old: SetEntries, new: SetEntries, m: Seq<char>, r: Option<u64>)
    requires
        members_distinct(old),
        match r {
            Some(x) => exists|t: int| 0 <= t < old.len() && old[t] == (m, x) && new == old.remove(t),
            None => !has_member(old, m) && new == old,
        },
    ensures
        set_step(old, new, SetOp::Rem(m)),
{
    if let Some(x) = r {
        let t = choose|t: int| 0 <= t < old.len() && old[t] == (m, x) && new == old.remove(t);
        lemma_member_index(old, t);
    }
}

/// The entries of a listed set, by the contents of its members.
pub open spec fn entries_of(v: Seq<(String, u64)>) -> SetEntries {
    v.map_values(|e: (String, u64)| (e.0@, e.1))
}

/// `sets` lists every sorted set of `view` once, with its entries.
pub open spec fn lists_sets(sets: Seq<(String, Vec<(String, u64)>)>, view: Map<Seq<char>, SetEntries>) -> bool {
    &&& forall|i: int|
        0 <= i < sets.len() ==> view.contains_key((#[trigger] sets[i]).0@) && entries_of(sets[i].1@) == view[sets[i].0@]
    &&& forall|i: int, j: int| 0 <= i < j < sets.len() ==> (#[trigger] sets[i]).0@ != (#[trigger] sets[j]).0@
    &&& forall|k: Seq<char>| #[trigger] view.contains_key(k) ==> exists|i: int| 0 <= i < sets.len() && (#[trigger] sets[i]).0@ == k
}

impl SortedSetStore {
    /// Every sorted set once, with its entries in ascending order; the order
    /// of the sets is left open.
    pub fn all_sets(&self) -> (r: Vec<(String, Vec<(String, u64)>)>)
        requires
            self.wf(),
        ensures
            lists_sets(r@, self.view_sets()),
    {
        let mut out: Vec<(String, Vec<(String, u64)>)> = Vec::new();
        let mut i: usize = 0;
        while i < self.sets.len()
            invariant
                self.wf(),
                i <= self.sets@.len(),
                out@.len() == i,
                forall|x: int|
                    0 <= x < i ==> (#[trigger] out@[x]).0@ == self.sets@[x].key@ && entries_of(out@[x].1@)
                        == self.sets@[x].list@,
            decreases self.sets@.len() - i,
        {
            let key = self.sets[i].key.clone();
            let members = self.sets[i].list.iter_all();
            proof {
                assert(self.sets@[i as int].list.wf());
                assert(entries_of(members@) =~= self.sets@[i as int].list@);
            }
            out.push((key, members));
            i = i + 1;
        }
        proof {
            let v = self.view_sets();
            assert forall|x: int| 0 <= x < out@.len() implies v.contains_key((#[trigger] out@[x]).0@) && entries_of(
                out@[x].1@,
            ) == v[out@[x].0@] by {
                assert(self.index@.contains_key(self.sets@[x].key@));
            }
            assert forall|x: int, y: int| 0 <= x < y < out@.len() implies (#[trigger] out@[x]).0@ != (
            #[trigger] out@[y]).0@ by {
                assert(self.index@.contains_key(self.sets@[x].key@));
                assert(self.index@.contains_key(self.sets@[y].key@));
            }
            assert forall|k: Seq<char>| #[trigger] v.contains_key(k) implies exists|x: int|
                0 <= x < out@.len() && (#[trigger] out@[x]).0@ == k by {
                assert(self.index@.contains_key(k));
                let x = self.index@[k] as int;
                assert(out@[x].0@ == k);
            }
        }
        out
    }
}

impl SortedSetStore {
    /// The score of `member` in the set at `key`.
    pub fn zscore(&self, key: &String, member: &String) -> (r: Option<u64>)
        requires
            self.wf(),
        ensures
            r == (if self.view_sets().contains_key(key@) {
                score_of(self.view_sets()[key@], member@)
            } else {
                None
            }),
    {
        match self.index.get(key.as_str()) {
            Some(i) => {
                let i = *i;
                proof {
                    self.sets@[i as int].list.lemma_valid();
                }
                match self.sets[i].list.get(member) {
                    Some(s) => {
                        proof {
                            let l = self.sets@[i as int].list@;
                            let j = l.index_of((member@, *s));
                            assert(l[j] == (member@, *s));
                            lemma_member_index(l, j);
                        }
                        Some(*s)
                    },
                    None => None,
                }
            },
            None => None,
        }
    }

    /// Removes `member` from the set at `key`, and the set once it is empty;
    /// returns the member's score.
    #[verifier::spinoff_prover]
    pub fn zrem(&mut self, key: &String, member: &String) -> (r: Option<u64>)
        requires
            old(self).wf(),
        ensures
            final(self).wf(),
            !old(self).view_sets().contains_key(key@) ==> r is None && final(self).view_sets() == old(self).view_sets(),
            old(self).view_sets().contains_key(key@) ==> ({
                let before = old(self).view_sets()[key@];
                let after = set_without(before, member@);
                &&& r == score_of(before, member@)
                &&& final(self).view_sets() == (if after.len() == 0 {
                    old(self).view_sets().remove(key@)
                } else {
                    old(self).view_sets().insert(key@, after)
                })
            }),
    {
        let i = match self.index.get(key.as_str()) {
            Some(i) => *i,
            None => {
                return None;
            },
        };
        let ghost before = self.sets@[i as int].list@;
        proof {
            self.sets@[i as int].list.lemma_valid();
        }
        let result = self.sets[i].list.remove(member);
        proof {
            match result {
                Some(sc) => {
                    let t = choose|t: int| 0 <= t < before.len() && before[t] == (member@, sc) && self.sets@[i as int].list@ == before.remove(t);
                    lemma_member_index(before, t);
                },
                None => {},
            }
        }
        if self.sets[i].list.is_empty() {
            let ghost mid = *self;
            let last = self.sets.len() - 1;
            let removed = self.sets.swap_remove(i);
            if i < last {
                let moved_key = self.sets[i].key.clone();
                self.index.insert(moved_key, i);
            }
            self.index.remove(key.as_str());
            proof {
                assert(self.view_sets() =~= old(self).view_sets().remove(key@)) by {
                    assert forall|k: Seq<char>| #[trigger] self.index@.contains_key(k) implies k != key@ && old(self).index@.contains_key(k) by {}
                    assert forall|k: Seq<char>| old(self).index@.contains_key(k) && k != key@ implies #[trigger] self.index@.contains_key(k)
                        && self.sets@[self.index@[k] as int] == old(self).sets@[old(self).index@[k] as int] by {
                        let j = old(self).index@[k];
                        if j == last && i < last {
                            assert(mid.sets@[last as int].key@ == k);
                        }
                    }
                }
                assert forall|j: int| 0 <= j < self.sets@.len() implies #[trigger] self.index@.contains_key(self.sets@[j].key@)
                    && self.index@[self.sets@[j].key@] == j by {
                    if j == i {
                        assert(self.sets@[j] == mid.sets@[last as int]);
                        assert(mid.sets@[last as int].key@ != key@);
                    } else {
                        assert(self.sets@[j] == mid.sets@[j]);
                        assert(old(self).index@.contains_key(old(self).sets@[j].key@));
                        assert(old(self).sets@[j].key@ != key@);
                    }
                }
                assert forall|k: Seq<char>| #[trigger] self.index@.contains_key(k) implies self.index@[k] < self.sets@.len()
                    && self.sets@[self.index@[k] as int].key@ == k by {
                    let j = old(self).index@[k];
                    if j == last && i < last {
                        assert(mid.sets@[last as int].key@ == k);
                    }
                }
                assert forall|j: int| 0 <= j < self.sets@.len() implies (#[trigger] self.sets@[j]).list.wf()
                    && self.sets@[j].list.spec_max_level() == TREE_HEIGHT && self.sets@[j].list@.len() > 0 by {
                    if j == i {
                        assert(self.sets@[j] == mid.sets@[last as int]);
                        assert(old(self).sets@[last as int].list.wf());
                    } else {
                        assert(old(self).sets@[j].list.wf());
                    }
                }
                assert(self.index@.dom().finite());
                assert(self.wf());
            }
        } else {
            proof {
                assert(self.view_sets() =~= old(self).view_sets().insert(key@, self.sets@[i as int].list@));
                assert forall|j: int| 0 <= j < self.sets@.len() implies (#[trigger] self.sets@[j]).list.wf()
                    && self.sets@[j].list.spec_max_level() == TREE_HEIGHT && self.sets@[j].list@.len() > 0 by {
                    if j != i {
                        assert(old(self).sets@[j].list.wf());
                    }
                }
                assert(self.index@.dom().finite());
                assert(self.wf());
            }
        }
        result
    }

    /// The members of the set at `key` from index `from` to index `to`, both
    /// included (negative indices count from the end), with their scores when
    /// `with_scores`; `None` when there is no such set.
    pub fn zrange(&self, key: &String, from: isize, to: isize, with_scores: bool) -> (r: Option<Vec<(String, Option<u64>)>>)
        requires
            self.wf(),
        ensures
            !self.view_sets().contains_key(key@) ==> r is None,
            self.view_sets().contains_key(key@) ==> ({
                let l = self.view_sets()[key@];
                &&& r is Some
                &&& match zrange_bounds(l.len() as int, from as int, to as int) {
                    None => r->0@.len() == 0,
                    Some((a, b)) => {
                        &&& r->0@.len() == b - a + 1
                        &&& forall|i: int|
                            0 <= i < r->0@.len() ==> (#[trigger] r->0@[i]).0@ == l[a + i].0 && r->0@[i].1 == (if with_scores {
                                Some(l[a + i].1)
                            } else {
                                None
                            })
                    },
                }
            }),
    {
        let i = match self.index.get(key.as_str()) {
            Some(i) => *i,
            None => {
                return None;
            },
        };
        let list = &self.sets[i].list;
        proof {
            list.lemma_valid();
        }
        let n = list.len() as i128;
        let mut start: i128 = from as i128;
        if start < 0 {
            start = start + n;
        }
        let mut stop: i128 = to as i128;
        if stop < 0 {
            stop = stop + n;
        }
        if start < 0 {
            start = 0;
        }
        if stop >= n {
            stop = n - 1;
        }
        let mut rows: Vec<(String, Option<u64>)> = Vec::new();
        if start > stop || start >= n {
            return Some(rows);
        }
        let a = start as usize;
        let b = stop as usize;
        let members = list.range(a + 1, b + 1);
        let mut j: usize = 0;
        while j < members.len()
            invariant
                list.wf(),
                list@ == self.view_sets()[key@],
                members_distinct(list@),
                a <= b < list@.len(),
                members@.len() == b - a + 1,
                forall|x: int| 0 <= x < members@.len() ==> (#[trigger] members@[x]).1@ == list@[a + x].0,
                j <= members@.len(),
                rows@.len() == j,
                forall|x: int|
                    0 <= x < j ==> (#[trigger] rows@[x]).0@ == list@[a + x].0 && rows@[x].1 == (if with_scores {
                        Some(list@[a + x].1)
                    } else {
                        None
                    }),
            decreases members@.len() - j,
        {
            let m = members[j].1.clone();
            if with_scores {
                let sc = list.get(&m);
                proof {
                    lemma_member_index(list@, a + j);
                    if sc is None {
                        assert(list@[a + j].0 == m@);
                    }
                    if let Some(s) = sc {
                        let y = list@.index_of((m@, *s));
                        lemma_member_index(list@, y);
                    }
                }
                rows.push((m, Some(*sc.unwrap())));
            } else {
                rows.push((m, None));
            }
            j = j + 1;
        }
        Some(rows)
    }
}

} // verus!
