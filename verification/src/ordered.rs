//! A map whose entries are kept in key order.
//!
//! Iteration order is part of what a run produces, so it is part of the
//! contract: entries stand in strictly increasing key order, whatever order
//! they were inserted in.

use vstd::prelude::*;

use crate::text::{str_before, text_before, text_before_irreflexive, text_before_total, text_before_transitive};

verus! {

/// A key with a strict total order on its view.
pub trait OrderedKey: View + Sized {
    spec fn before(a: Self::V, b: Self::V) -> bool;

    proof fn before_irreflexive(a: Self::V)
        ensures
            !Self::before(a, a),
    ;

    proof fn before_transitive(a: Self::V, b: Self::V, c: Self::V)
        requires
            Self::before(a, b),
            Self::before(b, c),
        ensures
            Self::before(a, c),
    ;

    proof fn before_total(a: Self::V, b: Self::V)
        ensures
            Self::before(a, b) || Self::before(b, a) || a == b,
    ;

    fn precedes(&self, other: &Self) -> (r: bool)
        ensures
            r == Self::before(self@, other@),
    ;
}

impl OrderedKey for i64 {
    open spec fn before(a: i64, b: i64) -> bool {
        a < b
    }

    proof fn before_irreflexive(a: i64) {
    }

    proof fn before_transitive(a: i64, b: i64, c: i64) {
    }

    proof fn before_total(a: i64, b: i64) {
    }

    fn precedes(&self, other: &i64) -> (r: bool) {
        *self < *other
    }
}

impl OrderedKey for u64 {
    open spec fn before(a: u64, b: u64) -> bool {
        a < b
    }

    proof fn before_irreflexive(a: u64) {
    }

    proof fn before_transitive(a: u64, b: u64, c: u64) {
    }

    proof fn before_total(a: u64, b: u64) {
    }

    fn precedes(&self, other: &u64) -> (r: bool) {
        *self < *other
    }
}

impl OrderedKey for u16 {
    open spec fn before(a: u16, b: u16) -> bool {
        a < b
    }

    proof fn before_irreflexive(a: u16) {
    }

    proof fn before_transitive(a: u16, b: u16, c: u16) {
    }

    proof fn before_total(a: u16, b: u16) {
    }

    fn precedes(&self, other: &u16) -> (r: bool) {
        *self < *other
    }
}

impl OrderedKey for String {
    open spec fn before(a: Seq<char>, b: Seq<char>) -> bool {
        text_before(a, b)
    }

    proof fn before_irreflexive(a: Seq<char>) {
        text_before_irreflexive(a);
    }

    proof fn before_transitive(a: Seq<char>, b: Seq<char>, c: Seq<char>) {
        text_before_transitive(a, b, c);
    }

    proof fn before_total(a: Seq<char>, b: Seq<char>) {
        text_before_total(a, b);
    }

    fn precedes(&self, other: &String) -> (r: bool) {
        str_before(self.as_str(), other.as_str())
    }
}

/// Pairs are ordered by their first half, then by their second.
impl<A: OrderedKey, B: OrderedKey> OrderedKey for (A, B) {
    open spec fn before(a: (A::V, B::V), b: (A::V, B::V)) -> bool {
        A::before(a.0, b.0) || (a.0 == b.0 && B::before(a.1, b.1))
    }

    proof fn before_irreflexive(a: (A::V, B::V)) {
        A::before_irreflexive(a.0);
        B::before_irreflexive(a.1);
    }

    proof fn before_transitive(a: (A::V, B::V), b: (A::V, B::V), c: (A::V, B::V)) {
        if A::before(a.0, b.0) && A::before(b.0, c.0) {
            A::before_transitive(a.0, b.0, c.0);
        }
        if B::before(a.1, b.1) && B::before(b.1, c.1) {
            B::before_transitive(a.1, b.1, c.1);
        }
    }

    proof fn before_total(a: (A::V, B::V), b: (A::V, B::V)) {
        A::before_total(a.0, b.0);
        B::before_total(a.1, b.1);
    }

    fn precedes(&self, other: &(A, B)) -> (r: bool) {
        proof {
            A::before_total(self.0@, other.0@);
            A::before_irreflexive(self.0@);
        }
        if self.0.precedes(&other.0) {
            return true;
        }
        if other.0.precedes(&self.0) {
            proof {
                if self.0@ == other.0@ {
                    A::before_irreflexive(self.0@);
                }
            }
            return false;
        }
        self.1.precedes(&other.1)
    }
}

/// Entries in strictly increasing key order.
pub open spec fn keys_sorted<K: OrderedKey, V>(entries: Seq<(K, V)>) -> bool {
    forall|i: int, j: int|
        #![trigger entries[i], entries[j]]
        0 <= i < j < entries.len() ==> K::before(entries[i].0@, entries[j].0@)
}

/// The contents of an entry list as a map.
pub open spec fn entries_map<K: OrderedKey, V>(entries: Seq<(K, V)>) -> Map<K::V, V>
    decreases entries.len(),
{
    if entries.len() == 0 {
        Map::empty()
    } else {
        entries_map(entries.drop_last()).insert(entries.last().0@, entries.last().1)
    }
}

/// What a map built from sorted entries holds: each entry, and nothing else.
pub proof fn entries_map_contains<K: OrderedKey, V>(entries: Seq<(K, V)>)
    requires
        keys_sorted(entries),
    ensures
        forall|i: int|
            0 <= i < entries.len() ==> entries_map(entries).dom().contains(
                (#[trigger] entries[i]).0@,
            ) && entries_map(entries)[entries[i].0@] == entries[i].1,
        forall|k: K::V| #[trigger]
            entries_map(entries).dom().contains(k) ==> exists|i: int|
                0 <= i < entries.len() && (#[trigger] entries[i]).0@ == k,
    decreases entries.len(),
{
    if entries.len() > 0 {
        let head = entries.drop_last();
        assert(keys_sorted(head)) by {
            assert forall|i: int, j: int|
                #![trigger head[i], head[j]]
                0 <= i < j < head.len() implies K::before(head[i].0@, head[j].0@) by {
                assert(head[i] == entries[i] && head[j] == entries[j]);
            }
        }
        entries_map_contains(head);
        let last = entries.len() - 1;
        assert forall|i: int| 0 <= i < entries.len() implies entries_map(entries).dom().contains(
            (#[trigger] entries[i]).0@,
        ) && entries_map(entries)[entries[i].0@] == entries[i].1 by {
            if i < last {
                assert(head[i] == entries[i]);
                assert(K::before(entries[i].0@, entries[last].0@));
                K::before_irreflexive(entries[i].0@);
            }
        }
        assert forall|k: K::V| #[trigger] entries_map(entries).dom().contains(k) implies exists|
            i: int,
        |
            0 <= i < entries.len() && (#[trigger] entries[i]).0@ == k by {
            if k == entries[last].0@ {
                assert(entries[last].0@ == k);
            } else {
                assert(entries_map(head).dom().contains(k));
                let i = choose|i: int| 0 <= i < head.len() && (#[trigger] head[i]).0@ == k;
                assert(head[i] == entries[i]);
            }
        }
    }
}

/// Sorted entries with the same contents are the same entries in the same
/// places.
pub proof fn sorted_one_way<K: OrderedKey, V>(a: Seq<(K, V)>, b: Seq<(K, V)>)
    requires
        keys_sorted(a),
        keys_sorted(b),
        entries_map(a) == entries_map(b),
    ensures
        a.len() == b.len(),
        forall|i: int| 0 <= i < a.len() ==> (#[trigger] a[i]).0@ == b[i].0@ && a[i].1 == b[i].1,
    decreases a.len(),
{
    entries_map_contains(a);
    entries_map_contains(b);
    if a.len() == 0 {
        if b.len() > 0 {
            assert(entries_map(a).dom().contains(b[0].0@));
        }
    } else {
        let (m, n) = (a.len() - 1, b.len() - 1);
        let x = a[m].0@;
        assert(entries_map(b).dom().contains(x));
        let k = choose|k: int| 0 <= k < b.len() && (#[trigger] b[k]).0@ == x;
        let y = b[n].0@;
        assert(entries_map(a).dom().contains(y));
        let l = choose|l: int| 0 <= l < a.len() && (#[trigger] a[l]).0@ == y;
        assert(x == y) by {
            if k < n && l < m {
                assert(K::before(b[k].0@, b[n].0@));
                assert(K::before(a[l].0@, a[m].0@));
                K::before_transitive(x, y, x);
                K::before_irreflexive(x);
            }
        }
        let (p, q) = (a.drop_last(), b.drop_last());
        assert(keys_sorted(p)) by {
            assert forall|i: int, j: int|
                #![trigger p[i], p[j]]
                0 <= i < j < p.len() implies K::before(p[i].0@, p[j].0@) by {
                assert(p[i] == a[i] && p[j] == a[j]);
            }
        }
        assert(keys_sorted(q)) by {
            assert forall|i: int, j: int|
                #![trigger q[i], q[j]]
                0 <= i < j < q.len() implies K::before(q[i].0@, q[j].0@) by {
                assert(q[i] == b[i] && q[j] == b[j]);
            }
        }
        last_is_new(a);
        last_is_new(b);
        assert(entries_map(p) =~= entries_map(a).remove(x));
        assert(entries_map(q) =~= entries_map(b).remove(x));
        sorted_one_way(p, q);
        assert forall|i: int| 0 <= i < a.len() implies (#[trigger] a[i]).0@ == b[i].0@ && a[i].1
            == b[i].1 by {
            if i < m {
                assert(p[i] == a[i] && q[i] == b[i]);
            }
        }
    }
}

proof fn last_is_new<K: OrderedKey, V>(a: Seq<(K, V)>)
    requires
        keys_sorted(a),
        a.len() > 0,
    ensures
        !entries_map(a.drop_last()).dom().contains(a.last().0@),
{
    let p = a.drop_last();
    assert(keys_sorted(p)) by {
        assert forall|i: int, j: int|
            #![trigger p[i], p[j]]
            0 <= i < j < p.len() implies K::before(p[i].0@, p[j].0@) by {
            assert(p[i] == a[i] && p[j] == a[j]);
        }
    }
    entries_map_contains(p);
    let x = a.last().0@;
    if entries_map(p).dom().contains(x) {
        let i = choose|i: int| 0 <= i < p.len() && (#[trigger] p[i]).0@ == x;
        assert(p[i] == a[i]);
        assert(K::before(a[i].0@, a[a.len() - 1].0@));
        K::before_irreflexive(x);
    }
}

/// A map built from sorted entries has as many keys as there are entries.
pub proof fn entries_map_counts<K: OrderedKey, V>(entries: Seq<(K, V)>)
    requires
        keys_sorted(entries),
    ensures
        entries_map(entries).dom().finite(),
        entries_map(entries).dom().len() == entries.len(),
    decreases entries.len(),
{
    if entries.len() > 0 {
        let head = entries.drop_last();
        assert forall|i: int, j: int|
            #![trigger head[i], head[j]]
            0 <= i < j < head.len() implies K::before(head[i].0@, head[j].0@) by {
            assert(head[i] == entries[i] && head[j] == entries[j]);
        }
        entries_map_counts(head);
        entries_map_contains(head);
        let key = entries.last().0@;
        if entries_map(head).dom().contains(key) {
            let i = choose|i: int| 0 <= i < head.len() && (#[trigger] head[i]).0@ == key;
            assert(K::before(entries[i].0@, entries[entries.len() - 1].0@));
            K::before_irreflexive(key);
        }
        assert(entries_map(entries).dom() =~= entries_map(head).dom().insert(key));
    }
}

/// A map kept in key order.
#[derive(PartialEq, Eq, Debug)]
pub struct SortedMap<K, V> {
    entries: Vec<(K, V)>,
}

impl<K: OrderedKey, V> View for SortedMap<K, V> {
    type V = Map<K::V, V>;

    open spec fn view(&self) -> Map<K::V, V> {
        entries_map(self.seq())
    }
}

impl<K: OrderedKey, V> SortedMap<K, V> {
    /// The entries, in key order.
    pub closed spec fn seq(&self) -> Seq<(K, V)> {
        self.entries@
    }

    /// Keys are strictly increasing.
    pub open spec fn wf(&self) -> bool {
        keys_sorted(self.seq())
    }

    pub fn new() -> (m: Self)
        ensures
            m.wf(),
            m.seq() == Seq::<(K, V)>::empty(),
            m@ == Map::<K::V, V>::empty(),
    {
        SortedMap { entries: Vec::new() }
    }

    pub fn len(&self) -> (n: usize)
        ensures
            n == self.seq().len(),
    {
        self.entries.len()
    }

    pub fn is_empty(&self) -> (r: bool)
        ensures
            r == (self.seq().len() == 0),
    {
        self.entries.len() == 0
    }

    /// The key of the entry at position `i`.
    pub fn key_at(&self, i: usize) -> (k: &K)
        requires
            i < self.seq().len(),
        ensures
            *k == self.seq()[i as int].0,
    {
        &self.entries[i].0
    }

    /// The value of the entry at position `i`.
    pub fn value_at(&self, i: usize) -> (v: &V)
        requires
            i < self.seq().len(),
        ensures
            *v == self.seq()[i as int].1,
    {
        &self.entries[i].1
    }

    /// How many keys come before `key`: the position at which it stands, or
    /// at which it would be inserted.
    pub fn position(&self, key: &K) -> (i: usize)
        requires
            self.wf(),
        ensures
            i <= self.seq().len(),
            forall|j: int| 0 <= j < i ==> K::before((#[trigger] self.seq()[j]).0@, key@),
            forall|j: int|
                i <= j < self.seq().len() ==> !K::before((#[trigger] self.seq()[j]).0@, key@),
    {
        let mut low: usize = 0;
        let mut high: usize = self.entries.len();
        while low < high
            invariant
                self.wf(),
                low <= high <= self.seq().len(),
                forall|j: int| 0 <= j < low ==> K::before((#[trigger] self.seq()[j]).0@, key@),
                forall|j: int|
                    high <= j < self.seq().len() ==> !K::before((#[trigger] self.seq()[j]).0@, key@),
            decreases high - low,
        {
            let mid: usize = low + (high - low) / 2;
            if self.entries[mid].0.precedes(key) {
                proof {
                    assert forall|j: int| 0 <= j < mid + 1 implies K::before(
                        (#[trigger] self.seq()[j]).0@,
                        key@,
                    ) by {
                        if j < mid {
                            assert(K::before(self.seq()[j].0@, self.seq()[mid as int].0@));
                            K::before_transitive(
                                self.seq()[j].0@,
                                self.seq()[mid as int].0@,
                                key@,
                            );
                        }
                    }
                }
                low = mid + 1;
            } else {
                proof {
                    assert forall|j: int| mid <= j < self.seq().len() implies !K::before(
                        (#[trigger] self.seq()[j]).0@,
                        key@,
                    ) by {
                        if j > mid && K::before(self.seq()[j].0@, key@) {
                            assert(K::before(self.seq()[mid as int].0@, self.seq()[j].0@));
                            K::before_transitive(
                                self.seq()[mid as int].0@,
                                self.seq()[j].0@,
                                key@,
                            );
                        }
                    }
                }
                high = mid;
            }
        }
        low
    }

    /// The position at which `key` stands, if it is present.
    pub fn find(&self, key: &K) -> (r: Option<usize>)
        requires
            self.wf(),
        ensures
            r matches Some(i) ==> i < self.seq().len() && self.seq()[i as int].0@ == key@
                && self@.dom().contains(key@) && self@[key@] == self.seq()[i as int].1,
            r is None ==> !self@.dom().contains(key@) && forall|j: int|
                0 <= j < self.seq().len() ==> (#[trigger] self.seq()[j]).0@ != key@,
    {
        let i = self.position(key);
        proof {
            entries_map_contains(self.seq());
        }
        if i < self.entries.len() && !key.precedes(&self.entries[i].0) {
            proof {
                K::before_total(self.seq()[i as int].0@, key@);
            }
            Some(i)
        } else {
            proof {
                assert forall|j: int| 0 <= j < self.seq().len() implies (
                #[trigger] self.seq()[j]).0@ != key@ by {
                    K::before_irreflexive(key@);
                    if i < self.seq().len() && j > i {
                        assert(K::before(self.seq()[i as int].0@, self.seq()[j].0@));
                        K::before_irreflexive(self.seq()[j].0@);
                        if self.seq()[j].0@ == key@ {
                            K::before_transitive(
                                key@,
                                self.seq()[i as int].0@,
                                self.seq()[j].0@,
                            );
                        }
                    }
                }
            }
            None
        }
    }

    pub fn get(&self, key: &K) -> (r: Option<&V>)
        requires
            self.wf(),
        ensures
            r == (if self@.dom().contains(key@) {
                Some(&self@[key@])
            } else {
                None
            }),
    {
        match self.find(key) {
            Some(i) => Some(&self.entries[i].1),
            None => None,
        }
    }

    pub fn contains_key(&self, key: &K) -> (r: bool)
        requires
            self.wf(),
        ensures
            r == self@.dom().contains(key@),
    {
        self.find(key).is_some()
    }

    /// The value at position `i`, to be changed in place.
    pub fn value_mut(&mut self, i: usize) -> (v: &mut V)
        requires
            old(self).wf(),
            i < old(self).seq().len(),
        ensures
            *v == old(self).seq()[i as int].1,
            final(self).seq() == old(self).seq().update(
                i as int,
                (old(self).seq()[i as int].0, *final(v)),
            ),
            final(self).wf(),
            final(self)@ == old(self)@.insert(old(self).seq()[i as int].0@, *final(v)),
    {
        proof {
            let s = self.seq();
            assert forall|value: V|
                #![trigger s.update(i as int, (s[i as int].0, value))]
                keys_sorted(s.update(i as int, (s[i as int].0, value))) && entries_map(
                    s.update(i as int, (s[i as int].0, value)),
                ) == entries_map(s).insert(s[i as int].0@, value) by {
                lemma_update(s, i as int, value);
            }
        }
        &mut self.entries[i].1
    }

    /// Replace the value at position `i`, keeping its key.
    pub fn set_at(&mut self, i: usize, value: V)
        requires
            old(self).wf(),
            i < old(self).seq().len(),
        ensures
            final(self).wf(),
            final(self).seq() == old(self).seq().update(i as int, (old(self).seq()[i as int].0, value)),
            final(self)@ == old(self)@.insert(old(self).seq()[i as int].0@, value),
    {
        let ghost before = self.entries@;
        self.entries[i].1 = value;
        proof {
            assert(self.entries@ =~= before.update(i as int, (before[i as int].0, value)));
            lemma_update(before, i as int, value);
        }
    }

    /// Insert or replace. Returns the position of the entry.
    pub fn insert(&mut self, key: K, value: V) -> (at: usize)
        requires
            old(self).wf(),
        ensures
            final(self).wf(),
            final(self)@ == old(self)@.insert(key@, value),
            at < final(self).seq().len(),
            final(self).seq()[at as int].0@ == key@,
            final(self).seq()[at as int].1 == value,
            old(self)@.dom().contains(key@) ==> at < old(self).seq().len()
                && old(self).seq()[at as int].0@ == key@ && final(self).seq() == old(
                self,
            ).seq().update(at as int, (old(self).seq()[at as int].0, value)),
            !old(self)@.dom().contains(key@) ==> at <= old(self).seq().len() && final(self).seq() == old(self).seq().insert(
                at as int,
                (key, value),
            ),
    {
        match self.find(&key) {
            Some(i) => {
                self.set_at(i, value);
                i
            },
            None => {
                let i = self.position(&key);
                let ghost before = self.entries@;
                self.entries.insert(i, (key, value));
                proof {
                    lemma_insert(before, i as int, key, value);
                }
                i
            },
        }
    }

    /// Remove the entry at position `i`.
    pub fn remove_at(&mut self, i: usize) -> (entry: (K, V))
        requires
            old(self).wf(),
            i < old(self).seq().len(),
        ensures
            final(self).wf(),
            entry == old(self).seq()[i as int],
            final(self).seq() == old(self).seq().remove(i as int),
            final(self)@ == old(self)@.remove(entry.0@),
    {
        let ghost before = self.entries@;
        let entry = self.entries.remove(i);
        proof {
            lemma_remove(before, i as int);
        }
        entry
    }

    /// Remove the entry for `key`, if there is one.
    pub fn remove(&mut self, key: &K) -> (r: Option<V>)
        requires
            old(self).wf(),
        ensures
            final(self).wf(),
            final(self)@ == old(self)@.remove(key@),
            r == (if old(self)@.dom().contains(key@) {
                Some(old(self)@[key@])
            } else {
                None
            }),
            r is None ==> final(self).seq() == old(self).seq(),
            r is Some ==> exists|i: int|
                0 <= i < old(self).seq().len() && old(self).seq()[i].0@ == key@
                    && final(self).seq() == #[trigger] old(self).seq().remove(i),
    {
        match self.find(key) {
            Some(i) => {
                let (_, value) = self.remove_at(i);
                Some(value)
            },
            None => {
                assert(self@ =~= old(self)@.remove(key@));
                None
            },
        }
    }

    /// Drop every entry.
    pub fn clear(&mut self)
        ensures
            final(self).wf(),
            final(self).seq() == Seq::<(K, V)>::empty(),
            final(self)@ == Map::<K::V, V>::empty(),
    {
        self.entries.clear();
    }
}

pub proof fn lemma_update<K: OrderedKey, V>(s: Seq<(K, V)>, i: int, value: V)
    requires
        keys_sorted(s),
        0 <= i < s.len(),
    ensures
        keys_sorted(s.update(i, (s[i].0, value))),
        entries_map(s.update(i, (s[i].0, value))) == entries_map(s).insert(s[i].0@, value),
{
    let t = s.update(i, (s[i].0, value));
    assert forall|a: int, b: int|
        #![trigger t[a], t[b]]
        0 <= a < b < t.len() implies K::before(t[a].0@, t[b].0@) by {
        assert(t[a].0 == s[a].0 && t[b].0 == s[b].0);
        assert(K::before(s[a].0@, s[b].0@));
    }
    entries_map_contains(s);
    entries_map_contains(t);
    let m = entries_map(s).insert(s[i].0@, value);
    assert(entries_map(t) =~= m) by {
        assert forall|k: K::V| #[trigger] entries_map(t).dom().contains(k) implies m.dom().contains(k)
            && entries_map(t)[k] == m[k] by {
            let j = choose|j: int| 0 <= j < t.len() && (#[trigger] t[j]).0@ == k;
            assert(s[j].0@ == k);
            if j != i {
                sorted_distinct(s, i, j);
            }
        }
        assert forall|k: K::V| #[trigger] m.dom().contains(k) implies entries_map(t).dom().contains(k) by {
            if k == s[i].0@ {
                assert(t[i].0@ == k);
            } else {
                let j = choose|j: int| 0 <= j < s.len() && (#[trigger] s[j]).0@ == k;
                assert(t[j].0@ == k);
            }
        }
    }
}

/// Two positions of a sorted list hold different keys.
pub proof fn sorted_distinct<K: OrderedKey, V>(s: Seq<(K, V)>, i: int, j: int)
    requires
        keys_sorted(s),
        0 <= i < s.len(),
        0 <= j < s.len(),
        i != j,
    ensures
        s[i].0@ != s[j].0@,
{
    K::before_irreflexive(s[i].0@);
    if i < j {
        assert(K::before(s[i].0@, s[j].0@));
    } else {
        assert(K::before(s[j].0@, s[i].0@));
    }
}

pub proof fn lemma_insert<K: OrderedKey, V>(s: Seq<(K, V)>, i: int, key: K, value: V)
    requires
        keys_sorted(s),
        0 <= i <= s.len(),
        forall|j: int| 0 <= j < i ==> K::before((#[trigger] s[j]).0@, key@),
        forall|j: int| i <= j < s.len() ==> !K::before((#[trigger] s[j]).0@, key@),
        forall|j: int| 0 <= j < s.len() ==> (#[trigger] s[j]).0@ != key@,
    ensures
        keys_sorted(s.insert(i, (key, value))),
        entries_map(s.insert(i, (key, value))) == entries_map(s).insert(key@, value),
{
    let t = s.insert(i, (key, value));
    assert forall|a: int, b: int|
        #![trigger t[a], t[b]]
        0 <= a < b < t.len() implies K::before(t[a].0@, t[b].0@) by {
        let sa = if a < i { a } else { a - 1 };
        let sb = if b < i { b } else { b - 1 };
        if a == i {
            assert(t[b] == s[sb]);
            K::before_total(s[sb].0@, key@);
        } else if b == i {
            assert(t[a] == s[a]);
        } else {
            assert(t[a] == s[sa] && t[b] == s[sb]);
            assert(K::before(s[sa].0@, s[sb].0@));
        }
    }
    entries_map_contains(s);
    entries_map_contains(t);
    let m = entries_map(s).insert(key@, value);
    assert(entries_map(t) =~= m) by {
        assert forall|k: K::V| #[trigger] entries_map(t).dom().contains(k) implies m.dom().contains(k)
            && entries_map(t)[k] == m[k] by {
            let j = choose|j: int| 0 <= j < t.len() && (#[trigger] t[j]).0@ == k;
            if j < i {
                assert(s[j].0@ == k);
            } else if j > i {
                assert(s[j - 1].0@ == k);
            }
        }
        assert forall|k: K::V| #[trigger] m.dom().contains(k) implies entries_map(t).dom().contains(k) by {
            if k == key@ {
                assert(t[i].0@ == k);
            } else {
                let j = choose|j: int| 0 <= j < s.len() && (#[trigger] s[j]).0@ == k;
                if j < i {
                    assert(t[j].0@ == k);
                } else {
                    assert(t[j + 1].0@ == k);
                }
            }
        }
    }
}

pub proof fn lemma_remove<K: OrderedKey, V>(s: Seq<(K, V)>, i: int)
    requires
        keys_sorted(s),
        0 <= i < s.len(),
    ensures
        keys_sorted(s.remove(i)),
        entries_map(s.remove(i)) == entries_map(s).remove(s[i].0@),
{
    let t = s.remove(i);
    assert forall|a: int, b: int|
        #![trigger t[a], t[b]]
        0 <= a < b < t.len() implies K::before(t[a].0@, t[b].0@) by {
        let sa = if a < i { a } else { a + 1 };
        let sb = if b < i { b } else { b + 1 };
        assert(t[a] == s[sa] && t[b] == s[sb]);
        assert(K::before(s[sa].0@, s[sb].0@));
    }
    entries_map_contains(s);
    entries_map_contains(t);
    let m = entries_map(s).remove(s[i].0@);
    assert(entries_map(t) =~= m) by {
        assert forall|k: K::V| #[trigger] entries_map(t).dom().contains(k) implies m.dom().contains(k)
            && entries_map(t)[k] == m[k] by {
            let j = choose|j: int| 0 <= j < t.len() && (#[trigger] t[j]).0@ == k;
            let sj = if j < i { j } else { j + 1 };
            assert(t[j] == s[sj]);
            assert(s[sj].0@ == k);
            sorted_distinct(s, i, sj);
        }
        assert forall|k: K::V| #[trigger] m.dom().contains(k) implies entries_map(t).dom().contains(k) by {
            let j = choose|j: int| 0 <= j < s.len() && (#[trigger] s[j]).0@ == k;
            let tj = if j < i { j } else { j - 1 };
            assert(j != i);
            assert(t[tj] == s[j]);
            assert(t[tj].0@ == k);
        }
    }
}

} // verus!
