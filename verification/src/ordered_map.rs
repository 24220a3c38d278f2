//! A map from names to values that is walked in ascending order of the names.
//!
//! The map is kept as a list of entries sorted by name. Its view is the
//! mathematical map; [`entries_in_order`] says in which order a map is walked,
//! and the accessors by position are stated over it. In what order the
//! entries were put in makes no difference to the walk.

use vstd::prelude::*;
use crate::order::{
    compare_keys, key_lt, lemma_key_lt_asymmetric, lemma_key_lt_irreflexive, lemma_key_lt_total,
    lemma_key_lt_transitive, KeyOrder,
};

verus! {

/// No name stands twice in the list.
pub open spec fn names_distinct<T>(s: Seq<(Seq<char>, T)>) -> bool {
    forall|i: int, j: int| #![trigger s[i], s[j]] 0 <= i < j < s.len() ==> s[i].0 != s[j].0
}

/// The names of the list come in strictly ascending order.
pub open spec fn keys_ascending<T>(s: Seq<(Seq<char>, T)>) -> bool {
    forall|i: int, j: int| #![trigger s[i], s[j]] 0 <= i < j < s.len() ==> key_lt(s[i].0, s[j].0)
}

/// The map that comes of putting the entries of the list into an empty map
/// one after another: a later entry takes the place of an earlier one of the
/// same name.
pub open spec fn map_of<T>(s: Seq<(Seq<char>, T)>) -> Map<Seq<char>, T>
    decreases s.len(),
{
    if s.len() == 0 {
        Map::empty()
    } else {
        map_of(s.drop_last()).insert(s.last().0, s.last().1)
    }
}

/// `k` is a name of `m`, and no name of `m` comes before it.
pub open spec fn is_least_key<T>(m: Map<Seq<char>, T>, k: Seq<char>) -> bool {
    &&& m.contains_key(k)
    &&& forall|j: Seq<char>| m.contains_key(j) ==> !key_lt(j, k)
}

/// The first name of a map that has one.
pub open spec fn least_key<T>(m: Map<Seq<char>, T>) -> Seq<char> {
    choose|k: Seq<char>| is_least_key(m, k)
}

/// The entries of a finite map in ascending order of their names: the order
/// in which the map is walked.
pub open spec fn entries_in_order<T>(m: Map<Seq<char>, T>) -> Seq<(Seq<char>, T)>
    decreases m.dom().len(),
    when m.dom().finite()
{
    if m.dom().len() == 0 {
        Seq::empty()
    } else {
        proof {
            lemma_least_key_exists(m);
        }
        let k = least_key(m);
        seq![(k, m[k])] + entries_in_order(m.remove(k))
    }
}

/// Every finite map that is not empty has a first name.
pub proof fn lemma_least_key_exists<T>(m: Map<Seq<char>, T>)
    requires
        m.dom().finite(),
        m.dom().len() > 0,
    ensures
        is_least_key(m, least_key(m)),
    decreases m.dom().len(),
{
    let x = m.dom().choose();
    let rest = m.remove(x);
    if rest.dom().len() == 0 {
        assert forall|j: Seq<char>| m.contains_key(j) implies !key_lt(j, x) by {
            if j != x {
                assert(rest.dom().contains(j));
            }
            lemma_key_lt_irreflexive(x);
        }
        assert(is_least_key(m, x));
    } else {
        lemma_least_key_exists(rest);
        let y = least_key(rest);
        lemma_key_lt_total(x, y);
        if key_lt(x, y) {
            assert forall|j: Seq<char>| m.contains_key(j) implies !key_lt(j, x) by {
                if j == x {
                    lemma_key_lt_irreflexive(x);
                } else {
                    assert(rest.contains_key(j));
                    if key_lt(j, x) {
                        lemma_key_lt_transitive(j, x, y);
                    }
                }
            }
            assert(is_least_key(m, x));
        } else {
            assert forall|j: Seq<char>| m.contains_key(j) implies !key_lt(j, y) by {
                if j != x {
                    assert(rest.contains_key(j));
                }
            }
            assert(is_least_key(m, y));
        }
    }
}

/// In an ascending list no name stands twice.
pub proof fn lemma_ascending_names_distinct<T>(s: Seq<(Seq<char>, T)>)
    requires
        keys_ascending(s),
    ensures
        names_distinct(s),
{
    assert forall|i: int, j: int| 0 <= i < j < s.len() implies s[i].0 != s[j].0 by {
        assert(key_lt(s[i].0, s[j].0));
        lemma_key_lt_asymmetric(s[i].0, s[j].0);
    }
}

/// The map of a list without a repeated name holds each entry of the list
/// and nothing else.
pub proof fn lemma_map_of<T>(s: Seq<(Seq<char>, T)>)
    requires
        names_distinct(s),
    ensures
        map_of(s).dom().finite(),
        map_of(s).dom().len() == s.len(),
        forall|i: int|
            0 <= i < s.len() ==> map_of(s).contains_key(#[trigger] s[i].0) && map_of(s)[s[i].0]
                == s[i].1,
        forall|k: Seq<char>| #[trigger]
            map_of(s).contains_key(k) ==> exists|i: int| 0 <= i < s.len() && #[trigger] s[i].0 == k,
    decreases s.len(),
{
    if s.len() > 0 {
        let front = s.drop_last();
        let last = s.last();
        assert(names_distinct(front)) by {
            assert forall|i: int, j: int| 0 <= i < j < front.len() implies front[i].0
                != front[j].0 by {
                assert(s[i].0 != s[j].0);
            }
        }
        lemma_map_of(front);
        assert(!map_of(front).contains_key(last.0)) by {
            if map_of(front).contains_key(last.0) {
                let i = choose|i: int| 0 <= i < front.len() && #[trigger] front[i].0 == last.0;
                assert(s[i].0 != s[s.len() - 1].0);
            }
        }
        assert forall|i: int| 0 <= i < s.len() implies map_of(s).contains_key(#[trigger] s[i].0)
            && map_of(s)[s[i].0] == s[i].1 by {
            if i < front.len() {
                assert(front[i].0 == s[i].0);
                assert(s[i].0 != s[s.len() - 1].0);
            }
        }
        assert forall|k: Seq<char>| #[trigger] map_of(s).contains_key(k) implies exists|i: int|
            0 <= i < s.len() && #[trigger] s[i].0 == k by {
            if k == last.0 {
                assert(s[s.len() - 1].0 == k);
            } else {
                let i = choose|i: int| 0 <= i < front.len() && #[trigger] front[i].0 == k;
                assert(s[i].0 == k);
            }
        }
    }
}

/// Walking the map of an ascending list gives the list back.
pub proof fn lemma_entries_in_order_of_list<T>(s: Seq<(Seq<char>, T)>)
    requires
        keys_ascending(s),
    ensures
        entries_in_order(map_of(s)) == s,
    decreases s.len(),
{
    let m = map_of(s);
    lemma_ascending_names_distinct(s);
    lemma_map_of(s);
    if s.len() > 0 {
        let k0 = s[0].0;
        let tail = s.drop_first();
        assert(m.contains_key(s[0].0));
        assert forall|j: Seq<char>| m.contains_key(j) implies !key_lt(j, k0) by {
            let i = choose|i: int| 0 <= i < s.len() && #[trigger] s[i].0 == j;
            if i == 0 {
                lemma_key_lt_irreflexive(k0);
            } else {
                assert(key_lt(s[0].0, s[i].0));
                lemma_key_lt_asymmetric(k0, j);
            }
        }
        assert(is_least_key(m, k0));
        let lk = least_key(m);
        assert(is_least_key(m, lk));
        assert(lk == k0) by {
            let i = choose|i: int| 0 <= i < s.len() && #[trigger] s[i].0 == lk;
            if i != 0 {
                assert(key_lt(s[0].0, s[i].0));
            }
        }
        assert(keys_ascending(tail)) by {
            assert forall|i: int, j: int| 0 <= i < j < tail.len() implies key_lt(
                tail[i].0,
                tail[j].0,
            ) by {
                assert(key_lt(s[i + 1].0, s[j + 1].0));
            }
        }
        lemma_ascending_names_distinct(tail);
        lemma_map_of(tail);
        assert(m.remove(k0) =~= map_of(tail)) by {
            assert forall|x: Seq<char>| m.remove(k0).contains_key(x) implies map_of(
                tail,
            ).contains_key(x) by {
                let i = choose|i: int| 0 <= i < s.len() && #[trigger] s[i].0 == x;
                assert(tail[i - 1].0 == x);
            }
            assert forall|x: Seq<char>| map_of(tail).contains_key(x) implies m.remove(
                k0,
            ).contains_key(x) && m.remove(k0)[x] == map_of(tail)[x] by {
                let i = choose|i: int| 0 <= i < tail.len() && #[trigger] tail[i].0 == x;
                assert(s[i + 1].0 == x);
                assert(s[0].0 != s[i + 1].0);
                assert(m[s[i + 1].0] == s[i + 1].1);
                assert(map_of(tail)[tail[i].0] == tail[i].1);
            }
        }
        lemma_entries_in_order_of_list(tail);
        assert(m[s[0].0] == s[0].1);
        assert(seq![(k0, m[k0])] + tail =~= s);
    }
}

/// The walk of a finite map is ascending and stands for the map: every
/// entry is met once, a smaller name before a greater one.
pub proof fn lemma_entries_in_order<T>(m: Map<Seq<char>, T>)
    requires
        m.dom().finite(),
    ensures
        keys_ascending(entries_in_order(m)),
        map_of(entries_in_order(m)) == m,
        entries_in_order(m).len() == m.dom().len(),
    decreases m.dom().len(),
{
    let walk = entries_in_order(m);
    if m.dom().len() == 0 {
        assert(m.dom() =~= Set::empty());
        assert(map_of(walk) =~= m);
    } else {
        lemma_least_key_exists(m);
        let k = least_key(m);
        let rest = m.remove(k);
        let tail = entries_in_order(rest);
        lemma_entries_in_order(rest);
        lemma_ascending_names_distinct(tail);
        lemma_map_of(tail);
        assert(walk == seq![(k, m[k])] + tail);
        assert(keys_ascending(walk)) by {
            assert forall|i: int, j: int| 0 <= i < j < walk.len() implies key_lt(
                walk[i].0,
                walk[j].0,
            ) by {
                assert(walk[j] == tail[j - 1]);
                if i == 0 {
                    assert(rest.contains_key(tail[j - 1].0));
                    lemma_key_lt_total(k, walk[j].0);
                } else {
                    assert(walk[i] == tail[i - 1]);
                    assert(key_lt(tail[i - 1].0, tail[j - 1].0));
                }
            }
        }
        lemma_ascending_names_distinct(walk);
        lemma_map_of(walk);
        assert(map_of(walk) =~= m) by {
            assert forall|x: Seq<char>| map_of(walk).contains_key(x) implies m.contains_key(x)
                && map_of(walk)[x] == m[x] by {
                let i = choose|i: int| 0 <= i < walk.len() && #[trigger] walk[i].0 == x;
                assert(map_of(walk)[walk[i].0] == walk[i].1);
                if i > 0 {
                    assert(walk[i] == tail[i - 1]);
                    assert(rest.contains_key(tail[i - 1].0));
                    assert(rest[tail[i - 1].0] == tail[i - 1].1);
                }
            }
            assert forall|x: Seq<char>| m.contains_key(x) implies map_of(walk).contains_key(
                x,
            ) by {
                if x == k {
                    assert(walk[0].0 == x);
                } else {
                    assert(rest.contains_key(x));
                    let i = choose|i: int| 0 <= i < tail.len() && #[trigger] tail[i].0 == x;
                    assert(walk[i + 1].0 == x);
                }
            }
        }
    }
}

/// The walk of a finite map meets every entry of the map, and nothing else.
pub proof fn lemma_walk_meets_every_entry<T>(m: Map<Seq<char>, T>)
    requires
        m.dom().finite(),
    ensures
        forall|i: int|
            0 <= i < entries_in_order(m).len() ==> m.contains_key(
                (#[trigger] entries_in_order(m)[i]).0,
            ) && m[entries_in_order(m)[i].0] == entries_in_order(m)[i].1,
        forall|k: Seq<char>| #[trigger]
            m.contains_key(k) ==> exists|i: int|
                0 <= i < entries_in_order(m).len() && #[trigger] entries_in_order(m)[i] == (
                    k,
                    m[k],
                ),
{
    let walk = entries_in_order(m);
    lemma_entries_in_order(m);
    lemma_ascending_names_distinct(walk);
    lemma_map_of(walk);
    assert forall|k: Seq<char>| #[trigger] m.contains_key(k) implies exists|i: int|
        0 <= i < walk.len() && #[trigger] walk[i] == (k, m[k]) by {
        let i = choose|i: int| 0 <= i < walk.len() && #[trigger] walk[i].0 == k;
        assert(map_of(walk)[walk[i].0] == walk[i].1);
        assert(walk[i] == (k, m[k]));
    }
    assert forall|i: int| 0 <= i < walk.len() implies m.contains_key((#[trigger] walk[i]).0)
        && m[walk[i].0] == walk[i].1 by {
        assert(map_of(walk).contains_key(walk[i].0));
    }
}

/// Two ascending lists that stand for the same map are the same list: the
/// walk depends on the map alone.
pub proof fn lemma_ascending_list_unique<T>(a: Seq<(Seq<char>, T)>, b: Seq<(Seq<char>, T)>)
    requires
        keys_ascending(a),
        keys_ascending(b),
        map_of(a) == map_of(b),
    ensures
        a == b,
{
    lemma_entries_in_order_of_list(a);
    lemma_entries_in_order_of_list(b);
}

/// The order in which entries are declared makes no difference: two lists
/// that hold the same entries, each name once, give the same map, and so the
/// same walk.
pub proof fn lemma_declaration_order_irrelevant<T>(a: Seq<(Seq<char>, T)>, b: Seq<(Seq<char>, T)>)
    requires
        names_distinct(a),
        names_distinct(b),
        forall|e: (Seq<char>, T)| a.contains(e) <==> b.contains(e),
    ensures
        map_of(a) == map_of(b),
        entries_in_order(map_of(a)) == entries_in_order(map_of(b)),
{
    lemma_map_of(a);
    lemma_map_of(b);
    assert(map_of(a) =~= map_of(b)) by {
        assert forall|x: Seq<char>| map_of(a).contains_key(x) implies map_of(b).contains_key(x)
            && map_of(a)[x] == map_of(b)[x] by {
            let i = choose|i: int| 0 <= i < a.len() && #[trigger] a[i].0 == x;
            assert(map_of(a)[a[i].0] == a[i].1);
            assert(a.contains(a[i]));
            let j = choose|j: int| 0 <= j < b.len() && b[j] == a[i];
            assert(map_of(b)[b[j].0] == b[j].1);
        }
        assert forall|x: Seq<char>| map_of(b).contains_key(x) implies map_of(a).contains_key(
            x,
        ) by {
            let j = choose|j: int| 0 <= j < b.len() && #[trigger] b[j].0 == x;
            assert(b.contains(b[j]));
            let i = choose|i: int| 0 <= i < a.len() && a[i] == b[j];
            assert(a[i].0 == x);
        }
    }
}

/// What a list of declared entries says, as plain values.
pub open spec fn declared_entries<V: View>(declared: Seq<(String, V)>) -> Seq<(Seq<char>, V::V)> {
    declared.map_values(|e: (String, V)| (e.0@, e.1@))
}

/// A map from names to values, walked in ascending order of the names.
#[derive(Debug, PartialEq)]
pub struct OrderedMap<V> {
    entries: Vec<(String, V)>,
}

impl<V> OrderedMap<V> {
    /// The entries are sorted by name, and no name stands twice.
    #[verifier::type_invariant]
    spec fn sorted(&self) -> bool {
        forall|i: int, j: int|
            #![trigger self.entries@[i], self.entries@[j]]
            0 <= i < j < self.entries@.len() ==> key_lt(self.entries@[i].0@, self.entries@[j].0@)
    }
}

impl<V: View> View for OrderedMap<V> {
    type V = Map<Seq<char>, V::V>;

    closed spec fn view(&self) -> Map<Seq<char>, V::V> {
        map_of(self.listing())
    }
}

impl<V: View> OrderedMap<V> {
    /// The entries as they are stored.
    closed spec fn listing(&self) -> Seq<(Seq<char>, V::V)> {
        Seq::new(self.entries@.len(), |i: int| (self.entries@[i].0@, self.entries@[i].1@))
    }

    /// What the stored list has to do with the view, for a sorted list.
    proof fn lemma_listing(&self)
        requires
            self.sorted(),
        ensures
            keys_ascending(self.listing()),
            names_distinct(self.listing()),
            self@.dom().finite(),
            self@.dom().len() == self.entries@.len(),
            entries_in_order(self@) == self.listing(),
    {
        let s = self.listing();
        assert(keys_ascending(s)) by {
            assert forall|i: int, j: int| 0 <= i < j < s.len() implies key_lt(s[i].0, s[j].0) by {
                assert(key_lt(self.entries@[i].0@, self.entries@[j].0@));
            }
        }
        lemma_ascending_names_distinct(s);
        lemma_map_of(s);
        lemma_entries_in_order_of_list(s);
    }

    /// A map without entries.
    pub fn new() -> (map: Self)
        ensures
            map@ == Map::<Seq<char>, V::V>::empty(),
    {
        let map = OrderedMap { entries: Vec::new() };
        assert(map@ =~= Map::<Seq<char>, V::V>::empty());
        map
    }

    /// The map that holds the entries of `declared`. Where a name stands
    /// more than once, its last entry counts.
    pub fn from_entries(declared: Vec<(String, V)>) -> (map: Self)
        ensures
            map@ == map_of(declared_entries(declared@)),
    {
        let ghost all = declared_entries(declared@);
        let mut map = OrderedMap::new();
        for entry in it: declared
            invariant
                all == declared_entries(it.seq()),
                map@ == map_of(all.take(it.index() as int)),
        {
            let ghost done = all.take(it.index() + 1);
            assert(done.drop_last() =~= all.take(it.index() as int));
            assert(done.last() == (entry.0@, entry.1@));
            map.insert(entry.0, entry.1);
        }
        assert(all.take(all.len() as int) =~= all);
        map
    }

    /// The number of entries.
    pub fn len(&self) -> (n: usize)
        ensures
            self@.dom().finite(),
            n == self@.len(),
            n == entries_in_order(self@).len(),
    {
        proof {
            use_type_invariant(self);
            self.lemma_listing();
        }
        self.entries.len()
    }

    /// The name of the entry that a walk meets at position `i`.
    pub fn key_at(&self, i: usize) -> (key: &String)
        requires
            i < self@.len(),
        ensures
            key@ == entries_in_order(self@)[i as int].0,
    {
        proof {
            use_type_invariant(self);
            self.lemma_listing();
        }
        &self.entries[i].0
    }

    /// The value of the entry that a walk meets at position `i`.
    pub fn value_at(&self, i: usize) -> (value: &V)
        requires
            i < self@.len(),
        ensures
            value@ == entries_in_order(self@)[i as int].1,
    {
        proof {
            use_type_invariant(self);
            self.lemma_listing();
        }
        &self.entries[i].1
    }

    /// The position of the first entry whose name does not come before
    /// `key`, and whether that entry has the name `key`. The entries are
    /// sorted, so the search halves what is left at every step.
    fn position(entries: &Vec<(String, V)>, key: &str) -> (found: (usize, bool))
        requires
            forall|i: int, j: int|
                #![trigger entries@[i], entries@[j]]
                0 <= i < j < entries@.len() ==> key_lt(entries@[i].0@, entries@[j].0@),
        ensures
            found.0 <= entries@.len(),
            forall|i: int| 0 <= i < found.0 ==> key_lt(#[trigger] entries@[i].0@, key@),
            found.1 ==> found.0 < entries@.len() && entries@[found.0 as int].0@ == key@,
            !found.1 ==> forall|i: int|
                found.0 <= i < entries@.len() ==> key_lt(key@, #[trigger] entries@[i].0@),
    {
        let mut low: usize = 0;
        let mut high: usize = entries.len();
        while low < high
            invariant
                low <= high <= entries@.len(),
                forall|i: int| 0 <= i < low ==> key_lt(#[trigger] entries@[i].0@, key@),
                forall|i: int| high <= i < entries@.len() ==> key_lt(key@, #[trigger] entries@[i].0@),
                forall|i: int, j: int|
                    #![trigger entries@[i], entries@[j]]
                    0 <= i < j < entries@.len() ==> key_lt(entries@[i].0@, entries@[j].0@),
            decreases high - low,
        {
            let middle = low + (high - low) / 2;
            let ghost name = entries@[middle as int].0@;
            match compare_keys(entries[middle].0.as_str(), key) {
                KeyOrder::Before => {
                    assert forall|i: int| 0 <= i < middle + 1 implies key_lt(
                        #[trigger] entries@[i].0@,
                        key@,
                    ) by {
                        if i < middle {
                            assert(key_lt(entries@[i].0@, entries@[middle as int].0@));
                            lemma_key_lt_transitive(entries@[i].0@, name, key@);
                        }
                    }
                    low = middle + 1;
                },
                KeyOrder::Same => {
                    assert forall|i: int| 0 <= i < middle implies key_lt(
                        #[trigger] entries@[i].0@,
                        key@,
                    ) by {
                        assert(key_lt(entries@[i].0@, entries@[middle as int].0@));
                    }
                    return (middle, true);
                },
                KeyOrder::After => {
                    assert forall|i: int| middle <= i < entries@.len() implies key_lt(
                        key@,
                        #[trigger] entries@[i].0@,
                    ) by {
                        if middle < i {
                            assert(key_lt(entries@[middle as int].0@, entries@[i].0@));
                            lemma_key_lt_transitive(key@, name, entries@[i].0@);
                        }
                    }
                    high = middle;
                },
            }
        }
        (low, false)
    }

    /// The value that stands under `key`, if there is one.
    pub fn get(&self, key: &str) -> (value: Option<&V>)
        ensures
            match value {
                Some(v) => self@.contains_key(key@) && v@ == self@[key@],
                None => !self@.contains_key(key@),
            },
    {
        proof {
            use_type_invariant(self);
            self.lemma_listing();
            lemma_map_of(self.listing());
        }
        let (at, present) = Self::position(&self.entries, key);
        if present {
            assert(self.listing()[at as int].0 == key@);
            Some(&self.entries[at].1)
        } else {
            proof {
                if self@.contains_key(key@) {
                    let s = self.listing();
                    let i = choose|i: int| 0 <= i < s.len() && #[trigger] s[i].0 == key@;
                    assert(self.entries@[i].0@ == key@);
                    lemma_key_lt_irreflexive(key@);
                }
            }
            None
        }
    }

    /// Puts `value` under `key`, in place of the value that stood there if
    /// there was one, which is handed back.
    pub fn insert(&mut self, key: String, value: V) -> (previous: Option<V>)
        ensures
            final(self)@ == old(self)@.insert(key@, value@),
            match previous {
                Some(p) => old(self)@.contains_key(key@) && p@ == old(self)@[key@],
                None => !old(self)@.contains_key(key@),
            },
    {
        proof {
            use_type_invariant(&*self);
            self.lemma_listing();
            lemma_map_of(self.listing());
        }
        let ghost before = self.listing();
        let ghost k = key@;
        let ghost v = value@;
        let mut entries: Vec<(String, V)> = Vec::new();
        std::mem::swap(&mut entries, &mut self.entries);
        let (at, present) = Self::position(&entries, key.as_str());
        let previous = if present {
            let old_entry = entries.remove(at);
            Some(old_entry.1)
        } else {
            None
        };
        entries.insert(at, (key, value));
        proof {
            assert forall|i: int, j: int| 0 <= i < j < entries@.len() implies key_lt(
                entries@[i].0@,
                entries@[j].0@,
            ) by {
                let shift: int = if present { 1 } else { 0 };
                let oi = if i < at { i } else { i - 1 + shift };
                let oj = if j < at { j } else { j - 1 + shift };
                if i != at && j != at {
                    assert(entries@[i].0@ == before[oi].0);
                    assert(entries@[j].0@ == before[oj].0);
                    assert(key_lt(before[oi].0, before[oj].0));
                } else if i == at {
                    assert(entries@[j].0@ == before[oj].0);
                    if present {
                        assert(key_lt(before[at as int].0, before[oj].0));
                    }
                } else {
                    assert(entries@[i].0@ == before[oi].0);
                }
            }
        }
        self.entries = entries;
        proof {
            let after = self.listing();
            self.lemma_listing();
            lemma_map_of(after);
            assert(after[at as int] == (k, v));
            assert(self@ =~= map_of(before).insert(k, v)) by {
                assert forall|x: Seq<char>| self@.contains_key(x) implies map_of(
                    before,
                ).insert(k, v).contains_key(x) && self@[x] == map_of(before).insert(k, v)[x] by {
                    let i = choose|i: int| 0 <= i < after.len() && #[trigger] after[i].0 == x;
                    assert(self@[after[i].0] == after[i].1);
                    if i != at {
                        let shift: int = if present { 1 } else { 0 };
                        let oi = if i < at { i } else { i - 1 + shift };
                        assert(after[i] == before[oi]);
                        assert(map_of(before).contains_key(before[oi].0));
                        if x == k {
                            assert(after[i].0 != after[at as int].0);
                        }
                    }
                }
                assert forall|x: Seq<char>|
                    map_of(before).insert(k, v).contains_key(x) implies self@.contains_key(
                    x,
                ) by {
                    if x == k {
                        assert(after[at as int].0 == x);
                    } else {
                        let oi = choose|i: int| 0 <= i < before.len() && #[trigger] before[i].0 == x;
                        let shift: int = if present { 1 } else { 0 };
                        let i = if oi < at { oi } else { oi + 1 - shift };
                        assert(after[i] == before[oi]);
                    }
                }
            }
        }
        previous
    }
}

impl<V: Clone + View> Clone for OrderedMap<V> {
    /// A map with the same names, each with a clone of its value.
    fn clone(&self) -> (copy: Self)
        ensures
            copy@.dom() == self@.dom(),
    {
        proof {
            use_type_invariant(self);
        }
        let mut entries: Vec<(String, V)> = Vec::new();
        let mut i: usize = 0;
        while i < self.entries.len()
            invariant
                i <= self.entries@.len(),
                entries@.len() == i,
                forall|j: int| 0 <= j < i ==> #[trigger] entries@[j].0@ == self.entries@[j].0@,
                self.sorted(),
            decreases self.entries@.len() - i,
        {
            let name = self.entries[i].0.clone();
            let value = self.entries[i].1.clone();
            entries.push((name, value));
            i += 1;
        }
        proof {
            assert forall|a: int, b: int| 0 <= a < b < entries@.len() implies key_lt(
                entries@[a].0@,
                entries@[b].0@,
            ) by {
                assert(key_lt(self.entries@[a].0@, self.entries@[b].0@));
            }
        }
        let copy = OrderedMap { entries };
        proof {
            let s = self.listing();
            let c = copy.listing();
            self.lemma_listing();
            copy.lemma_listing();
            lemma_map_of(s);
            lemma_map_of(c);
            assert(copy@.dom() =~= self@.dom()) by {
                assert forall|k: Seq<char>| copy@.dom().contains(k) implies self@.dom().contains(
                    k,
                ) by {
                    let i = choose|i: int| 0 <= i < c.len() && #[trigger] c[i].0 == k;
                    assert(s[i].0 == k);
                }
                assert forall|k: Seq<char>| self@.dom().contains(k) implies copy@.dom().contains(
                    k,
                ) by {
                    let i = choose|i: int| 0 <= i < s.len() && #[trigger] s[i].0 == k;
                    assert(c[i].0 == k);
                }
            }
        }
        copy
    }
}

impl<V: View> Default for OrderedMap<V> {
    fn default() -> (map: Self)
        ensures
            map@ == Map::<Seq<char>, V::V>::empty(),
    {
        OrderedMap::new()
    }
}

} // verus!
