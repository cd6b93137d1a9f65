//! Tables and sets keyed by strings, held in key order.
//!
//! Both keep their keys strictly sorted as `str` orders them, so a key occurs
//! once, a lookup is a binary search, and the keys come out in a fixed order.

use vstd::prelude::*;
use vstd::string::*;
use crate::lexical::{
    lemma_str_before_asymmetric, lemma_str_before_irreflexive, lemma_str_before_total,
    lemma_str_before_transitive, rank_str, rising, str_before, strictly_sorted, Rank,
};

verus! {

/// The views of a sequence of strings.
pub open spec fn names_of(v: Seq<String>) -> Seq<Seq<char>> {
    Seq::new(v.len(), |i: int| v[i]@)
}

/// In a strictly sorted sequence each element stands at one place only.
pub proof fn lemma_sorted_index_of(s: Seq<Seq<char>>, i: int)
    requires
        strictly_sorted(s),
        0 <= i < s.len(),
    ensures
        s.contains(s[i]),
        s.index_of(s[i]) == i,
{
    assert(s.contains(s[i]));
    let j = s.index_of(s[i]);
    assert(0 <= j < s.len() && s[j] == s[i]);
    if j < i {
        lemma_str_before_irreflexive(s[i]);
    } else if i < j {
        lemma_str_before_irreflexive(s[i]);
    }
}

/// The strings `names` in rising order, each as often as it was given.
pub fn sort_names(names: &Vec<String>) -> (sorted: Vec<String>)
    ensures
        rising(names_of(sorted@)),
        names_of(sorted@).to_multiset() == names_of(names@).to_multiset(),
{
    let mut sorted: Vec<String> = Vec::new();
    let mut i: usize = 0;
    proof {
        assert(names_of(sorted@) =~= names_of(names@).take(0));
    }
    while i < names.len()
        invariant
            i <= names@.len(),
            rising(names_of(sorted@)),
            names_of(sorted@).to_multiset() == names_of(names@).take(i as int).to_multiset(),
        decreases names@.len() - i,
    {
        let next = names[i].clone();
        let mut at: usize = sorted.len();
        let mut found = false;
        while at > 0 && !found
            invariant
                at <= sorted@.len(),
                forall|k: int|
                    at <= k < sorted@.len() ==> str_before(next@, (#[trigger] sorted@[k])@),
                found ==> at > 0 && !str_before(next@, sorted@[at - 1]@),
            decreases at + if found { 0int } else { 1int },
        {
            match rank_str(sorted[at - 1].as_str(), next.as_str()) {
                Rank::After => {
                    at = at - 1;
                },
                _ => {
                    found = true;
                },
            }
        }
        let ghost before = names_of(sorted@);
        sorted.insert(at, next);
        proof {
            let after = names_of(sorted@);
            assert(after =~= before.insert(at as int, next@));
            vstd::seq_lib::to_multiset_insert(before, at as int, next@);
            let given = names_of(names@);
            assert(given.take(i + 1) =~= given.take(i as int).push(next@));
            vstd::seq_lib::to_multiset_build(given.take(i as int), next@);
            assert forall|k: int, l: int| 0 <= k < l < after.len() implies !str_before(
                after[l],
                after[k],
            ) by {
                let a = if k < at { k } else { k - 1 };
                let b = if l < at { l } else { l - 1 };
                if k == at {
                    assert(after[l] == before[b]);
                    assert(before[b] == sorted@[l]@);
                    lemma_str_before_asymmetric(next@, before[b]);
                } else if l == at {
                    assert(after[k] == before[a]);
                    let last = before[at - 1];
                    if str_before(next@, before[a]) {
                        if a < at - 1 {
                            assert(!str_before(last, before[a]));
                            lemma_str_before_total(before[a], last);
                            if str_before(before[a], last) {
                                lemma_str_before_transitive(next@, before[a], last);
                            }
                        }
                    }
                } else {
                    assert(after[k] == before[a] && after[l] == before[b]);
                }
            }
        }
        i = i + 1;
    }
    proof {
        assert(names_of(names@).take(names@.len() as int) =~= names_of(names@));
    }
    sorted
}

/// One key with its value.
pub struct Entry<T> {
    key: String,
    value: T,
}

/// A map from strings to `T`.
pub struct StrMap<T> {
    entries: Vec<Entry<T>>,
}

impl<T> View for StrMap<T> {
    type V = Map<Seq<char>, T>;

    closed spec fn view(&self) -> Map<Seq<char>, T> {
        Map::new(
            |k: Seq<char>| self.keys().contains(k),
            |k: Seq<char>| self.values()[self.keys().index_of(k)],
        )
    }
}

impl<T> StrMap<T> {
    /// The keys, in the order in which they are held.
    pub closed spec fn keys(&self) -> Seq<Seq<char>> {
        Seq::new(self.entries@.len(), |i: int| self.entries@[i].key@)
    }

    /// The values, each at the place of its key.
    pub closed spec fn values(&self) -> Seq<T> {
        Seq::new(self.entries@.len(), |i: int| self.entries@[i].value)
    }

    /// The keys are strictly sorted.
    pub closed spec fn wf(&self) -> bool {
        strictly_sorted(self.keys())
    }

    /// What the keys and values say of the map.
    pub proof fn lemma_view(&self)
        requires
            self.wf(),
        ensures
            strictly_sorted(self.keys()),
            self.keys().len() == self.values().len(),
            self@.dom() == self.keys().to_set(),
            self@.dom().finite(),
            self@.dom().len() == self.keys().len(),
            forall|i: int|
                0 <= i < self.keys().len() ==> #[trigger] self@.contains_key(self.keys()[i])
                    && self@[self.keys()[i]] == self.values()[i],
    {
        assert(self@.dom() =~= self.keys().to_set());
        assert forall|i: int| 0 <= i < self.keys().len() implies #[trigger] self@.contains_key(
            self.keys()[i],
        ) && self@[self.keys()[i]] == self.values()[i] by {
            lemma_sorted_index_of(self.keys(), i);
        }
        assert(self.keys().no_duplicates()) by {
            assert forall|i: int, j: int|
                0 <= i < self.keys().len() && 0 <= j < self.keys().len() && i != j implies self.keys()[i]
                != self.keys()[j] by {
                if i < j {
                    lemma_str_before_asymmetric(self.keys()[i], self.keys()[j]);
                } else {
                    lemma_str_before_asymmetric(self.keys()[j], self.keys()[i]);
                }
            }
        }
        self.keys().unique_seq_to_set();
    }

    /// An empty map.
    pub fn new() -> (m: Self)
        ensures
            m.wf(),
            m@ == Map::<Seq<char>, T>::empty(),
            m.keys().len() == 0,
    {
        let m = StrMap { entries: Vec::new() };
        assert(m@ =~= Map::<Seq<char>, T>::empty());
        m
    }

    /// The number of keys.
    pub fn len(&self) -> (n: usize)
        requires
            self.wf(),
        ensures
            n == self.keys().len(),
            n == self@.dom().len(),
    {
        proof {
            self.lemma_view();
        }
        self.entries.len()
    }

    /// Where `key` stands, or where it would be put.
    fn locate(&self, key: &str) -> (r: (bool, usize))
        requires
            self.wf(),
        ensures
            r.1 <= self.keys().len(),
            r.0 ==> r.1 < self.keys().len() && self.keys()[r.1 as int] == key@,
            !r.0 ==> !self.keys().contains(key@),
            !r.0 ==> forall|i: int| 0 <= i < r.1 ==> str_before(#[trigger] self.keys()[i], key@),
            !r.0 ==> forall|i: int|
                r.1 <= i < self.keys().len() ==> str_before(key@, #[trigger] self.keys()[i]),
    {
        let mut lo: usize = 0;
        let mut hi: usize = self.entries.len();
        while lo < hi
            invariant
                self.wf(),
                lo <= hi <= self.entries@.len(),
                forall|i: int| 0 <= i < lo ==> str_before(#[trigger] self.keys()[i], key@),
                forall|i: int|
                    hi <= i < self.keys().len() ==> str_before(key@, #[trigger] self.keys()[i]),
            decreases hi - lo,
        {
            let mid: usize = lo + (hi - lo) / 2;
            let found = rank_str(self.entries[mid].key.as_str(), key);
            assert(self.keys()[mid as int] == self.entries@[mid as int].key@);
            match found {
                Rank::Same => {
                    return (true, mid);
                },
                Rank::Before => {
                    assert forall|i: int| 0 <= i < mid + 1 implies str_before(
                        #[trigger] self.keys()[i],
                        key@,
                    ) by {
                        if i < mid {
                            lemma_str_before_transitive(
                                self.keys()[i],
                                self.keys()[mid as int],
                                key@,
                            );
                        }
                    }
                    lo = mid + 1;
                },
                Rank::After => {
                    assert forall|i: int| mid <= i < self.keys().len() implies str_before(
                        key@,
                        #[trigger] self.keys()[i],
                    ) by {
                        if mid < i {
                            lemma_str_before_transitive(
                                key@,
                                self.keys()[mid as int],
                                self.keys()[i],
                            );
                        }
                    }
                    hi = mid;
                },
            }
        }
        proof {
            if self.keys().contains(key@) {
                let i = self.keys().index_of(key@);
                lemma_str_before_irreflexive(key@);
            }
        }
        (false, lo)
    }

    /// The value held under `key`, if there is one.
    pub fn get(&self, key: &str) -> (r: Option<&T>)
        requires
            self.wf(),
        ensures
            match r {
                Some(v) => self@.contains_key(key@) && *v == self@[key@],
                None => !self@.contains_key(key@),
            },
    {
        let (found, at) = self.locate(key);
        if found {
            proof {
                self.lemma_view();
                assert(self@.contains_key(self.keys()[at as int]));
                assert(self.values()[at as int] == self.entries@[at as int].value);
            }
            Some(&self.entries[at].value)
        } else {
            None
        }
    }

    /// Whether `key` is held.
    pub fn contains_key(&self, key: &str) -> (r: bool)
        requires
            self.wf(),
        ensures
            r == self@.contains_key(key@),
    {
        let (found, _at) = self.locate(key);
        found
    }

    /// Puts `value` under `key`, in place of what was held there.
    pub fn insert(&mut self, key: String, value: T)
        requires
            old(self).wf(),
        ensures
            final(self).wf(),
            final(self)@ == old(self)@.insert(key@, value),
    {
        let (found, at) = self.locate(key.as_str());
        let ghost before = *self;
        if found {
            self.entries.set(at, Entry { key, value });
            proof {
                assert(self.keys() =~= before.keys());
                assert(self.values() =~= before.values().update(at as int, value));
                before.lemma_view();
                self.lemma_view();
                assert forall|k: Seq<char>| self@.contains_key(k) implies #[trigger] self@[k]
                    == before@.insert(key@, value)[k] by {
                    let i = self.keys().index_of(k);
                    assert(self.keys()[i] == k);
                }
                assert(self@ =~= before@.insert(key@, value));
            }
        } else {
            self.entries.insert(at, Entry { key, value });
            proof {
                assert(self.keys() =~= before.keys().insert(at as int, key@));
                assert(self.values() =~= before.values().insert(at as int, value));
                assert forall|i: int, j: int| 0 <= i < j < self.keys().len() implies str_before(
                    self.keys()[i],
                    self.keys()[j],
                ) by {
                    let a = if i < at { i } else { i - 1 };
                    let b = if j < at { j } else { j - 1 };
                    if i == at {
                        assert(self.keys()[j] == before.keys()[b]);
                    } else if j == at {
                        assert(self.keys()[i] == before.keys()[a]);
                    } else {
                        assert(self.keys()[i] == before.keys()[a]);
                        assert(self.keys()[j] == before.keys()[b]);
                    }
                }
                before.lemma_view();
                self.lemma_view();
                assert forall|k: Seq<char>| self@.contains_key(k) <==> before@.insert(
                    key@,
                    value,
                ).contains_key(k) by {
                    if self@.contains_key(k) {
                        let i = self.keys().index_of(k);
                        assert(self.keys()[i] == k);
                        if i != at {
                            let a = if i < at { i } else { i - 1 };
                            assert(before.keys()[a] == k);
                        }
                    }
                    if before@.contains_key(k) {
                        let a = before.keys().index_of(k);
                        assert(before.keys()[a] == k);
                        let i = if a < at { a } else { a + 1 };
                        assert(self.keys()[i] == k);
                    }
                    if k == key@ {
                        assert(self.keys()[at as int] == k);
                    }
                }
                assert forall|k: Seq<char>| self@.contains_key(k) implies #[trigger] self@[k]
                    == before@.insert(key@, value)[k] by {
                    let i = self.keys().index_of(k);
                    assert(self.keys()[i] == k);
                    if i != at {
                        let a = if i < at { i } else { i - 1 };
                        assert(before.keys()[a] == k);
                        assert(before@.contains_key(before.keys()[a]));
                    }
                }
                assert(self@ =~= before@.insert(key@, value));
            }
        }
    }

    /// The key at place `i` of the key order.
    pub fn key_at(&self, i: usize) -> (key: &str)
        requires
            self.wf(),
            i < self.keys().len(),
        ensures
            key@ == self.keys()[i as int],
    {
        self.entries[i].key.as_str()
    }

    /// The value at place `i` of the key order.
    pub fn value_at(&self, i: usize) -> (value: &T)
        requires
            self.wf(),
            i < self.keys().len(),
        ensures
            *value == self.values()[i as int],
            self@.contains_key(self.keys()[i as int]),
            *value == self@[self.keys()[i as int]],
    {
        proof {
            self.lemma_view();
            assert(self@.contains_key(self.keys()[i as int]));
        }
        &self.entries[i].value
    }

    /// The keys in rising order.
    pub fn names(&self) -> (names: Vec<String>)
        requires
            self.wf(),
        ensures
            names_of(names@) == self.keys(),
            strictly_sorted(names_of(names@)),
            names_of(names@).to_set() == self@.dom(),
    {
        let mut names: Vec<String> = Vec::new();
        let mut i: usize = 0;
        while i < self.entries.len()
            invariant
                i <= self.entries@.len(),
                names@.len() == i,
                forall|j: int| 0 <= j < i ==> (#[trigger] names@[j])@ == self.entries@[j].key@,
            decreases self.entries@.len() - i,
        {
            names.push(self.entries[i].key.clone());
            i = i + 1;
        }
        proof {
            assert(names_of(names@) =~= self.keys());
            self.lemma_view();
        }
        names
    }
}

/// A set of strings.
pub struct StrSet {
    table: StrMap<()>,
}

impl View for StrSet {
    type V = Set<Seq<char>>;

    closed spec fn view(&self) -> Set<Seq<char>> {
        self.table@.dom()
    }
}

impl StrSet {
    /// The members in rising order.
    pub closed spec fn members(&self) -> Seq<Seq<char>> {
        self.table.keys()
    }

    pub closed spec fn wf(&self) -> bool {
        self.table.wf()
    }

    /// The members are the set, each once and in rising order.
    pub proof fn lemma_members(&self)
        requires
            self.wf(),
        ensures
            strictly_sorted(self.members()),
            self.members().to_set() == self@,
            self@.finite(),
            self@.len() == self.members().len(),
    {
        self.table.lemma_view();
    }

    /// An empty set.
    pub fn new() -> (s: Self)
        ensures
            s.wf(),
            s@ == Set::<Seq<char>>::empty(),
    {
        let s = StrSet { table: StrMap::new() };
        assert(s@ =~= Set::<Seq<char>>::empty());
        s
    }

    /// The number of members.
    pub fn len(&self) -> (n: usize)
        requires
            self.wf(),
        ensures
            n == self@.len(),
            n == self.members().len(),
    {
        self.table.len()
    }

    /// Whether `name` is a member.
    pub fn contains(&self, name: &str) -> (r: bool)
        requires
            self.wf(),
        ensures
            r == self@.contains(name@),
    {
        self.table.contains_key(name)
    }

    /// Adds `name`.
    pub fn insert(&mut self, name: String)
        requires
            old(self).wf(),
        ensures
            final(self).wf(),
            final(self)@ == old(self)@.insert(name@),
    {
        let ghost before = self.table@;
        self.table.insert(name, ());
        assert(self.table@.dom() =~= before.dom().insert(name@));
    }

    /// The member at place `i` of the rising order.
    pub fn member_at(&self, i: usize) -> (name: &str)
        requires
            self.wf(),
            i < self.members().len(),
        ensures
            name@ == self.members()[i as int],
            self@.contains(name@),
    {
        proof {
            self.table.lemma_view();
        }
        self.table.key_at(i)
    }

    /// The members in rising order.
    pub fn names(&self) -> (names: Vec<String>)
        requires
            self.wf(),
        ensures
            names_of(names@) == self.members(),
            strictly_sorted(names_of(names@)),
            names_of(names@).to_set() == self@,
    {
        self.table.names()
    }
}

} // verus!
