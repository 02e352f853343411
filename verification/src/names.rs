//! Sets of names and maps between names, kept in a canonical form.
use vstd::prelude::*;

use crate::text::{contains_name, insert_unique, is_strictly_sorted, name_eq, texts};

verus! {

/// A set of names, held in increasing order so that listing it is
/// deterministic.
#[derive(Debug, PartialEq, Eq)]
pub struct NameSet {
    names: Vec<String>,
}

impl View for NameSet {
    type V = Set<Seq<char>>;

    closed spec fn view(&self) -> Set<Seq<char>> {
        texts(self.names@).to_set()
    }
}

impl NameSet {
    #[verifier::type_invariant]
    closed spec fn ordered(&self) -> bool {
        is_strictly_sorted(texts(self.names@))
    }

    /// The names in increasing order.
    pub closed spec fn spec_sorted(&self) -> Seq<Seq<char>> {
        texts(self.names@)
    }

    pub fn new() -> (res: Self)
        ensures
            res@ == Set::<Seq<char>>::empty(),
            res.spec_sorted() == Seq::<Seq<char>>::empty(),
    {
        let res = NameSet { names: Vec::new() };
        assert(texts(res.names@) =~= Seq::<Seq<char>>::empty());
        assert(texts(res.names@).to_set() =~= Set::<Seq<char>>::empty());
        res
    }

    pub fn insert(&mut self, name: String)
        ensures
            final(self)@ == old(self)@.insert(name@),
    {
        proof {
            use_type_invariant(&*self);
        }
        let mut names: Vec<String> = Vec::new();
        std::mem::swap(&mut names, &mut self.names);
        insert_unique(&mut names, name);
        self.names = names;
    }

    /// The set of the given names.
    pub fn from_names(names: Vec<String>) -> (res: Self)
        ensures
            res@ == texts(names@).to_set(),
    {
        let mut res = NameSet::new();
        let mut i: usize = 0;
        while i < names.len()
            invariant
                i <= names@.len(),
                res@ == texts(names@.subrange(0, i as int)).to_set(),
            decreases names.len() - i,
        {
            res.insert(names[i].clone());
            proof {
                assert(texts(names@.subrange(0, i + 1)) =~= texts(names@.subrange(0, i as int)).push(
                    names@[i as int]@,
                ));
                texts(names@.subrange(0, i as int)).lemma_push_to_set_commute(names@[i as int]@);
                assert(texts(names@.subrange(0, i + 1)).to_set() =~= texts(names@.subrange(0, i as int)).to_set().insert(names@[i as int]@));
            }
            i = i + 1;
        }
        proof {
            assert(names@.subrange(0, i as int) =~= names@);
        }
        res
    }

    pub fn contains(&self, name: &str) -> (res: bool)
        ensures
            res == self@.contains(name@),
    {
        contains_name(&self.names, name)
    }

    pub fn len(&self) -> (res: usize)
        ensures
            res == self@.len(),
    {
        proof {
            use_type_invariant(self);
            crate::text::lemma_strictly_sorted_no_duplicates(texts(self.names@));
            texts(self.names@).unique_seq_to_set();
        }
        self.names.len()
    }

    pub fn is_empty(&self) -> (res: bool)
        ensures
            res == (self@.len() == 0),
    {
        self.len() == 0
    }

    /// The names in increasing order.
    pub fn names(&self) -> (res: &Vec<String>)
        ensures
            texts(res@) == self.spec_sorted(),
            is_strictly_sorted(texts(res@)),
            texts(res@).to_set() == self@,
    {
        proof {
            use_type_invariant(self);
        }
        &self.names
    }

    /// The names in increasing order, as an owned list.
    pub fn into_names(self) -> (res: Vec<String>)
        ensures
            is_strictly_sorted(texts(res@)),
            texts(res@).to_set() == self@,
    {
        proof {
            use_type_invariant(&self);
        }
        self.names
    }
}

impl Clone for NameSet {
    fn clone(&self) -> (res: Self)
        ensures
            res@ == self@,
    {
        proof {
            use_type_invariant(self);
        }
        let mut names: Vec<String> = Vec::new();
        let mut i: usize = 0;
        while i < self.names.len()
            invariant
                i <= self.names@.len(),
                names@ == self.names@.subrange(0, i as int),
            decreases self.names.len() - i,
        {
            names.push(self.names[i].clone());
            i = i + 1;
        }
        proof {
            assert(names@ =~= self.names@);
        }
        NameSet { names }
    }
}

/// A map from names to names, each key held once.
#[derive(Debug, PartialEq, Eq)]
pub struct NameMap {
    entries: Vec<(String, String)>,
}

/// Each key occurs once.
pub open spec fn distinct_keys(es: Seq<(String, String)>) -> bool {
    forall|i: int, j: int|
        0 <= i < es.len() && 0 <= j < es.len() && i != j ==> #[trigger] es[i].0@ != #[trigger] es[j].0@
}

impl View for NameMap {
    type V = Map<Seq<char>, Seq<char>>;

    closed spec fn view(&self) -> Map<Seq<char>, Seq<char>> {
        Map::new(
            |k: Seq<char>| exists|i: int| 0 <= i < self.entries@.len() && #[trigger] self.entries@[i].0@ == k,
            |k: Seq<char>|
                self.entries@[choose|i: int| 0 <= i < self.entries@.len() && #[trigger] self.entries@[i].0@ == k].1@,
        )
    }
}

impl NameMap {
    #[verifier::type_invariant]
    closed spec fn keyed_once(&self) -> bool {
        distinct_keys(self.entries@)
    }

    pub fn new() -> (res: Self)
        ensures
            res@ == Map::<Seq<char>, Seq<char>>::empty(),
    {
        let res = NameMap { entries: Vec::new() };
        assert(res@ =~= Map::<Seq<char>, Seq<char>>::empty());
        res
    }

    fn position(&self, key: &str) -> (res: Option<usize>)
        ensures
            res matches Some(i) ==> i < self.entries@.len() && self.entries@[i as int].0@ == key@,
            res is None ==> forall|i: int|
                0 <= i < self.entries@.len() ==> #[trigger] self.entries@[i].0@ != key@,
    {
        let mut i: usize = 0;
        while i < self.entries.len()
            invariant
                i <= self.entries@.len(),
                forall|j: int| 0 <= j < i ==> self.entries@[j].0@ != key@,
            decreases self.entries.len() - i,
        {
            if name_eq(self.entries[i].0.as_str(), key) {
                return Some(i);
            }
            i = i + 1;
        }
        None
    }

    /// The value held for `key`, if any.
    pub fn get(&self, key: &str) -> (res: Option<&String>)
        ensures
            res matches Some(v) ==> self@.contains_key(key@) && self@[key@] == v@,
            res is None ==> !self@.contains_key(key@),
    {
        proof {
            use_type_invariant(self);
        }
        match self.position(key) {
            Some(i) => {
                let v = &self.entries[i].1;
                proof {
                    let j = choose|j: int| 0 <= j < self.entries@.len() && #[trigger] self.entries@[j].0@ == key@;
                    assert(self.entries@[i as int].0@ == key@);
                    assert(j == i);
                }
                Some(v)
            },
            None => None,
        }
    }

    pub fn contains_key(&self, key: &str) -> (res: bool)
        ensures
            res == self@.contains_key(key@),
    {
        self.position(key).is_some()
    }

    /// Sets the value for `key`, replacing any value it had.
    pub fn insert(&mut self, key: String, value: String)
        ensures
            final(self)@ == old(self)@.insert(key@, value@),
    {
        proof {
            use_type_invariant(&*self);
        }
        let ghost before = self.entries@;
        let mut es: Vec<(String, String)> = Vec::new();
        std::mem::swap(&mut es, &mut self.entries);
        let mut i: usize = 0;
        let mut found = false;
        while i < es.len()
            invariant_except_break
                !found,
            invariant
                es@ == before,
                i <= es@.len(),
                forall|j: int| 0 <= j < i ==> es@[j].0@ != key@,
            ensures
                i <= es@.len(),
                es@ == before,
                forall|j: int| 0 <= j < i ==> es@[j].0@ != key@,
                found ==> i < es@.len() && es@[i as int].0@ == key@,
                !found ==> i == es@.len(),
            decreases es.len() - i,
        {
            if name_eq(es[i].0.as_str(), key.as_str()) {
                found = true;
                break;
            }
            i = i + 1;
        }
        let ghost kv = key@;
        let ghost vv = value@;
        if found {
            es.set(i, (key, value));
        } else {
            es.push((key, value));
        }
        proof {
            assert(distinct_keys(es@)) by {
                assert forall|a: int, b: int|
                    0 <= a < es@.len() && 0 <= b < es@.len() && a != b implies #[trigger] es@[a].0@
                    != #[trigger] es@[b].0@ by {
                    if a != i as int && b != i as int {
                        assert(es@[a] == before[a]);
                        assert(es@[b] == before[b]);
                    } else if a == i as int {
                        assert(es@[b] == before[b]);
                        if b < i {
                        } else {
                            assert(found);
                            assert(before[i as int].0@ == kv);
                        }
                    } else {
                        assert(es@[a] == before[a]);
                        if a < i {
                        } else {
                            assert(found);
                            assert(before[i as int].0@ == kv);
                        }
                    }
                }
            }
        }
        self.entries = es;
        proof {
            let m = self@;
            let o = Map::new(
                |k: Seq<char>| exists|t: int| 0 <= t < before.len() && #[trigger] before[t].0@ == k,
                |k: Seq<char>| before[choose|t: int| 0 <= t < before.len() && #[trigger] before[t].0@ == k].1@,
            );
            assert(m =~= o.insert(kv, vv)) by {
                assert forall|k: Seq<char>| m.contains_key(k) <==> o.insert(kv, vv).contains_key(k) by {
                    if m.contains_key(k) && k != kv {
                        let t = choose|t: int| 0 <= t < es@.len() && #[trigger] es@[t].0@ == k;
                        assert(t != i);
                        assert(before[t] == es@[t]);
                    }
                    if o.contains_key(k) && k != kv {
                        let t = choose|t: int| 0 <= t < before.len() && #[trigger] before[t].0@ == k;
                        assert(t != i || !found);
                        assert(es@[t] == before[t]);
                    }
                    if k == kv {
                        assert(es@[i as int].0@ == kv);
                    }
                }
                assert forall|k: Seq<char>| #[trigger] m.contains_key(k) implies m[k] == o.insert(
                    kv,
                    vv,
                )[k] by {
                    let t = choose|t: int| 0 <= t < es@.len() && #[trigger] es@[t].0@ == k;
                    if k == kv {
                        assert(es@[i as int].0@ == kv);
                        assert(t == i);
                    } else {
                        assert(t != i);
                        assert(es@[t] == before[t]);
                        let u = choose|u: int| 0 <= u < before.len() && #[trigger] before[u].0@ == k;
                        assert(u == t);
                    }
                }
            }
        }
    }
}

impl Clone for NameMap {
    fn clone(&self) -> (res: Self)
        ensures
            res@ == self@,
    {
        proof {
            use_type_invariant(self);
        }
        let mut entries: Vec<(String, String)> = Vec::new();
        let mut i: usize = 0;
        while i < self.entries.len()
            invariant
                i <= self.entries@.len(),
                entries@ == self.entries@.subrange(0, i as int),
            decreases self.entries.len() - i,
        {
            let k = self.entries[i].0.clone();
            let v = self.entries[i].1.clone();
            entries.push((k, v));
            assert(entries@.last() == self.entries@[i as int]);
            i = i + 1;
        }
        proof {
            assert(entries@ =~= self.entries@);
        }
        NameMap { entries }
    }
}

} // verus!
