//! A collection keyed by name, the way a map from name to entry is: a
//! name occurs at most once, and a later entry replaces an earlier one.
use vstd::prelude::*;

use crate::text::name_eq;

verus! {

/// Something found by its name.
pub trait Named {
    spec fn key(&self) -> Seq<char>;

    fn key_str(&self) -> (res: &str)
        ensures
            res@ == self.key(),
    ;
}

/// Every key occurs once.
pub open spec fn unique_keys<T: Named>(rs: Seq<T>) -> bool {
    forall|i: int, j: int|
        0 <= i < rs.len() && 0 <= j < rs.len() && i != j ==> #[trigger] rs[i].key()
            != #[trigger] rs[j].key()
}

/// Where the entry keyed `name` stands in `rs`, if anywhere.
pub fn position_of<T: Named>(rs: &Vec<T>, name: &str) -> (res: Option<usize>)
    ensures
        res matches Some(i) ==> i < rs@.len() && rs@[i as int].key() == name@,
        res is None ==> forall|i: int| 0 <= i < rs@.len() ==> #[trigger] rs@[i].key() != name@,
{
    let mut i: usize = 0;
    while i < rs.len()
        invariant
            i <= rs@.len(),
            forall|j: int| 0 <= j < i ==> rs@[j].key() != name@,
        decreases rs.len() - i,
    {
        if name_eq(rs[i].key_str(), name) {
            return Some(i);
        }
        i = i + 1;
    }
    None
}

/// Every name among the first `k` of `orig` has an entry in `reg`.
pub open spec fn names_covered<T: Named>(reg: Seq<T>, orig: Seq<T>, k: int) -> bool {
    forall|i: int| 0 <= i < k ==> has_key(reg, #[trigger] orig[i].key())
}

/// Some entry of `reg` has key `key`.
pub open spec fn has_key<T: Named>(reg: Seq<T>, key: Seq<char>) -> bool {
    exists|j: int| 0 <= j < reg.len() && #[trigger] reg[j].key() == key
}

/// Every entry in `reg` is the last of the first `k` of `orig` under its name.
pub open spec fn latest_of_each_name<T: Named>(reg: Seq<T>, orig: Seq<T>, k: int) -> bool {
    forall|j: int|
        0 <= j < reg.len() ==> exists|i: int|
            0 <= i < k && #[trigger] reg[j] == orig[i] && forall|m: int|
                i < m < k ==> #[trigger] orig[m].key() != orig[i].key()
}

#[verifier::spinoff_prover]
proof fn lemma_insert_covers<T: Named>(before: Seq<T>, after: Seq<T>, orig: Seq<T>, k: int)
    requires
        0 <= k < orig.len(),
        unique_keys(before),
        names_covered(before, orig, k),
        latest_of_each_name(before, orig, k),
        (exists|i: int| 0 <= i < before.len() && #[trigger] before[i].key() == orig[k].key())
            ==> exists|i: int|
            0 <= i < before.len() && before[i].key() == orig[k].key() && after == before.update(
                i,
                orig[k],
            ),
        (forall|i: int| 0 <= i < before.len() ==> #[trigger] before[i].key() != orig[k].key())
            ==> after == before.push(orig[k]),
    ensures
        names_covered(after, orig, k + 1),
{
    let found = exists|t: int| 0 <= t < before.len() && #[trigger] before[t].key() == orig[k].key();
    assert forall|i: int| 0 <= i < k + 1 implies has_key(after, #[trigger] orig[i].key()) by {
        if i == k {
            if found {
                let t = choose|t: int|
                    0 <= t < before.len() && before[t].key() == orig[k].key() && after == before.update(
                        t,
                        orig[k],
                    );
                assert(after[t].key() == orig[i].key());
            } else {
                assert(after[before.len() as int].key() == orig[i].key());
            }
        } else {
            let j = choose|j: int| 0 <= j < before.len() && before[j].key() == orig[i].key();
            if found {
                let t = choose|t: int|
                    0 <= t < before.len() && before[t].key() == orig[k].key() && after == before.update(
                        t,
                        orig[k],
                    );
                if j == t {
                    assert(after[j].key() == orig[i].key());
                } else {
                    assert(after[j] == before[j]);
                }
            } else {
                assert(after[j] == before[j]);
            }
        }
    }
}

#[verifier::spinoff_prover]
proof fn lemma_insert_latest<T: Named>(before: Seq<T>, after: Seq<T>, orig: Seq<T>, k: int)
    requires
        0 <= k < orig.len(),
        unique_keys(before),
        names_covered(before, orig, k),
        latest_of_each_name(before, orig, k),
        (exists|i: int| 0 <= i < before.len() && #[trigger] before[i].key() == orig[k].key())
            ==> exists|i: int|
            0 <= i < before.len() && before[i].key() == orig[k].key() && after == before.update(
                i,
                orig[k],
            ),
        (forall|i: int| 0 <= i < before.len() ==> #[trigger] before[i].key() != orig[k].key())
            ==> after == before.push(orig[k]),
    ensures
        latest_of_each_name(after, orig, k + 1),
{
    let found = exists|t: int| 0 <= t < before.len() && #[trigger] before[t].key() == orig[k].key();
    assert forall|j: int| 0 <= j < after.len() implies exists|i: int|
        0 <= i < k + 1 && #[trigger] after[j] == orig[i] && forall|m: int|
            i < m < k + 1 ==> #[trigger] orig[m].key() != orig[i].key() by {
        let fresh = if found {
            let t = choose|t: int|
                0 <= t < before.len() && before[t].key() == orig[k].key() && after == before.update(t, orig[k]);
            j == t
        } else {
            j == before.len()
        };
        if fresh {
            assert(after[j] == orig[k]);
        } else {
            assert(j < before.len());
            assert(after[j] == before[j]);
            let i = choose|i: int|
                0 <= i < k && #[trigger] before[j] == orig[i] && forall|m: int|
                    i < m < k ==> #[trigger] orig[m].key() != orig[i].key();
            if found {
                let t = choose|t: int|
                    0 <= t < before.len() && before[t].key() == orig[k].key() && after == before.update(
                        t,
                        orig[k],
                    );
                assert(before[j].key() != before[t].key());
            }
            assert(before[j].key() != orig[k].key());
            assert forall|m: int| i < m < k + 1 implies #[trigger] orig[m].key() != orig[i].key() by {
                if m == k {
                }
            }
        }
    }
}

proof fn lemma_insert_step<T: Named>(before: Seq<T>, after: Seq<T>, orig: Seq<T>, k: int)
    requires
        0 <= k < orig.len(),
        unique_keys(before),
        names_covered(before, orig, k),
        latest_of_each_name(before, orig, k),
        (exists|i: int| 0 <= i < before.len() && #[trigger] before[i].key() == orig[k].key())
            ==> exists|i: int|
            0 <= i < before.len() && before[i].key() == orig[k].key() && after == before.update(
                i,
                orig[k],
            ),
        (forall|i: int| 0 <= i < before.len() ==> #[trigger] before[i].key() != orig[k].key())
            ==> after == before.push(orig[k]),
    ensures
        names_covered(after, orig, k + 1),
        latest_of_each_name(after, orig, k + 1),
{
    lemma_insert_covers(before, after, orig, k);
    lemma_insert_latest(before, after, orig, k);
}

/// Entries keyed by name: a name occurs at most once.
#[derive(Debug)]
pub struct Registry<T: Named> {
    entries: Vec<T>,
}

impl<T: Named> Registry<T> {
    pub closed spec fn spec_entries(&self) -> Seq<T> {
        self.entries@
    }

    #[verifier::type_invariant]
    closed spec fn keyed_by_name(&self) -> bool {
        unique_keys(self.entries@)
    }

    /// A registry holding no entry.
    pub fn empty() -> (res: Self)
        ensures
            res.spec_entries() == Seq::<T>::empty(),
    {
        Registry { entries: Vec::new() }
    }

    /// Adds `r`; an entry already held under the same name is replaced in
    /// place, as a later entry under a key replaces an earlier one.
    pub fn insert(&mut self, r: T)
        ensures
            (exists|i: int|
                0 <= i < old(self).spec_entries().len() && #[trigger] old(
                    self,
                ).spec_entries()[i].key() == r.key()) ==> exists|i: int|
                0 <= i < old(self).spec_entries().len() && old(self).spec_entries()[i].key()
                    == r.key() && final(self).spec_entries() == old(self).spec_entries().update(
                    i,
                    r,
                ),
            (forall|i: int|
                0 <= i < old(self).spec_entries().len() ==> #[trigger] old(
                    self,
                ).spec_entries()[i].key() != r.key()) ==> final(self).spec_entries() == old(
                self,
            ).spec_entries().push(r),
    {
        proof {
            use_type_invariant(&*self);
        }
        let ghost before = self.entries@;
        match position_of(&self.entries, r.key_str()) {
            Some(i) => {
                let mut rs: Vec<T> = Vec::new();
                std::mem::swap(&mut rs, &mut self.entries);
                rs.set(i, r);
                proof {
                    assert(unique_keys(rs@)) by {
                        assert forall|a: int, b: int|
                            0 <= a < rs@.len() && 0 <= b < rs@.len() && a != b implies #[trigger] rs@[a].key()
                            != #[trigger] rs@[b].key() by {
                            if a != i as int && b != i as int {
                                assert(rs@[a] == before[a]);
                                assert(rs@[b] == before[b]);
                            } else if a == i as int {
                                assert(before[a].key() == rs@[a].key());
                                assert(rs@[b] == before[b]);
                            } else {
                                assert(before[b].key() == rs@[b].key());
                                assert(rs@[a] == before[a]);
                            }
                        }
                    }
                }
                self.entries = rs;
            },
            None => {
                let mut rs: Vec<T> = Vec::new();
                std::mem::swap(&mut rs, &mut self.entries);
                rs.push(r);
                proof {
                    assert(unique_keys(rs@)) by {
                        assert forall|a: int, b: int|
                            0 <= a < rs@.len() && 0 <= b < rs@.len() && a != b implies #[trigger] rs@[a].key()
                            != #[trigger] rs@[b].key() by {
                            if a < before.len() && b < before.len() {
                                assert(rs@[a] == before[a]);
                                assert(rs@[b] == before[b]);
                            } else if a < before.len() {
                                assert(rs@[a] == before[a]);
                            } else {
                                assert(rs@[b] == before[b]);
                            }
                        }
                    }
                }
                self.entries = rs;
            },
        }
    }

    /// A registry built from `rs` in order, a later entry replacing an
    /// earlier one of the same name.
    pub fn from_entries(rs: Vec<T>) -> (res: Self)
        ensures
            names_covered(res.spec_entries(), rs@, rs@.len() as int),
            latest_of_each_name(res.spec_entries(), rs@, rs@.len() as int),
    {
        let ghost orig = rs@;
        let mut rest = rs;
        let total = rest.len();
        let mut reg = Registry::empty();
        let mut k: usize = 0;
        while rest.len() > 0
            invariant
                k <= orig.len(),
                orig.len() == total,
                rest@ == orig.subrange(k as int, orig.len() as int),
                names_covered(reg.spec_entries(), orig, k as int),
                latest_of_each_name(reg.spec_entries(), orig, k as int),
            decreases rest.len(),
        {
            let ghost before = reg.spec_entries();
            let r = rest.remove(0);
            assert(r == orig[k as int]);
            proof {
                use_type_invariant(&reg);
            }
            reg.insert(r);
            proof {
                lemma_insert_step(before, reg.spec_entries(), orig, k as int);
            }
            k = k + 1;
        }
        assert(k == orig.len());
        reg
    }

    /// Every entry, in registry order.
    pub fn entries(&self) -> (res: &Vec<T>)
        ensures
            res@ == self.spec_entries(),
            unique_keys(res@),
    {
        proof {
            use_type_invariant(self);
        }
        &self.entries
    }

    pub fn len(&self) -> (res: usize)
        ensures
            res == self.spec_entries().len(),
    {
        self.entries.len()
    }

    pub fn is_empty(&self) -> (res: bool)
        ensures
            res == (self.spec_entries().len() == 0),
    {
        self.entries.len() == 0
    }

    /// The entry named `name`, if there is one.
    pub fn get(&self, name: &str) -> (res: Option<&T>)
        ensures
            res matches Some(r) ==> exists|i: int|
                0 <= i < self.spec_entries().len() && self.spec_entries()[i] == *r && r.key()
                    == name@,
            res is None ==> forall|i: int|
                0 <= i < self.spec_entries().len() ==> #[trigger] self.spec_entries()[i].key()
                    != name@,
            res matches Some(r) ==> forall|i: int|
                0 <= i < self.spec_entries().len() && #[trigger] self.spec_entries()[i].key()
                    == name@ ==> self.spec_entries()[i] == *r,
    {
        proof {
            use_type_invariant(self);
        }
        match position_of(&self.entries, name) {
            Some(i) => {
                let r = &self.entries[i];
                assert(self.spec_entries()[i as int] == *r);
                Some(r)
            },
            None => None,
        }
    }
}

} // verus!
