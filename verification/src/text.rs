//! Ordering and set operations on names.
//!
//! Names order the way Rust orders `str`: lexicographically by Unicode
//! scalar value, which for UTF-8 text is the same as byte order.
use vstd::prelude::*;

verus! {

/// `a` comes strictly before `b`.
pub open spec fn chars_lt(a: Seq<char>, b: Seq<char>) -> bool
    decreases a.len(),
{
    if a.len() == 0 {
        b.len() > 0
    } else if b.len() == 0 {
        false
    } else if a[0] != b[0] {
        (a[0] as int) < (b[0] as int)
    } else {
        chars_lt(a.drop_first(), b.drop_first())
    }
}

pub open spec fn chars_le(a: Seq<char>, b: Seq<char>) -> bool {
    chars_lt(a, b) || a == b
}

pub proof fn lemma_lt_irreflexive(a: Seq<char>)
    ensures
        !chars_lt(a, a),
    decreases a.len(),
{
    if a.len() > 0 {
        lemma_lt_irreflexive(a.drop_first());
    }
}

pub proof fn lemma_lt_asymmetric(a: Seq<char>, b: Seq<char>)
    requires
        chars_lt(a, b),
    ensures
        !chars_lt(b, a),
    decreases a.len(),
{
    if a.len() > 0 && b.len() > 0 && a[0] == b[0] {
        lemma_lt_asymmetric(a.drop_first(), b.drop_first());
    }
}

pub proof fn lemma_lt_transitive(a: Seq<char>, b: Seq<char>, c: Seq<char>)
    requires
        chars_lt(a, b),
        chars_lt(b, c),
    ensures
        chars_lt(a, c),
    decreases a.len(),
{
    if a.len() > 0 && b.len() > 0 && c.len() > 0 && a[0] == b[0] && b[0] == c[0] {
        lemma_lt_transitive(a.drop_first(), b.drop_first(), c.drop_first());
    }
}

pub proof fn lemma_lt_total(a: Seq<char>, b: Seq<char>)
    ensures
        a != b ==> chars_lt(a, b) || chars_lt(b, a),
    decreases a.len(),
{
    if a.len() > 0 && b.len() > 0 && a[0] != b[0] {
        assert(a[0] as int != b[0] as int);
    } else if a.len() > 0 && b.len() > 0 && a[0] == b[0] {
        lemma_lt_total(a.drop_first(), b.drop_first());
        if a.drop_first() == b.drop_first() {
            assert(a =~= seq![a[0]] + a.drop_first());
            assert(b =~= seq![b[0]] + b.drop_first());
        }
    } else if a.len() == 0 && b.len() == 0 {
        assert(a =~= b);
    }
}

pub proof fn lemma_le_transitive(a: Seq<char>, b: Seq<char>, c: Seq<char>)
    requires
        chars_le(a, b),
        chars_le(b, c),
    ensures
        chars_le(a, c),
{
    if chars_lt(a, b) && chars_lt(b, c) {
        lemma_lt_transitive(a, b, c);
    }
}

/// The characters of `s`, one per element.
pub fn chars_of(s: &str) -> (res: Vec<char>)
    ensures
        res@ == s@,
{
    let n = s.unicode_len();
    let mut res: Vec<char> = Vec::new();
    let mut i: usize = 0;
    while i < n
        invariant
            n == s@.len(),
            i <= n,
            res@ == s@.subrange(0, i as int),
        decreases n - i,
    {
        let c = s.get_char(i);
        res.push(c);
        i = i + 1;
    }
    res
}

/// Whether `a` comes strictly before `b`, in the order Rust gives `str`.
pub fn name_lt(a: &str, b: &str) -> (res: bool)
    ensures
        res == chars_lt(a@, b@),
{
    let x = chars_of(a);
    let y = chars_of(b);
    let mut i: usize = 0;
    assert(x@.skip(0) =~= x@);
    assert(y@.skip(0) =~= y@);
    while i < x.len() && i < y.len()
        invariant
            x@ == a@,
            y@ == b@,
            i <= x@.len(),
            i <= y@.len(),
            x@.subrange(0, i as int) == y@.subrange(0, i as int),
            chars_lt(x@, y@) == chars_lt(x@.skip(i as int), y@.skip(i as int)),
        decreases x.len() - i,
    {
        if x[i] != y[i] {
            assert(x@.skip(i as int)[0] == x@[i as int]);
            assert(y@.skip(i as int)[0] == y@[i as int]);
            return x[i] < y[i];
        }
        assert(x@.skip(i as int).drop_first() =~= x@.skip(i + 1));
        assert(y@.skip(i as int).drop_first() =~= y@.skip(i + 1));
        assert(x@.subrange(0, i + 1) =~= x@.subrange(0, i as int).push(x@[i as int]));
        assert(y@.subrange(0, i + 1) =~= y@.subrange(0, i as int).push(y@[i as int]));
        i = i + 1;
    }
    i < y.len()
}

/// Whether the two names are the same text.
pub fn name_eq(a: &str, b: &str) -> (res: bool)
    ensures
        res == (a@ == b@),
{
    let x = chars_of(a);
    let y = chars_of(b);
    if x.len() != y.len() {
        return false;
    }
    let mut i: usize = 0;
    while i < x.len()
        invariant
            x@ == a@,
            y@ == b@,
            x@.len() == y@.len(),
            i <= x@.len(),
            x@.subrange(0, i as int) == y@.subrange(0, i as int),
        decreases x.len() - i,
    {
        if x[i] != y[i] {
            assert(x@[i as int] != y@[i as int]);
            assert(x@ != y@);
            return false;
        }
        assert(x@.subrange(0, i + 1) =~= x@.subrange(0, i as int).push(x@[i as int]));
        assert(y@.subrange(0, i + 1) =~= y@.subrange(0, i as int).push(y@[i as int]));
        i = i + 1;
    }
    assert(x@ =~= x@.subrange(0, i as int));
    assert(y@ =~= y@.subrange(0, i as int));
    true
}

} // verus!

verus! {

/// The texts of a list of names.
pub open spec fn texts(v: Seq<String>) -> Seq<Seq<char>> {
    v.map_values(|s: String| s@)
}

/// In non-decreasing order.
pub open spec fn is_sorted(s: Seq<Seq<char>>) -> bool {
    forall|i: int, j: int| 0 <= i < j < s.len() ==> chars_le(#[trigger] s[i], #[trigger] s[j])
}

/// In increasing order, so also free of duplicates.
pub open spec fn is_strictly_sorted(s: Seq<Seq<char>>) -> bool {
    forall|i: int, j: int| 0 <= i < j < s.len() ==> chars_lt(#[trigger] s[i], #[trigger] s[j])
}

/// A strictly sorted list holds each text once.
pub proof fn lemma_strictly_sorted_no_duplicates(s: Seq<Seq<char>>)
    requires
        is_strictly_sorted(s),
    ensures
        s.no_duplicates(),
{
    assert forall|i: int, j: int| 0 <= i < s.len() && 0 <= j < s.len() && i != j implies s[i]
        != s[j] by {
        if i < j {
            lemma_lt_irreflexive(s[i]);
        } else {
            lemma_lt_irreflexive(s[j]);
        }
    }
}

/// Whether `name` is one of `v`.
pub fn contains_name(v: &Vec<String>, name: &str) -> (res: bool)
    ensures
        res == texts(v@).contains(name@),
{
    let mut i: usize = 0;
    while i < v.len()
        invariant
            i <= v@.len(),
            forall|j: int| 0 <= j < i ==> v@[j]@ != name@,
        decreases v.len() - i,
    {
        if name_eq(v[i].as_str(), name) {
            assert(texts(v@)[i as int] == name@);
            return true;
        }
        i = i + 1;
    }
    assert forall|j: int| 0 <= j < texts(v@).len() implies texts(v@)[j] != name@ by {
        assert(texts(v@)[j] == v@[j]@);
    }
    false
}

/// Adds `s` to a sorted list, keeping it sorted and keeping every name it held.
pub fn insert_sorted(v: &mut Vec<String>, s: String)
    requires
        is_sorted(texts(old(v)@)),
    ensures
        is_sorted(texts(final(v)@)),
        texts(final(v)@).to_multiset() == texts(old(v)@).to_multiset().insert(s@),
        final(v)@.len() == old(v)@.len() + 1,
{
    let ghost before = texts(v@);
    let mut p: usize = 0;
    while p < v.len()
        invariant
            v@ == old(v)@,
            before == texts(v@),
            is_sorted(before),
            p <= v@.len(),
            forall|j: int| 0 <= j < p ==> chars_le(#[trigger] before[j], s@),
        ensures
            p <= v@.len(),
            forall|j: int| 0 <= j < p ==> chars_le(#[trigger] before[j], s@),
            p < v@.len() ==> chars_lt(s@, before[p as int]),
        decreases v.len() - p,
    {
        assert(before[p as int] == v@[p as int]@);
        if name_lt(s.as_str(), v[p].as_str()) {
            break;
        }
        proof {
            lemma_lt_total(s@, before[p as int]);
        }
        p = p + 1;
    }
    proof {
        assert forall|k: int| p <= k < before.len() implies chars_lt(s@, #[trigger] before[k]) by {
            assert(chars_lt(s@, before[p as int]));
            if k > p {
                assert(chars_le(before[p as int], before[k]));
                if chars_lt(before[p as int], before[k]) {
                    lemma_lt_transitive(s@, before[p as int], before[k]);
                }
            }
        }
    }
    let ghost sv = s@;
    v.insert(p, s);
    proof {
        let after = texts(v@);
        assert(after =~= before.insert(p as int, sv));
        vstd::seq_lib::to_multiset_insert(before, p as int, sv);
        assert forall|i: int, j: int| 0 <= i < j < after.len() implies chars_le(
            #[trigger] after[i],
            #[trigger] after[j],
        ) by {
            if j < p {
            } else if i < p && j == p {
            } else if i < p && j > p {
                assert(chars_le(before[i], sv));
                assert(chars_lt(sv, before[j - 1]));
                if chars_lt(before[i], sv) {
                    lemma_lt_transitive(before[i], sv, before[j - 1]);
                }
            } else if i == p {
                assert(chars_lt(sv, before[j - 1]));
            } else {
                assert(chars_le(before[i - 1], before[j - 1]));
            }
        }
    }
}

/// Adds `s` to a strictly sorted list unless it is already there.
pub fn insert_unique(v: &mut Vec<String>, s: String)
    requires
        is_strictly_sorted(texts(old(v)@)),
    ensures
        is_strictly_sorted(texts(final(v)@)),
        texts(final(v)@).to_set() == texts(old(v)@).to_set().insert(s@),
{
    let ghost before = texts(v@);
    let mut p: usize = 0;
    while p < v.len()
        invariant
            v@ == old(v)@,
            before == texts(v@),
            is_strictly_sorted(before),
            p <= v@.len(),
            forall|j: int| 0 <= j < p ==> chars_lt(#[trigger] before[j], s@),
        ensures
            p <= v@.len(),
            forall|j: int| 0 <= j < p ==> chars_lt(#[trigger] before[j], s@),
            p < v@.len() ==> chars_lt(s@, before[p as int]),
        decreases v.len() - p,
    {
        assert(before[p as int] == v@[p as int]@);
        if name_eq(s.as_str(), v[p].as_str()) {
            proof {
                assert(before[p as int] == s@);
                assert(before.contains(s@));
                assert(before.to_set().insert(s@) =~= before.to_set());
            }
            return;
        }
        if name_lt(s.as_str(), v[p].as_str()) {
            break;
        }
        proof {
            lemma_lt_total(s@, before[p as int]);
        }
        p = p + 1;
    }
    proof {
        assert forall|k: int| p <= k < before.len() implies chars_lt(s@, #[trigger] before[k]) by {
            assert(chars_lt(s@, before[p as int]));
            if k > p {
                lemma_lt_transitive(s@, before[p as int], before[k]);
            }
        }
    }
    let ghost sv = s@;
    v.insert(p, s);
    proof {
        let after = texts(v@);
        assert(after =~= before.insert(p as int, sv));
        assert forall|i: int, j: int| 0 <= i < j < after.len() implies chars_lt(
            #[trigger] after[i],
            #[trigger] after[j],
        ) by {
            if j < p {
            } else if i < p && j == p {
            } else if i < p && j > p {
                lemma_lt_transitive(before[i], sv, before[j - 1]);
            } else if i == p {
            } else {
            }
        }
        assert(after.to_set() =~= before.to_set().insert(sv)) by {
            assert forall|x: Seq<char>| after.to_set().contains(x) implies before.to_set().insert(
                sv,
            ).contains(x) by {
                let k = choose|k: int| 0 <= k < after.len() && after[k] == x;
                if k < p {
                    assert(before[k] == x);
                } else if k > p {
                    assert(before[k - 1] == x);
                }
            }
            assert forall|x: Seq<char>| before.to_set().insert(sv).contains(x) implies after.to_set().contains(
                x,
            ) by {
                if x == sv {
                    assert(after[p as int] == x);
                } else {
                    let k = choose|k: int| 0 <= k < before.len() && before[k] == x;
                    if k < p {
                        assert(after[k] == x);
                    } else {
                        assert(after[k + 1] == x);
                    }
                }
            }
        }
    }
}

} // verus!
