//! Canonical ordering of rule data by a numeric key.

use vstd::prelude::*;

verus! {

/// Rule data ordered by one numeric key.
pub trait SortKey {
    spec fn spec_key(&self) -> u64;

    fn sort_key(&self) -> (k: u64)
        ensures
            k == self.spec_key(),
    ;
}

/// Elements in non-decreasing key order.
pub open spec fn sorted_by_key<T: SortKey>(s: Seq<T>) -> bool {
    forall|i: int, j: int| 0 <= i < j < s.len() ==> s[i].spec_key() <= s[j].spec_key()
}

/// Elements in strictly increasing key order.
pub open spec fn strictly_sorted_by_key<T: SortKey>(s: Seq<T>) -> bool {
    forall|i: int, j: int| 0 <= i < j < s.len() ==> s[i].spec_key() < s[j].spec_key()
}

proof fn lemma_insert_multiset<T>(s: Seq<T>, i: int, x: T)
    requires
        0 <= i <= s.len(),
    ensures
        s.insert(i, x).to_multiset() =~= s.to_multiset().insert(x),
{
    broadcast use vstd::seq_lib::group_to_multiset_ensures;

    let t = s.insert(i, x);
    assert(t.remove(i) =~= s);
    assert(t[i] == x);
    assert(t.to_multiset().count(x) > 0) by {
        assert(t.contains(x));
    }
}

/// The elements of `input` rearranged into non-decreasing key order.
pub fn sort_by_key<T: SortKey>(input: Vec<T>) -> (r: Vec<T>)
    ensures
        r@.to_multiset() =~= input@.to_multiset(),
        sorted_by_key(r@),
{
    broadcast use vstd::seq_lib::group_to_multiset_ensures;

    let ghost given = input@;
    let mut rest = input;
    let mut r: Vec<T> = Vec::new();
    while rest.len() > 0
        invariant
            sorted_by_key(r@),
            r@.to_multiset().add(rest@.to_multiset()) =~= given.to_multiset(),
        decreases rest.len(),
    {
        let ghost rest_before = rest@;
        let x = rest.pop().unwrap();
        proof {
            assert(rest_before =~= rest@.push(x));
        }
        let k = x.sort_key();
        let mut i: usize = 0;
        while i < r.len() && r[i].sort_key() <= k
            invariant
                i <= r.len(),
                forall|j: int| 0 <= j < i ==> r@[j].spec_key() <= k,
            decreases r.len() - i,
        {
            i = i + 1;
        }
        let ghost before = r@;
        r.insert(i, x);
        proof {
            lemma_insert_multiset(before, i as int, x);
            assert(r@ =~= before.insert(i as int, x));
            assert(rest_before =~= rest@.push(x));
            rest@.to_multiset_ensures();
            assert(rest_before.to_multiset() =~= rest@.to_multiset().insert(x));
            assert(r@.to_multiset().add(rest@.to_multiset()) =~= before.to_multiset().add(
                rest_before.to_multiset(),
            ));
            assert forall|a: int, b: int| 0 <= a < b < r@.len() implies r@[a].spec_key()
                <= r@[b].spec_key() by {
                if a < i && b > i {
                    assert(r@[b] == before[b - 1]);
                    if (a as int) < (b - 1) {
                        assert(before[a].spec_key() <= before[b - 1].spec_key());
                    }
                } else if a == i && b > i {
                    assert(r@[b] == before[b - 1]);
                    if b - 1 > i as int {
                        assert(before[i as int].spec_key() <= before[b - 1].spec_key());
                    }
                } else if b < i {
                } else if a < i && b == i {
                } else {
                    assert(r@[a] == before[a - 1]);
                    assert(r@[b] == before[b - 1]);
                }
            }
        }
    }
    assert(rest@ =~= Seq::<T>::empty());
    r
}

/// Whether the elements are in strictly increasing key order.
pub fn is_strictly_sorted_by_key<T: SortKey>(s: &Vec<T>) -> (r: bool)
    ensures
        r == strictly_sorted_by_key(s@),
{
    if s.len() == 0 {
        return true;
    }
    let mut i: usize = 1;
    while i < s.len()
        invariant
            1 <= i <= s.len(),
            forall|a: int, b: int| 0 <= a < b < i ==> s@[a].spec_key() < s@[b].spec_key(),
        decreases s.len() - i,
    {
        if s[i - 1].sort_key() >= s[i].sort_key() {
            assert(!(s@[i - 1].spec_key() < s@[i as int].spec_key()));
            return false;
        }
        proof {
            assert forall|a: int, b: int| 0 <= a < b < i + 1 implies s@[a].spec_key()
                < s@[b].spec_key() by {
                if b == i && a < i - 1 {
                    assert(s@[a].spec_key() < s@[i - 1].spec_key());
                }
            }
        }
        i = i + 1;
    }
    true
}


/// Whether two elements share the key `k`.
pub open spec fn key_duplicated<T: SortKey>(s: Seq<T>, k: u64) -> bool {
    exists|i: int, j: int|
        0 <= i < j < s.len() && (#[trigger] s[i]).spec_key() == k && (#[trigger] s[j]).spec_key() == k
}

/// The smallest key that two elements share.
pub open spec fn smallest_duplicate_key<T: SortKey>(s: Seq<T>) -> Option<u64> {
    if exists|k: u64| key_duplicated(s, k) {
        Some(choose|k: u64| key_duplicated(s, k) && forall|m: u64| key_duplicated(s, m) ==> k <= m)
    } else {
        None
    }
}

/// The index of an element carrying the smallest key that two elements share.
pub fn find_smallest_duplicate_key<T: SortKey>(v: &Vec<T>) -> (r: Option<usize>)
    ensures
        match r {
            Some(i) => i < v@.len() && smallest_duplicate_key(v@) == Some(v@[i as int].spec_key()),
            None => smallest_duplicate_key(v@) is None,
        },
{
    let mut best: Option<usize> = None;
    let mut i: usize = 0;
    while i < v.len()
        invariant
            i <= v@.len(),
            best matches Some(b) ==> b < v@.len() && key_duplicated(v@, v@[b as int].spec_key()),
            forall|p: int, q: int|
                #![trigger v@[p], v@[q]]
                0 <= p < q < v@.len() && p < i && v@[p].spec_key() == v@[q].spec_key() ==> (best matches Some(
                    b,
                ) && v@[b as int].spec_key() <= v@[p].spec_key()),
        decreases v.len() - i,
    {
        let a = v[i].sort_key();
        let mut j: usize = i + 1;
        while j < v.len()
            invariant
                i < v@.len(),
                i + 1 <= j <= v@.len(),
                a == v@[i as int].spec_key(),
                best matches Some(b) ==> b < v@.len() && key_duplicated(v@, v@[b as int].spec_key()),
                forall|p: int, q: int|
                    #![trigger v@[p], v@[q]]
                    0 <= p < q < v@.len() && p < i && v@[p].spec_key() == v@[q].spec_key() ==> (best matches Some(
                        b,
                    ) && v@[b as int].spec_key() <= v@[p].spec_key()),
                forall|q: int|
                    i < q < j && a == (#[trigger] v@[q]).spec_key() ==> (best matches Some(b)
                        && v@[b as int].spec_key() <= a),
            decreases v.len() - j,
        {
            if a == v[j].sort_key() {
                proof {
                    assert(key_duplicated(v@, a)) by {
                        assert(v@[i as int].spec_key() == a);
                        assert(v@[j as int].spec_key() == a);
                    }
                }
                let better = match best {
                    None => true,
                    Some(b) => a < v[b].sort_key(),
                };
                if better {
                    best = Some(i);
                }
            }
            j = j + 1;
        }
        i = i + 1;
    }
    proof {
        match best {
            Some(b) => {
                let kb = v@[b as int].spec_key();
                assert forall|m: u64| key_duplicated(v@, m) implies kb <= m by {
                    let (p, q) = choose|p: int, q: int|
                        0 <= p < q < v@.len() && (#[trigger] v@[p]).spec_key() == m
                            && (#[trigger] v@[q]).spec_key() == m;
                    assert(v@[p].spec_key() == v@[q].spec_key());
                }
                let c = choose|k: u64| key_duplicated(v@, k) && forall|m: u64| key_duplicated(v@, m) ==> k <= m;
                assert(key_duplicated(v@, c) && forall|m: u64| key_duplicated(v@, m) ==> c <= m);
                assert(c <= kb && kb <= c);
            },
            None => {
                assert forall|m: u64| !key_duplicated(v@, m) by {
                    if key_duplicated(v@, m) {
                        let (p, q) = choose|p: int, q: int|
                            0 <= p < q < v@.len() && (#[trigger] v@[p]).spec_key() == m
                                && (#[trigger] v@[q]).spec_key() == m;
                        assert(v@[p].spec_key() == v@[q].spec_key());
                    }
                }
            },
        }
    }
    best
}

/// Two key-sorted sequences with the same elements, no two of which share a
/// key, are equal: the order of the elements a sequence was sorted from does
/// not matter.
pub proof fn lemma_sorted_permutations_equal<T: SortKey>(s: Seq<T>, t: Seq<T>)
    requires
        s.to_multiset() == t.to_multiset(),
        sorted_by_key(s),
        sorted_by_key(t),
        forall|i: int, j: int| 0 <= i < j < s.len() ==> s[i].spec_key() != s[j].spec_key(),
    ensures
        s == t,
    decreases s.len(),
{
    s.to_multiset_ensures();
    t.to_multiset_ensures();
    if s.len() > 0 {
        assert(t.contains(t[0]));
        assert(s.to_multiset().count(t[0]) > 0);
        assert(s.contains(t[0]));
        let i = choose|i: int| 0 <= i < s.len() && s[i] == t[0];
        assert(s.contains(s[0]));
        assert(t.to_multiset().count(s[0]) > 0);
        assert(t.contains(s[0]));
        let j = choose|j: int| 0 <= j < t.len() && t[j] == s[0];
        if i != 0 {
            assert(s[0].spec_key() <= s[i].spec_key());
            if j != 0 {
                assert(t[0].spec_key() <= t[j].spec_key());
            }
            assert(s[0].spec_key() != s[i].spec_key());
        }
        assert(s[0] == t[0]);
        let s1 = s.remove(0);
        let t1 = t.remove(0);
        assert(s1.to_multiset() =~= t1.to_multiset());
        assert(sorted_by_key(s1)) by {
            assert forall|a: int, b: int| 0 <= a < b < s1.len() implies s1[a].spec_key()
                <= s1[b].spec_key() by {
                assert(s1[a] == s[a + 1] && s1[b] == s[b + 1]);
            }
        }
        assert(sorted_by_key(t1)) by {
            assert forall|a: int, b: int| 0 <= a < b < t1.len() implies t1[a].spec_key()
                <= t1[b].spec_key() by {
                assert(t1[a] == t[a + 1] && t1[b] == t[b + 1]);
            }
        }
        assert forall|a: int, b: int| 0 <= a < b < s1.len() implies s1[a].spec_key()
            != s1[b].spec_key() by {
            assert(s1[a] == s[a + 1] && s1[b] == s[b + 1]);
        }
        lemma_sorted_permutations_equal(s1, t1);
        assert(s =~= t) by {
            assert forall|k: int| 0 <= k < s.len() implies s[k] == t[k] by {
                if k > 0 {
                    assert(s1[k - 1] == s[k] && t1[k - 1] == t[k]);
                }
            }
        }
    } else {
        assert(s =~= t);
    }
}

} // verus!
