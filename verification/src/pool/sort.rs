//! Sorting helpers on index lists.
use vstd::prelude::*;

verus! {

/// `s` is in ascending order (duplicates allowed).
pub open spec fn sorted_usize(s: Seq<usize>) -> bool {
    forall|i: int, j: int| 0 <= i <= j < s.len() ==> s[i] <= s[j]
}

/// Sort a list of indices in ascending order, keeping duplicates.
pub fn sort_indices(v: &mut Vec<usize>)
    ensures
        sorted_usize(final(v)@),
        final(v)@.to_multiset() == old(v)@.to_multiset(),
        final(v)@.len() == old(v)@.len(),
{
    let n = v.len();
    let mut i: usize = 1;
    if n == 0 {
        return;
    }
    while i < n
        invariant
            1 <= i <= n,
            n == v@.len(),
            forall|a: int, b: int| 0 <= a <= b < i ==> v@[a] <= v@[b],
            v@.to_multiset() == old(v)@.to_multiset(),
        decreases n - i,
    {
        let mut j: usize = i;
        while j > 0 && v[j - 1] > v[j]
            invariant
                0 <= j <= i < n,
                n == v@.len(),
                v@.to_multiset() == old(v)@.to_multiset(),
                // the prefix without position j is sorted
                forall|a: int, b: int| 0 <= a <= b <= i && a != j && b != j ==> v@[a] <= v@[b],
                // the element at j is smaller than everything after it in the prefix
                forall|b: int| j < b <= i ==> v@[j as int] <= v@[b],
            decreases j,
        {
            let a = v[j - 1];
            let b = v[j];
            let ghost pre = v@;
            proof {
                vstd::seq_lib::to_multiset_update(v@, (j - 1) as int, b);
                vstd::seq_lib::to_multiset_update(v@.update((j - 1) as int, b), j as int, a);
            }
            v.set(j - 1, b);
            v.set(j, a);
            proof {
                broadcast use vstd::multiset::group_multiset_axioms;
                let s1 = pre.update((j - 1) as int, b);
                assert(s1.update(j as int, a) == v@);
                let m0 = pre.to_multiset();
                let m1 = s1.to_multiset();
                assert(m1 == m0.insert(b).remove(a));
                assert(s1[j as int] == b);
                assert(v@.to_multiset() == m1.insert(a).remove(b));
                assert(m0.count(a) > 0) by {
                    assert(pre.contains(a) <==> m0.count(a) > 0) by {
                        pre.to_multiset_ensures();
                    }
                    assert(pre[(j - 1) as int] == a);
                }
                assert(v@.to_multiset() =~= pre.to_multiset());
            }
            j = j - 1;
        }
        assert(forall|a: int, b: int| 0 <= a <= b <= i ==> v@[a] <= v@[b]) by {
            assert forall|a: int, b: int| 0 <= a <= b <= i implies v@[a] <= v@[b] by {
                if a == j && b != j {
                } else if b == j && a != j {
                    assert(v@[j - 1] <= v@[j as int]);
                    assert(v@[a] <= v@[j - 1]);
                }
            }
        }
        i = i + 1;
    }
}

/// `s` is strictly increasing.
pub open spec fn strictly_sorted_usize(s: Seq<usize>) -> bool {
    forall|i: int, j: int| 0 <= i < j < s.len() ==> s[i] < s[j]
}

/// Drop repeated neighbours from an ascending list.
pub fn dedup_sorted(v: &Vec<usize>) -> (out: Vec<usize>)
    requires
        sorted_usize(v@),
    ensures
        strictly_sorted_usize(out@),
        out@.to_set() == v@.to_set(),
        out@.len() <= v@.len(),
        v@.len() > 0 ==> out@.len() > 0 && out@.last() == v@.last(),
{
    let mut out: Vec<usize> = Vec::new();
    let mut i: usize = 0;
    while i < v.len()
        invariant
            i <= v@.len(),
            sorted_usize(v@),
            strictly_sorted_usize(out@),
            out@.to_set() == v@.take(i as int).to_set(),
            out@.len() <= i,
            i > 0 ==> out@.len() > 0 && out@.last() == v@[i - 1],
        decreases v@.len() - i,
    {
        let x = v[i];
        proof {
            assert(v@.take(i + 1) =~= v@.take(i as int).push(x));
            v@.take(i as int).lemma_push_to_set_commute(x);
        }
        if out.len() == 0 || out[out.len() - 1] != x {
            let ghost before = out@;
            out.push(x);
            proof {
                before.lemma_push_to_set_commute(x);
                assert forall|a: int, b: int| 0 <= a < b < out@.len() implies out@[a] < out@[b] by {
                    if b == out@.len() - 1 && a < b {
                        assert(before.last() == v@[i - 1]);
                        assert(v@[i - 1] <= x);
                        if a < before.len() - 1 {
                            assert(before[a] < before.last());
                        }
                    }
                }
            }
        } else {
            proof {
                assert(out@.to_set().contains(x)) by {
                    assert(out@[out@.len() - 1] == x);
                }
                assert(out@.to_set().insert(x) =~= out@.to_set());
            }
        }
        i = i + 1;
    }
    assert(v@.take(v@.len() as int) =~= v@);
    out
}


/// Lexicographic order on index pairs.
pub open spec fn pair_lt(a: (usize, usize), b: (usize, usize)) -> bool {
    a.0 < b.0 || (a.0 == b.0 && a.1 < b.1)
}

/// `s` is strictly increasing in lexicographic order.
pub open spec fn strictly_sorted_pairs(s: Seq<(usize, usize)>) -> bool {
    forall|i: int, j: int| 0 <= i < j < s.len() ==> pair_lt(s[i], s[j])
}

fn pair_less(a: (usize, usize), b: (usize, usize)) -> (r: bool)
    ensures
        r == pair_lt(a, b),
{
    a.0 < b.0 || (a.0 == b.0 && a.1 < b.1)
}

/// The pairs of `v` in ascending lexicographic order, each once.
pub fn sort_dedup_pairs(v: &Vec<(usize, usize)>) -> (out: Vec<(usize, usize)>)
    ensures
        strictly_sorted_pairs(out@),
        out@.to_set() == v@.to_set(),
{
    let mut out: Vec<(usize, usize)> = Vec::new();
    let mut i: usize = 0;
    while i < v.len()
        invariant
            i <= v@.len(),
            strictly_sorted_pairs(out@),
            out@.to_set() == v@.take(i as int).to_set(),
        decreases v@.len() - i,
    {
        let x = v[i];
        let mut pos: usize = 0;
        while pos < out.len() && pair_less(out[pos], x)
            invariant
                pos <= out@.len(),
                forall|k: int| 0 <= k < pos ==> pair_lt(#[trigger] out@[k], x),
            decreases out@.len() - pos,
        {
            pos = pos + 1;
        }
        let ghost o = out@;
        proof {
            let t = v@.take(i as int);
            assert(v@.take(i + 1) =~= t.push(x));
            assert(t.push(x).to_set() =~= t.to_set().insert(x)) by {
                assert forall|y: (usize, usize)| t.push(x).to_set().contains(y) implies t.to_set().insert(x).contains(y) by {
                    let k = choose|k: int| 0 <= k < t.push(x).len() && t.push(x)[k] == y;
                    if k < t.len() {
                        assert(t[k] == y);
                    }
                }
                assert forall|y: (usize, usize)| t.to_set().insert(x).contains(y) implies t.push(x).to_set().contains(y) by {
                    if y == x {
                        assert(t.push(x)[t.len() as int] == y);
                    } else {
                        let k = choose|k: int| 0 <= k < t.len() && t[k] == y;
                        assert(t.push(x)[k] == y);
                    }
                }
            }
        }
        if pos < out.len() && out[pos].0 == x.0 && out[pos].1 == x.1 {
            proof {
                assert(o.to_set().contains(x)) by {
                    assert(o[pos as int] == x);
                }
                assert(o.to_set().insert(x) =~= o.to_set());
            }
        } else {
            out.insert(pos, x);
            proof {
                let p = pos as int;
                assert(out@ =~= o.take(p).push(x) + o.skip(p));
                assert forall|a: int, b: int| 0 <= a < b < out@.len() implies pair_lt(out@[a], out@[b]) by {
                    if b < p {
                    } else if a < p && b == p {
                    } else if a < p {
                        assert(out@[b] == o[b - 1]);
                    } else if a == p {
                        assert(out@[b] == o[b - 1]);
                        assert(!pair_lt(o[p], x) && o[p] != x);
                        if b - 1 > p {
                            assert(pair_lt(o[p], o[b - 1]));
                        }
                    } else {
                        assert(out@[a] == o[a - 1]);
                        assert(out@[b] == o[b - 1]);
                    }
                }
                assert(out@.to_set() =~= o.to_set().insert(x)) by {
                    assert forall|y: (usize, usize)| out@.to_set().contains(y) implies o.to_set().insert(x).contains(y) by {
                        let k = choose|k: int| 0 <= k < out@.len() && out@[k] == y;
                        if k < p {
                            assert(o[k] == y);
                        } else if k > p {
                            assert(o[k - 1] == y);
                        }
                    }
                    assert forall|y: (usize, usize)| o.to_set().insert(x).contains(y) implies out@.to_set().contains(y) by {
                        if y == x {
                            assert(out@[p] == y);
                        } else {
                            let k = choose|k: int| 0 <= k < o.len() && o[k] == y;
                            if k < p {
                                assert(out@[k] == y);
                            } else {
                                assert(out@[k + 1] == y);
                            }
                        }
                    }
                }
            }
        }
        i = i + 1;
    }
    proof {
        assert(v@.take(v@.len() as int) =~= v@);
    }
    out
}

/// Two strictly increasing index lists with the same elements are equal.
pub proof fn lemma_sorted_index_set_unique(a: Seq<usize>, b: Seq<usize>)
    requires
        strictly_sorted_usize(a),
        strictly_sorted_usize(b),
        a.to_set() == b.to_set(),
    ensures
        a == b,
    decreases a.len(),
{
    if a.len() == 0 {
        if b.len() > 0 {
            assert(b.to_set().contains(b[0]));
            assert(!a.to_set().contains(b[0]));
        }
        assert(a =~= b);
    } else if b.len() == 0 {
        assert(a.to_set().contains(a[0]));
    } else {
        let la = a.last();
        let lb = b.last();
        assert(a.to_set().contains(la));
        assert(b.to_set().contains(lb));
        assert(b.to_set().contains(la));
        assert(a.to_set().contains(lb));
        let ia = choose|i: int| 0 <= i < b.len() && b[i] == la;
        let ib = choose|i: int| 0 <= i < a.len() && a[i] == lb;
        assert(la == lb) by {
            if la < lb {
                assert(a[ib] <= la);
            } else if lb < la {
                assert(b[ia] <= lb);
            }
        }
        let a2 = a.drop_last();
        let b2 = b.drop_last();
        assert(a2.to_set() =~= b2.to_set()) by {
            assert forall|x: usize| a2.to_set().contains(x) implies b2.to_set().contains(x) by {
                let k = choose|k: int| 0 <= k < a2.len() && a2[k] == x;
                assert(a.to_set().contains(x));
                let m = choose|m: int| 0 <= m < b.len() && b[m] == x;
                assert(x < la);
                if m == b.len() - 1 {
                    assert(false);
                }
                assert(b2[m] == x);
            }
            assert forall|x: usize| b2.to_set().contains(x) implies a2.to_set().contains(x) by {
                let k = choose|k: int| 0 <= k < b2.len() && b2[k] == x;
                assert(b.to_set().contains(x));
                let m = choose|m: int| 0 <= m < a.len() && a[m] == x;
                assert(x < lb);
                if m == a.len() - 1 {
                    assert(false);
                }
                assert(a2[m] == x);
            }
        }
        lemma_sorted_index_set_unique(a2, b2);
        assert(a =~= a2.push(la));
        assert(b =~= b2.push(lb));
    }
}

/// The indices of `s`, ascending, each once.
pub open spec fn index_set(s: Seq<usize>) -> Seq<usize> {
    choose|u: Seq<usize>| strictly_sorted_usize(u) && u.to_set() == s.to_set()
}

pub proof fn lemma_index_set_is(s: Seq<usize>, w: Seq<usize>)
    requires
        strictly_sorted_usize(w),
        w.to_set() == s.to_set(),
    ensures
        index_set(s) == w,
{
    assert(exists|v: Seq<usize>| strictly_sorted_usize(v) && v.to_set() == s.to_set()) by {
        assert(strictly_sorted_usize(w) && w.to_set() == s.to_set());
    }
    lemma_sorted_index_set_unique(index_set(s), w);
}


} // verus!
