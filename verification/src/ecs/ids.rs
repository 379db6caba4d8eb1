//! Sorted, duplicate-free lists of component ids.
use vstd::prelude::*;
use crate::ecs::component::ComponentId;

verus! {

/// `s` is strictly increasing.
pub open spec fn strictly_sorted(s: Seq<u32>) -> bool {
    forall|i: int, j: int| 0 <= i < j < s.len() ==> s[i] < s[j]
}

/// `out` is `input` sorted ascending with duplicates removed.
pub open spec fn is_sorted_set_of(out: Seq<u32>, input: Seq<u32>) -> bool {
    strictly_sorted(out) && out.to_set() == input.to_set()
}

/// Two strictly increasing lists with the same elements are equal.
pub proof fn lemma_sorted_set_unique(a: Seq<u32>, b: Seq<u32>)
    requires
        strictly_sorted(a),
        strictly_sorted(b),
        a.to_set() == b.to_set(),
    ensures
        a == b,
    decreases a.len(),
{
    if a.len() == 0 {
        if b.len() > 0 {
            assert(b.to_set().contains(b[0]));
            assert(!a.to_set().contains(b[0]));
        }
        assert(a =~= b);
    } else if b.len() == 0 {
        assert(a.to_set().contains(a[0]));
    } else {
        let la = a.last();
        let lb = b.last();
        assert(a.to_set().contains(la));
        assert(b.to_set().contains(lb));
        assert(b.to_set().contains(la));
        assert(a.to_set().contains(lb));
        let ia = choose|i: int| 0 <= i < b.len() && b[i] == la;
        let ib = choose|i: int| 0 <= i < a.len() && a[i] == lb;
        assert(la == lb) by {
            if la < lb {
                assert(a[ib] <= la);
            } else if lb < la {
                assert(b[ia] <= lb);
            }
        }
        let a2 = a.drop_last();
        let b2 = b.drop_last();
        assert(a2.to_set() =~= b2.to_set()) by {
            assert forall|x: u32| a2.to_set().contains(x) implies b2.to_set().contains(x) by {
                let k = choose|k: int| 0 <= k < a2.len() && a2[k] == x;
                assert(a.to_set().contains(x));
                let m = choose|m: int| 0 <= m < b.len() && b[m] == x;
                assert(x < la);
                if m == b.len() - 1 {
                    assert(false);
                }
                assert(b2[m] == x);
            }
            assert forall|x: u32| b2.to_set().contains(x) implies a2.to_set().contains(x) by {
                let k = choose|k: int| 0 <= k < b2.len() && b2[k] == x;
                assert(b.to_set().contains(x));
                let m = choose|m: int| 0 <= m < a.len() && a[m] == x;
                assert(x < lb);
                if m == a.len() - 1 {
                    assert(false);
                }
                assert(a2[m] == x);
            }
        }
        lemma_sorted_set_unique(a2, b2);
        assert(a =~= a2.push(la));
        assert(b =~= b2.push(lb));
    }
}

/// Sort `input` ascending and drop duplicates.
pub fn sorted_unique(input: &[ComponentId]) -> (out: Vec<ComponentId>)
    ensures
        is_sorted_set_of(out@, input@),
{
    let mut out: Vec<ComponentId> = Vec::new();
    let mut i: usize = 0;
    while i < input.len()
        invariant
            i <= input@.len(),
            strictly_sorted(out@),
            out@.to_set() == input@.take(i as int).to_set(),
        decreases input@.len() - i,
    {
        let x = input[i];
        let ghost before = out@;
        // find insertion point
        let mut pos: usize = 0;
        while pos < out.len() && out[pos] < x
            invariant
                pos <= out@.len(),
                out@ == before,
                forall|k: int| 0 <= k < pos ==> out@[k] < x,
            decreases out@.len() - pos,
        {
            pos = pos + 1;
        }
        if pos < out.len() && out[pos] == x {
            // already present
            proof {
                assert(input@.take(i + 1) =~= input@.take(i as int).push(x));
                assert(out@.to_set() =~= input@.take(i + 1).to_set()) by {
                    assert(out@.to_set().contains(x));
                    input@.take(i as int).lemma_push_to_set_commute(x);
                }
            }
        } else {
            out.insert(pos, x);
            proof {
                assert(out@ == before.insert(pos as int, x));
                assert forall|a: int, b: int| 0 <= a < b < out@.len() implies out@[a] < out@[b] by {
                    if b < pos {
                    } else if a > pos {
                    } else if a == pos {
                        assert(out@[b] == before[b - 1]);
                        assert(before[pos as int] > x || pos == before.len());
                        if b - 1 > pos {
                            assert(before[pos as int] < before[b - 1]);
                        }
                    } else {
                        assert(b >= pos);
                    }
                }
                assert(input@.take(i + 1) =~= input@.take(i as int).push(x));
                input@.take(i as int).lemma_push_to_set_commute(x);
                assert(out@.to_set() =~= before.to_set().insert(x)) by {
                    assert forall|y: u32| out@.to_set().contains(y) implies before.to_set().insert(x).contains(y) by {
                        let k = choose|k: int| 0 <= k < out@.len() && out@[k] == y;
                        if k < pos {
                            assert(before[k] == y);
                        } else if k > pos {
                            assert(before[k - 1] == y);
                        }
                    }
                    assert forall|y: u32| before.to_set().insert(x).contains(y) implies out@.to_set().contains(y) by {
                        if y == x {
                            assert(out@[pos as int] == x);
                        } else {
                            let k = choose|k: int| 0 <= k < before.len() && before[k] == y;
                            if k < pos {
                                assert(out@[k] == y);
                            } else {
                                assert(out@[k + 1] == y);
                            }
                        }
                    }
                }
            }
        }
        i = i + 1;
    }
    assert(input@.take(input@.len() as int) =~= input@);
    out
}

/// A copy of `ids`.
pub fn copy_ids(ids: &[ComponentId]) -> (out: Vec<ComponentId>)
    ensures
        out@ == ids@,
{
    let mut out: Vec<ComponentId> = Vec::new();
    let mut i: usize = 0;
    while i < ids.len()
        invariant
            i <= ids@.len(),
            out@ == ids@.take(i as int),
        decreases ids@.len() - i,
    {
        out.push(ids[i]);
        i = i + 1;
        assert(out@ =~= ids@.take(i as int));
    }
    assert(ids@.take(ids@.len() as int) =~= ids@);
    out
}

/// Whether the strictly increasing list `ids` contains `id` (binary search).
pub fn sorted_contains(ids: &[ComponentId], id: ComponentId) -> (b: bool)
    requires
        strictly_sorted(ids@),
    ensures
        b == ids@.contains(id),
{
    let mut lo: usize = 0;
    let mut hi: usize = ids.len();
    while lo < hi
        invariant
            lo <= hi <= ids@.len(),
            strictly_sorted(ids@),
            forall|k: int| 0 <= k < lo ==> ids@[k] < id,
            forall|k: int| hi <= k < ids@.len() ==> ids@[k] > id,
        decreases hi - lo,
    {
        let mid = lo + (hi - lo) / 2;
        let v = ids[mid];
        if v == id {
            return true;
        } else if v < id {
            lo = mid + 1;
        } else {
            hi = mid;
        }
    }
    proof {
        if ids@.contains(id) {
            let k = choose|k: int| 0 <= k < ids@.len() && ids@[k] == id;
            assert(false);
        }
    }
    false
}

} // verus!
