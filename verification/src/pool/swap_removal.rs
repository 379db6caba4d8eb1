//! Where the rows go when several rows are swap-removed, largest first.
use vstd::prelude::*;
use crate::pool::page::{bulk_remove, swap_remove_step};
use crate::pool::sort::strictly_sorted_usize;
use crate::ecs::storage::column::bulk_row_moves;

verus! {

/// The rows of `asc` are ascending, each once, and lie inside `s`.
pub open spec fn removable<A>(s: Seq<A>, asc: Seq<usize>) -> bool {
    &&& s.len() <= usize::MAX
    &&& strictly_sorted_usize(asc)
    &&& forall|j: int| 0 <= j < asc.len() ==> #[trigger] asc[j] < s.len()
}

proof fn lemma_step_removable<A>(s: Seq<A>, asc: Seq<usize>)
    requires
        removable(s, asc),
        asc.len() > 0,
    ensures
        removable(swap_remove_step(s, asc.last() as int), asc.drop_last()),
        swap_remove_step(s, asc.last() as int).len() == s.len() - 1,
        forall|j: int| 0 <= j < asc.len() - 1 ==> #[trigger] asc.drop_last()[j] < asc.last(),
        forall|x: usize| #[trigger] asc.contains(x) <==> asc.drop_last().contains(x) || x == asc.last(),
{
    let rest = asc.drop_last();
    assert forall|j: int| 0 <= j < rest.len() implies #[trigger] rest[j] < asc.last() by {
        assert(asc[j] < asc[asc.len() - 1]);
    }
    assert forall|x: usize| #[trigger] asc.contains(x) <==> rest.contains(x) || x == asc.last() by {
        if asc.contains(x) {
            let q = choose|q: int| 0 <= q < asc.len() && asc[q] == x;
            if q < rest.len() {
                assert(rest[q] == x);
            }
        }
        if rest.contains(x) {
            let q = choose|q: int| 0 <= q < rest.len() && rest[q] == x;
            assert(asc[q] == x);
        }
        if x == asc.last() {
            assert(asc[asc.len() - 1] == x);
        }
    }
}

/// A row that is not removed and lies below the new length keeps its item.
pub proof fn lemma_kept_rows<A>(s: Seq<A>, asc: Seq<usize>)
    requires
        removable(s, asc),
    ensures
        bulk_remove(s, asc).len() == s.len() - asc.len(),
        forall|t: int| 0 <= t < s.len() - asc.len() && !asc.contains(t as usize) ==> #[trigger] bulk_remove(s, asc)[t] == s[t],
    decreases asc.len(),
{
    if asc.len() > 0 {
        let tl = asc.last();
        let rest = asc.drop_last();
        let s1 = swap_remove_step(s, tl as int);
        lemma_step_removable(s, asc);
        lemma_kept_rows(s1, rest);
    }
}

/// A row that is not removed and lies at or past the new length ends in a
/// removed row below the new length.
pub proof fn lemma_moved_rows<A>(s: Seq<A>, asc: Seq<usize>, r: int)
    requires
        removable(s, asc),
        s.len() - asc.len() <= r < s.len(),
        !asc.contains(r as usize),
    ensures
        exists|t: int| 0 <= t < s.len() - asc.len() && asc.contains(t as usize) && #[trigger] bulk_remove(s, asc)[t] == s[r],
    decreases asc.len(),
{
    let n2 = s.len() - asc.len();
    let tl = asc.last();
    let rest = asc.drop_last();
    let s1 = swap_remove_step(s, tl as int);
    lemma_step_removable(s, asc);
    lemma_kept_rows(s1, rest);
    if r == s.len() - 1 {
        assert(s1[tl as int] == s[r]);
        if tl < n2 {
            assert(!rest.contains(tl));
            assert(bulk_remove(s, asc)[tl as int] == s[r]);
            assert(asc.contains(tl));
        } else {
            assert(!rest.contains(tl));
            lemma_moved_rows(s1, rest, tl as int);
            let t = choose|t: int| 0 <= t < s1.len() - rest.len() && rest.contains(t as usize) && #[trigger] bulk_remove(s1, rest)[t] == s1[tl as int];
            assert(bulk_remove(s, asc)[t] == s[r]);
            assert(asc.contains(t as usize));
        }
    } else {
        assert(r != tl);
        assert(s1[r] == s[r]);
        lemma_moved_rows(s1, rest, r);
        let t = choose|t: int| 0 <= t < s1.len() - rest.len() && rest.contains(t as usize) && #[trigger] bulk_remove(s1, rest)[t] == s1[r];
        assert(bulk_remove(s, asc)[t] == s[r]);
        assert(asc.contains(t as usize));
    }
}

/// Every row left holds the item of a row that was not removed.
pub proof fn lemma_rows_from_kept<A>(s: Seq<A>, asc: Seq<usize>, t: int)
    requires
        removable(s, asc),
        0 <= t < s.len() - asc.len(),
    ensures
        exists|r: int| 0 <= r < s.len() && !asc.contains(r as usize) && #[trigger] s[r] == bulk_remove(s, asc)[t],
    decreases asc.len(),
{
    if asc.len() == 0 {
        assert(s[t] == bulk_remove(s, asc)[t]);
    } else {
        let tl = asc.last();
        let rest = asc.drop_last();
        let s1 = swap_remove_step(s, tl as int);
        lemma_step_removable(s, asc);
        lemma_rows_from_kept(s1, rest, t);
        let r1 = choose|r1: int| 0 <= r1 < s1.len() && !rest.contains(r1 as usize) && #[trigger] s1[r1] == bulk_remove(s1, rest)[t];
        if r1 == tl {
            assert(s[s.len() - 1] == bulk_remove(s, asc)[t]);
            assert(!asc.contains((s.len() - 1) as usize));
        } else {
            assert(s[r1] == bulk_remove(s, asc)[t]);
        }
    }
}

/// When the rows not removed hold distinct items, the rows left do.
pub proof fn lemma_kept_distinct<A>(s: Seq<A>, asc: Seq<usize>)
    requires
        removable(s, asc),
        forall|a: int, b: int| 0 <= a < s.len() && 0 <= b < s.len() && a != b && !asc.contains(a as usize) && !asc.contains(
            b as usize,
        ) ==> #[trigger] s[a] != #[trigger] s[b],
    ensures
        forall|a: int, b: int| 0 <= a < s.len() - asc.len() && 0 <= b < s.len() - asc.len() && a != b ==> #[trigger] bulk_remove(s, asc)[a]
            != #[trigger] bulk_remove(s, asc)[b],
    decreases asc.len(),
{
    if asc.len() > 0 {
        let tl = asc.last();
        let rest = asc.drop_last();
        let s1 = swap_remove_step(s, tl as int);
        lemma_step_removable(s, asc);
        assert forall|a: int, b: int| 0 <= a < s1.len() && 0 <= b < s1.len() && a != b && !rest.contains(a as usize) && !rest.contains(
            b as usize,
        ) implies #[trigger] s1[a] != #[trigger] s1[b] by {
            let a2 = if a == tl { s.len() - 1 } else { a };
            let b2 = if b == tl { s.len() - 1 } else { b };
            assert(s1[a] == s[a2] && s1[b] == s[b2]);
            assert(!asc.contains(a2 as usize)) by {
                if a2 == s.len() - 1 && asc.contains(a2 as usize) {
                    let q = choose|q: int| 0 <= q < asc.len() && asc[q] == a2;
                    assert(asc[q] <= tl);
                }
            }
            assert(!asc.contains(b2 as usize)) by {
                if b2 == s.len() - 1 && asc.contains(b2 as usize) {
                    let q = choose|q: int| 0 <= q < asc.len() && asc[q] == b2;
                    assert(asc[q] <= tl);
                }
            }
        }
        lemma_kept_distinct(s1, rest);
        assert(bulk_remove(s, asc) == bulk_remove(s1, rest));
    } else {
        assert forall|a: int, b: int| 0 <= a < s.len() - asc.len() && 0 <= b < s.len() - asc.len() && a != b implies #[trigger] bulk_remove(
            s,
            asc,
        )[a] != #[trigger] bulk_remove(s, asc)[b] by {
            assert(!asc.contains(a as usize) && !asc.contains(b as usize));
            assert(s[a] != s[b]);
        }
    }
}

/// A removed row below the new length is the destination of a move.
pub proof fn lemma_removed_rows_are_targets(len: nat, asc: Seq<usize>, t: int)
    requires
        len <= usize::MAX,
        strictly_sorted_usize(asc),
        forall|j: int| 0 <= j < asc.len() ==> #[trigger] asc[j] < len,
        asc.contains(t as usize),
        0 <= t < len - asc.len(),
    ensures
        exists|q: int| 0 <= q < bulk_row_moves(len, asc).len() && #[trigger] bulk_row_moves(len, asc)[q].1 == t,
    decreases asc.len(),
{
    let tl = asc.last();
    let rest = asc.drop_last();
    let s = Seq::new(len, |i: int| 0int);
    lemma_step_removable(s, asc);
    let m = bulk_row_moves(len, asc);
    let mr = bulk_row_moves((len - 1) as nat, rest);
    if t == tl {
        assert(tl != (len - 1) as usize);
        assert(m == seq![((len - 1) as usize, tl)] + mr);
        assert(m[0].1 == t);
    } else {
        assert(rest.contains(t as usize));
        lemma_removed_rows_are_targets((len - 1) as nat, rest, t);
        let q = choose|q: int| 0 <= q < mr.len() && #[trigger] mr[q].1 == t;
        if tl != (len - 1) as usize {
            assert(m == seq![((len - 1) as usize, tl)] + mr);
            assert(m[q + 1].1 == t);
        } else {
            assert(m[q].1 == t);
        }
    }
}

} // verus!
