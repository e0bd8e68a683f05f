//! Strictly increasing vectors of node identifiers, used as finite sets.

use vstd::prelude::*;

verus! {

/// `s` is strictly increasing (so it is sorted and holds no value twice).
pub open spec fn strictly_sorted(s: Seq<usize>) -> bool {
    forall|i: int, j: int| 0 <= i < j < s.len() ==> s[i] < s[j]
}

/// Whether `x` occurs in `s`.
pub fn slice_contains(s: &[usize], x: usize) -> (r: bool)
    ensures
        r == s@.contains(x),
{
    let n = s.len();
    let mut i: usize = 0;
    while i < n
        invariant
            n == s@.len(),
            i <= n,
            forall|k: int| 0 <= k < i ==> s@[k] != x,
        decreases n - i,
    {
        if s[i] == x {
            assert(s@[i as int] == x);
            return true;
        }
        i = i + 1;
    }
    false
}

/// Inserts `x` into the strictly increasing vector `v`, unless it is already there.
pub fn insert_sorted(v: &mut Vec<usize>, x: usize)
    requires
        strictly_sorted(old(v)@),
    ensures
        strictly_sorted(final(v)@),
        forall|y: usize| final(v)@.contains(y) <==> (old(v)@.contains(y) || y == x),
{
    let n = v.len();
    let mut i: usize = 0;
    while i < n && v[i] < x
        invariant
            n == v.len(),
            i <= n,
            forall|k: int| 0 <= k < i ==> v@[k] < x,
        decreases n - i,
    {
        i = i + 1;
    }
    if i < n && v[i] == x {
        assert(v@[i as int] == x);
        return;
    }
    proof {
        lemma_insert_keeps_sorted(v@, i as int, x);
    }
    v.insert(i, x);
}

/// Putting `x` at position `i` of a strictly increasing sequence, where every element
/// before `i` is smaller than `x` and the one at `i` (if any) is larger, keeps it strictly
/// increasing and adds exactly `x`.
proof fn lemma_insert_keeps_sorted(s: Seq<usize>, i: int, x: usize)
    requires
        strictly_sorted(s),
        0 <= i <= s.len(),
        forall|k: int| 0 <= k < i ==> s[k] < x,
        i < s.len() ==> s[i] > x,
    ensures
        strictly_sorted(s.insert(i, x)),
        forall|y: usize| s.insert(i, x).contains(y) <==> (s.contains(y) || y == x),
{
    let t = s.insert(i, x);
    assert forall|a: int, b: int| 0 <= a < b < t.len() implies t[a] < t[b] by {
        if b < i {
        } else if b == i {
            assert(t[a] == s[a]);
        } else if a < i {
            assert(t[b] == s[b - 1]);
            assert(s[i] <= s[b - 1]);
        } else if a == i {
            assert(s[i] <= s[b - 1]);
        } else {
        }
    }
    assert forall|y: usize| t.contains(y) <==> (s.contains(y) || y == x) by {
        if t.contains(y) {
            let k = choose|k: int| 0 <= k < t.len() && #[trigger] t[k] == y;
            if k < i {
                assert(s[k] == y);
            } else if k > i {
                assert(s[k - 1] == y);
            }
        }
        if s.contains(y) {
            let k = choose|k: int| 0 <= k < s.len() && #[trigger] s[k] == y;
            if k < i {
                assert(t[k] == y);
            } else {
                assert(t[k + 1] == y);
            }
        }
        if y == x {
            assert(t[i] == x);
        }
    }
}

/// One more element of a prefix: `x` is among the first `i + 1` elements of `s` exactly when
/// it is among the first `i` or is the element at `i`.
pub proof fn lemma_take_succ_contains<A>(s: Seq<A>, i: int, x: A)
    requires
        0 <= i < s.len(),
    ensures
        s.take(i + 1).contains(x) <==> (s.take(i).contains(x) || x == s[i]),
{
    if s.take(i + 1).contains(x) {
        let k = choose|k: int| 0 <= k < i + 1 && #[trigger] s.take(i + 1)[k] == x;
        if k < i {
            assert(s.take(i)[k] == x);
        }
    }
    if s.take(i).contains(x) {
        let k = choose|k: int| 0 <= k < i && #[trigger] s.take(i)[k] == x;
        assert(s.take(i + 1)[k] == x);
    }
    if x == s[i] {
        assert(s.take(i + 1)[i] == x);
    }
}

/// The elements of a strictly increasing sequence are all distinct, so its length is the
/// number of elements of the set it holds.
pub proof fn lemma_sorted_len(s: Seq<usize>)
    requires
        strictly_sorted(s),
    ensures
        s.no_duplicates(),
        s.len() == s.to_set().len(),
{
    assert(s.no_duplicates()) by {
        assert forall|i: int, j: int| 0 <= i < s.len() && 0 <= j < s.len() && i != j
            implies s[i] != s[j] by {
            if i < j {
            } else {
            }
        }
    }
    s.unique_seq_to_set();
}

} // verus!
