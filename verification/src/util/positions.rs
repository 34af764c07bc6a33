//! Lists of banner positions in ascending order.

use vstd::prelude::*;

verus! {

/// Each entry is greater than the one before it.
pub open spec fn ascending(list: Seq<usize>) -> bool {
    forall|i: int, j: int| 0 <= i < j < list.len() ==> list[i] < list[j]
}

/// No entry is less than the one before it.
pub open spec fn non_decreasing(list: Seq<usize>) -> bool {
    forall|i: int, j: int| 0 <= i <= j < list.len() ==> list[i] <= list[j]
}

/// The positions below `n` that satisfy `keep`, in ascending order.
pub open spec fn positions_where(n: nat, keep: spec_fn(int) -> bool) -> Seq<usize>
    decreases n,
{
    if n == 0 {
        Seq::empty()
    } else {
        let below = positions_where((n - 1) as nat, keep);
        if keep(n - 1) {
            below.push((n - 1) as usize)
        } else {
            below
        }
    }
}

/// `positions_where` lists exactly the positions below `n` that satisfy
/// `keep`, each once and in ascending order.
pub proof fn lemma_positions_where(n: nat, keep: spec_fn(int) -> bool)
    requires
        n <= usize::MAX,
    ensures
        ascending(positions_where(n, keep)),
        forall|x: usize|
            positions_where(n, keep).contains(x) <==> x < n && keep(x as int),
    decreases n,
{
    if n > 0 {
        let below = positions_where((n - 1) as nat, keep);
        lemma_positions_where((n - 1) as nat, keep);
        let list = positions_where(n, keep);
        assert forall|x: usize| list.contains(x) <==> x < n && keep(x as int) by {
            if keep(n - 1) {
                assert(list == below.push((n - 1) as usize));
                if list.contains(x) {
                    let k = choose|k: int| 0 <= k < list.len() && list[k] == x;
                    if k < below.len() {
                        assert(below[k] == x);
                        assert(below.contains(x));
                    }
                }
                if x < n && keep(x as int) {
                    if x == n - 1 {
                        assert(list[below.len() as int] == x);
                    } else {
                        assert(below.contains(x));
                        let k = choose|k: int| 0 <= k < below.len() && below[k] == x;
                        assert(list[k] == x);
                    }
                }
            }
        }
        assert(ascending(list)) by {
            assert forall|i: int, j: int| 0 <= i < j < list.len() implies list[i] < list[j] by {
                if j == below.len() {
                    assert(below.contains(below[i]));
                }
            }
        }
    }
}

/// An ascending list is determined by the positions it holds.
pub proof fn lemma_ascending_unique(a: Seq<usize>, b: Seq<usize>)
    requires
        ascending(a),
        ascending(b),
        forall|x: usize| a.contains(x) <==> b.contains(x),
    ensures
        a == b,
    decreases a.len(),
{
    if a.len() == 0 {
        if b.len() > 0 {
            assert(b.contains(b[0]));
        }
        assert(a =~= b);
    } else if b.len() == 0 {
        assert(a.contains(a[0]));
    } else {
        let la = a.last();
        let lb = b.last();
        assert(a.contains(la));
        assert(b.contains(lb));
        assert(b.contains(la));
        assert(a.contains(lb));
        assert(la == lb);
        let a0 = a.drop_last();
        let b0 = b.drop_last();
        assert forall|x: usize| a0.contains(x) <==> b0.contains(x) by {
            if a0.contains(x) {
                let k = choose|k: int| 0 <= k < a0.len() && a0[k] == x;
                assert(a[k] == x);
                assert(a.contains(x));
                let m = choose|m: int| 0 <= m < b.len() && b[m] == x;
                assert(x < la);
                assert(b0[m] == x);
            }
            if b0.contains(x) {
                let k = choose|k: int| 0 <= k < b0.len() && b0[k] == x;
                assert(b[k] == x);
                assert(b.contains(x));
                let m = choose|m: int| 0 <= m < a.len() && a[m] == x;
                assert(x < lb);
                assert(a0[m] == x);
            }
        }
        lemma_ascending_unique(a0, b0);
        assert(a =~= a0.push(la));
        assert(b =~= b0.push(lb));
    }
}

/// Merges a list of positions into an ascending one: the result holds the
/// positions of both, each once and in ascending order.
pub fn merge_positions(merged: &Vec<usize>, listed: &Vec<usize>) -> (both: Vec<usize>)
    requires
        ascending(merged@),
        non_decreasing(listed@),
    ensures
        ascending(both@),
        forall|x: usize| both@.contains(x) <==> merged@.contains(x) || listed@.contains(x),
{
    let mut both: Vec<usize> = Vec::new();
    let mut i: usize = 0;
    let mut j: usize = 0;
    while i < merged.len() || j < listed.len()
        invariant
            ascending(merged@),
            non_decreasing(listed@),
            i <= merged@.len(),
            j <= listed@.len(),
            ascending(both@),
            forall|k: int| 0 <= k < i ==> both@.contains(#[trigger] merged@[k]),
            forall|k: int| 0 <= k < j ==> both@.contains(#[trigger] listed@[k]),
            forall|k: int|
                0 <= k < both@.len() ==> merged@.contains(#[trigger] both@[k]) || listed@.contains(
                    both@[k],
                ),
            both@.len() > 0 && i < merged@.len() ==> both@.last() < merged@[i as int],
            both@.len() > 0 && j < listed@.len() ==> both@.last() <= listed@[j as int],
        decreases merged@.len() - i + listed@.len() - j,
    {
        let ghost earlier = both@;
        let from_merged = j >= listed.len() || (i < merged.len() && merged[i] <= listed[j]);
        let next = if from_merged {
            merged[i]
        } else {
            listed[j]
        };
        let n = both.len();
        if n == 0 || both[n - 1] < next {
            both.push(next);
            proof {
                assert(both@[n as int] == next);
                assert forall|k: int| 0 <= k < i implies both@.contains(#[trigger] merged@[k]) by {
                    let m = choose|m: int| 0 <= m < earlier.len() && earlier[m] == merged@[k];
                    assert(both@[m] == merged@[k]);
                }
                assert forall|k: int| 0 <= k < j implies both@.contains(#[trigger] listed@[k]) by {
                    let m = choose|m: int| 0 <= m < earlier.len() && earlier[m] == listed@[k];
                    assert(both@[m] == listed@[k]);
                }
                assert forall|k: int| 0 <= k < both@.len() implies merged@.contains(
                    #[trigger] both@[k],
                ) || listed@.contains(both@[k]) by {
                    if k < n {
                        assert(both@[k] == earlier[k]);
                    } else if from_merged {
                        assert(merged@[i as int] == next);
                    } else {
                        assert(listed@[j as int] == next);
                    }
                }
            }
        } else {
            proof {
                assert(both@[n - 1] == next);
            }
        }
        if from_merged {
            i = i + 1;
        } else {
            j = j + 1;
        }
    }
    proof {
        assert forall|x: usize| both@.contains(x) <==> merged@.contains(x) || listed@.contains(
            x,
        ) by {
            if merged@.contains(x) {
                let k = choose|k: int| 0 <= k < merged@.len() && merged@[k] == x;
                assert(both@.contains(merged@[k]));
            }
            if listed@.contains(x) {
                let k = choose|k: int| 0 <= k < listed@.len() && listed@[k] == x;
                assert(both@.contains(listed@[k]));
            }
            if both@.contains(x) {
                let k = choose|k: int| 0 <= k < both@.len() && both@[k] == x;
                assert(merged@.contains(both@[k]) || listed@.contains(both@[k]));
            }
        }
    }
    both
}

/// The positions whose reading found them available: `positions[k]` stays
/// where `available[k]` holds.
pub open spec fn retained(positions: Seq<usize>, available: Seq<bool>) -> Seq<usize>
    decreases positions.len(),
{
    if positions.len() == 0 {
        Seq::empty()
    } else {
        let earlier = retained(positions.drop_last(), available);
        if available[positions.len() - 1] {
            earlier.push(positions.last())
        } else {
            earlier
        }
    }
}

/// Keeps the positions whose reading found them available, in their order.
pub fn retain_available(positions: &Vec<usize>, available: &Vec<bool>) -> (kept: Vec<usize>)
    requires
        positions@.len() == available@.len(),
    ensures
        kept@ == retained(positions@, available@),
{
    let mut kept: Vec<usize> = Vec::new();
    let mut k: usize = 0;
    while k < positions.len()
        invariant
            positions@.len() == available@.len(),
            k <= positions@.len(),
            kept@ == retained(positions@.take(k as int), available@),
        decreases positions@.len() - k,
    {
        proof {
            assert(positions@.take(k + 1).drop_last() =~= positions@.take(k as int));
        }
        if available[k] {
            kept.push(positions[k]);
        }
        k = k + 1;
    }
    proof {
        assert(positions@.take(k as int) =~= positions@);
    }
    kept
}

/// What `retained` keeps of an ascending list: it is ascending, and holds
/// exactly the positions of the list that were found available.
pub proof fn lemma_retained(positions: Seq<usize>, available: Seq<bool>)
    requires
        ascending(positions),
        positions.len() == available.len(),
    ensures
        ascending(retained(positions, available)),
        forall|x: usize|
            retained(positions, available).contains(x) <==> exists|k: int|
                0 <= k < positions.len() && positions[k] == x && available[k],
    decreases positions.len(),
{
    let kept = retained(positions, available);
    if positions.len() > 0 {
        let n = positions.len() - 1;
        let front = positions.drop_last();
        let earlier = retained(front, available);
        lemma_retained(front, available.drop_last());
        lemma_retained_ignores(front, available, available.drop_last());
        assert forall|x: usize|
            kept.contains(x) <==> exists|k: int|
                0 <= k < positions.len() && positions[k] == x && available[k] by {
            if kept.contains(x) {
                let m = choose|m: int| 0 <= m < kept.len() && kept[m] == x;
                if m < earlier.len() {
                    assert(earlier[m] == x);
                    assert(earlier.contains(x));
                    let k = choose|k: int| 0 <= k < front.len() && front[k] == x && available[k];
                    assert(positions[k] == x);
                } else {
                    assert(positions[n] == x && available[n]);
                }
            }
            if exists|k: int| 0 <= k < positions.len() && positions[k] == x && available[k] {
                let k = choose|k: int| 0 <= k < positions.len() && positions[k] == x && available[k];
                if k < n {
                    assert(front[k] == x && available[k]);
                    assert(earlier.contains(x));
                    let m = choose|m: int| 0 <= m < earlier.len() && earlier[m] == x;
                    assert(kept[m] == x);
                } else {
                    assert(kept[earlier.len() as int] == x);
                }
            }
        }
        assert forall|i: int, j: int| 0 <= i < j < kept.len() implies kept[i] < kept[j] by {
            if j == earlier.len() {
                assert(earlier.contains(earlier[i]));
                let k = choose|k: int|
                    0 <= k < front.len() && front[k] == earlier[i] && available[k];
                assert(positions[k] < positions[n]);
            }
        }
    }
}

/// `retained` reads only the readings that stand beside a position.
proof fn lemma_retained_ignores(positions: Seq<usize>, a: Seq<bool>, b: Seq<bool>)
    requires
        forall|k: int| 0 <= k < positions.len() ==> a[k] == b[k],
    ensures
        retained(positions, a) == retained(positions, b),
    decreases positions.len(),
{
    if positions.len() > 0 {
        lemma_retained_ignores(positions.drop_last(), a, b);
    }
}

} // verus!
