//! Utilities over position lists: sorting, deduplication, intersection
//! and union of sorted lists.  A position is a stable index into the
//! sample arena.

use vstd::prelude::*;
use vstd::multiset::Multiset;
use vstd::seq_lib::group_to_multiset_ensures;

verus! {

/// Non-decreasing order.
pub open spec fn sorted_pos(s: Seq<usize>) -> bool {
    forall|i: int, j: int| 0 <= i < j < s.len() ==> s[i] <= s[j]
}

/// Strictly increasing order; such a list has no duplicates.
pub open spec fn strictly_sorted_pos(s: Seq<usize>) -> bool {
    forall|i: int, j: int| 0 <= i < j < s.len() ==> s[i] < s[j]
}

/// Sort a position list in non-decreasing order, keeping every occurrence.
pub fn sort_positions(v: &mut Vec<usize>) -> (r: Vec<usize>)
    ensures
        sorted_pos(r@),
        r@.to_multiset() == old(v)@.to_multiset(),
        r@.len() == old(v)@.len(),
        forall|p: usize| r@.contains(p) <==> old(v)@.contains(p),
{
    broadcast use group_to_multiset_ensures;

    let ghost orig = v@;
    let mut out: Vec<usize> = Vec::new();
    while v.len() > 0
        invariant
            orig == old(v)@,
            out@.to_multiset().add(v@.to_multiset()) == orig.to_multiset(),
            sorted_pos(out@),
            forall|a: int, b: int|
                0 <= a < out@.len() && 0 <= b < v@.len() ==> out@[a] <= v@[b],
        decreases v.len(),
    {
        let mut idx: usize = 0;
        let mut k: usize = 1;
        while k < v.len()
            invariant
                v@.len() > 0,
                idx < v@.len(),
                k <= v@.len(),
                forall|m: int| 0 <= m < k ==> v@[idx as int] <= v@[m],
            decreases v.len() - k,
        {
            if v[k] < v[idx] {
                idx = k;
            }
            k = k + 1;
        }
        let ghost pre = v@;
        let x = v.remove(idx);
        let ghost outpre = out@;
        out.push(x);
        proof {
            pre.to_multiset_ensures();
            outpre.to_multiset_ensures();
            assert(pre.remove(idx as int).to_multiset() =~= pre.to_multiset().remove(
                pre[idx as int],
            ));
            assert(outpre.push(x).to_multiset() =~= outpre.to_multiset().insert(x));
            assert(out@.to_multiset().add(v@.to_multiset()) =~= orig.to_multiset());
            assert forall|b: int| 0 <= b < v@.len() implies x <= v@[b] by {
                if b < idx {
                    assert(v@[b] == pre[b]);
                } else {
                    assert(v@[b] == pre[b + 1]);
                }
            }
            assert(sorted_pos(out@));
        }
    }
    proof {
        v@.to_multiset_ensures();
        out@.to_multiset_ensures();
        orig.to_multiset_ensures();
        assert(v@.to_multiset() =~= Multiset::<usize>::empty());
        assert(out@.to_multiset() =~= orig.to_multiset());
        assert(out@.len() == out@.to_multiset().len());
        assert(orig.len() == orig.to_multiset().len());
        assert forall|p: usize| out@.contains(p) <==> orig.contains(p) by {
            assert(out@.contains(p) <==> out@.to_multiset().count(p) > 0);
            assert(orig.contains(p) <==> orig.to_multiset().count(p) > 0);
        }
    }
    out
}

/// Drop duplicates from a sorted list; the result is strictly increasing
/// and holds the same values.
pub fn dedup_sorted(v: &Vec<usize>) -> (r: Vec<usize>)
    requires
        sorted_pos(v@),
    ensures
        strictly_sorted_pos(r@),
        forall|p: usize| r@.contains(p) <==> v@.contains(p),
{
    let mut out: Vec<usize> = Vec::new();
    let mut i: usize = 0;
    while i < v.len()
        invariant
            sorted_pos(v@),
            i <= v@.len(),
            strictly_sorted_pos(out@),
            forall|p: usize| out@.contains(p) <==> v@.take(i as int).contains(p),
            i > 0 ==> out@.len() > 0 && out@.last() == v@[i as int - 1],
            i == 0 ==> out@.len() == 0,
        decreases v.len() - i,
    {
        let ghost outpre = out@;
        let x = v[i];
        let push_it = if out.len() == 0 {
            true
        } else {
            out[out.len() - 1] != x
        };
        if push_it {
            out.push(x);
            proof {
                assert forall|a: int, b: int| 0 <= a < b < out@.len() implies out@[a]
                    < out@[b] by {
                    if b == out@.len() - 1 && a == b - 1 && i > 0 {
                        assert(outpre.last() == v@[i as int - 1]);
                        assert(v@[i as int - 1] <= v@[i as int]);
                    } else if b == out@.len() - 1 && a < b - 1 {
                        assert(outpre[a] < outpre[outpre.len() - 1]);
                    }
                }
            }
        }
        proof {
            assert(v@.take(i as int + 1) =~= v@.take(i as int).push(x));
            assert forall|p: usize| out@.contains(p) implies v@.take(i as int + 1).contains(
                p,
            ) by {
                if outpre.contains(p) {
                    let w = choose|w: int| 0 <= w < outpre.len() && outpre[w] == p;
                    assert(v@.take(i as int).contains(p));
                    assert(v@.take(i as int + 1)[choose|w2: int|
                        0 <= w2 < v@.take(i as int).len() && v@.take(i as int)[w2] == p] == p);
                } else {
                    assert(out@.last() == x);
                    assert(v@.take(i as int + 1).last() == x);
                }
            }
            assert forall|p: usize| v@.take(i as int + 1).contains(p) implies out@.contains(
                p,
            ) by {
                let w = choose|w: int|
                    0 <= w < i + 1 && #[trigger] v@.take(i as int + 1)[w] == p;
                if w < i {
                    assert(v@.take(i as int).contains(p));
                    assert(outpre.contains(p));
                    let w2 = choose|w2: int| 0 <= w2 < outpre.len() && outpre[w2] == p;
                    assert(out@[w2] == p);
                } else {
                    if push_it {
                        assert(out@.last() == p);
                    } else {
                        assert(outpre.last() == x);
                        assert(outpre.contains(x));
                        let w3 = choose|w3: int| 0 <= w3 < outpre.len() && outpre[w3] == x;
                        assert(out@[w3] == p);
                    }
                }
            }
        }
        i = i + 1;
    }
    proof {
        assert(v@.take(v@.len() as int) =~= v@);
    }
    out
}

/// Intersection of two strictly sorted lists: the common values, strictly
/// sorted.
pub fn intersect_sorted(a: &Vec<usize>, b: &Vec<usize>) -> (r: Vec<usize>)
    requires
        strictly_sorted_pos(a@),
        strictly_sorted_pos(b@),
    ensures
        strictly_sorted_pos(r@),
        forall|p: usize| r@.contains(p) <==> a@.contains(p) && b@.contains(p),
{
    let mut out: Vec<usize> = Vec::new();
    let mut i: usize = 0;
    let mut j: usize = 0;
    while i < a.len() && j < b.len()
        invariant
            strictly_sorted_pos(a@),
            strictly_sorted_pos(b@),
            i <= a@.len(),
            j <= b@.len(),
            strictly_sorted_pos(out@),
            forall|p: usize| out@.contains(p) ==> a@.contains(p) && b@.contains(p),
            forall|k: int| 0 <= k < i ==> (out@.contains(a@[k]) || !b@.contains(#[trigger] a@[k])),
            forall|k: int| 0 <= k < j ==> (out@.contains(b@[k]) || !a@.contains(#[trigger] b@[k])),
            forall|m: int|
                0 <= m < out@.len() ==> (i < a@.len() ==> out@[m] < a@[i as int]) && (j < b@.len()
                    ==> out@[m] < b@[j as int]),
        decreases a.len() + b.len() - i - j,
    {
        let x = a[i];
        let y = b[j];
        if x == y {
            let ghost outpre = out@;
            out.push(x);
            proof {
                assert(a@[i as int] == x);
                assert(b@[j as int] == x);
                assert(out@.last() == x);
                assert forall|p: usize| outpre.contains(p) implies out@.contains(p) by {
                    let w = choose|w: int| 0 <= w < outpre.len() && outpre[w] == p;
                    assert(out@[w] == p);
                }
                assert forall|k: int| 0 <= k < i + 1 implies (out@.contains(a@[k])
                    || !b@.contains(#[trigger] a@[k])) by {
                    if k < i {
                        assert(outpre.contains(a@[k]) || !b@.contains(a@[k]));
                    } else {
                        assert(out@.contains(x));
                    }
                }
                assert forall|k: int| 0 <= k < j + 1 implies (out@.contains(b@[k])
                    || !a@.contains(#[trigger] b@[k])) by {
                    if k < j {
                        assert(outpre.contains(b@[k]) || !a@.contains(b@[k]));
                    } else {
                        assert(out@.contains(x));
                    }
                }
                assert forall|m: int|
                    0 <= m < out@.len() implies (i + 1 < a@.len() ==> out@[m] < a@[i as int + 1])
                    && (j + 1 < b@.len() ==> out@[m] < b@[j as int + 1]) by {
                    if m < outpre.len() {
                        assert(outpre[m] < x);
                    }
                    if i + 1 < a@.len() {
                        assert(a@[i as int] < a@[i as int + 1]);
                    }
                    if j + 1 < b@.len() {
                        assert(b@[j as int] < b@[j as int + 1]);
                    }
                }
            }
            i = i + 1;
            j = j + 1;
        } else if x < y {
            proof {
                assert(!b@.contains(x) || out@.contains(x)) by {
                    if b@.contains(x) {
                        let w = choose|w: int| 0 <= w < b@.len() && b@[w] == x;
                        if w >= j {
                            assert(b@[j as int] <= b@[w]);
                        } else {
                            assert(out@.contains(b@[w]) || !a@.contains(b@[w]));
                            assert(a@[i as int] == x);
                        }
                    }
                }
                assert(!out@.contains(x)) by {
                    if out@.contains(x) {
                        let m = choose|m: int| 0 <= m < out@.len() && out@[m] == x;
                        assert(out@[m] < a@[i as int]);
                    }
                }
            }
            i = i + 1;
        } else {
            proof {
                assert(!a@.contains(y) || out@.contains(y)) by {
                    if a@.contains(y) {
                        let w = choose|w: int| 0 <= w < a@.len() && a@[w] == y;
                        if w >= i {
                            assert(a@[i as int] <= a@[w]);
                        } else {
                            assert(out@.contains(a@[w]) || !b@.contains(a@[w]));
                            assert(b@[j as int] == y);
                        }
                    }
                }
                assert(!out@.contains(y)) by {
                    if out@.contains(y) {
                        let m = choose|m: int| 0 <= m < out@.len() && out@[m] == y;
                        assert(out@[m] < b@[j as int]);
                    }
                }
            }
            j = j + 1;
        }
    }
    proof {
        assert forall|p: usize| a@.contains(p) && b@.contains(p) implies out@.contains(p) by {
            let wa = choose|w: int| 0 <= w < a@.len() && a@[w] == p;
            let wb = choose|w: int| 0 <= w < b@.len() && b@[w] == p;
            if i >= a@.len() {
                assert(out@.contains(a@[wa]) || !b@.contains(a@[wa]));
            } else {
                assert(j >= b@.len());
                assert(out@.contains(b@[wb]) || !a@.contains(b@[wb]));
            }
        }
    }
    out
}

/// Union of the values of two lists: every value of either, strictly sorted.
pub fn union_all(a: &Vec<usize>, b: &Vec<usize>) -> (r: Vec<usize>)
    ensures
        strictly_sorted_pos(r@),
        forall|p: usize| r@.contains(p) <==> a@.contains(p) || b@.contains(p),
{
    broadcast use group_to_multiset_ensures;

    let mut both: Vec<usize> = Vec::new();
    both.extend_from_slice(a.as_slice());
    both.extend_from_slice(b.as_slice());
    proof {
        assert(both@ =~= a@ + b@);
        assert forall|p: usize| both@.contains(p) <==> a@.contains(p) || b@.contains(p) by {
            if a@.contains(p) {
                let w = choose|w: int| 0 <= w < a@.len() && a@[w] == p;
                assert(both@[w] == p);
            }
            if b@.contains(p) {
                let w = choose|w: int| 0 <= w < b@.len() && b@[w] == p;
                assert(both@[a@.len() + w] == p);
            }
            if both@.contains(p) {
                let w = choose|w: int| 0 <= w < both@.len() && both@[w] == p;
                if w < a@.len() {
                    assert(a@[w] == p);
                } else {
                    assert(b@[w - a@.len()] == p);
                }
            }
        }
    }
    let ghost bothview = both@;
    let sorted = sort_positions(&mut both);
    dedup_sorted(&sorted)
}

} // verus!
