//! Verified insertion sorts for result assembly (score descending, ties by
//! offset then key) and for hierarchy edges (weight descending).
use vstd::prelude::*;

use crate::graph::Edge;
use crate::interner::Id;
use crate::search::{offset_lt, Score};

verus! {

/// `a` may stand before `b` in the final result list: higher score first,
/// then earlier offset, then smaller key.
pub open spec fn result_le(a: (Id, Score), b: (Id, Score)) -> bool {
    ||| a.1.score > b.1.score
    ||| (a.1.score == b.1.score && offset_lt(a.1.offset, b.1.offset))
    ||| (a.1.score == b.1.score && a.1.offset == b.1.offset && a.0 <= b.0)
}

/// `a` may stand before `b` in the edge list: lexicographically heavier
/// weight first.
pub open spec fn edge_le(a: Edge, b: Edge) -> bool {
    ||| a.wp > b.wp
    ||| (a.wp == b.wp && a.wc >= b.wc)
}

fn result_le_exec(a: &(Id, Score), b: &(Id, Score)) -> (r: bool)
    ensures
        r == result_le(*a, *b),
{
    if a.1.score != b.1.score {
        a.1.score > b.1.score
    } else if a.1.offset.start != b.1.offset.start {
        a.1.offset.start < b.1.offset.start
    } else if a.1.offset.end != b.1.offset.end {
        a.1.offset.end < b.1.offset.end
    } else {
        a.0 <= b.0
    }
}

fn edge_le_exec(a: &Edge, b: &Edge) -> (r: bool)
    ensures
        r == edge_le(*a, *b),
{
    if a.wp != b.wp {
        a.wp > b.wp
    } else {
        a.wc >= b.wc
    }
}

/// Swapping two positions leaves the multiset of elements unchanged.
proof fn lemma_swap_multiset<A>(s: Seq<A>, i: int, j: int)
    requires
        0 <= i < j < s.len(),
    ensures
        s.update(j, s[i]).update(i, s[j]).to_multiset() == s.to_multiset(),
{
    broadcast use vstd::seq_lib::group_to_multiset_ensures;
    broadcast use vstd::multiset::group_multiset_axioms;
    broadcast use vstd::multiset::group_multiset_properties;

    let s1 = s.update(j, s[i]);
    assert(s1.to_multiset() == s.to_multiset().insert(s[i]).remove(s[j]));
    assert(s1[i] == s[i]);
    assert(s1.update(i, s[j]).to_multiset() == s1.to_multiset().insert(s[j]).remove(s[i]));
    assert(s.contains(s[j]));
    assert(s.to_multiset().contains(s[j]));
    assert(s1.update(i, s[j]).to_multiset() =~~= s.to_multiset());
}

/// Sort results: score descending, ties by offset then key ascending.
pub fn sort_results(v: &mut Vec<(Id, Score)>)
    ensures
        final(v)@.len() == old(v)@.len(),
        final(v)@.to_multiset() == old(v)@.to_multiset(),
        forall|a: int, b: int|
            0 <= a < b < final(v)@.len() ==> result_le(final(v)@[a], final(v)@[b]),
{
    let n = v.len();
    if n == 0 {
        return ;
    }
    let mut i: usize = 1;
    while i < n
        invariant
            v@.len() == n,
            1 <= i <= n,
            v@.to_multiset() == old(v)@.to_multiset(),
            forall|a: int, b: int| 0 <= a < b < i ==> result_le(v@[a], v@[b]),
        decreases n - i,
    {
        let mut j: usize = i;
        while j > 0 && !result_le_exec(&v[j - 1], &v[j])
            invariant
                v@.len() == n,
                j <= i < n,
                v@.to_multiset() == old(v)@.to_multiset(),
                forall|a: int, b: int|
                    0 <= a < b <= i && b != j ==> result_le(v@[a], v@[b]),
            decreases j,
        {
            let ghost pre = v@;
            let x = v.remove(j);
            v.insert(j - 1, x);
            proof {
                assert(v@ =~= pre.update(j as int, pre[j - 1]).update(j - 1, pre[j as int]));
                lemma_swap_multiset(pre, j - 1, j as int);
                assert forall|a: int, b: int|
                    0 <= a < b <= i && b != j - 1 implies result_le(v@[a], v@[b]) by {
                    if b == j {
                        if a == j - 1 {
                            assert(v@[a] == pre[j as int] && v@[b] == pre[j - 1]);
                        } else {
                            assert(v@[a] == pre[a] && v@[b] == pre[j - 1]);
                        }
                    } else if a == j - 1 {
                        assert(v@[a] == pre[j as int] && v@[b] == pre[b]);
                    } else if a == j {
                        assert(v@[a] == pre[j - 1] && v@[b] == pre[b]);
                    } else {
                        assert(v@[a] == pre[a] && v@[b] == pre[b]);
                    }
                }
            }
            j -= 1;
        }
        proof {
            assert forall|a: int, b: int| 0 <= a < b <= i implies result_le(v@[a], v@[b]) by {
                if b == j && j > 0 && a < j - 1 {
                    assert(result_le(v@[a], v@[j - 1]));
                    assert(result_le(v@[j - 1], v@[j as int]));
                }
            }
        }
        i += 1;
    }
}

/// Sort hierarchy edges by weight, strongest first.
pub fn sort_edges(v: &mut Vec<Edge>)
    ensures
        final(v)@.len() == old(v)@.len(),
        final(v)@.to_multiset() == old(v)@.to_multiset(),
        forall|a: int, b: int| 0 <= a < b < final(v)@.len() ==> edge_le(final(v)@[a], final(v)@[b]),
{
    let n = v.len();
    if n == 0 {
        return ;
    }
    let mut i: usize = 1;
    while i < n
        invariant
            v@.len() == n,
            1 <= i <= n,
            v@.to_multiset() == old(v)@.to_multiset(),
            forall|a: int, b: int| 0 <= a < b < i ==> edge_le(v@[a], v@[b]),
        decreases n - i,
    {
        let mut j: usize = i;
        while j > 0 && !edge_le_exec(&v[j - 1], &v[j])
            invariant
                v@.len() == n,
                j <= i < n,
                v@.to_multiset() == old(v)@.to_multiset(),
                forall|a: int, b: int|
                    0 <= a < b <= i && b != j ==> edge_le(v@[a], v@[b]),
            decreases j,
        {
            let ghost pre = v@;
            let x = v.remove(j);
            v.insert(j - 1, x);
            proof {
                assert(v@ =~= pre.update(j as int, pre[j - 1]).update(j - 1, pre[j as int]));
                lemma_swap_multiset(pre, j - 1, j as int);
                assert forall|a: int, b: int|
                    0 <= a < b <= i && b != j - 1 implies edge_le(v@[a], v@[b]) by {
                    if b == j {
                        if a == j - 1 {
                            assert(v@[a] == pre[j as int] && v@[b] == pre[j - 1]);
                        } else {
                            assert(v@[a] == pre[a] && v@[b] == pre[j - 1]);
                        }
                    } else if a == j - 1 {
                        assert(v@[a] == pre[j as int] && v@[b] == pre[b]);
                    } else if a == j {
                        assert(v@[a] == pre[j - 1] && v@[b] == pre[b]);
                    } else {
                        assert(v@[a] == pre[a] && v@[b] == pre[b]);
                    }
                }
            }
            j -= 1;
        }
        proof {
            assert forall|a: int, b: int| 0 <= a < b <= i implies edge_le(v@[a], v@[b]) by {
                if b == j && j > 0 && a < j - 1 {
                    assert(edge_le(v@[a], v@[j - 1]));
                    assert(edge_le(v@[j - 1], v@[j as int]));
                }
            }
        }
        i += 1;
    }
}

} // verus!
