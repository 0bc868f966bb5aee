//! Hierarchy re-rank: a transient edge list over the scored candidates
//! (parent → child, weighted by their scores at edge-build time), traversed
//! strongest-first; each edge may lift the child's score to the parent's
//! halved score plus the child's own.
//!
//! The boost pass over a fixed edge list is proved idempotent, and no score
//! ever drops.
use vstd::prelude::*;

use crate::interner::Id;
use crate::locations_db::LocationsDb;
use crate::search::{score_ub, Score};
use crate::{GRAPH_EDGE_THRESHOLD, SEARCH_INCLUSION_THRESHOLD};

verus! {

/// A parent → child edge with the endpoint scores at build time.
#[derive(Debug, Copy, Clone, PartialEq, Eq, Structural)]
pub struct Edge {
    pub parent: Id,
    pub child: Id,
    pub wp: i64,
    pub wc: i64,
}

/// The boost an edge can give its child.
pub open spec fn boost_of(e: Edge) -> int {
    e.wp as int / 2 + e.wc as int
}

/// First index carrying key `k`, or `-1`.
pub open spec fn key_idx(s: Seq<(Id, Score)>, k: Id) -> int
    decreases s.len(),
{
    if s.len() == 0 {
        -1
    } else if s[0].0 == k {
        0
    } else {
        let r = key_idx(s.drop_first(), k);
        if r == -1 {
            -1
        } else {
            r + 1
        }
    }
}

/// `key_idx` finds the first occurrence, or reports absence.
proof fn lemma_key_idx(s: Seq<(Id, Score)>, k: Id)
    ensures
        key_idx(s, k) == -1 ==> forall|i: int| 0 <= i < s.len() ==> (#[trigger] s[i]).0 != k,
        key_idx(s, k) != -1 ==> {
            &&& 0 <= key_idx(s, k) < s.len()
            &&& s[key_idx(s, k)].0 == k
            &&& forall|i: int| 0 <= i < key_idx(s, k) ==> (#[trigger] s[i]).0 != k
        },
    decreases s.len(),
{
    if s.len() > 0 && s[0].0 != k {
        let df = s.drop_first();
        lemma_key_idx(df, k);
        if key_idx(df, k) == -1 {
            assert forall|i: int| 0 <= i < s.len() implies (#[trigger] s[i]).0 != k by {
                if i >= 1 {
                    assert(s[i] == df[i - 1]);
                }
            }
        } else {
            assert(s[key_idx(s, k)] == df[key_idx(df, k)]);
            assert forall|i: int| 0 <= i < key_idx(s, k) implies (#[trigger] s[i]).0 != k by {
                if i >= 1 {
                    assert(s[i] == df[i - 1]);
                }
            }
        }
    }
}

/// `key_idx` depends only on the keys.
proof fn lemma_key_idx_same_keys(s1: Seq<(Id, Score)>, s2: Seq<(Id, Score)>, k: Id)
    requires
        s1.len() == s2.len(),
        forall|i: int| 0 <= i < s1.len() ==> (#[trigger] s1[i]).0 == s2[i].0,
    ensures
        key_idx(s1, k) == key_idx(s2, k),
    decreases s1.len(),
{
    if s1.len() > 0 && s1[0].0 != k {
        lemma_key_idx_same_keys(s1.drop_first(), s2.drop_first(), k);
    }
}

/// One edge's effect: lift the child's score to the boost when that is
/// higher; offsets and keys stay.
pub open spec fn step(s: Seq<(Id, Score)>, e: Edge) -> Seq<(Id, Score)> {
    let i = key_idx(s, e.child);
    if i < 0 {
        s
    } else {
        let cur = s[i].1;
        if boost_of(e) > cur.score {
            s.update(i, (e.child, Score { score: boost_of(e) as i64, offset: cur.offset }))
        } else {
            s
        }
    }
}

/// The whole boost pass, first edge first.
pub open spec fn apply_edges(s: Seq<(Id, Score)>, es: Seq<Edge>) -> Seq<(Id, Score)>
    decreases es.len(),
{
    if es.len() == 0 {
        s
    } else {
        apply_edges(step(s, es[0]), es.drop_first())
    }
}

/// Edge boosts stay in `i64` range.
pub open spec fn edge_bounded(e: Edge) -> bool {
    &&& GRAPH_EDGE_THRESHOLD < e.wp <= score_ub() as i64
    &&& GRAPH_EDGE_THRESHOLD < e.wc <= score_ub() as i64
}

/// A step never lowers a score, never touches keys or offsets, and raises
/// only the child, to exactly the boost.
proof fn lemma_step_frame(s: Seq<(Id, Score)>, e: Edge)
    requires
        edge_bounded(e),
    ensures
        step(s, e).len() == s.len(),
        forall|i: int|
            0 <= i < s.len() ==> (#[trigger] step(s, e)[i]).0 == s[i].0 && step(s, e)[i].1.offset
                == s[i].1.offset,
        forall|i: int|
            0 <= i < s.len() ==> (#[trigger] step(s, e)[i]).1.score as int >= s[i].1.score as int,
        key_idx(s, e.child) >= 0 ==> step(s, e)[key_idx(s, e.child)].1.score as int >= boost_of(e),
{
    lemma_key_idx(s, e.child);
    let i = key_idx(s, e.child);
    if i >= 0 {
        assert(0 <= boost_of(e) <= score_ub() as int * 2);
        if boost_of(e) > s[i].1.score {
            let s2 = step(s, e);
            assert(boost_of(e) as i64 as int == boost_of(e));
            assert(s2 == s.update(i, (e.child, Score { score: boost_of(e) as i64, offset: s[i].1.offset })));
            assert(forall|j: int| 0 <= j < s.len() && j != i ==> s2[j] == s[j]);
            assert(s2[i].1.score as int == boost_of(e));
        }
    }
}

proof fn lemma_apply_frame(s: Seq<(Id, Score)>, es: Seq<Edge>)
    requires
        forall|j: int| 0 <= j < es.len() ==> edge_bounded(#[trigger] es[j]),
    ensures
        apply_edges(s, es).len() == s.len(),
        forall|i: int|
            0 <= i < s.len() ==> (#[trigger] apply_edges(s, es)[i]).0 == s[i].0 && apply_edges(
                s,
                es,
            )[i].1.offset == s[i].1.offset,
        forall|i: int|
            0 <= i < s.len() ==> (#[trigger] apply_edges(s, es)[i]).1.score as int
                >= s[i].1.score as int,
    decreases es.len(),
{
    if es.len() > 0 {
        lemma_step_frame(s, es[0]);
        lemma_apply_frame(step(s, es[0]), es.drop_first());
    }
}

proof fn lemma_apply_ge_boost(s: Seq<(Id, Score)>, es: Seq<Edge>)
    requires
        forall|j: int| 0 <= j < es.len() ==> edge_bounded(#[trigger] es[j]),
    ensures
        forall|j: int|
            0 <= j < es.len() && key_idx(s, (#[trigger] es[j]).child) >= 0 ==> apply_edges(
                s,
                es,
            )[key_idx(s, es[j].child)].1.score as int >= boost_of(es[j]),
    decreases es.len(),
{
    if es.len() > 0 {
        let e0 = es[0];
        let s1 = step(s, e0);
        assert(forall|j: int| 0 <= j < es.drop_first().len() ==> #[trigger] es.drop_first()[j]
            == es[j + 1]);
        lemma_step_frame(s, e0);
        lemma_apply_frame(s1, es.drop_first());
        lemma_apply_ge_boost(s1, es.drop_first());
        assert forall|j: int|
            0 <= j < es.len() && key_idx(s, (#[trigger] es[j]).child) >= 0 implies apply_edges(
            s,
            es,
        )[key_idx(s, es[j].child)].1.score as int >= boost_of(es[j]) by {
            lemma_key_idx(s, es[j].child);
            lemma_key_idx_same_keys(s, s1, es[j].child);
            lemma_key_idx(s1, es[j].child);
            if j == 0 {
                assert(s1[key_idx(s1, e0.child)].1.score as int >= boost_of(e0));
                assert(apply_edges(s1, es.drop_first())[key_idx(s1, e0.child)].1.score as int
                    >= s1[key_idx(s1, e0.child)].1.score as int);
                assert(apply_edges(s, es) == apply_edges(s1, es.drop_first()));
            } else {
                assert(es.drop_first()[j - 1] == es[j]);
                assert(apply_edges(s, es) == apply_edges(s1, es.drop_first()));
            }
        }
    }
}

/// A boost pass leaves each score either untouched or equal to the boost of
/// one of its edges into that key.
proof fn lemma_apply_provenance(s: Seq<(Id, Score)>, es: Seq<Edge>)
    requires
        forall|j: int| 0 <= j < es.len() ==> edge_bounded(#[trigger] es[j]),
    ensures
        forall|i: int|
            0 <= i < s.len() ==> (#[trigger] apply_edges(s, es)[i]).1.score == s[i].1.score || (
            exists|j: int|
                0 <= j < es.len() && (#[trigger] es[j]).child == s[i].0 && apply_edges(
                    s,
                    es,
                )[i].1.score as int == boost_of(es[j])),
    decreases es.len(),
{
    if es.len() > 0 {
        let e0 = es[0];
        let s1 = step(s, e0);
        assert(forall|j: int| 0 <= j < es.drop_first().len() ==> #[trigger] es.drop_first()[j]
            == es[j + 1]);
        lemma_step_frame(s, e0);
        lemma_key_idx(s, e0.child);
        lemma_apply_provenance(s1, es.drop_first());
        assert forall|i: int|
            0 <= i < s.len() implies (#[trigger] apply_edges(s, es)[i]).1.score == s[i].1.score
            || (exists|j: int|
            0 <= j < es.len() && (#[trigger] es[j]).child == s[i].0 && apply_edges(
                s,
                es,
            )[i].1.score as int == boost_of(es[j])) by {
            assert(apply_edges(s, es) == apply_edges(s1, es.drop_first()));
            assert(s1[i].0 == s[i].0);
            if apply_edges(s1, es.drop_first())[i].1.score == s1[i].1.score {
                // the tail pass left this entry alone: the head edge decides
                if s1[i].1.score != s[i].1.score {
                    let ki = key_idx(s, e0.child);
                    if i != ki {
                        assert(s1[i] == s[i]);
                    }
                    assert(s[i].0 == e0.child);
                    assert(s1[i].1.score as int == boost_of(e0));
                    assert(es[0].child == s[i].0 && apply_edges(s, es)[i].1.score as int
                        == boost_of(es[0]));
                }
            } else {
                let j = choose|j: int|
                    0 <= j < es.drop_first().len() && (#[trigger] es.drop_first()[j]).child == s1[
                        i
                    ].0 && apply_edges(s1, es.drop_first())[i].1.score as int == boost_of(
                        es.drop_first()[j],
                    );
                assert(es[j + 1].child == s[i].0 && apply_edges(s, es)[i].1.score as int
                    == boost_of(es[j + 1]));
            }
        }
    }
}

proof fn lemma_apply_noop(s: Seq<(Id, Score)>, es: Seq<Edge>)
    requires
        forall|j: int|
            0 <= j < es.len() && key_idx(s, (#[trigger] es[j]).child) >= 0 ==> s[key_idx(
                s,
                es[j].child,
            )].1.score as int >= boost_of(es[j]),
    ensures
        apply_edges(s, es) == s,
    decreases es.len(),
{
    if es.len() > 0 {
        let e0 = es[0];
        lemma_key_idx(s, e0.child);
        assert(step(s, e0) == s);
        assert(forall|j: int| 1 <= j < es.len() ==> #[trigger] es.drop_first()[j - 1] == es[j]);
        lemma_apply_noop(s, es.drop_first());
    }
}

/// The boost pass over a fixed edge list is idempotent: applying it twice
/// yields the same scores as applying it once.
pub proof fn lemma_rerank_idempotent(s: Seq<(Id, Score)>, es: Seq<Edge>)
    requires
        forall|j: int| 0 <= j < es.len() ==> edge_bounded(#[trigger] es[j]),
    ensures
        apply_edges(apply_edges(s, es), es) == apply_edges(s, es),
{
    let s1 = apply_edges(s, es);
    lemma_apply_frame(s, es);
    lemma_apply_ge_boost(s, es);
    assert forall|j: int|
        0 <= j < es.len() && key_idx(s1, (#[trigger] es[j]).child) >= 0 implies s1[key_idx(
        s1,
        es[j].child,
    )].1.score as int >= boost_of(es[j]) by {
        lemma_key_idx_same_keys(s1, s, es[j].child);
    }
    lemma_apply_noop(s1, es);
}

/// A boost pass never lowers any score (and touches no key or offset).
pub proof fn lemma_rerank_monotone(s: Seq<(Id, Score)>, es: Seq<Edge>)
    requires
        forall|j: int| 0 <= j < es.len() ==> edge_bounded(#[trigger] es[j]),
    ensures
        apply_edges(s, es).len() == s.len(),
        forall|i: int|
            0 <= i < s.len() ==> (#[trigger] apply_edges(s, es)[i]).0 == s[i].0 && apply_edges(
                s,
                es,
            )[i].1.offset == s[i].1.offset,
        forall|i: int|
            0 <= i < s.len() ==> (#[trigger] apply_edges(s, es)[i]).1.score as int
                >= s[i].1.score as int,
{
    lemma_apply_frame(s, es);
}

proof fn lemma_apply_snoc(s: Seq<(Id, Score)>, es: Seq<Edge>, e: Edge)
    ensures
        apply_edges(s, es.push(e)) == step(apply_edges(s, es), e),
    decreases es.len(),
{
    if es.len() == 0 {
        assert(es.push(e)[0] == e);
        assert(es.push(e).drop_first() =~= Seq::<Edge>::empty());
        assert(apply_edges(s, es.push(e)) == apply_edges(step(s, e), Seq::<Edge>::empty()));
        assert(apply_edges(step(s, e), Seq::<Edge>::empty()) == step(s, e));
        assert(apply_edges(s, es) == s);
    } else {
        assert(es.push(e)[0] == es[0]);
        assert(es.push(e).drop_first() =~= es.drop_first().push(e));
        lemma_apply_snoc(step(s, es[0]), es.drop_first(), e);
        assert(apply_edges(s, es.push(e)) == apply_edges(
            step(s, es[0]),
            es.drop_first().push(e),
        ));
        assert(apply_edges(s, es) == apply_edges(step(s, es[0]), es.drop_first()));
    }
}

/// The boosted scores of one query's surviving candidates.
pub struct ResultsGraph {
    pub scores: Vec<(Id, Score)>,
}

/// First position of key `k`.
fn find_key(v: &Vec<(Id, Score)>, k: Id) -> (r: Option<usize>)
    ensures
        match r {
            Some(i) => i == key_idx(v@, k) && i < v@.len() && v@[i as int].0 == k,
            None => key_idx(v@, k) == -1,
        },
{
    proof {
        lemma_key_idx(v@, k);
    }
    let mut i: usize = 0;
    while i < v.len()
        invariant
            i <= v@.len(),
            forall|j: int| 0 <= j < i ==> (#[trigger] v@[j]).0 != k,
        decreases v@.len() - i,
    {
        if v[i].0 == k {
            proof {
                lemma_key_idx(v@, k);
                if key_idx(v@, k) < i as int {
                    assert(v@[key_idx(v@, k)].0 != k);
                }
                if key_idx(v@, k) > i as int {
                    assert(v@[i as int].0 != k);
                }
                if key_idx(v@, k) == -1 {
                    assert(v@[i as int].0 != k);
                }
            }
            return Some(i);
        }
        i += 1;
    }
    proof {
        lemma_key_idx(v@, k);
        if key_idx(v@, k) != -1 {
            assert(v@[key_idx(v@, k)].0 == k);
        }
    }
    None
}

/// All scores strictly above the inclusion threshold and below the cap.
pub open spec fn scores_bounded(s: Seq<(Id, Score)>) -> bool {
    forall|i: int|
        0 <= i < s.len() ==> SEARCH_INCLUSION_THRESHOLD < (#[trigger] s[i]).1.score as int
            <= score_ub()
}

/// An edge the re-rank admits: both ends scored, linked by the stored
/// location's parent references, weighted with their input scores, both
/// strictly above the edge threshold.
pub open spec fn qualifying_edge(db: &LocationsDb, results: Seq<(Id, Score)>, e: Edge) -> bool {
    &&& key_idx(results, e.child) >= 0
    &&& results[key_idx(results, e.child)].1.score == e.wc
    &&& key_idx(results, e.parent) >= 0
    &&& results[key_idx(results, e.parent)].1.score == e.wp
    &&& db.stored_parent(e.child, e.parent)
    &&& e.wp > GRAPH_EDGE_THRESHOLD
    &&& e.wc > GRAPH_EDGE_THRESHOLD
}

/// `es` holds the admissible edges and nothing else.
pub open spec fn edges_exact(db: &LocationsDb, results: Seq<(Id, Score)>, es: Seq<Edge>) -> bool {
    &&& forall|j: int| 0 <= j < es.len() ==> qualifying_edge(db, results, #[trigger] es[j])
    &&& forall|e: Edge| #[trigger] qualifying_edge(db, results, e) ==> es.contains(e)
}

/// With pairwise distinct keys, every entry is the first with its key.
proof fn lemma_key_idx_self(s: Seq<(Id, Score)>, i: int)
    requires
        forall|a: int, b: int| 0 <= a < b < s.len() ==> (#[trigger] s[a]).0 != (#[trigger] s[b]).0,
        0 <= i < s.len(),
    ensures
        key_idx(s, s[i].0) == i,
{
    lemma_key_idx(s, s[i].0);
    let j = key_idx(s, s[i].0);
    if j == -1 {
        assert(s[i].0 != s[i].0);
    }
    if j > i {
        assert(s[i].0 != s[i].0);
    }
}

impl ResultsGraph {
    /// Build the candidate graph and run the boost pass: for each scored
    /// location whose scored parent also survived, with both scores above
    /// the edge threshold, the child may rise to the parent's halved score
    /// plus its own. Keys and offsets are untouched, no score drops, and
    /// every score stays above the inclusion threshold.
    pub fn from_results(results: Vec<(Id, Score)>, db: &LocationsDb) -> (r: ResultsGraph)
        requires
            db.wf(),
            scores_bounded(results@),
            forall|a: int, b: int|
                0 <= a < b < results@.len() ==> (#[trigger] results@[a]).0 != (
                #[trigger] results@[b]).0,
        ensures
            r.scores@.len() == results@.len(),
            forall|i: int|
                0 <= i < results@.len() ==> (#[trigger] r.scores@[i]).0 == results@[i].0
                    && r.scores@[i].1.offset == results@[i].1.offset,
            forall|i: int|
                0 <= i < results@.len() ==> (#[trigger] r.scores@[i]).1.score as int
                    >= results@[i].1.score as int,
            forall|i: int|
                0 <= i < r.scores@.len() ==> (#[trigger] r.scores@[i]).1.score as int
                    > SEARCH_INCLUSION_THRESHOLD,
            // the boost pass ran over exactly the admissible edges: every
            // stored-parent pair of scored candidates above the edge
            // threshold, weighted by the input scores
            exists|es: Seq<Edge>|
                edges_exact(db, results@, es) && r.scores@ == apply_edges(results@, es),
            // lower bound: every admissible edge's boost is reached ...
            forall|e: Edge|
                #[trigger] qualifying_edge(db, results@, e) ==> r.scores@[key_idx(
                    results@,
                    e.child,
                )].1.score as int >= boost_of(e),
            // ... and nothing above the admissible boosts is invented, so
            // each final score is exactly the max of its input score and its
            // admissible boosts
            forall|i: int|
                0 <= i < results@.len() ==> (#[trigger] r.scores@[i]).1.score == results@[
                    i
                ].1.score || (exists|e: Edge|
                    #[trigger] qualifying_edge(db, results@, e) && e.child == results@[i].0
                        && r.scores@[i].1.score as int == boost_of(e)),
    {
        let mut edges: Vec<Edge> = Vec::new();
        let mut i: usize = 0;
        while i < results.len()
            invariant
                db.wf(),
                scores_bounded(results@),
                forall|a: int, b: int|
                    0 <= a < b < results@.len() ==> (#[trigger] results@[a]).0 != (
                    #[trigger] results@[b]).0,
                i <= results@.len(),
                forall|j: int|
                    0 <= j < edges@.len() ==> qualifying_edge(db, results@, #[trigger] edges@[j]),
                forall|e: Edge|
                    #[trigger] qualifying_edge(db, results@, e) && key_idx(results@, e.child) < i
                        ==> edges@.contains(e),
            decreases results@.len() - i,
        {
            let (key, sc) = results[i];
            proof {
                lemma_key_idx_self(results@, i as int);
            }
            let ghost pre_loop_edges = edges@;
            match db.get(key) {
                Some(loc) => {
                    proof {
                        let j = choose|j: int|
                            0 <= j < db.all@.len() && #[trigger] db.all@[j] == (key, *loc);
                        db.lemma_loc_idx(key, j);
                    }
                    let (ps, psub) = loc.get_parents();
                    add_parent_edge(&mut edges, db, &results, ps, key, sc);
                    add_parent_edge(&mut edges, db, &results, psub, key, sc);
                    proof {
                        assert forall|e: Edge|
                            #[trigger] qualifying_edge(db, results@, e) && key_idx(
                                results@,
                                e.child,
                            ) < i + 1 implies edges@.contains(e) by {
                            if key_idx(results@, e.child) < i {
                                assert(pre_loop_edges.contains(e));
                            } else {
                                // this iteration's entry is the edge's child
                                lemma_key_idx(results@, e.child);
                                assert(results@[i as int].0 == e.child);
                                assert(e.child == key);
                                assert(db.all@[db.loc_idx(key)].1 == *loc);
                                assert(e.wc == sc.score);
                                assert(ps == Some(e.parent) || psub == Some(e.parent));
                                assert(edges@.contains(
                                    Edge {
                                        parent: e.parent,
                                        child: key,
                                        wp: results@[key_idx(results@, e.parent)].1.score,
                                        wc: sc.score,
                                    },
                                ));
                            }
                        }
                    }
                },
                None => {
                    proof {
                        assert forall|e: Edge|
                            #[trigger] qualifying_edge(db, results@, e) && key_idx(
                                results@,
                                e.child,
                            ) < i + 1 implies edges@.contains(e) by {
                            if key_idx(results@, e.child) == i {
                                lemma_key_idx(results@, e.child);
                                assert(results@[i as int].0 == e.child);
                                assert(db.has_key(key));
                                assert(false);
                            }
                        }
                    }
                },
            }
            i += 1;
        }
        proof {
            assert(edges_exact(db, results@, edges@)) by {
                assert forall|e: Edge| #[trigger] qualifying_edge(db, results@, e)
                    implies edges@.contains(e) by {
                    lemma_key_idx(results@, e.child);
                }
            }
        }
        let ghost pre_edges = edges@;
        crate::sorting::sort_edges(&mut edges);
        proof {
            broadcast use vstd::seq_lib::group_to_multiset_ensures;

            assert forall|j: int| 0 <= j < edges@.len() implies qualifying_edge(
                db,
                results@,
                #[trigger] edges@[j],
            ) by {
                assert(edges@.contains(edges@[j]));
                assert(edges@.to_multiset().contains(edges@[j]));
                assert(pre_edges.to_multiset().contains(edges@[j]));
                assert(pre_edges.contains(edges@[j]));
                let j2 = choose|j2: int| 0 <= j2 < pre_edges.len() && pre_edges[j2] == edges@[j];
            }
            assert forall|e: Edge| #[trigger] qualifying_edge(db, results@, e)
                implies edges@.contains(e) by {
                assert(pre_edges.contains(e));
                assert(pre_edges.to_multiset().contains(e));
                assert(edges@.to_multiset().contains(e));
            }
            assert(edges_exact(db, results@, edges@));
            // an admissible edge's weights are scores of entries, so they
            // stay within the cap
            assert forall|j: int| 0 <= j < edges@.len() implies edge_bounded(
                #[trigger] edges@[j],
            ) by {
                let e = edges@[j];
                assert(qualifying_edge(db, results@, e));
                lemma_key_idx(results@, e.child);
                lemma_key_idx(results@, e.parent);
            }
            assert(edges@.subrange(0, 0) =~= Seq::<Edge>::empty());
        }
        let mut scores = results;
        let mut i: usize = 0;
        while i < edges.len()
            invariant
                i <= edges@.len(),
                forall|j: int| 0 <= j < edges@.len() ==> edge_bounded(#[trigger] edges@[j]),
                scores@ == apply_edges(results@, edges@.subrange(0, i as int)),
                scores@.len() == results@.len(),
            decreases edges@.len() - i,
        {
            let e = edges[i];
            proof {
                assert(edges@.subrange(0, i + 1) =~= edges@.subrange(0, i as int).push(e));
                lemma_apply_snoc(results@, edges@.subrange(0, i as int), e);
                lemma_key_idx(scores@, e.child);
            }
            let ghost pre = scores@;
            match find_key(&scores, e.child) {
                Some(ci) => {
                    let cur = scores[ci];
                    let b: i64 = e.wp / 2 + e.wc;
                    proof {
                        assert(b as int == boost_of(e));
                    }
                    if b > cur.1.score {
                        scores[ci] = (e.child, Score { score: b, offset: cur.1.offset });
                        proof {
                            assert(scores@ =~= step(pre, e));
                        }
                    } else {
                        proof {
                            assert(scores@ =~= step(pre, e));
                        }
                    }
                },
                None => {
                    proof {
                        assert(scores@ =~= step(pre, e));
                    }
                },
            }
            i += 1;
        }
        proof {
            assert(edges@.subrange(0, edges@.len() as int) =~= edges@);
            lemma_apply_frame(results@, edges@);
            assert forall|i2: int|
                0 <= i2 < scores@.len() implies (#[trigger] scores@[i2]).1.score as int
                > SEARCH_INCLUSION_THRESHOLD by {
                assert(scores@[i2].1.score as int >= results@[i2].1.score as int);
            }
            lemma_apply_ge_boost(results@, edges@);
            assert forall|e: Edge| #[trigger] qualifying_edge(db, results@, e) implies scores@[
                key_idx(results@, e.child)
            ].1.score as int >= boost_of(e) by {
                assert(edges@.contains(e));
                let j = choose|j: int| 0 <= j < edges@.len() && edges@[j] == e;
            }
            lemma_apply_provenance(results@, edges@);
            assert forall|i2: int|
                0 <= i2 < results@.len() implies (#[trigger] scores@[i2]).1.score == results@[
                    i2
                ].1.score || (exists|e: Edge|
                    #[trigger] qualifying_edge(db, results@, e) && e.child == results@[i2].0
                        && scores@[i2].1.score as int == boost_of(e)) by {
                if scores@[i2].1.score != results@[i2].1.score {
                    let j = choose|j: int|
                        0 <= j < edges@.len() && (#[trigger] edges@[j]).child == results@[i2].0
                            && apply_edges(results@, edges@)[i2].1.score as int == boost_of(
                            edges@[j],
                        );
                    assert(qualifying_edge(db, results@, edges@[j]));
                }
            }
        }
        ResultsGraph { scores }
    }
}

/// Add the edge from `parent` to `child` when the parent also scored and
/// both endpoint scores clear the edge threshold; exactly that edge, and
/// nothing else, is gained.
fn add_parent_edge(
    edges: &mut Vec<Edge>,
    db: &LocationsDb,
    results: &Vec<(Id, Score)>,
    parent: Option<Id>,
    child: Id,
    sc: Score,
)
    requires
        db.wf(),
        scores_bounded(results@),
        forall|j: int|
            0 <= j < old(edges)@.len() ==> qualifying_edge(
                db,
                results@,
                #[trigger] old(edges)@[j],
            ),
        key_idx(results@, child) >= 0,
        results@[key_idx(results@, child)].1 == sc,
        match parent {
            Some(p) => db.stored_parent(child, p),
            None => true,
        },
    ensures
        forall|j: int|
            0 <= j < final(edges)@.len() ==> qualifying_edge(
                db,
                results@,
                #[trigger] final(edges)@[j],
            ),
        old(edges)@.len() <= final(edges)@.len(),
        forall|j: int| 0 <= j < old(edges)@.len() ==> final(edges)@[j] == old(edges)@[j],
        forall|e: Edge| old(edges)@.contains(e) ==> final(edges)@.contains(e),
        match parent {
            Some(p) => (key_idx(results@, p) >= 0 && results@[key_idx(
                results@,
                p,
            )].1.score > GRAPH_EDGE_THRESHOLD && sc.score > GRAPH_EDGE_THRESHOLD) ==> final(edges)@.contains(
                Edge {
                    parent: p,
                    child,
                    wp: results@[key_idx(results@, p)].1.score,
                    wc: sc.score,
                },
            ),
            None => true,
        },
{
    match parent {
        Some(p) => {
            match find_key(results, p) {
                Some(pi) => {
                    let psc = results[pi].1.score;
                    let csc = sc.score;
                    let lower = if psc < csc {
                        psc
                    } else {
                        csc
                    };
                    if lower > GRAPH_EDGE_THRESHOLD {
                        let e = Edge { parent: p, child, wp: psc, wc: csc };
                        let ghost pre = edges@;
                        edges.push(e);
                        proof {
                            assert(qualifying_edge(db, results@, e));
                            assert(forall|j: int| 0 <= j < pre.len() ==> edges@[j] == pre[j]);
                            assert(edges@[edges@.len() - 1] == e);
                            assert forall|e2: Edge| pre.contains(e2) implies edges@.contains(
                                e2,
                            ) by {
                                let j = choose|j: int| 0 <= j < pre.len() && pre[j] == e2;
                                assert(edges@[j] == e2);
                            }
                            assert(edges@.contains(e));
                        }
                    }
                },
                None => {},
            }
        },
        None => {},
    }
}

} // verus!
