use vstd::prelude::*;
use crate::model::ShortestPath;
use crate::paths::{is_square, is_walk, is_walk_between, pred_chain, reachable, walk_weight};

verus! {

/// `r` is a correct answer to a shortest-path query from `s` to `t` in `m`:
/// the empty path when `s == t`; otherwise `None` exactly when `t` cannot be
/// reached, and else a walk from `s` to `t` that visits no node twice, whose
/// `dist` is its weight and is no more than the weight of any walk from `s` to `t`.
pub open spec fn is_shortest(m: Seq<Seq<Option<u64>>>, s: usize, t: usize, r: Option<ShortestPath>) -> bool {
    if s == t {
        r matches Some(p) && p.points@.len() == 0 && p.dist == 0
    } else {
        match r {
            None => !reachable(m, s, t),
            Some(p) => {
                &&& is_walk_between(m, p.points@, s, t)
                &&& p.points@.no_duplicates()
                &&& p.dist == walk_weight(m, p.points@)
                &&& forall|q: Seq<usize>| is_walk_between(m, q, s, t) ==> p.dist <= walk_weight(m, q)
            },
        }
    }
}

/// Every queued entry names a node whose tentative distance is at most the
/// entry's priority.
pub open spec fn entries_sound(q: Seq<(u128, usize)>, dist: Seq<Option<u128>>) -> bool {
    forall|k: int|
        0 <= k < q.len() ==> (#[trigger] q[k]).1 < dist.len() && dist[q[k].1 as int] is Some
            && q[k].0 >= dist[q[k].1 as int]->Some_0
}

/// The queue holds entry `e`.
pub open spec fn in_queue(q: Seq<(u128, usize)>, e: (u128, usize)) -> bool {
    exists|k: int| 0 <= k < q.len() && q[k] == e
}

/// Every unvisited node with a tentative distance is queued at that distance.
pub open spec fn frontier_queued(q: Seq<(u128, usize)>, dist: Seq<Option<u128>>, visited: Seq<bool>) -> bool {
    forall|v: int|
        0 <= v < dist.len() && !visited[v] && (#[trigger] dist[v]) is Some ==> in_queue(
            q,
            (dist[v]->Some_0, v as usize),
        )
}

/// The distance of every visited node is no more than the weight of any walk to it.
pub open spec fn settled(m: Seq<Seq<Option<u64>>>, dist: Seq<Option<u128>>, visited: Seq<bool>, source: usize) -> bool {
    forall|v: int, p: Seq<usize>|
        0 <= v < m.len() && #[trigger] visited[v] && #[trigger] is_walk_between(m, p, source, v as usize)
            ==> walk_weight(m, p) >= dist[v]->Some_0
}

/// Every edge from a visited node `x` to an unvisited node has been relaxed,
/// except those from `skip` to nodes at or past `upto`.
pub open spec fn relaxed(m: Seq<Seq<Option<u64>>>, dist: Seq<Option<u128>>, visited: Seq<bool>, skip: int, upto: int) -> bool {
    forall|x: int, v: int|
        0 <= x < m.len() && 0 <= v < m.len() && visited[x] && !visited[v] && (#[trigger] m[x][v]) is Some
            && (x != skip || v < upto) ==> dist[v] is Some && dist[v]->Some_0 <= dist[x]->Some_0
            + m[x][v]->Some_0
}

/// The order in which a node was visited; nodes not yet visited come after all others.
pub open spec fn rank(visited: Seq<bool>, vt: Seq<nat>, count: nat, v: int) -> nat {
    if visited[v] {
        vt[v]
    } else {
        count
    }
}

/// Each reached node other than the source has a visited predecessor, visited
/// before it, joined to it by an edge that accounts for its distance.
pub open spec fn preds_ok(
    m: Seq<Seq<Option<u64>>>,
    dist: Seq<Option<u128>>,
    pred: Seq<Option<usize>>,
    visited: Seq<bool>,
    vt: Seq<nat>,
    count: nat,
    source: usize,
) -> bool {
    forall|v: int|
        0 <= v < m.len() && v != source && (#[trigger] dist[v]) is Some ==> {
            let u = pred[v]->Some_0 as int;
            &&& pred[v] is Some
            &&& 0 <= u < m.len()
            &&& visited[u]
            &&& m[u][v] is Some
            &&& dist[u] is Some
            &&& dist[v]->Some_0 == dist[u]->Some_0 + m[u][v]->Some_0
            &&& vt[u] < rank(visited, vt, count, v)
        }
}

/// Taking an entry out keeps every other entry in the queue.
pub proof fn lemma_remove_keeps(q: Seq<(u128, usize)>, i: int, e: (u128, usize))
    requires
        0 <= i < q.len(),
        in_queue(q, e),
        q[i] != e,
    ensures
        in_queue(q.remove(i), e),
{
    let k = choose|k: int| 0 <= k < q.len() && q[k] == e;
    if k < i {
        assert(q.remove(i)[k] == e);
    } else {
        assert(q.remove(i)[k - 1] == e);
    }
}

/// Pushing an entry keeps the others.
pub proof fn lemma_push_keeps(q: Seq<(u128, usize)>, x: (u128, usize), e: (u128, usize))
    requires
        in_queue(q, e),
    ensures
        in_queue(q.push(x), e),
{
    let k = choose|k: int| 0 <= k < q.len() && q[k] == e;
    assert(q.push(x)[k] == e);
}

/// The prefix of a walk without its last node is a walk too, lighter by the last edge.
pub proof fn lemma_walk_drop_last(m: Seq<Seq<Option<u64>>>, p: Seq<usize>)
    requires
        is_walk(m, p),
        p.len() >= 2,
    ensures
        is_walk(m, p.drop_last()),
        p.drop_last()[0] == p[0],
        p.drop_last().last() == p[p.len() - 2],
        m[p[p.len() - 2] as int][p.last() as int] is Some,
        walk_weight(m, p) == walk_weight(m, p.drop_last()) + m[p[p.len() - 2] as int][p.last() as int]->Some_0,
{
    let q = p.drop_last();
    assert forall|i: int| 0 <= i < q.len() - 1 implies (#[trigger] m[q[i] as int][q[i + 1] as int]) is Some by {
        assert(q[i] == p[i] && q[i + 1] == p[i + 1]);
        assert(m[p[i] as int][p[i + 1] as int] is Some);
    }
    assert(m[p[p.len() - 2] as int][p[p.len() - 2 + 1] as int] is Some);
}

/// Any walk from the source to an unvisited node passes an unvisited node whose
/// tentative distance is at most the walk's weight.
pub proof fn lemma_crossing(
    m: Seq<Seq<Option<u64>>>,
    dist: Seq<Option<u128>>,
    visited: Seq<bool>,
    source: usize,
    p: Seq<usize>,
)
    requires
        is_square(m),
        dist.len() == m.len(),
        visited.len() == m.len(),
        source < m.len(),
        dist[source as int] == Some(0u128),
        forall|v: int| 0 <= v < m.len() && #[trigger] visited[v] ==> dist[v] is Some,
        settled(m, dist, visited, source),
        relaxed(m, dist, visited, -1, 0),
        is_walk(m, p),
        p[0] == source,
        !visited[p.last() as int],
    ensures
        exists|x: int|
            0 <= x < m.len() && !visited[x] && (#[trigger] dist[x]) is Some && dist[x]->Some_0 <= walk_weight(
                m,
                p,
            ),
    decreases p.len(),
{
    if p.len() == 1 {
        assert(dist[source as int] is Some);
    } else {
        let q = p.drop_last();
        let y = p[p.len() - 2];
        let z = p.last();
        lemma_walk_drop_last(m, p);
        assert(y < m.len() && z < m.len());
        assert(0 <= walk_weight(m, p) - walk_weight(m, q));
        if !visited[y as int] {
            lemma_crossing(m, dist, visited, source, q);
            let x = choose|x: int|
                0 <= x < m.len() && !visited[x] && (#[trigger] dist[x]) is Some && dist[x]->Some_0
                    <= walk_weight(m, q);
            assert(dist[x]->Some_0 <= walk_weight(m, p));
        } else {
            assert(is_walk_between(m, q, source, (y as int) as usize));
            assert(walk_weight(m, q) >= dist[y as int]->Some_0);
            assert(m[y as int][z as int] is Some);
            assert(dist[z as int] is Some);
        }
    }
}

/// Following predecessors from a reached node gives a walk from the source
/// whose weight is the node's distance, along which visit ranks rise strictly.
pub proof fn lemma_chain(
    m: Seq<Seq<Option<u64>>>,
    dist: Seq<Option<u128>>,
    pred: Seq<Option<usize>>,
    visited: Seq<bool>,
    vt: Seq<nat>,
    count: nat,
    source: usize,
    v: usize,
    fuel: nat,
)
    requires
        is_square(m),
        dist.len() == m.len(),
        pred.len() == m.len(),
        visited.len() == m.len(),
        vt.len() == m.len(),
        source < m.len(),
        dist[source as int] == Some(0u128),
        preds_ok(m, dist, pred, visited, vt, count, source),
        v < m.len(),
        dist[v as int] is Some,
        fuel >= rank(visited, vt, count, v as int),
    ensures
        pred_chain(pred, source, v, fuel) matches Some(s) && is_walk_between(m, s, source, v)
            && walk_weight(m, s) == dist[v as int]->Some_0 && (forall|a: int, b: int|
            0 <= a < b < s.len() ==> rank(visited, vt, count, s[a] as int) < rank(
                visited,
                vt,
                count,
                s[b] as int,
            )) && (forall|a: int| 0 <= a < s.len() ==> rank(visited, vt, count, #[trigger] s[a] as int)
            <= rank(visited, vt, count, v as int)),
    decreases fuel,
{
    if v != source {
        let u = pred[v as int]->Some_0;
        assert(dist[v as int] is Some);
        lemma_chain(m, dist, pred, visited, vt, count, source, u, (fuel - 1) as nat);
        let s = pred_chain(pred, source, u, (fuel - 1) as nat)->Some_0;
        let t = s.push(v);
        assert(t.drop_last() =~= s);
        assert forall|i: int| 0 <= i < t.len() implies #[trigger] t[i] < m.len() by {
            if i < s.len() {
                assert(t[i] == s[i]);
            }
        }
        assert forall|i: int| 0 <= i < t.len() - 1 implies (#[trigger] m[t[i] as int][t[i + 1] as int]) is Some by {
            if i < s.len() - 1 {
                assert(t[i] == s[i] && t[i + 1] == s[i + 1]);
                assert(m[s[i] as int][s[i + 1] as int] is Some);
            }
        }
        assert forall|a: int, b: int| 0 <= a < b < t.len() implies rank(visited, vt, count, t[a] as int) < rank(
            visited,
            vt,
            count,
            t[b] as int,
        ) by {
            assert(t[a] == s[a]);
            assert(rank(visited, vt, count, s[a] as int) <= rank(visited, vt, count, u as int));
            if b < s.len() {
                assert(t[b] == s[b]);
            }
        }
        assert forall|a: int| 0 <= a < t.len() implies rank(visited, vt, count, #[trigger] t[a] as int) <= rank(
            visited,
            vt,
            count,
            v as int,
        ) by {
            if a < s.len() {
                assert(t[a] == s[a]);
                assert(rank(visited, vt, count, s[a] as int) <= rank(visited, vt, count, u as int));
            }
        }
    }
}

} // verus!
