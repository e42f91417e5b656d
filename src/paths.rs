use vstd::prelude::*;

verus! {

/// A dense adjacency matrix: cell `[i][j]` holds the weight of a direct edge, if any.
pub type AdjMatrix = Vec<Vec<Option<u64>>>;

/// Every row of `m` has one cell per node.
pub open spec fn is_square(m: Seq<Seq<Option<u64>>>) -> bool {
    forall|i: int| 0 <= i < m.len() ==> #[trigger] m[i].len() == m.len()
}

/// `p` is a non-empty sequence of node ids in which each consecutive pair is
/// joined by a direct edge of `m`.
pub open spec fn is_walk(m: Seq<Seq<Option<u64>>>, p: Seq<usize>) -> bool {
    &&& p.len() >= 1
    &&& forall|i: int| 0 <= i < p.len() ==> #[trigger] p[i] < m.len()
    &&& forall|i: int| 0 <= i < p.len() - 1 ==> (#[trigger] m[p[i] as int][p[i + 1] as int]) is Some
}

/// `p` is a walk of `m` that starts at `s` and ends at `t`.
pub open spec fn is_walk_between(m: Seq<Seq<Option<u64>>>, p: Seq<usize>, s: usize, t: usize) -> bool {
    is_walk(m, p) && p[0] == s && p.last() == t
}

/// The total weight of the edges along `p`.
pub open spec fn walk_weight(m: Seq<Seq<Option<u64>>>, p: Seq<usize>) -> int
    decreases p.len(),
{
    if p.len() <= 1 {
        0
    } else {
        walk_weight(m, p.drop_last()) + m[p[p.len() - 2] as int][p.last() as int]->Some_0
    }
}

/// Some walk of `m` leads from `s` to `t`.
pub open spec fn reachable(m: Seq<Seq<Option<u64>>>, s: usize, t: usize) -> bool {
    exists|p: Seq<usize>| is_walk_between(m, p, s, t)
}

/// Following predecessors back from `v` to `src`, taking at most `fuel` steps,
/// gives this walk in forward order (from `src` to `v`); `None` when a
/// predecessor is missing or the steps run out first.
pub open spec fn pred_chain(pred: Seq<Option<usize>>, src: usize, v: usize, fuel: nat) -> Option<Seq<usize>>
    decreases fuel,
{
    if v == src {
        Some(seq![v])
    } else if fuel == 0 || v >= pred.len() {
        None
    } else {
        match pred[v as int] {
            None => None,
            Some(u) => match pred_chain(pred, src, u, (fuel - 1) as nat) {
                Some(s) => Some(s.push(v)),
                None => None,
            },
        }
    }
}

/// The path that the predecessor map records from `src` to `dest`: a chain
/// that returns to `src` within one step per node.
pub open spec fn pred_path(pred: Seq<Option<usize>>, src: usize, dest: usize) -> Option<Seq<usize>> {
    pred_chain(pred, src, dest, pred.len())
}

/// The elements of `s` in reverse order.
pub open spec fn reversed(s: Seq<usize>) -> Seq<usize> {
    Seq::new(s.len(), |i: int| s[s.len() - 1 - i])
}

/// Every edge weighs the same in both directions.
pub open spec fn is_symmetric(m: Seq<Seq<Option<u64>>>) -> bool {
    forall|i: int, j: int| 0 <= i < m.len() && 0 <= j < m.len() ==> #[trigger] m[i][j] == m[j][i]
}

/// A walk weighs its first edge plus the rest of the walk.
pub proof fn lemma_weight_front(m: Seq<Seq<Option<u64>>>, p: Seq<usize>)
    requires
        p.len() >= 2,
    ensures
        walk_weight(m, p) == m[p[0] as int][p[1] as int]->Some_0 + walk_weight(m, p.subrange(1, p.len() as int)),
    decreases p.len(),
{
    let rest = p.subrange(1, p.len() as int);
    let q = p.drop_last();
    if p.len() == 2 {
        assert(rest.len() == 1);
        assert(q.len() == 1);
        assert(walk_weight(m, p) == walk_weight(m, q) + m[p[0] as int][p[1] as int]->Some_0);
    } else {
        lemma_weight_front(m, q);
        assert(q[0] == p[0] && q[1] == p[1]);
        assert(q.subrange(1, p.len() - 1) =~= rest.drop_last());
        assert(rest[rest.len() - 2] == p[p.len() - 2]);
        assert(rest.last() == p.last());
        assert(walk_weight(m, rest) == walk_weight(m, rest.drop_last()) + m[rest[rest.len() - 2] as int][rest.last() as int]->Some_0);
    }
}

/// In a symmetric matrix a walk read backwards is a walk of the same weight.
pub proof fn lemma_reverse_walk(m: Seq<Seq<Option<u64>>>, p: Seq<usize>)
    requires
        is_symmetric(m),
        is_walk(m, p),
    ensures
        is_walk(m, reversed(p)),
        walk_weight(m, reversed(p)) == walk_weight(m, p),
    decreases p.len(),
{
    let r = reversed(p);
    assert forall|i: int| 0 <= i < r.len() implies #[trigger] r[i] < m.len() by {
        assert(r[i] == p[p.len() - 1 - i]);
    }
    assert forall|i: int| 0 <= i < r.len() - 1 implies (#[trigger] m[r[i] as int][r[i + 1] as int]) is Some by {
        let k = p.len() - 2 - i;
        assert(r[i] == p[k + 1] && r[i + 1] == p[k]);
        assert(m[p[k] as int][p[k + 1] as int] is Some);
        assert(m[p[k] as int][p[k + 1] as int] == m[p[k + 1] as int][p[k] as int]);
    }
    if p.len() >= 2 {
        let rest = p.subrange(1, p.len() as int);
        assert forall|i: int| 0 <= i < rest.len() - 1 implies (#[trigger] m[rest[i] as int][rest[i + 1] as int]) is Some by {
            assert(rest[i] == p[i + 1] && rest[i + 1] == p[i + 2]);
            assert(m[p[i + 1] as int][p[i + 1 + 1] as int] is Some);
        }
        lemma_reverse_walk(m, rest);
        lemma_weight_front(m, p);
        assert(r.drop_last() =~= reversed(rest));
        assert(m[p[0] as int][p[1] as int] == m[p[1] as int][p[0] as int]);
        assert(r[r.len() - 2] == p[1] && r.last() == p[0]);
    }
}

/// Walks the predecessor map back from `dest` until `src` is reached and
/// returns the ids in forward order. `None` means the chain broke: a
/// predecessor was missing, or the chain did not return to `src` within one
/// step per entry of `pred`.
pub fn path_reconstruct(src: usize, dest: usize, pred: &Vec<Option<usize>>) -> (r: Option<Vec<usize>>)
    ensures
        match r {
            Some(p) => pred_path(pred@, src, dest) == Some(p@),
            None => pred_path(pred@, src, dest) is None,
        },
{
    let ghost whole = pred_path(pred@, src, dest);
    let mut back: Vec<usize> = Vec::new();
    let mut v: usize = dest;
    let mut fuel: usize = pred.len();
    while v != src
        invariant
            whole == pred_path(pred@, src, dest),
            match pred_chain(pred@, src, v, fuel as nat) {
                Some(s) => whole == Some(s + reversed(back@)),
                None => whole is None,
            },
        decreases fuel,
    {
        if fuel == 0 || v >= pred.len() {
            return None;
        }
        match pred[v] {
            None => {
                return None;
            },
            Some(u) => {
                proof {
                    assert(reversed(back@.push(v)) =~= seq![v] + reversed(back@));
                    if let Some(s) = pred_chain(pred@, src, u, (fuel - 1) as nat) {
                        assert(s.push(v) + reversed(back@) =~= s + reversed(back@.push(v)));
                    }
                }
                back.push(v);
                v = u;
                fuel = fuel - 1;
            },
        }
    }
    proof {
        assert(reversed(back@.push(v)) =~= seq![v] + reversed(back@));
    }
    back.push(v);
    let mut out: Vec<usize> = Vec::new();
    let mut i: usize = back.len();
    while i > 0
        invariant
            i <= back.len(),
            out@ =~= reversed(back@).take(back.len() - i),
        decreases i,
    {
        i = i - 1;
        out.push(back[i]);
    }
    assert(out@ =~= reversed(back@));
    Some(out)
}

} // verus!
