use vstd::prelude::*;
use crate::isqrt::{floor_sqrt, isqrt};
use crate::model::{is_destination, Edge, GraphError, Node, ShortestPath};
use crate::dijkstra::{
    entries_sound, frontier_queued, in_queue, is_shortest, lemma_chain, lemma_crossing,
    lemma_push_keeps, lemma_remove_keeps, preds_ok, rank, relaxed, settled,
};
use crate::paths::{
    is_square, is_symmetric, is_walk_between, lemma_reverse_walk, path_reconstruct, pred_chain,
    pred_path, reversed, walk_weight, AdjMatrix,
};
use crate::queue::MinQueue;
use vstd::set_lib::{lemma_int_range, lemma_len_subset, set_int_range};

verus! {

/// Node ids are dense: each lies below the node count and no two nodes share one.
pub open spec fn ids_valid(nodes: Seq<Node>) -> bool {
    &&& forall|i: int| 0 <= i < nodes.len() ==> (#[trigger] nodes[i]).n_id < nodes.len()
    &&& forall|i: int, j: int|
        0 <= i < nodes.len() && 0 <= j < nodes.len() && i != j ==> (#[trigger] nodes[i]).n_id
            != (#[trigger] nodes[j]).n_id
}

/// Some node carries `id`.
pub open spec fn has_id(nodes: Seq<Node>, id: usize) -> bool {
    exists|i: int| 0 <= i < nodes.len() && (#[trigger] nodes[i]).n_id == id
}

/// Every edge names ids that nodes carry.
pub open spec fn edges_known(nodes: Seq<Node>, edges: Seq<Edge>) -> bool {
    forall|k: int|
        0 <= k < edges.len() ==> has_id(nodes, (#[trigger] edges[k]).source) && has_id(
            nodes,
            edges[k].dest,
        )
}

/// The node that carries `id`.
pub open spec fn node_of(nodes: Seq<Node>, id: usize) -> Node {
    nodes[choose|i: int| 0 <= i < nodes.len() && (#[trigger] nodes[i]).n_id == id]
}

/// The weight rule: the integer square root of the squared length of the
/// component-wise *sum* of the two endpoints' coordinates.
pub open spec fn coord_weight(a: Node, b: Node) -> nat {
    floor_sqrt(
        ((a.x + b.x) * (a.x + b.x) + (a.y + b.y) * (a.y + b.y)) as nat,
    )
}

/// The weight of an edge between ids `i` and `j`: zero for a self-loop.
pub open spec fn edge_weight(nodes: Seq<Node>, i: usize, j: usize) -> nat {
    if i == j {
        0
    } else {
        coord_weight(node_of(nodes, i), node_of(nodes, j))
    }
}

/// Some edge joins `i` and `j`, in either direction.
pub open spec fn joined(edges: Seq<Edge>, i: usize, j: usize) -> bool {
    exists|k: int|
        0 <= k < edges.len() && ((#[trigger] edges[k]).source == i && edges[k].dest == j
            || edges[k].source == j && edges[k].dest == i)
}

/// The adjacency matrix of the nodes and edges: a weight exactly where an edge joins two ids.
pub open spec fn matrix_of(nodes: Seq<Node>, edges: Seq<Edge>) -> Seq<Seq<Option<u64>>> {
    Seq::new(
        nodes.len(),
        |i: int|
            Seq::new(
                nodes.len(),
                |j: int|
                    if joined(edges, i as usize, j as usize) {
                        Some(edge_weight(nodes, i as usize, j as usize) as u64)
                    } else {
                        None
                    },
            ),
    )
}

/// The ids of the destination nodes, in the order the nodes come.
pub open spec fn destination_ids(nodes: Seq<Node>) -> Seq<usize>
    decreases nodes.len(),
{
    if nodes.len() == 0 {
        Seq::empty()
    } else if is_destination(nodes.last()) {
        destination_ids(nodes.drop_last()).push(nodes.last().n_id)
    } else {
        destination_ids(nodes.drop_last())
    }
}

/// The adjacency matrix is symmetric, and every self-loop edge gives a zero
/// diagonal entry.
pub proof fn lemma_matrix_symmetric(nodes: Seq<Node>, edges: Seq<Edge>, i: usize, j: usize)
    requires
        i < nodes.len(),
        j < nodes.len(),
    ensures
        matrix_of(nodes, edges)[i as int][j as int] == matrix_of(nodes, edges)[j as int][i as int],
        joined(edges, i, i) ==> matrix_of(nodes, edges)[i as int][i as int] == Some(0u64),
{
    assert(joined(edges, i, j) == joined(edges, j, i));
    if i != j {
        let a = node_of(nodes, i);
        let b = node_of(nodes, j);
        assert((a.x + b.x) * (a.x + b.x) + (a.y + b.y) * (a.y + b.y) == (b.x + a.x) * (b.x + a.x) + (b.y
            + a.y) * (b.y + a.y));
    }
}

/// Edges are undirected, so a shortest-path answer from `a` to `b` and one from
/// `b` to `a` agree: both find a path or neither does, and then at the same
/// distance.
pub proof fn lemma_distance_symmetric(
    g: Graph,
    a: usize,
    b: usize,
    ab: Option<ShortestPath>,
    ba: Option<ShortestPath>,
)
    requires
        g.wf(),
        a < g.matrix().len(),
        b < g.matrix().len(),
        is_shortest(g.matrix(), a, b, ab),
        is_shortest(g.matrix(), b, a, ba),
    ensures
        ab is Some <==> ba is Some,
        ab is Some ==> ab->Some_0.dist == ba->Some_0.dist,
{
    let m = g.matrix();
    if a != b {
        assert forall|p: Seq<usize>| #[trigger] is_walk_between(m, p, a, b) implies is_walk_between(m, reversed(p), b, a)
            && walk_weight(m, reversed(p)) == walk_weight(m, p) by {
            lemma_reverse_walk(m, p);
        }
        assert forall|p: Seq<usize>| #[trigger] is_walk_between(m, p, b, a) implies is_walk_between(m, reversed(p), a, b)
            && walk_weight(m, reversed(p)) == walk_weight(m, p) by {
            lemma_reverse_walk(m, p);
        }
        if let Some(x) = ab {
            assert(is_walk_between(m, reversed(x.points@), b, a));
            if let Some(y) = ba {
                assert(is_walk_between(m, reversed(y.points@), a, b));
                assert(x.dist <= walk_weight(m, reversed(y.points@)));
                assert(y.dist <= walk_weight(m, reversed(x.points@)));
            }
        }
        if let Some(y) = ba {
            assert(is_walk_between(m, reversed(y.points@), a, b));
        }
    }
}

/// `e` is a correct reason to refuse building from `nodes` and `edges`: node
/// ids are checked first, then edge endpoints.
pub open spec fn build_error(nodes: Seq<Node>, edges: Seq<Edge>, e: GraphError) -> bool {
    match e {
        GraphError::NodeIdOutOfRange(id) => !ids_valid(nodes) && id >= nodes.len() && has_id(nodes, id),
        GraphError::DuplicateNodeId(id) => !ids_valid(nodes) && exists|i: int, j: int|
            0 <= i < j < nodes.len() && nodes[i].n_id == id && nodes[j].n_id == id,
        GraphError::UnknownNodeReference(id) => ids_valid(nodes) && !edges_known(nodes, edges) && !has_id(
            nodes,
            id,
        ) && exists|k: int| 0 <= k < edges.len() && (edges[k].source == id || edges[k].dest == id),
    }
}

/// Positions of nodes by id, as `build` fills it: `slot[id]` is the index of the
/// node carrying `id` among the first `upto` nodes.
pub open spec fn slots_ok(nodes: Seq<Node>, slot: Seq<Option<usize>>, upto: int) -> bool {
    &&& slot.len() == nodes.len()
    &&& forall|id: int|
        0 <= id < slot.len() && (#[trigger] slot[id]) is Some ==> slot[id]->Some_0 < upto
            && nodes[slot[id]->Some_0 as int].n_id == id
    &&& forall|i: int|
        0 <= i < upto ==> (#[trigger] nodes[i]).n_id < nodes.len() && slot[nodes[i].n_id as int]
            == Some(i as usize)
}

/// After every node has taken its slot, the ids are dense and the slots say
/// exactly which ids occur.
proof fn lemma_slots_complete(nodes: Seq<Node>, slot: Seq<Option<usize>>)
    requires
        slots_ok(nodes, slot, nodes.len() as int),
        nodes.len() <= usize::MAX,
    ensures
        ids_valid(nodes),
        forall|id: usize| has_id(nodes, id) <==> id < nodes.len() && (#[trigger] slot[id as int]) is Some,
{
    assert forall|i: int, j: int|
        0 <= i < nodes.len() && 0 <= j < nodes.len() && i != j implies (#[trigger] nodes[i]).n_id
            != (#[trigger] nodes[j]).n_id by {
        assert(slot[nodes[i].n_id as int] == Some(i as usize));
        assert(slot[nodes[j].n_id as int] == Some(j as usize));
    }
    assert forall|id: usize| has_id(nodes, id) <==> id < nodes.len() && (#[trigger] slot[id as int]) is Some by {
        if has_id(nodes, id) {
            let i = choose|i: int| 0 <= i < nodes.len() && (#[trigger] nodes[i]).n_id == id;
            assert(slot[nodes[i].n_id as int] == Some(i as usize));
        }
        if id < nodes.len() && slot[id as int] is Some {
            let i = slot[id as int]->Some_0 as int;
            assert(nodes[i].n_id == id);
        }
    }
}

/// With dense ids, the node that carries an id is the one at its position.
proof fn lemma_node_of(nodes: Seq<Node>, i: int)
    requires
        ids_valid(nodes),
        0 <= i < nodes.len(),
    ensures
        node_of(nodes, nodes[i].n_id) == nodes[i],
{
    let id = nodes[i].n_id;
    assert(nodes[i].n_id == id);
    let j = choose|j: int| 0 <= j < nodes.len() && (#[trigger] nodes[j]).n_id == id;
    assert(nodes[j].n_id == nodes[i].n_id);
}

/// The weight of an edge between two distinct nodes, by the coordinate-sum rule.
fn coordinate_weight(a: &Node, b: &Node) -> (r: u64)
    ensures
        r as nat == coord_weight(*a, *b),
{
    let sx: i128 = a.x as i128 + b.x as i128;
    let sy: i128 = a.y as i128 + b.y as i128;
    assert(sx * sx <= 0x1_0000_0000_0000_0000) by (nonlinear_arith)
        requires -0x1_0000_0000 <= sx <= 0x1_0000_0000;
    assert(sy * sy <= 0x1_0000_0000_0000_0000) by (nonlinear_arith)
        requires -0x1_0000_0000 <= sy <= 0x1_0000_0000;
    assert(0 <= sx * sx) by (nonlinear_arith);
    assert(0 <= sy * sy) by (nonlinear_arith);
    let sq: u128 = (sx * sx + sy * sy) as u128;
    isqrt(sq)
}

/// Cell `cell` of a result table correctly answers the query from `s` to `t`:
/// `None` when `t` cannot be reached, else `t` with a shortest path to it.
pub open spec fn cell_ok(m: Seq<Seq<Option<u64>>>, s: usize, t: usize, cell: Option<(usize, ShortestPath)>) -> bool {
    match cell {
        None => is_shortest(m, s, t, None),
        Some(c) => c.0 == t && is_shortest(m, s, t, Some(c.1)),
    }
}

/// For every node (a row) and every destination (a column), the shortest
/// path when one exists, tagged with the destination's id.
pub type DijkstrasTable = Vec<Vec<Option<(usize, ShortestPath)>>>;

/// A graph ready for shortest-path queries: the adjacency matrix over node ids
/// `0..n`, and the ids of the destination nodes.
pub struct Graph {
    adj: AdjMatrix,
    destinations: Vec<usize>,
}

impl Graph {
    /// The adjacency matrix, row by row.
    pub closed spec fn matrix(&self) -> Seq<Seq<Option<u64>>> {
        Seq::new(self.adj@.len(), |i: int| self.adj@[i]@)
    }

    /// The ids of the destination nodes, one per column of the result table.
    pub closed spec fn destinations(&self) -> Seq<usize> {
        self.destinations@
    }

    /// The matrix is square and symmetric, and every destination is a node.
    pub open spec fn wf(&self) -> bool {
        &&& is_square(self.matrix())
        &&& is_symmetric(self.matrix())
        &&& forall|j: int|
            0 <= j < self.destinations().len() ==> (#[trigger] self.destinations()[j])
                < self.matrix().len()
    }

    /// Builds the adjacency matrix of the nodes and edges. Fails when a node id
    /// is out of range or repeated, or, once ids are sound, when an edge names an
    /// id that no node carries.
    pub fn build(nodes: &[Node], edges: Vec<Edge>) -> (r: Result<Graph, GraphError>)
        ensures
            match r {
                Ok(g) => {
                    &&& ids_valid(nodes@)
                    &&& edges_known(nodes@, edges@)
                    &&& g.wf()
                    &&& g.matrix() == matrix_of(nodes@, edges@)
                    &&& g.destinations() == destination_ids(nodes@)
                },
                Err(e) => build_error(nodes@, edges@, e),
            },
    {
        let n: usize = nodes.len();
        let mut slot: Vec<Option<usize>> = Vec::new();
        let mut i: usize = 0;
        while i < n
            invariant
                i <= n,
                slot@.len() == i,
                forall|k: int| 0 <= k < i ==> (#[trigger] slot@[k]) is None,
            decreases n - i,
        {
            slot.push(None);
            i = i + 1;
        }
        i = 0;
        while i < n
            invariant
                n == nodes@.len(),
                i <= n,
                slots_ok(nodes@, slot@, i as int),
            decreases n - i,
        {
            let id: usize = nodes[i].n_id;
            if id >= n {
                return Err(GraphError::NodeIdOutOfRange(id));
            }
            match slot[id] {
                Some(other) => {
                    assert(nodes@[other as int].n_id == id);
                    return Err(GraphError::DuplicateNodeId(id));
                },
                None => {
                    slot.set(id, Some(i));
                },
            }
            i = i + 1;
        }
        proof {
            lemma_slots_complete(nodes@, slot@);
        }
        let mut adj: AdjMatrix = Vec::new();
        i = 0;
        while i < n
            invariant
                i <= n,
                adj@.len() == i,
                forall|a: int| 0 <= a < i ==> (#[trigger] adj@[a])@ =~= Seq::new(n as nat, |b: int| None::<u64>),
            decreases n - i,
        {
            let mut row: Vec<Option<u64>> = Vec::new();
            let mut j: usize = 0;
            while j < n
                invariant
                    j <= n,
                    row@ =~= Seq::new(j as nat, |b: int| None::<u64>),
                decreases n - j,
            {
                row.push(None);
                j = j + 1;
            }
            adj.push(row);
            i = i + 1;
        }
        let mut k: usize = 0;
        while k < edges.len()
            invariant
                n == nodes@.len(),
                ids_valid(nodes@),
                slots_ok(nodes@, slot@, n as int),
                forall|id: usize| has_id(nodes@, id) <==> id < n && (#[trigger] slot@[id as int]) is Some,
                k <= edges@.len(),
                adj@.len() == n,
                edges_known(nodes@, edges@.take(k as int)),
                forall|a: int| 0 <= a < n ==> (#[trigger] adj@[a])@.len() == n,
                forall|a: int, b: int|
                    0 <= a < n && 0 <= b < n ==> (#[trigger] adj@[a]@[b]) == if joined(
                        edges@.take(k as int),
                        a as usize,
                        b as usize,
                    ) {
                        Some(edge_weight(nodes@, a as usize, b as usize) as u64)
                    } else {
                        None
                    },
            decreases edges@.len() - k,
        {
            let e: Edge = edges[k];
            if e.source >= n || slot[e.source].is_none() {
                return Err(GraphError::UnknownNodeReference(e.source));
            }
            if e.dest >= n || slot[e.dest].is_none() {
                return Err(GraphError::UnknownNodeReference(e.dest));
            }
            let w: u64 = if e.source == e.dest {
                0
            } else {
                let a: usize = slot[e.source].unwrap();
                let b: usize = slot[e.dest].unwrap();
                proof {
                    lemma_node_of(nodes@, a as int);
                    lemma_node_of(nodes@, b as int);
                }
                coordinate_weight(&nodes[a], &nodes[b])
            };
            assert(w as nat == edge_weight(nodes@, e.dest, e.source));
            adj[e.source][e.dest] = Some(w);
            adj[e.dest][e.source] = Some(w);
            proof {
                let old_edges = edges@.take(k as int);
                let new_edges = edges@.take(k + 1);
                assert forall|a: usize, b: usize|
                    joined(new_edges, a, b) <==> joined(old_edges, a, b) || (e.source == a && e.dest == b
                        || e.source == b && e.dest == a) by {
                    if joined(old_edges, a, b) {
                        let q = choose|q: int|
                            0 <= q < old_edges.len() && ((#[trigger] old_edges[q]).source == a
                                && old_edges[q].dest == b || old_edges[q].source == b
                                && old_edges[q].dest == a);
                        assert(new_edges[q] == old_edges[q]);
                    }
                    if e.source == a && e.dest == b || e.source == b && e.dest == a {
                        assert(new_edges[k as int] == e);
                    }
                    if joined(new_edges, a, b) {
                        let q = choose|q: int|
                            0 <= q < new_edges.len() && ((#[trigger] new_edges[q]).source == a
                                && new_edges[q].dest == b || new_edges[q].source == b
                                && new_edges[q].dest == a);
                        if q < k {
                            assert(old_edges[q] == new_edges[q]);
                        }
                    }
                }
                assert forall|q: int| 0 <= q < new_edges.len() implies has_id(nodes@, (#[trigger] new_edges[q]).source)
                    && has_id(nodes@, new_edges[q].dest) by {
                    if q < k {
                        assert(old_edges[q] == new_edges[q]);
                    }
                }
            }
            k = k + 1;
        }
        assert(edges@.take(edges@.len() as int) =~= edges@);
        let mut destinations: Vec<usize> = Vec::new();
        i = 0;
        while i < n
            invariant
                n == nodes@.len(),
                i <= n,
                destinations@ == destination_ids(nodes@.take(i as int)),
                forall|j: int| 0 <= j < destinations@.len() ==> (#[trigger] destinations@[j]) < n,
                ids_valid(nodes@),
            decreases n - i,
        {
            assert(nodes@.take(i + 1).drop_last() =~= nodes@.take(i as int));
            if nodes[i].is_destination() {
                destinations.push(nodes[i].n_id);
            }
            i = i + 1;
        }
        assert(nodes@.take(n as int) =~= nodes@);
        let g = Graph { adj, destinations };
        assert(g.matrix() =~~= matrix_of(nodes@, edges@));
        proof {
            assert forall|a: int, b: int| 0 <= a < n && 0 <= b < n implies #[trigger] g.matrix()[a][b] == g.matrix()[b][a] by {
                lemma_matrix_symmetric(nodes@, edges@, a as usize, b as usize);
            }
        }
        Ok(g)
    }

    /// The number of nodes, which is also the size of the matrix.
    pub fn node_count(&self) -> (r: usize)
        ensures
            r == self.matrix().len(),
    {
        self.adj.len()
    }

    /// Computes a shortest path from `source` to `dest`, or `None` when `dest`
    /// cannot be reached. Nodes are taken from a queue in order of tentative
    /// distance; an entry of a node already visited is skipped, and the search
    /// stops as soon as `dest` comes out of the queue.
    #[verifier::rlimit(40)]
    pub fn dijkstras(&self, source: usize, dest: usize) -> (r: Option<ShortestPath>)
        requires
            self.wf(),
            source < self.matrix().len(),
            dest < self.matrix().len(),
        ensures
            is_shortest(self.matrix(), source, dest, r),
    {
        if source == dest {
            return Some(ShortestPath::empty());
        }
        let ghost m = self.matrix();
        let n: usize = self.adj.len();
        let mut dist: Vec<Option<u128>> = Vec::new();
        let mut pred: Vec<Option<usize>> = Vec::new();
        let mut visited: Vec<bool> = Vec::new();
        let mut i: usize = 0;
        while i < n
            invariant
                i <= n,
                dist@.len() == i,
                pred@.len() == i,
                visited@.len() == i,
                forall|k: int| 0 <= k < i ==> (#[trigger] dist@[k]) is None,
                forall|k: int| 0 <= k < i ==> !(#[trigger] visited@[k]),
            decreases n - i,
        {
            dist.push(None);
            pred.push(None);
            visited.push(false);
            i = i + 1;
        }
        dist.set(source, Some(0));
        let mut pq = MinQueue::new();
        pq.push(0, source);
        let ghost mut vt: Seq<nat> = Seq::new(n as nat, |k: int| 0nat);
        let ghost mut vset: Set<int> = Set::empty();
        proof {
            assert(pq@[0] == (0u128, source));
            assert(in_queue(pq@, (0u128, source)));
            assert forall|v: int| 0 <= v < n && (#[trigger] dist@[v]) is Some implies v == source by {}
        }
        while !pq.is_empty()
            invariant
                m == self.matrix(),
                self.wf(),
                n == m.len(),
                source < n,
                dest < n,
                source != dest,
                dist@.len() == n,
                pred@.len() == n,
                visited@.len() == n,
                vt.len() == n,
                dist@[source as int] == Some(0u128),
                forall|v: int| 0 <= v < n && #[trigger] visited@[v] ==> dist@[v] is Some,
                !visited@[dest as int],
                vset.finite(),
                vset.len() <= n,
                forall|v: int| #[trigger] vset.contains(v) <==> 0 <= v < n && visited@[v],
                preds_ok(m, dist@, pred@, visited@, vt, vset.len(), source),
                forall|v: int|
                    0 <= v < n && (#[trigger] dist@[v]) is Some ==> dist@[v]->Some_0 <= vset.len()
                        * 0x1_0000_0000_0000_0000,
                settled(m, dist@, visited@, source),
                relaxed(m, dist@, visited@, -1, 0),
                entries_sound(pq@, dist@),
                frontier_queued(pq@, dist@, visited@),
            decreases n - vset.len(), pq@.len(),
        {
            let ghost q0 = pq@;
            let (d, u) = pq.pop_min();
            let ghost qi = choose|i: int|
                0 <= i < q0.len() && (d, u) == q0[i] && pq@ == q0.remove(i) && forall|k: int|
                    0 <= k < i ==> q0[k].0 > d;
            proof {
                assert(q0[qi] == (d, u));
                assert(u < n && dist@[u as int] is Some && d >= dist@[u as int]->Some_0);
                assert forall|k: int| 0 <= k < pq@.len() implies (#[trigger] pq@[k]).1 < dist@.len()
                    && dist@[pq@[k].1 as int] is Some && pq@[k].0 >= dist@[pq@[k].1 as int]->Some_0 by {
                    if k < qi {
                        assert(pq@[k] == q0[k]);
                    } else {
                        assert(pq@[k] == q0[k + 1]);
                    }
                }
                if !visited@[u as int] {
                    let e = (dist@[u as int]->Some_0, u);
                    assert(in_queue(q0, e));
                    let k = choose|k: int| 0 <= k < q0.len() && q0[k] == e;
                    assert(d <= q0[k].0);
                }
            }
            if u == dest {
                proof {
                    assert forall|p: Seq<usize>| is_walk_between(m, p, source, dest) implies d
                        <= #[trigger] walk_weight(m, p) by {
                        lemma_crossing(m, dist@, visited@, source, p);
                        let x = choose|x: int|
                            0 <= x < m.len() && !visited@[x] && (#[trigger] dist@[x]) is Some
                                && dist@[x]->Some_0 <= walk_weight(m, p);
                        assert(in_queue(q0, (dist@[x]->Some_0, x as usize)));
                        let k = choose|k: int| 0 <= k < q0.len() && q0[k] == (dist@[x]->Some_0, x as usize);
                        assert(d <= q0[k].0);
                    }
                    lemma_chain(m, dist@, pred@, visited@, vt, vset.len(), source, dest, n as nat);
                    let s = pred_chain(pred@, source, dest, n as nat)->Some_0;
                    assert forall|a: int, b: int| 0 <= a < s.len() && 0 <= b < s.len() && a != b implies s[a] != s[b] by {
                        if a < b {
                            assert(rank(visited@, vt, vset.len(), s[a] as int) < rank(visited@, vt, vset.len(), s[b] as int));
                        } else {
                            assert(rank(visited@, vt, vset.len(), s[b] as int) < rank(visited@, vt, vset.len(), s[a] as int));
                        }
                    }
                    assert(pred_path(pred@, source, dest) == Some(s));
                }
                let points = path_reconstruct(source, dest, &pred);
                match points {
                    Some(p) => {
                        return Some(ShortestPath::new(p, d));
                    },
                    None => {
                        // A broken predecessor chain; the proof above shows it cannot occur.
                        return None;
                    },
                }
            }
            if visited[u] {
                proof {
                    assert forall|v: int| 0 <= v < n && !visited@[v] && (#[trigger] dist@[v]) is Some implies in_queue(
                        pq@,
                        (dist@[v]->Some_0, v as usize),
                    ) by {
                        lemma_remove_keeps(q0, qi, (dist@[v]->Some_0, v as usize));
                    }
                }
                continue;
            }
            proof {
                assert forall|v: int, p: Seq<usize>|
                    0 <= v < m.len() && #[trigger] visited@.update(u as int, true)[v] && #[trigger] is_walk_between(
                        m,
                        p,
                        source,
                        v as usize,
                    ) implies walk_weight(m, p) >= dist@[v]->Some_0 by {
                    if v == u {
                        lemma_crossing(m, dist@, visited@, source, p);
                        let x = choose|x: int|
                            0 <= x < m.len() && !visited@[x] && (#[trigger] dist@[x]) is Some
                                && dist@[x]->Some_0 <= walk_weight(m, p);
                        assert(in_queue(q0, (dist@[x]->Some_0, x as usize)));
                        let k = choose|k: int| 0 <= k < q0.len() && q0[k] == (dist@[x]->Some_0, x as usize);
                        assert(d <= q0[k].0);
                    } else {
                        assert(visited@[v]);
                    }
                }
            }
            let ghost old_visited = visited@;
            let ghost old_vt = vt;
            let ghost old_count = vset.len();
            visited.set(u, true);
            proof {
                vt = vt.update(u as int, vset.len());
                vset = vset.insert(u as int);
                lemma_int_range(0, n as int);
                assert(vset.subset_of(set_int_range(0, n as int)));
                lemma_len_subset(vset, set_int_range(0, n as int));
                assert forall|v: int|
                    0 <= v < m.len() && v != source && (#[trigger] dist@[v]) is Some implies {
                        let w = pred@[v]->Some_0 as int;
                        &&& pred@[v] is Some
                        &&& 0 <= w < m.len()
                        &&& visited@[w]
                        &&& m[w][v] is Some
                        &&& dist@[w] is Some
                        &&& dist@[v]->Some_0 == dist@[w]->Some_0 + m[w][v]->Some_0
                        &&& vt[w] < rank(visited@, vt, vset.len(), v)
                    } by {
                    let w = pred@[v]->Some_0 as int;
                    assert(old_vt[w] < rank(old_visited, old_vt, old_count, v));
                    assert(w != u);
                }
                assert forall|v: int| 0 <= v < n && !visited@[v] && (#[trigger] dist@[v]) is Some implies in_queue(
                    pq@,
                    (dist@[v]->Some_0, v as usize),
                ) by {
                    assert(!old_visited[v]);
                    lemma_remove_keeps(q0, qi, (dist@[v]->Some_0, v as usize));
                }
            }
            let du: u128 = d;
            let mut j: usize = 0;
            while j < n
                invariant
                    m == self.matrix(),
                    self.wf(),
                    n == m.len(),
                    source < n,
                    dest < n,
                    u < n,
                    u != dest,
                    j <= n,
                    dist@.len() == n,
                    pred@.len() == n,
                    visited@.len() == n,
                    vt.len() == n,
                    visited@[u as int],
                    dist@[u as int] == Some(du),
                    du + 0x1_0000_0000_0000_0000 <= vset.len() * 0x1_0000_0000_0000_0000,
                    dist@[source as int] == Some(0u128),
                    forall|v: int| 0 <= v < n && #[trigger] visited@[v] ==> dist@[v] is Some,
                    !visited@[dest as int],
                    vset.finite(),
                    1 <= vset.len() <= n,
                    vt[u as int] + 1 == vset.len(),
                    forall|v: int| #[trigger] vset.contains(v) <==> 0 <= v < n && visited@[v],
                    preds_ok(m, dist@, pred@, visited@, vt, vset.len(), source),
                    forall|v: int|
                        0 <= v < n && (#[trigger] dist@[v]) is Some ==> dist@[v]->Some_0 <= vset.len()
                            * 0x1_0000_0000_0000_0000,
                    settled(m, dist@, visited@, source),
                    relaxed(m, dist@, visited@, u as int, j as int),
                    entries_sound(pq@, dist@),
                    frontier_queued(pq@, dist@, visited@),
                decreases n - j,
            {
                assert(self.adj@[u as int]@ == m[u as int]);
                if let Some(w) = self.adj[u][j] {
                    assert(m[u as int][j as int] == Some(w));
                    if !visited[j] {
                        let nd: u128 = du + w as u128;
                        let improve: bool = match dist[j] {
                            None => true,
                            Some(dj) => nd < dj,
                        };
                        if improve {
                            let ghost q1 = pq@;
                            let ghost d1 = dist@;
                            dist.set(j, Some(nd));
                            pred.set(j, Some(u));
                            pq.push(nd, j);
                            proof {
                                assert(in_queue(pq@, (nd, j)) ) by {
                                    assert(pq@[q1.len() as int] == (nd, j));
                                }
                                assert forall|v: int| 0 <= v < n && !visited@[v] && (#[trigger] dist@[v]) is Some implies in_queue(
                                    pq@,
                                    (dist@[v]->Some_0, v as usize),
                                ) by {
                                    if v != j {
                                        assert(dist@[v] == d1[v]);
                                        lemma_push_keeps(q1, (nd, j), (dist@[v]->Some_0, v as usize));
                                    }
                                }
                                assert forall|k: int| 0 <= k < pq@.len() implies (#[trigger] pq@[k]).1 < dist@.len()
                                    && dist@[pq@[k].1 as int] is Some && pq@[k].0 >= dist@[pq@[k].1 as int]->Some_0 by {
                                    if k < q1.len() {
                                        assert(pq@[k] == q1[k]);
                                    }
                                }
                                assert forall|v: int, p: Seq<usize>|
                                    0 <= v < m.len() && #[trigger] visited@[v] && #[trigger] is_walk_between(m, p, source, v as usize)
                                        implies walk_weight(m, p) >= dist@[v]->Some_0 by {
                                    assert(d1[v] == dist@[v]);
                                }
                            }
                        }
                    }
                }
                j = j + 1;
            }
        }
        proof {
            assert forall|p: Seq<usize>| is_walk_between(m, p, source, dest) implies false by {
                lemma_crossing(m, dist@, visited@, source, p);
                let x = choose|x: int|
                    0 <= x < m.len() && !visited@[x] && (#[trigger] dist@[x]) is Some
                        && dist@[x]->Some_0 <= walk_weight(m, p);
                assert(in_queue(pq@, (dist@[x]->Some_0, x as usize)));
            }
        }
        None
    }

    /// The ids of the destination nodes, one per column of the result table.
    pub fn destination_ids(&self) -> (r: &Vec<usize>)
        ensures
            r@ == self.destinations(),
    {
        &self.destinations
    }

    /// Computes the shortest path from every node to every destination: a table
    /// with one row per node and one column per destination.
    pub fn compute_distances(&self) -> (r: DijkstrasTable)
        requires
            self.wf(),
        ensures
            r@.len() == self.matrix().len(),
            forall|i: int| 0 <= i < r@.len() ==> (#[trigger] r@[i])@.len() == self.destinations().len(),
            forall|i: int, j: int|
                0 <= i < r@.len() && 0 <= j < self.destinations().len() ==> cell_ok(
                    self.matrix(),
                    i as usize,
                    self.destinations()[j],
                    #[trigger] r@[i]@[j],
                ),
    {
        let n: usize = self.adj.len();
        let cols: usize = self.destinations.len();
        let mut table: DijkstrasTable = Vec::new();
        let mut i: usize = 0;
        while i < n
            invariant
                self.wf(),
                n == self.matrix().len(),
                cols == self.destinations().len(),
                i <= n,
                table@.len() == i,
                forall|a: int| 0 <= a < i ==> (#[trigger] table@[a])@.len() == cols,
                forall|a: int, b: int|
                    0 <= a < i && 0 <= b < cols ==> cell_ok(
                        self.matrix(),
                        a as usize,
                        self.destinations()[b],
                        #[trigger] table@[a]@[b],
                    ),
            decreases n - i,
        {
            let mut row: Vec<Option<(usize, ShortestPath)>> = Vec::new();
            let mut j: usize = 0;
            while j < cols
                invariant
                    self.wf(),
                    n == self.matrix().len(),
                    cols == self.destinations().len(),
                    i < n,
                    j <= cols,
                    row@.len() == j,
                    forall|b: int|
                        0 <= b < j ==> cell_ok(self.matrix(), i as usize, self.destinations()[b], #[trigger] row@[b]),
                decreases cols - j,
            {
                let t: usize = self.destinations[j];
                assert(t < n);
                let cell = match self.dijkstras(i, t) {
                    Some(p) => Some((t, p)),
                    None => None,
                };
                row.push(cell);
                j = j + 1;
            }
            table.push(row);
            i = i + 1;
        }
        table
    }

    /// The weight of the direct edge from `i` to `j`, if there is one.
    pub fn weight(&self, i: usize, j: usize) -> (r: Option<u64>)
        requires
            self.wf(),
            i < self.matrix().len(),
            j < self.matrix().len(),
        ensures
            r == self.matrix()[i as int][j as int],
    {
        assert(self.adj@[i as int]@ == self.matrix()[i as int]);
        self.adj[i][j]
    }
}

/// Builds the graph of the nodes and edges, then computes the shortest path
/// from every node to every destination node.
pub fn compute_all_distances(nodes: &[Node], edges: Vec<Edge>) -> (r: Result<DijkstrasTable, GraphError>)
    ensures
        match r {
            Ok(t) => {
                let m = matrix_of(nodes@, edges@);
                let d = destination_ids(nodes@);
                &&& ids_valid(nodes@)
                &&& edges_known(nodes@, edges@)
                &&& t@.len() == nodes@.len()
                &&& forall|i: int| 0 <= i < t@.len() ==> (#[trigger] t@[i])@.len() == d.len()
                &&& forall|i: int, j: int|
                    0 <= i < t@.len() && 0 <= j < d.len() ==> cell_ok(m, i as usize, d[j], #[trigger] t@[i]@[j])
            },
            Err(e) => build_error(nodes@, edges@, e),
        },
{
    match Graph::build(nodes, edges) {
        Ok(g) => Ok(g.compute_distances()),
        Err(e) => Err(e),
    }
}

} // verus!
