//! The routable graph: nodes indexed compactly, an id → index map, and the
//! outgoing edges of every node; plus the reconstruction of a path from the
//! predecessor links a search leaves behind.
use crate::model::{Edge, Node};
use std::collections::HashMap;
use vstd::prelude::*;

verus! {

broadcast use vstd::std_specs::hash::group_hash_axioms;

/// The index of each node id: its last position in `nodes`.
pub open spec fn index_of(nodes: Seq<Node>) -> Map<u64, usize>
    decreases nodes.len(),
{
    if nodes.len() == 0 {
        Map::empty()
    } else {
        index_of(nodes.drop_last()).insert(nodes.last().id, (nodes.len() - 1) as usize)
    }
}

/// The edges of `edges` leaving the node at index `i`, in order. An edge
/// whose `from` is not a node id leaves no node.
pub open spec fn outgoing(edges: Seq<Edge>, index: Map<u64, usize>, i: int) -> Seq<Edge>
    decreases edges.len(),
{
    if edges.len() == 0 {
        Seq::empty()
    } else {
        let e = edges.last();
        outgoing(edges.drop_last(), index, i) + if index.contains_key(e.from) && index[e.from] == i {
            seq![e]
        } else {
            Seq::empty()
        }
    }
}

/// What a graph is.
pub struct GraphModel {
    pub nodes: Seq<Node>,
    pub index: Map<u64, usize>,
    pub adjacency: Seq<Seq<Edge>>,
}

/// The graph of `nodes` and `edges`.
pub open spec fn graph_of(nodes: Seq<Node>, edges: Seq<Edge>) -> GraphModel {
    GraphModel {
        nodes,
        index: index_of(nodes),
        adjacency: Seq::new(nodes.len(), |i: int| outgoing(edges, index_of(nodes), i)),
    }
}

/// The routable graph.
pub struct Graph {
    nodes: Vec<Node>,
    id_to_index: HashMap<u64, usize>,
    adjacency: Vec<Vec<Edge>>,
}

impl View for Graph {
    type V = GraphModel;

    closed spec fn view(&self) -> GraphModel {
        GraphModel {
            nodes: self.nodes@,
            index: self.id_to_index@,
            adjacency: self.adjacency@.map_values(|v: Vec<Edge>| v@),
        }
    }
}

proof fn lemma_index_of_bounds(nodes: Seq<Node>)
    requires
        nodes.len() <= usize::MAX,
    ensures
        forall|id: u64| #[trigger]
            index_of(nodes).contains_key(id) ==> index_of(nodes)[id] < nodes.len() && nodes[index_of(
                nodes,
            )[id] as int].id == id,
    decreases nodes.len(),
{
    if nodes.len() > 0 {
        lemma_index_of_bounds(nodes.drop_last());
        assert forall|id: u64| #[trigger] index_of(nodes).contains_key(id) implies index_of(nodes)[id]
            < nodes.len() && nodes[index_of(nodes)[id] as int].id == id by {
            if id != nodes.last().id {
                let k = index_of(nodes.drop_last())[id];
                assert(nodes[k as int] == nodes.drop_last()[k as int]);
            }
        }
    }
}

impl Graph {
    #[verifier::type_invariant]
    spec fn wf(self) -> bool {
        &&& self.adjacency@.len() == self.nodes@.len()
        &&& forall|id: u64| #[trigger]
            self.id_to_index@.contains_key(id) ==> self.id_to_index@[id] < self.nodes@.len()
                && self.nodes@[self.id_to_index@[id] as int].id == id
    }

    /// The graph of `nodes` and `edges`: each edge is attached to the node
    /// its `from` id names (the last node with that id).
    pub fn new(nodes: Vec<Node>, edges: Vec<Edge>) -> (g: Self)
        ensures
            g@ == graph_of(nodes@, edges@),
    {
        let n = nodes.len();
        let mut id_to_index: HashMap<u64, usize> = HashMap::with_capacity(n);
        let mut i: usize = 0;
        assert(nodes@.take(0) =~= Seq::<Node>::empty());
        assert(id_to_index@ =~= index_of(nodes@.take(0)));
        while i < n
            invariant
                n == nodes@.len(),
                0 <= i <= n,
                id_to_index@ == index_of(nodes@.take(i as int)),
            decreases n - i,
        {
            id_to_index.insert(nodes[i].id, i);
            assert(nodes@.take(i + 1).drop_last() =~= nodes@.take(i as int));
            i = i + 1;
        }
        assert(nodes@.take(n as int) =~= nodes@);
        proof {
            lemma_index_of_bounds(nodes@);
        }
        let mut adjacency: Vec<Vec<Edge>> = Vec::new();
        let mut j: usize = 0;
        while j < n
            invariant
                0 <= j <= n,
                adjacency@.len() == j,
                forall|q: int| 0 <= q < j ==> (#[trigger] adjacency@[q])@ == Seq::<Edge>::empty(),
            decreases n - j,
        {
            adjacency.push(Vec::new());
            j = j + 1;
        }
        let ghost index = id_to_index@;
        let mut k: usize = 0;
        assert(edges@.take(0) =~= Seq::<Edge>::empty());
        while k < edges.len()
            invariant
                n == nodes@.len(),
                index == id_to_index@,
                index == index_of(nodes@),
                forall|id: u64| #[trigger]
                    index.contains_key(id) ==> index[id] < nodes@.len(),
                0 <= k <= edges@.len(),
                adjacency@.len() == n,
                forall|q: int| 0 <= q < n ==> (#[trigger] adjacency@[q])@ == outgoing(
                    edges@.take(k as int),
                    index,
                    q,
                ),
            decreases edges@.len() - k,
        {
            let e = edges[k];
            assert(edges@.take(k + 1).drop_last() =~= edges@.take(k as int));
            match id_to_index.get(&e.from) {
                Some(at) => {
                    let at = *at;
                    let ghost before = adjacency@;
                    adjacency[at].push(e);
                    assert forall|q: int| 0 <= q < n implies (#[trigger] adjacency@[q])@ == outgoing(
                        edges@.take(k + 1),
                        index,
                        q,
                    ) by {
                        if q != at {
                            assert(adjacency@[q] == before[q]);
                        }
                    }
                },
                None => {
                    assert forall|q: int| 0 <= q < n implies (#[trigger] adjacency@[q])@ == outgoing(
                        edges@.take(k + 1),
                        index,
                        q,
                    ) by {}
                },
            }
            k = k + 1;
        }
        assert(edges@.take(edges@.len() as int) =~= edges@);
        let g = Graph { nodes, id_to_index, adjacency };
        assert(g@.adjacency =~= graph_of(g@.nodes, edges@).adjacency);
        g
    }

    /// How many nodes the graph has.
    pub fn node_count(&self) -> (n: usize)
        ensures
            n == self@.nodes.len(),
            n == self@.adjacency.len(),
    {
        proof {
            use_type_invariant(self);
        }
        self.nodes.len()
    }

    /// The node at index `i`.
    pub fn node(&self, i: usize) -> (n: Node)
        requires
            i < self@.nodes.len(),
        ensures
            n == self@.nodes[i as int],
    {
        self.nodes[i]
    }

    /// The index of the node with id `id`, if there is one.
    pub fn index_of_id(&self, id: u64) -> (r: Option<usize>)
        ensures
            r == (if self@.index.contains_key(id) {
                Some(self@.index[id])
            } else {
                None
            }),
            r matches Some(i) ==> i < self@.nodes.len() && self@.nodes[i as int].id == id,
    {
        proof {
            use_type_invariant(self);
        }
        match self.id_to_index.get(&id) {
            Some(i) => Some(*i),
            None => None,
        }
    }

    /// The edges leaving the node at index `i`.
    pub fn edges_from(&self, i: usize) -> (r: &Vec<Edge>)
        requires
            i < self@.nodes.len(),
        ensures
            r@ == self@.adjacency[i as int],
    {
        proof {
            use_type_invariant(self);
        }
        &self.adjacency[i]
    }

    /// The first edge from the node at `a` to the node at `b`, if any.
    pub fn edge_between(&self, a: usize, b: usize) -> (r: Option<Edge>)
        requires
            a < self@.nodes.len(),
            b < self@.nodes.len(),
        ensures
            r == first_edge_to(self@.adjacency[a as int], self@.nodes[b as int].id),
    {
        proof {
            use_type_invariant(self);
        }
        let b_id = self.nodes[b].id;
        let row = &self.adjacency[a];
        assert(self@.adjacency[a as int] == row@);
        let mut k: usize = 0;
        assert(row@.skip(0) =~= row@);
        while k < row.len()
            invariant
                0 <= k <= row@.len(),
                b_id == self@.nodes[b as int].id,
                row@ == self@.adjacency[a as int],
                first_edge_to(row@, b_id) == first_edge_to(row@.skip(k as int), b_id),
            decreases row@.len() - k,
        {
            assert(row@.skip(k as int).drop_first() =~= row@.skip(k + 1));
            assert(row@.skip(k as int)[0] == row@[k as int]);
            if row[k].to == b_id {
                return Some(row[k]);
            }
            k = k + 1;
        }
        assert(row@.skip(k as int).len() == 0);
        None
    }

    /// The node ids along a path of indices.
    pub fn node_ids(&self, path: &Vec<usize>) -> (ids: Vec<u64>)
        requires
            forall|i: int| 0 <= i < path@.len() ==> path@[i] < self@.nodes.len(),
        ensures
            ids@.len() == path@.len(),
            forall|i: int| 0 <= i < path@.len() ==> ids@[i] == self@.nodes[path@[i] as int].id,
    {
        let mut ids: Vec<u64> = Vec::new();
        let mut k: usize = 0;
        while k < path.len()
            invariant
                0 <= k <= path@.len(),
                forall|i: int| 0 <= i < path@.len() ==> path@[i] < self@.nodes.len(),
                ids@.len() == k,
                forall|i: int| 0 <= i < k ==> ids@[i] == self@.nodes[path@[i] as int].id,
            decreases path@.len() - k,
        {
            ids.push(self.nodes[path[k]].id);
            k = k + 1;
        }
        ids
    }
}

/// The first edge of `es` that ends at node id `to`.
pub open spec fn first_edge_to(es: Seq<Edge>, to: u64) -> Option<Edge>
    decreases es.len(),
{
    if es.len() == 0 {
        None
    } else if es[0].to == to {
        Some(es[0])
    } else {
        first_edge_to(es.drop_first(), to)
    }
}

/// The index reached from `from` by following `k` predecessor links, or -1
/// once a link leaves the indices of `c`.
pub open spec fn pred_chain(c: Seq<usize>, from: int, k: nat) -> int
    decreases k,
{
    if k == 0 {
        from
    } else {
        let p = pred_chain(c, from, (k - 1) as nat);
        if 0 <= p < c.len() {
            c[p] as int
        } else {
            -1
        }
    }
}

proof fn lemma_chain_leaves(c: Seq<usize>, from: int, k: nat, m: nat)
    requires
        k <= m,
        !(0 <= pred_chain(c, from, k) < c.len()),
        k > 0 ==> pred_chain(c, from, k) == -1,
    ensures
        m > k ==> pred_chain(c, from, m) == -1,
    decreases m - k,
{
    if m > k + 1 {
        lemma_chain_leaves(c, from, k + 1, m);
    }
}

/// The path from `start` to `goal` that the predecessor links `came_from`
/// describe (`came_from[i]` is the index the search reached `i` from): the
/// links followed back from `goal` to the first arrival at `start`, in
/// forward order. `None` when `start` is not met within `came_from.len()`
/// links, or a link leaves the indices.
pub fn reconstruct(came_from: &Vec<usize>, start: usize, goal: usize) -> (r: Option<Vec<usize>>)
    ensures
        r is Some <==> exists|m: nat| m <= came_from@.len() && #[trigger] pred_chain(came_from@, goal as int, m)
            == start,
        r matches Some(path) ==> {
            let m = (path@.len() - 1) as nat;
            &&& path@.len() >= 1
            &&& pred_chain(came_from@, goal as int, m) == start
            &&& forall|k: nat| k < m ==> #[trigger] pred_chain(came_from@, goal as int, k) != start
            &&& forall|i: int| 0 <= i < path@.len() ==> path@[i] == pred_chain(came_from@, goal as int, (m - i) as nat)
            &&& path@[0] == start
            &&& path@.last() == goal
            &&& forall|i: int| 0 <= i < path@.len() - 1 ==> #[trigger] path@[i + 1] < came_from@.len()
                && came_from@[path@[i + 1] as int] == path@[i]
        },
{
    let ghost c = came_from@;
    let n = came_from.len();
    let mut back: Vec<usize> = Vec::new();
    back.push(goal);
    let mut cur = goal;
    let mut steps: usize = 0;
    while cur != start
        invariant
            n == c.len(),
            c == came_from@,
            steps <= n,
            cur as int == pred_chain(c, goal as int, steps as nat),
            back@.len() == steps + 1,
            forall|i: int| 0 <= i <= steps ==> back@[i] == pred_chain(c, goal as int, i as nat),
            forall|k: nat| k < steps ==> #[trigger] pred_chain(c, goal as int, k) != start,
        decreases n - steps,
    {
        if steps == n || cur >= n {
            proof {
                if cur >= n {
                    assert forall|m: nat| m <= n implies #[trigger] pred_chain(c, goal as int, m) != start by {
                        if m > steps {
                            if steps > 0 {
                                assert(pred_chain(c, goal as int, (steps + 1) as nat) == -1);
                            }
                            assert(pred_chain(c, goal as int, (steps + 1) as nat) == -1);
                            lemma_chain_leaves(c, goal as int, (steps + 1) as nat, m);
                        }
                    }
                }
            }
            return None;
        }
        cur = came_from[cur];
        steps = steps + 1;
        back.push(cur);
    }
    let path = crate::sort::reversed(back);
    proof {
        let m = steps as nat;
        assert(path@[0] == back@[steps as int]);
        assert(path@.last() == back@[0]);
        assert forall|i: int| 0 <= i < path@.len() - 1 implies #[trigger] path@[i + 1] < c.len() && c[path@[i
            + 1] as int] == path@[i] by {
            let k = (m - i - 1) as nat;
            assert(path@[i + 1] == back@[k as int]);
            assert(path@[i] == back@[k as int + 1]);
            let p = pred_chain(c, goal as int, k);
            if !(0 <= p < c.len()) {
                if k > 0 {
                    assert(p == -1);
                }
                assert(pred_chain(c, goal as int, k + 1) == -1);
                lemma_chain_leaves(c, goal as int, k + 1, m);
                assert(false);
            }
        }
    }
    Some(path)
}

} // verus!
