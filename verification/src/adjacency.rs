use crate::ingest::{edge_views, EdgeView, GraphEdge};
use crate::separation::{adjacent, Graph, Node};
use vstd::hash_map::StringHashMap;
use vstd::prelude::*;

verus! {

/// The neighbours that `edges` give `node`, in the order of the edges: an
/// edge that leaves `node` gives its target, an edge that enters `node`
/// gives its source, and an edge from `node` to itself gives both.
pub open spec fn neighbors_of(edges: Seq<EdgeView>, node: Node) -> Seq<Node>
    decreases edges.len(),
{
    if edges.len() == 0 {
        Seq::empty()
    } else {
        let before = neighbors_of(edges.drop_last(), node);
        let (source, target) = edges.last();
        let forth = if source == node {
            before.push(target)
        } else {
            before
        };
        if target == node {
            forth.push(source)
        } else {
            forth
        }
    }
}

/// The graph that `edges` make once each edge is followed both ways: its
/// nodes are the ends of the edges, each with its neighbours.
pub open spec fn adjacency(edges: Seq<EdgeView>) -> Graph {
    Map::new(
        |node: Node| neighbors_of(edges, node).len() > 0,
        |node: Node| neighbors_of(edges, node),
    )
}

/// The nodes after `node` is met: it joins at the end unless it is there.
pub open spec fn meet(nodes: Seq<Node>, node: Node) -> Seq<Node> {
    if nodes.contains(node) {
        nodes
    } else {
        nodes.push(node)
    }
}

/// The ends of `edges`, each once, in the order in which they are first
/// met: edge by edge, the source before the target.
pub open spec fn nodes_of(edges: Seq<EdgeView>) -> Seq<Node>
    decreases edges.len(),
{
    if edges.len() == 0 {
        Seq::empty()
    } else {
        meet(meet(nodes_of(edges.drop_last()), edges.last().0), edges.last().1)
    }
}

/// The names, each by its view.
pub open spec fn name_views(names: Seq<String>) -> Seq<Node> {
    names.map_values(|name: String| name@)
}

/// The names of the nodes that `row` numbers.
pub open spec fn name_row(names: Seq<String>, row: Seq<usize>) -> Seq<Node> {
    row.map_values(|id: usize| names[id as int]@)
}

/// The graph that numbered nodes and rows of neighbour numbers stand for.
pub open spec fn graph_of(
    ids: Map<Node, usize>,
    names: Seq<String>,
    rows: Seq<Vec<usize>>,
) -> Graph {
    Map::new(
        |node: Node| ids.contains_key(node),
        |node: Node| name_row(names, rows[ids[node] as int]@),
    )
}

/// The nodes are numbered from 0 in `names`, `ids` gives each name its
/// number, and `rows` holds a row of known numbers for each node.
pub open spec fn well_numbered(
    ids: Map<Node, usize>,
    names: Seq<String>,
    rows: Seq<Vec<usize>>,
) -> bool {
    &&& names.len() == rows.len()
    &&& forall|id: int|
        0 <= id < names.len() ==> ids.contains_key(#[trigger] names[id]@) && ids[names[id]@] == id
    &&& forall|node: Node|
        ids.contains_key(node) ==> (#[trigger] ids[node]) < names.len() && names[ids[node] as int]@
            == node
    &&& forall|id: int, at: int|
        0 <= id < rows.len() && 0 <= at < rows[id]@.len() ==> (#[trigger] rows[id]@[at])
            < names.len()
}

/// An undirected graph with named nodes: for each node, the list of its
/// neighbours. The nodes keep the order in which they were first met.
pub struct AdjacencyMap {
    pub(crate) ids: StringHashMap<usize>,
    pub(crate) names: Vec<String>,
    pub(crate) rows: Vec<Vec<usize>>,
}

impl View for AdjacencyMap {
    type V = Graph;

    closed spec fn view(&self) -> Graph {
        graph_of(self.ids@, self.names@, self.rows@)
    }
}

impl AdjacencyMap {
    #[verifier::type_invariant]
    pub(crate) open spec fn inv(&self) -> bool {
        well_numbered(self.ids@, self.names@, self.rows@)
    }

    /// The nodes of the graph, in the order in which they were first met.
    pub closed spec fn node_names(&self) -> Seq<Node> {
        name_views(self.names@)
    }

    /// The number of nodes.
    pub fn len(&self) -> (n: usize)
        ensures
            n == self.node_names().len(),
    {
        self.names.len()
    }

    /// Whether the graph has no node.
    pub fn is_empty(&self) -> (b: bool)
        ensures
            b == (self.node_names().len() == 0),
    {
        self.names.len() == 0
    }

    /// Whether `node` is a node of the graph.
    pub fn contains(&self, node: &str) -> (b: bool)
        ensures
            b == self@.contains_key(node@),
    {
        self.ids.contains_key(node)
    }

    /// The nodes of the graph, each once, in the order in which they were
    /// first met.
    pub fn nodes(&self) -> (nodes: Vec<String>)
        ensures
            name_views(nodes@) == self.node_names(),
            self.node_names().no_duplicates(),
            forall|node: Node| self@.contains_key(node) <==> self.node_names().contains(node),
    {
        proof {
            use_type_invariant(self);
            self.lemma_nodes_are_keys();
        }
        let mut nodes: Vec<String> = Vec::new();
        let mut i: usize = 0;
        while i < self.names.len()
            invariant
                i <= self.names.len(),
                name_views(nodes@) == name_views(self.names@).take(i as int),
            decreases self.names.len() - i,
        {
            let ghost before = nodes@;
            nodes.push(self.names[i].clone());
            proof {
                assert(name_views(nodes@) =~= name_views(before).push(self.names[i as int]@));
                assert(name_views(self.names@).take(i + 1) =~= name_views(self.names@).take(
                    i as int,
                ).push(self.names[i as int]@));
            }
            i += 1;
        }
        proof {
            assert(name_views(self.names@).take(i as int) =~= name_views(self.names@));
        }
        nodes
    }

    /// The neighbours of `node`, in the order in which the edges gave them,
    /// or `None` if the graph does not hold `node`.
    pub fn neighbors(&self, node: &str) -> (found: Option<Vec<String>>)
        ensures
            match found {
                Some(list) => self@.contains_key(node@) && name_views(list@) == self@[node@],
                None => !self@.contains_key(node@),
            },
    {
        proof {
            use_type_invariant(self);
        }
        match self.ids.get(node) {
            None => None,
            Some(id) => {
                let row = &self.rows[*id];
                let ghost all = name_row(self.names@, row@);
                let mut list: Vec<String> = Vec::new();
                let mut at: usize = 0;
                while at < row.len()
                    invariant
                        at <= row.len(),
                        *id < self.rows.len(),
                        row@ == self.rows[*id as int]@,
                        well_numbered(self.ids@, self.names@, self.rows@),
                        all == name_row(self.names@, row@),
                        name_views(list@) == all.take(at as int),
                    decreases row.len() - at,
                {
                    let ghost before = list@;
                    assert(self.rows[*id as int]@[at as int] < self.names.len());
                    list.push(self.names[row[at]].clone());
                    proof {
                        assert(name_views(list@) =~= name_views(before).push(all[at as int]));
                        assert(all.take(at + 1) =~= all.take(at as int).push(all[at as int]));
                    }
                    at += 1;
                }
                proof {
                    assert(all.take(at as int) =~= all);
                }
                Some(list)
            },
        }
    }

    /// The nodes are listed once each, and they are the keys of the graph.
    proof fn lemma_nodes_are_keys(&self)
        requires
            self.inv(),
        ensures
            self.node_names().no_duplicates(),
            forall|node: Node| self@.contains_key(node) <==> self.node_names().contains(node),
    {
        let nodes = self.node_names();
        assert forall|i: int, j: int| 0 <= i < nodes.len() && 0 <= j < nodes.len() && i
            != j implies nodes[i] != nodes[j] by {
            assert(self.ids@[self.names[i]@] == i);
            assert(self.ids@[self.names[j]@] == j);
        }
        assert forall|node: Node| self@.contains_key(node) <==> nodes.contains(node) by {
            if self@.contains_key(node) {
                assert(nodes[self.ids@[node] as int] == node);
            }
            if nodes.contains(node) {
                let i = choose|i: int| 0 <= i < nodes.len() && nodes[i] == node;
                assert(self.ids@.contains_key(self.names[i]@));
            }
        }
    }

    /// The graph is the one that its numbered nodes and rows stand for.
    pub(crate) proof fn lemma_view(&self)
        ensures
            self@ == graph_of(self.ids@, self.names@, self.rows@),
    {
    }
}

/// Gives `name` its number, a new one if it has none yet.
fn intern(
    ids: &mut StringHashMap<usize>,
    names: &mut Vec<String>,
    rows: &mut Vec<Vec<usize>>,
    name: &str,
) -> (id: usize)
    requires
        well_numbered(old(ids)@, old(names)@, old(rows)@),
    ensures
        well_numbered(final(ids)@, final(names)@, final(rows)@),
        id < final(names).len(),
        final(names)[id as int]@ == name@,
        name_views(final(names)@) == meet(name_views(old(names)@), name@),
        old(ids)@.contains_key(name@) ==> {
            &&& final(ids)@ == old(ids)@
            &&& final(names)@ == old(names)@
            &&& final(rows)@ == old(rows)@
        },
        !old(ids)@.contains_key(name@) ==> {
            &&& id == old(names).len()
            &&& final(ids)@ == old(ids)@.insert(name@, id)
            &&& final(names)@.len() == old(names)@.len() + 1
            &&& final(names)@.take(id as int) == old(names)@
            &&& final(rows)@.len() == old(rows)@.len() + 1
            &&& final(rows)@.take(id as int) == old(rows)@
            &&& final(rows)[id as int]@ == Seq::<usize>::empty()
        },
{
    match ids.get(name) {
        Some(id) => {
            proof {
                assert(name_views(names@)[*id as int] == name@);
            }
            *id
        },
        None => {
            proof {
                if name_views(names@).contains(name@) {
                    let i = choose|i: int|
                        0 <= i < names.len() && name_views(names@)[i] == name@;
                    assert(ids@.contains_key(names[i]@));
                }
            }
            let id = names.len();
            names.push(name.to_owned());
            rows.push(Vec::new());
            ids.insert(name.to_owned(), id);
            proof {
                assert(names@.take(id as int) =~= old(names)@);
                assert(rows@.take(id as int) =~= old(rows)@);
                assert(name_views(names@) =~= name_views(old(names)@).push(name@));
                assert forall|i: int| 0 <= i < names.len() implies ids@.contains_key(
                    #[trigger] names[i]@,
                ) && ids@[names[i]@] == i by {
                    if i < id {
                        assert(names[i] == old(names)[i]);
                    }
                }
                assert forall|i: int, at: int|
                    0 <= i < rows.len() && 0 <= at < rows[i]@.len() implies (
                #[trigger] rows[i]@[at]) < names.len() by {
                    assert(rows[i] == old(rows)[i]);
                }
            }
            id
        },
    }
}

/// The rows hold, for each numbered node, the neighbours that `edges` give it.
spec fn rows_stand_for(names: Seq<String>, rows: Seq<Vec<usize>>, edges: Seq<EdgeView>) -> bool {
    forall|id: int|
        0 <= id < names.len() ==> name_row(names, #[trigger] rows[id]@) == neighbors_of(
            edges,
            names[id]@,
        )
}

/// The numbered nodes are those to which `edges` give a neighbour.
spec fn keys_stand_for(ids: Map<Node, usize>, edges: Seq<EdgeView>) -> bool {
    forall|node: Node| ids.contains_key(node) <==> #[trigger] neighbors_of(edges, node).len() > 0
}

/// Appends `to` to the row of `from`.
fn link(rows: &mut Vec<Vec<usize>>, from: usize, to: usize)
    requires
        from < old(rows).len(),
    ensures
        final(rows)@.len() == old(rows)@.len(),
        final(rows)[from as int]@ == old(rows)[from as int]@.push(to),
        forall|id: int|
            0 <= id < old(rows).len() && id != from ==> #[trigger] final(rows)[id] == old(rows)[id],
{
    rows[from].push(to);
}

/// Builds the undirected graph of a list of directed edges. Every edge is
/// followed both ways: each end becomes a node and gets the other end as a
/// neighbour, the target first where an edge leads from a node to itself.
/// Edges are not merged, so a neighbour occurs as often as edges give it.
pub fn adjacency_list(graph_edges: &[GraphEdge]) -> (graph: AdjacencyMap)
    ensures
        graph@ == adjacency(edge_views(graph_edges@)),
        graph.node_names() == nodes_of(edge_views(graph_edges@)),
        forall|i: int|
            0 <= i < graph_edges.len() ==> adjacent(
                graph@,
                (#[trigger] graph_edges[i])@.0,
                graph_edges[i]@.1,
            ) && adjacent(graph@, graph_edges[i]@.1, graph_edges[i]@.0),
{
    let mut ids: StringHashMap<usize> = StringHashMap::new();
    let mut names: Vec<String> = Vec::new();
    let mut rows: Vec<Vec<usize>> = Vec::new();
    let ghost edges = edge_views(graph_edges@);
    let mut i: usize = 0;
    while i < graph_edges.len()
        invariant
            i <= graph_edges.len(),
            edges == edge_views(graph_edges@),
            well_numbered(ids@, names@, rows@),
            rows_stand_for(names@, rows@, edges.take(i as int)),
            keys_stand_for(ids@, edges.take(i as int)),
            name_views(names@) == nodes_of(edges.take(i as int)),
        decreases graph_edges.len() - i,
    {
        let edge = &graph_edges[i];
        let ghost done = edges.take(i as int);
        let ghost next = edges.take(i + 1);
        let ghost source = edge@.0;
        let ghost target = edge@.1;
        proof {
            assert(next.drop_last() =~= done);
            assert(next.last() == edge@);
        }
        let ghost names0 = names@;
        let ghost rows0 = rows@;
        let from = intern(&mut ids, &mut names, &mut rows, edge.source());
        proof {
            assert forall|id: int| 0 <= id < names.len() implies name_row(
                names@,
                #[trigger] rows[id]@,
            ) == neighbors_of(done, names[id]@) by {
                if id < names0.len() {
                    assert(names@.take(names0.len() as int)[id] == names[id]);
                    assert(rows@.take(rows0.len() as int)[id] == rows[id]);
                    assert(name_row(names@, rows[id]@) =~= name_row(names0, rows0[id]@));
                } else {
                    assert(name_row(names@, rows[id]@) =~= Seq::<Node>::empty());
                }
            }
        }
        let ghost ids1 = ids@;
        let ghost names1 = names@;
        let ghost rows1 = rows@;
        let to = intern(&mut ids, &mut names, &mut rows, edge.target());
        proof {
            assert forall|id: int| 0 <= id < names.len() implies name_row(
                names@,
                #[trigger] rows[id]@,
            ) == neighbors_of(done, names[id]@) by {
                if id < names1.len() {
                    assert(names@.take(names1.len() as int)[id] == names[id]);
                    assert(rows@.take(rows1.len() as int)[id] == rows[id]);
                    assert(name_row(names@, rows[id]@) =~= name_row(names1, rows1[id]@));
                } else {
                    assert(name_row(names@, rows[id]@) =~= Seq::<Node>::empty());
                }
            }
            assert(names[from as int]@ == source);
            assert(names[to as int]@ == target);
        }
        let ghost rows2 = rows@;
        link(&mut rows, from, to);
        link(&mut rows, to, from);
        proof {
            assert forall|id: int| 0 <= id < names.len() implies name_row(
                names@,
                #[trigger] rows[id]@,
            ) == neighbors_of(next, names[id]@) by {
                let before = neighbors_of(done, names[id]@);
                assert(name_row(names@, rows2[id]@) == before);
                if id == from && id == to {
                    assert(name_row(names@, rows[id]@) =~= before.push(target).push(source));
                } else if id == from {
                    assert(name_row(names@, rows[id]@) =~= before.push(target));
                } else if id == to {
                    assert(name_row(names@, rows[id]@) =~= before.push(source));
                } else {
                    assert(rows[id] == rows2[id]);
                }
            }
            assert forall|node: Node| ids@.contains_key(node) <==> #[trigger] neighbors_of(
                next,
                node,
            ).len() > 0 by {
                if node != source && node != target {
                    assert(neighbors_of(next, node) == neighbors_of(done, node));
                }
            }
            assert forall|id: int, at: int|
                0 <= id < rows.len() && 0 <= at < rows[id]@.len() implies (
            #[trigger] rows[id]@[at]) < names.len() by {
                if at < rows2[id]@.len() {
                    assert(rows[id]@[at] == rows2[id]@[at]);
                }
            }
        }
        i += 1;
    }
    proof {
        assert(edges.take(i as int) =~= edges);
        assert(graph_of(ids@, names@, rows@) =~= adjacency(edges)) by {
            assert forall|node: Node| ids@.contains_key(node) implies name_row(
                names@,
                rows[ids@[node] as int]@,
            ) == neighbors_of(edges, node) by {
                assert(names[ids@[node] as int]@ == node);
            }
        }
        assert forall|i: int| 0 <= i < graph_edges.len() implies adjacent(
            adjacency(edges),
            (#[trigger] graph_edges[i])@.0,
            graph_edges[i]@.1,
        ) && adjacent(adjacency(edges), graph_edges[i]@.1, graph_edges[i]@.0) by {
            assert(edges[i] == graph_edges[i]@);
            lemma_edge_gives_neighbors(edges, i);
        }
    }
    AdjacencyMap { ids, names, rows }
}

/// The neighbours that edges give a node are the other ends of the edges
/// that touch it.
pub proof fn lemma_neighbors_come_from_edges(edges: Seq<EdgeView>, node: Node, other: Node)
    ensures
        neighbors_of(edges, node).contains(other) <==> exists|i: int|
            0 <= i < edges.len() && (#[trigger] edges[i] == (node, other) || edges[i] == (
                other,
                node,
            )),
    decreases edges.len(),
{
    if edges.len() > 0 {
        let init = edges.drop_last();
        let before = neighbors_of(init, node);
        let (source, target) = edges.last();
        let forth = if source == node {
            before.push(target)
        } else {
            before
        };
        let all = neighbors_of(edges, node);
        lemma_neighbors_come_from_edges(init, node, other);
        if all.contains(other) {
            let at = choose|at: int| 0 <= at < all.len() && all[at] == other;
            if at < before.len() {
                assert(before[at] == other);
                let i = choose|i: int|
                    0 <= i < init.len() && (#[trigger] init[i] == (node, other) || init[i] == (
                        other,
                        node,
                    ));
                assert(edges[i] == init[i]);
            } else {
                let last = edges.len() - 1;
                assert(edges[last] == (node, other) || edges[last] == (other, node));
            }
        }
        if exists|i: int|
            0 <= i < edges.len() && (#[trigger] edges[i] == (node, other) || edges[i] == (
                other,
                node,
            )) {
            let i = choose|i: int|
                0 <= i < edges.len() && (#[trigger] edges[i] == (node, other) || edges[i] == (
                    other,
                    node,
                ));
            if i < init.len() {
                assert(init[i] == edges[i]);
                let at = choose|at: int| 0 <= at < before.len() && before[at] == other;
                assert(all[at] == other);
            } else if source == node && target == other {
                assert(all[before.len() as int] == other);
            } else {
                assert(all[all.len() - 1] == other);
            }
        }
    }
}

/// Each edge makes its two ends neighbours of each other.
pub proof fn lemma_edge_gives_neighbors(edges: Seq<EdgeView>, i: int)
    requires
        0 <= i < edges.len(),
    ensures
        adjacent(adjacency(edges), edges[i].0, edges[i].1),
        adjacent(adjacency(edges), edges[i].1, edges[i].0),
{
    let (source, target) = edges[i];
    lemma_neighbors_come_from_edges(edges, source, target);
    lemma_neighbors_come_from_edges(edges, target, source);
    assert(edges[i] == (source, target));
}

/// The graph of a list of edges is undirected: whenever one node is a
/// neighbour of another, that one is a neighbour of the first.
pub proof fn lemma_adjacency_symmetric(edges: Seq<EdgeView>, a: Node, b: Node)
    requires
        adjacent(adjacency(edges), a, b),
    ensures
        adjacent(adjacency(edges), b, a),
{
    lemma_neighbors_come_from_edges(edges, a, b);
    lemma_neighbors_come_from_edges(edges, b, a);
    let i = choose|i: int|
        0 <= i < edges.len() && (#[trigger] edges[i] == (a, b) || edges[i] == (b, a));
    assert(edges[i] == (b, a) || edges[i] == (a, b));
}

} // verus!
