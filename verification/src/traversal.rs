use crate::adjacency::{graph_of, name_row, well_numbered, AdjacencyMap};
use crate::separation::{
    add_distance, adjacent, distance, is_distance, is_max_distance, max_distance, reach, reachable,
    reachable_in, total_distance, Graph, Node,
};
use vstd::prelude::*;
use vstd::set::fold::{is_fun_commutative, lemma_fold_empty, lemma_fold_insert};

verus! {

/// Every number in every row is the number of a row.
spec fn rows_closed(rows: Seq<Vec<usize>>) -> bool {
    forall|id: int, at: int|
        0 <= id < rows.len() && 0 <= at < rows[id]@.len() ==> (#[trigger] rows[id]@[at])
            < rows.len()
}

/// `order` lists distinct nodes, the first of them `start`, and `depth`
/// gives each a depth: 0 for the first, never less than for the node before,
/// never more than the node's place in the list.
spec fn listed(
    rows: Seq<Vec<usize>>,
    start: usize,
    order: Seq<usize>,
    depth: Seq<usize>,
) -> bool {
    &&& 0 < order.len() == depth.len()
    &&& order[0] == start
    &&& depth[0] == 0
    &&& forall|i: int| 0 <= i < order.len() ==> (#[trigger] order[i]) < rows.len()
    &&& forall|i: int, j: int| 0 <= i < j < order.len() ==> order[i] != order[j]
    &&& forall|i: int, j: int| 0 <= i <= j < depth.len() ==> depth[i] <= depth[j]
    &&& forall|i: int| 0 <= i < depth.len() ==> (#[trigger] depth[i]) <= i
}

/// The search first meets the node at place `i` from the node at place
/// `p`, at place `t` of its row: no row before holds it, and in that row no
/// place before.
spec fn found_at(rows: Seq<Vec<usize>>, order: Seq<usize>, i: int, p: int, t: int) -> bool {
    &&& 0 <= p < i
    &&& 0 <= t < rows[order[p] as int]@.len()
    &&& rows[order[p] as int]@[t] == order[i]
    &&& forall|u: int| 0 <= u < t ==> rows[order[p] as int]@[u] != order[i]
    &&& forall|q: int| 0 <= q < p ==> !rows[#[trigger] order[q] as int]@.contains(order[i])
}

/// `a` comes before `b`: an earlier row, or an earlier place in the same row.
pub open spec fn earlier(a: (int, int), b: (int, int)) -> bool {
    a.0 < b.0 || (a.0 == b.0 && a.1 < b.1)
}

/// `finder` tells for each listed node but the first where the search
/// first met it: one level above the node, and later than every node
/// listed before.
spec fn finders_hold(
    rows: Seq<Vec<usize>>,
    order: Seq<usize>,
    depth: Seq<usize>,
    finder: Seq<(int, int)>,
) -> bool {
    &&& finder.len() == order.len()
    &&& forall|i: int|
        1 <= i < order.len() ==> found_at(rows, order, i, (#[trigger] finder[i]).0, finder[i].1)
            && depth[i] == depth[finder[i].0] + 1
    &&& forall|i: int, j: int|
        1 <= i < j < order.len() ==> earlier(#[trigger] finder[i], #[trigger] finder[j])
}

/// Every listed node but the first was met before the place `t` of the row
/// of the node at place `p`.
spec fn finders_before(finder: Seq<(int, int)>, p: int, t: int) -> bool {
    forall|i: int| 1 <= i < finder.len() ==> earlier(#[trigger] finder[i], (p, t))
}

/// The neighbour at place `at` in the row of the node at place `i` is
/// listed, at most one level below that node.
spec fn neighbor_listed(
    rows: Seq<Vec<usize>>,
    order: Seq<usize>,
    depth: Seq<usize>,
    i: int,
    at: int,
) -> bool {
    exists|j: int|
        0 <= j < order.len() && #[trigger] order[j] == rows[order[i] as int]@[at] && depth[j]
            <= depth[i] + 1
}

/// The first `upto` neighbours of the node at place `i` are listed.
spec fn expanded_upto(
    rows: Seq<Vec<usize>>,
    order: Seq<usize>,
    depth: Seq<usize>,
    i: int,
    upto: int,
) -> bool {
    forall|at: int| 0 <= at < upto ==> neighbor_listed(rows, order, depth, i, at)
}

/// All the neighbours of the node at place `i` are listed.
spec fn expanded(rows: Seq<Vec<usize>>, order: Seq<usize>, depth: Seq<usize>, i: int) -> bool {
    expanded_upto(rows, order, depth, i, rows[order[i] as int]@.len() as int)
}

/// `order` and `depth` record a finished breadth-first search of `rows`
/// from `start`.
spec fn is_search(
    rows: Seq<Vec<usize>>,
    start: usize,
    order: Seq<usize>,
    depth: Seq<usize>,
    finder: Seq<(int, int)>,
) -> bool {
    &&& listed(rows, start, order, depth)
    &&& finders_hold(rows, order, depth, finder)
    &&& forall|i: int| 0 <= i < order.len() ==> expanded(rows, order, depth, i)
}

/// `seen` marks the listed nodes and no others.
spec fn marks(seen: Seq<bool>, order: Seq<usize>) -> bool {
    forall|id: usize| id < seen.len() ==> (#[trigger] seen[id as int] <==> order.contains(id))
}

/// The state of a search between two nodes leaving the queue: the nodes
/// before place `head` have left it and all their neighbours are listed;
/// the nodes from `head` on wait in it, at most one level apart.
spec fn queued(
    rows: Seq<Vec<usize>>,
    start: usize,
    seen: Seq<bool>,
    order: Seq<usize>,
    depth: Seq<usize>,
    finder: Seq<(int, int)>,
    head: int,
) -> bool {
    &&& rows_closed(rows)
    &&& seen.len() == rows.len()
    &&& 0 <= head <= order.len()
    &&& listed(rows, start, order, depth)
    &&& marks(seen, order)
    &&& finders_hold(rows, order, depth, finder)
    &&& finders_before(finder, head, 0)
    &&& forall|i: int| 0 <= i < head ==> expanded(rows, order, depth, i)
    &&& head < order.len() ==> depth[order.len() - 1] <= depth[head] + 1
}

/// The state of a search while the node at place `head` is expanded: the
/// first `at` neighbours in its row are listed.
spec fn scanning(
    rows: Seq<Vec<usize>>,
    start: usize,
    seen: Seq<bool>,
    order: Seq<usize>,
    depth: Seq<usize>,
    finder: Seq<(int, int)>,
    head: int,
    at: int,
) -> bool {
    &&& rows_closed(rows)
    &&& seen.len() == rows.len()
    &&& 0 <= head < order.len()
    &&& 0 <= at <= rows[order[head] as int]@.len()
    &&& listed(rows, start, order, depth)
    &&& marks(seen, order)
    &&& finders_hold(rows, order, depth, finder)
    &&& finders_before(finder, head, at)
    &&& forall|i: int| 0 <= i < head ==> expanded(rows, order, depth, i)
    &&& expanded_upto(rows, order, depth, head, at)
    &&& depth[order.len() - 1] <= depth[head] + 1
}

/// Distinct numbers below `n` are at most `n`.
proof fn lemma_distinct_below(s: Seq<usize>, n: nat)
    requires
        forall|i: int| 0 <= i < s.len() ==> (#[trigger] s[i]) < n,
        forall|i: int, j: int| 0 <= i < j < s.len() ==> s[i] != s[j],
    ensures
        s.len() <= n,
    decreases n,
{
    if s.len() == 0 {
    } else if n == 0 {
        assert(s[0] < n);
    } else if exists|k: int| 0 <= k < s.len() && s[k] == n - 1 {
        let k = choose|k: int| 0 <= k < s.len() && s[k] == n - 1;
        let rest = s.take(k) + s.skip(k + 1);
        assert forall|i: int| 0 <= i < rest.len() implies (#[trigger] rest[i]) < n - 1 by {
            if i < k {
                assert(rest[i] == s[i]);
            } else {
                assert(rest[i] == s[i + 1]);
            }
        }
        assert forall|i: int, j: int| 0 <= i < j < rest.len() implies rest[i] != rest[j] by {
            let si = if i < k { i } else { i + 1 };
            let sj = if j < k { j } else { j + 1 };
            assert(rest[i] == s[si] && rest[j] == s[sj]);
        }
        lemma_distinct_below(rest, (n - 1) as nat);
    } else {
        lemma_distinct_below(s, (n - 1) as nat);
    }
}

/// What is listed stays listed when one more node joins the list.
proof fn lemma_listed_stays(
    rows: Seq<Vec<usize>>,
    order: Seq<usize>,
    depth: Seq<usize>,
    node: usize,
    level: usize,
    i: int,
    upto: int,
)
    requires
        order.len() == depth.len(),
        0 <= i < order.len(),
        expanded_upto(rows, order, depth, i, upto),
    ensures
        expanded_upto(rows, order.push(node), depth.push(level), i, upto),
{
    assert forall|at: int| 0 <= at < upto implies neighbor_listed(
        rows,
        order.push(node),
        depth.push(level),
        i,
        at,
    ) by {
        assert(neighbor_listed(rows, order, depth, i, at));
        let j = choose|j: int|
            0 <= j < order.len() && #[trigger] order[j] == rows[order[i] as int]@[at] && depth[j]
                <= depth[i] + 1;
        assert(order.push(node)[j] == order[j]);
    }
}

/// Where a node was first met stays so when one more node joins the list.
proof fn lemma_found_stays(
    rows: Seq<Vec<usize>>,
    order: Seq<usize>,
    node: usize,
    i: int,
    p: int,
    t: int,
)
    requires
        i < order.len(),
        found_at(rows, order, i, p, t),
    ensures
        found_at(rows, order.push(node), i, p, t),
{
    let longer = order.push(node);
    assert(longer[p] == order[p] && longer[i] == order[i]);
    assert forall|q: int| 0 <= q < p implies !rows[#[trigger] longer[q] as int]@.contains(
        longer[i],
    ) by {
        assert(longer[q] == order[q]);
    }
}

/// A node that is not listed is in no row that comes before place `at` of
/// the row of the node at place `head`.
proof fn lemma_unlisted_is_unmet(
    rows: Seq<Vec<usize>>,
    order: Seq<usize>,
    depth: Seq<usize>,
    head: int,
    at: int,
    node: usize,
)
    requires
        0 <= head < order.len(),
        forall|i: int| 0 <= i < head ==> expanded(rows, order, depth, i),
        expanded_upto(rows, order, depth, head, at),
        !order.contains(node),
    ensures
        forall|u: int| 0 <= u < at ==> rows[order[head] as int]@[u] != node,
        forall|q: int| 0 <= q < head ==> !rows[#[trigger] order[q] as int]@.contains(node),
{
    assert forall|u: int| 0 <= u < at implies rows[order[head] as int]@[u] != node by {
        assert(neighbor_listed(rows, order, depth, head, u));
    }
    assert forall|q: int| 0 <= q < head implies !rows[#[trigger] order[q] as int]@.contains(
        node,
    ) by {
        let held = rows[order[q] as int]@;
        if held.contains(node) {
            let u = choose|u: int| 0 <= u < held.len() && held[u] == node;
            assert(expanded(rows, order, depth, q));
            assert(neighbor_listed(rows, order, depth, q, u));
        }
    }
}

/// A neighbour that was not seen joins the list, one level below the node
/// that is expanded, and the search goes on to the next neighbour.
proof fn lemma_meet_new(
    rows: Seq<Vec<usize>>,
    start: usize,
    seen: Seq<bool>,
    order: Seq<usize>,
    depth: Seq<usize>,
    finder: Seq<(int, int)>,
    head: int,
    at: int,
    level: usize,
)
    requires
        scanning(rows, start, seen, order, depth, finder, head, at),
        at < rows[order[head] as int]@.len(),
        !seen[rows[order[head] as int]@[at] as int],
        level == depth[head] + 1,
    ensures
        scanning(
            rows,
            start,
            seen.update(rows[order[head] as int]@[at] as int, true),
            order.push(rows[order[head] as int]@[at]),
            depth.push(level),
            finder.push((head, at)),
            head,
            at + 1,
        ),
{
    let next = rows[order[head] as int]@[at];
    let seen1 = seen.update(next as int, true);
    let order1 = order.push(next);
    let depth1 = depth.push(level);
    let finder1 = finder.push((head, at));
    let m = order.len() as int;
    assert(next < rows.len());
    assert(!order.contains(next));
    assert(order1[head] == order[head] && depth1[head] == depth[head]);
    assert forall|id: usize| id < seen1.len() implies (#[trigger] seen1[id as int]
        <==> order1.contains(id)) by {
        if id == next {
            assert(order1[m] == next);
        } else {
            if order.contains(id) {
                let j = choose|j: int| 0 <= j < order.len() && order[j] == id;
                assert(order1[j] == id);
            }
            if order1.contains(id) {
                let j = choose|j: int| 0 <= j < order1.len() && order1[j] == id;
                assert(order[j] == id);
            }
        }
    }
    assert(listed(rows, start, order1, depth1)) by {
        assert forall|i: int, j: int| 0 <= i < j < order1.len() implies order1[i]
            != order1[j] by {
            if j == m {
                assert(order[i] == order1[i]);
            }
        }
        assert(depth[head] <= head);
    }
    assert(finders_hold(rows, order1, depth1, finder1)) by {
        lemma_unlisted_is_unmet(rows, order, depth, head, at, next);
        assert(found_at(rows, order1, m, head, at)) by {
            assert forall|q: int| 0 <= q < head implies !rows[#[trigger] order1[q] as int]@
                .contains(next) by {
                assert(order1[q] == order[q]);
            }
        }
        assert forall|i: int| 1 <= i < order1.len() implies found_at(
            rows,
            order1,
            i,
            (#[trigger] finder1[i]).0,
            finder1[i].1,
        ) && depth1[i] == depth1[finder1[i].0] + 1 by {
            if i < m {
                assert(finder1[i] == finder[i]);
                lemma_found_stays(rows, order, next, i, finder[i].0, finder[i].1);
                assert(depth1[finder[i].0] == depth[finder[i].0]);
            }
        }
        assert forall|i: int, j: int| 1 <= i < j < order1.len() implies earlier(
            #[trigger] finder1[i],
            #[trigger] finder1[j],
        ) by {
            assert(finder1[i] == finder[i]);
            if j < m {
                assert(finder1[j] == finder[j]);
            }
        }
    }
    assert forall|i: int| 1 <= i < finder1.len() implies earlier(
        #[trigger] finder1[i],
        (head, at + 1),
    ) by {
        if i < m {
            assert(finder1[i] == finder[i]);
        }
    }
    assert forall|i: int| 0 <= i < head implies expanded(rows, order1, depth1, i) by {
        assert(expanded(rows, order, depth, i));
        assert(order1[i] == order[i]);
        lemma_listed_stays(
            rows,
            order,
            depth,
            next,
            level,
            i,
            rows[order[i] as int]@.len() as int,
        );
    }
    assert(expanded_upto(rows, order1, depth1, head, at + 1)) by {
        lemma_listed_stays(rows, order, depth, next, level, head, at);
        assert(order1[m] == rows[order1[head] as int]@[at]);
        assert(neighbor_listed(rows, order1, depth1, head, at));
    }
}

/// A neighbour that was seen is listed, and the search goes on to the next
/// neighbour.
proof fn lemma_meet_seen(
    rows: Seq<Vec<usize>>,
    start: usize,
    seen: Seq<bool>,
    order: Seq<usize>,
    depth: Seq<usize>,
    finder: Seq<(int, int)>,
    head: int,
    at: int,
)
    requires
        scanning(rows, start, seen, order, depth, finder, head, at),
        at < rows[order[head] as int]@.len(),
        seen[rows[order[head] as int]@[at] as int],
    ensures
        scanning(rows, start, seen, order, depth, finder, head, at + 1),
{
    let next = rows[order[head] as int]@[at];
    assert(next < rows.len());
    assert(order.contains(next));
    let j = choose|j: int| 0 <= j < order.len() && order[j] == next;
    assert(depth[j] <= depth[order.len() - 1]);
    assert(neighbor_listed(rows, order, depth, head, at));
}

/// Searches `rows` breadth first from `start`: lists the nodes in the order
/// in which they leave the queue, each with its depth, and tells where each
/// was first met.
fn search(rows: &Vec<Vec<usize>>, start: usize) -> (found: (
    Vec<usize>,
    Vec<usize>,
    Ghost<Seq<(int, int)>>,
))
    requires
        start < rows.len(),
        rows_closed(rows@),
    ensures
        is_search(rows@, start, found.0@, found.1@, found.2@),
{
    let n: usize = rows.len();
    let mut seen: Vec<bool> = vec![false; n];
    seen.set(start, true);
    let mut order: Vec<usize> = Vec::new();
    let mut depth: Vec<usize> = Vec::new();
    order.push(start);
    depth.push(0);
    let ghost mut finder: Seq<(int, int)> = seq![(0int, 0int)];
    let mut head: usize = 0;
    proof {
        assert forall|id: usize| id < seen.len() implies (#[trigger] seen[id as int]
            <==> order@.contains(id)) by {
            if id == start {
                assert(order@[0] == start);
            }
        }
    }
    while head < order.len()
        invariant
            n == rows.len(),
            queued(rows@, start, seen@, order@, depth@, finder, head as int),
        decreases n - head,
    {
        proof {
            lemma_distinct_below(order@, n as nat);
        }
        let level: usize = depth[head];
        let row = &rows[order[head]];
        let mut at: usize = 0;
        while at < row.len()
            invariant
                n == rows.len(),
                head < order.len() <= n,
                0 <= at <= row.len(),
                level == depth[head as int],
                row@ == rows[order[head as int] as int]@,
                scanning(rows@, start, seen@, order@, depth@, finder, head as int, at as int),
            decreases row.len() - at,
        {
            let next: usize = row[at];
            assert(next < n);
            if !seen[next] {
                proof {
                    assert(level <= head);
                    lemma_meet_new(
                        rows@,
                        start,
                        seen@,
                        order@,
                        depth@,
                        finder,
                        head as int,
                        at as int,
                        (level + 1) as usize,
                    );
                    finder = finder.push((head as int, at as int));
                }
                seen.set(next, true);
                order.push(next);
                depth.push(level + 1);
                proof {
                    lemma_distinct_below(order@, n as nat);
                }
            } else {
                proof {
                    lemma_meet_seen(
                        rows@,
                        start,
                        seen@,
                        order@,
                        depth@,
                        finder,
                        head as int,
                        at as int,
                    );
                }
            }
            at += 1;
        }
        head += 1;
    }
    (order, depth, Ghost(finder))
}

/// A traversal as the specifications see it: the nodes visited, in order,
/// each with the depth at which it was found.
pub type Visits = Seq<(Node, nat)>;

/// The visits of `visits`, each node by its name.
pub open spec fn visit_views(visits: Seq<(String, usize)>) -> Visits {
    visits.map_values(|v: (String, usize)| (v.0@, v.1 as nat))
}

/// The traversal first meets the node of visit `i` from the node of visit
/// `p`, at place `t` of its list of neighbours: no node visited before that
/// one has it as a neighbour, and in that list it stands at no place before.
pub open spec fn found_from(g: Graph, visits: Visits, i: int, p: int, t: int) -> bool {
    &&& 0 <= p < i
    &&& g.contains_key(visits[p].0)
    &&& 0 <= t < g[visits[p].0].len()
    &&& g[visits[p].0][t] == visits[i].0
    &&& forall|u: int| 0 <= u < t ==> g[visits[p].0][u] != visits[i].0
    &&& forall|q: int| 0 <= q < p ==> !adjacent(g, (#[trigger] visits[q]).0, visits[i].0)
}

/// Visit `i` is first met before visit `j` is: from a node visited earlier,
/// or from the same node at an earlier place in its list of neighbours.
pub open spec fn met_before(g: Graph, visits: Visits, i: int, j: int) -> bool {
    exists|p: int, t: int, q: int, u: int|
        #[trigger] found_from(g, visits, i, p, t) && #[trigger] found_from(g, visits, j, q, u)
            && earlier((p, t), (q, u))
}

/// The nodes after the first are visited in the order in which they are
/// first met, as they leave a queue that they joined when met.
pub open spec fn in_queue_order(g: Graph, visits: Visits) -> bool {
    forall|i: int, j: int| 1 <= i < j < visits.len() ==> met_before(g, visits, i, j)
}

/// `visits` is the breadth-first traversal of `g` from `start`: it begins
/// with `start` at depth 0, visits exactly the nodes that can be reached,
/// each once and at its distance from `start`, never visits a node before
/// one that is nearer, and visits the nodes in the order in which a queue
/// hands them out.
pub open spec fn is_traversal(g: Graph, start: Node, visits: Visits) -> bool {
    &&& in_queue_order(g, visits)
    &&& visits.len() > 0
    &&& visits[0] == (start, 0nat)
    &&& forall|i: int, j: int| 0 <= i < j < visits.len() ==> visits[i].0 != visits[j].0
    &&& forall|i: int|
        0 <= i < visits.len() ==> reachable(g, start, (#[trigger] visits[i]).0) && visits[i].1
            == distance(g, start, visits[i].0)
    &&& forall|to: Node|
        reachable(g, start, to) ==> exists|i: int|
            0 <= i < visits.len() && (#[trigger] visits[i]).0 == to
    &&& forall|i: int, j: int| 0 <= i <= j < visits.len() ==> visits[i].1 <= visits[j].1
}

/// The sum of the depths of `visits`.
pub open spec fn sum_depths(visits: Visits) -> nat
    decreases visits.len(),
{
    if visits.len() == 0 {
        0
    } else {
        sum_depths(visits.drop_last()) + visits.last().1
    }
}

/// The visits that a search of numbered nodes stands for.
spec fn visits_of(names: Seq<String>, order: Seq<usize>, depth: Seq<usize>) -> Visits {
    Seq::new(order.len(), |i: int| (names[order[i] as int]@, depth[i] as nat))
}

/// The row of a numbered node holds its neighbours in the graph.
proof fn lemma_row_is_neighbors(
    ids: Map<Node, usize>,
    names: Seq<String>,
    rows: Seq<Vec<usize>>,
    id: int,
)
    requires
        well_numbered(ids, names, rows),
        0 <= id < names.len(),
    ensures
        graph_of(ids, names, rows).contains_key(names[id]@),
        graph_of(ids, names, rows)[names[id]@] == name_row(names, rows[id]@),
{
}

/// Each node that a search lists can be reached in as many steps as its depth.
proof fn lemma_search_reaches(
    ids: Map<Node, usize>,
    names: Seq<String>,
    rows: Seq<Vec<usize>>,
    start: usize,
    order: Seq<usize>,
    depth: Seq<usize>,
    finder: Seq<(int, int)>,
    i: int,
)
    requires
        well_numbered(ids, names, rows),
        is_search(rows, start, order, depth, finder),
        0 <= i < order.len(),
    ensures
        reachable_in(
            graph_of(ids, names, rows),
            names[start as int]@,
            names[order[i] as int]@,
            depth[i] as nat,
        ),
    decreases i,
{
    let g = graph_of(ids, names, rows);
    if i > 0 {
        let p = finder[i].0;
        let at = finder[i].1;
        assert(found_at(rows, order, i, p, at));
        lemma_search_reaches(ids, names, rows, start, order, depth, finder, p);
        let row = rows[order[p] as int]@;
        assert(order[p] < rows.len());
        lemma_row_is_neighbors(ids, names, rows, order[p] as int);
        assert(name_row(names, row)[at] == names[order[i] as int]@);
        assert(adjacent(g, names[order[p] as int]@, names[order[i] as int]@));
    }
}

/// Each node that can be reached in some number of steps is listed by a
/// search, at a depth no greater than that number.
proof fn lemma_search_closed(
    ids: Map<Node, usize>,
    names: Seq<String>,
    rows: Seq<Vec<usize>>,
    start: usize,
    order: Seq<usize>,
    depth: Seq<usize>,
    finder: Seq<(int, int)>,
    to: Node,
    steps: nat,
)
    requires
        well_numbered(ids, names, rows),
        is_search(rows, start, order, depth, finder),
        reachable_in(graph_of(ids, names, rows), names[start as int]@, to, steps),
    ensures
        exists|j: int|
            0 <= j < order.len() && names[#[trigger] order[j] as int]@ == to && depth[j] <= steps,
    decreases steps,
{
    let g = graph_of(ids, names, rows);
    let from = names[start as int]@;
    if steps == 0 {
        assert(names[order[0] as int]@ == to);
    } else {
        let via = choose|via: Node|
            reachable_in(g, from, via, (steps - 1) as nat) && #[trigger] adjacent(g, via, to);
        lemma_search_closed(ids, names, rows, start, order, depth, finder, via, (steps - 1) as nat);
        let i = choose|i: int|
            0 <= i < order.len() && names[#[trigger] order[i] as int]@ == via && depth[i] <= steps
                - 1;
        assert(order[i] < rows.len());
        lemma_row_is_neighbors(ids, names, rows, order[i] as int);
        let row = rows[order[i] as int]@;
        let at = choose|at: int| 0 <= at < g[via].len() && g[via][at] == to;
        assert(name_row(names, row)[at] == names[row[at] as int]@);
        assert(expanded(rows, order, depth, i));
        assert(neighbor_listed(rows, order, depth, i, at));
        let j = choose|j: int|
            0 <= j < order.len() && #[trigger] order[j] == rows[order[i] as int]@[at] && depth[j]
                <= depth[i] + 1;
        assert(names[order[j] as int]@ == to);
    }
}

/// Where a search first met a numbered node, the traversal first meets
/// the node of that name.
proof fn lemma_found_by_name(
    ids: Map<Node, usize>,
    names: Seq<String>,
    rows: Seq<Vec<usize>>,
    start: usize,
    order: Seq<usize>,
    depth: Seq<usize>,
    finder: Seq<(int, int)>,
    i: int,
)
    requires
        well_numbered(ids, names, rows),
        is_search(rows, start, order, depth, finder),
        1 <= i < order.len(),
    ensures
        found_from(
            graph_of(ids, names, rows),
            visits_of(names, order, depth),
            i,
            finder[i].0,
            finder[i].1,
        ),
{
    let g = graph_of(ids, names, rows);
    let visits = visits_of(names, order, depth);
    let p = finder[i].0;
    let t = finder[i].1;
    let node = order[i];
    assert(found_at(rows, order, i, p, t));
    assert(order[p] < rows.len() && node < names.len());
    assert(ids[names[node as int]@] == node);
    lemma_row_is_neighbors(ids, names, rows, order[p] as int);
    let row = rows[order[p] as int]@;
    assert(g[visits[p].0] == name_row(names, row));
    assert forall|u: int| 0 <= u < t implies g[visits[p].0][u] != visits[i].0 by {
        assert(row[u] != node);
        assert(rows[order[p] as int]@[u] < names.len());
        assert(ids[names[row[u] as int]@] == row[u]);
    }
    assert forall|q: int| 0 <= q < p implies !adjacent(
        g,
        (#[trigger] visits[q]).0,
        visits[i].0,
    ) by {
        assert(order[q] < rows.len());
        lemma_row_is_neighbors(ids, names, rows, order[q] as int);
        let held = rows[order[q] as int]@;
        if adjacent(g, visits[q].0, visits[i].0) {
            let u = choose|u: int|
                0 <= u < g[visits[q].0].len() && g[visits[q].0][u] == visits[i].0;
            assert(name_row(names, held)[u] == names[held[u] as int]@);
            assert(rows[order[q] as int]@[u] < names.len());
            assert(ids[names[held[u] as int]@] == held[u]);
            assert(held[u] == node);
            assert(held.contains(node));
        }
    }
}

/// A finished search of the numbered nodes is a breadth-first traversal of
/// the graph they stand for.
proof fn lemma_search_is_traversal(
    ids: Map<Node, usize>,
    names: Seq<String>,
    rows: Seq<Vec<usize>>,
    start: usize,
    order: Seq<usize>,
    depth: Seq<usize>,
    finder: Seq<(int, int)>,
)
    requires
        well_numbered(ids, names, rows),
        is_search(rows, start, order, depth, finder),
    ensures
        is_traversal(
            graph_of(ids, names, rows),
            names[start as int]@,
            visits_of(names, order, depth),
        ),
{
    let g = graph_of(ids, names, rows);
    let from = names[start as int]@;
    let visits = visits_of(names, order, depth);
    assert forall|i: int, j: int| 1 <= i < j < visits.len() implies met_before(
        g,
        visits,
        i,
        j,
    ) by {
        lemma_found_by_name(ids, names, rows, start, order, depth, finder, i);
        lemma_found_by_name(ids, names, rows, start, order, depth, finder, j);
        assert(earlier(finder[i], finder[j]));
    }
    assert forall|i: int, j: int| 0 <= i < j < visits.len() implies visits[i].0
        != visits[j].0 by {
        assert(order[i] < names.len() && order[j] < names.len());
        assert(ids[names[order[i] as int]@] == order[i]);
        assert(ids[names[order[j] as int]@] == order[j]);
    }
    assert forall|i: int| 0 <= i < visits.len() implies reachable(
        g,
        from,
        (#[trigger] visits[i]).0,
    ) && visits[i].1 == distance(g, from, visits[i].0) by {
        let to = visits[i].0;
        lemma_search_reaches(ids, names, rows, start, order, depth, finder, i);
        assert forall|steps: nat| steps < depth[i] implies !reachable_in(g, from, to, steps) by {
            if reachable_in(g, from, to, steps) {
                lemma_search_closed(ids, names, rows, start, order, depth, finder, to, steps);
                let j = choose|j: int|
                    0 <= j < order.len() && names[#[trigger] order[j] as int]@ == to && depth[j]
                        <= steps;
                assert(visits[j].0 == visits[i].0);
            }
        }
        assert(is_distance(g, from, to, depth[i] as nat));
        crate::separation::lemma_distance_unique(g, from, to, depth[i] as nat);
    }
    assert forall|to: Node| reachable(g, from, to) implies exists|i: int|
        0 <= i < visits.len() && (#[trigger] visits[i]).0 == to by {
        let steps = choose|steps: nat| reachable_in(g, from, to, steps);
        lemma_search_closed(ids, names, rows, start, order, depth, finder, to, steps);
        let j = choose|j: int|
            0 <= j < order.len() && names[#[trigger] order[j] as int]@ == to && depth[j] <= steps;
        assert(visits[j].0 == to);
    }
}

/// From a node that the graph does not hold, the traversal visits the node
/// itself and nothing else.
pub proof fn lemma_isolated_traversal(g: Graph, start: Node)
    requires
        !g.contains_key(start),
    ensures
        is_traversal(g, start, seq![(start, 0nat)]),
{
    let visits = seq![(start, 0nat)];
    crate::separation::lemma_distance_to_self(g, start);
    crate::separation::lemma_isolated_reach(g, start);
    assert forall|to: Node| reachable(g, start, to) implies exists|i: int|
        0 <= i < visits.len() && (#[trigger] visits[i]).0 == to by {
        assert(reach(g, start).contains(to));
        assert(visits[0].0 == to);
    }
}

/// Two traversals that agree on their first `upto` visits first meet a
/// node in the same place, if one of them meets it from within those visits.
proof fn lemma_same_finder(
    g: Graph,
    a: Visits,
    b: Visits,
    upto: int,
    i: int,
    p: int,
    t: int,
    j: int,
    q: int,
    u: int,
)
    requires
        forall|n: int| 0 <= n < upto ==> a[n] == b[n],
        a[i].0 == b[j].0,
        found_from(g, a, i, p, t),
        found_from(g, b, j, q, u),
        p < upto,
    ensures
        p == q,
        t == u,
{
    let node = a[i].0;
    assert(a[p] == b[p]);
    assert(g[a[p].0].contains(node));
    assert(adjacent(g, b[p].0, node));
    if q < p {
        assert(a[q] == b[q]);
        assert(g[b[q].0].contains(node));
        assert(adjacent(g, a[q].0, node));
    }
}

/// Two traversals of one graph from one node agree on their first `upto`
/// visits.
proof fn lemma_traversals_agree(g: Graph, start: Node, a: Visits, b: Visits, upto: int)
    requires
        is_traversal(g, start, a),
        is_traversal(g, start, b),
        0 <= upto <= a.len(),
        upto <= b.len(),
    ensures
        forall|n: int| 0 <= n < upto ==> a[n] == b[n],
    decreases upto,
{
    if upto > 0 {
        let k = upto - 1;
        lemma_traversals_agree(g, start, a, b, k);
        if k > 0 && a[k].0 != b[k].0 {
            let x = a[k].0;
            let y = b[k].0;
            let kb = choose|kb: int| 0 <= kb < b.len() && (#[trigger] b[kb]).0 == x;
            let ka = choose|ka: int| 0 <= ka < a.len() && (#[trigger] a[ka]).0 == y;
            if kb < k {
                assert(a[kb] == b[kb]);
                assert(a[kb].0 != a[k].0);
            }
            if ka < k {
                assert(a[ka] == b[ka]);
                assert(b[ka].0 != b[k].0);
            }
            assert(met_before(g, a, k, ka));
            assert(met_before(g, b, k, kb));
            let (p, t, q, u) = choose|p: int, t: int, q: int, u: int|
                #[trigger] found_from(g, a, k, p, t) && #[trigger] found_from(g, a, ka, q, u)
                    && earlier((p, t), (q, u));
            let (pb, tb, qb, ub) = choose|p: int, t: int, q: int, u: int|
                #[trigger] found_from(g, b, k, p, t) && #[trigger] found_from(g, b, kb, q, u)
                    && earlier((p, t), (q, u));
            lemma_same_finder(g, a, b, k, k, p, t, kb, qb, ub);
            assert forall|n: int| 0 <= n < k implies b[n] == a[n] by {}
            lemma_same_finder(g, b, a, k, k, pb, tb, ka, q, u);
            assert(false);
        }
    }
}

/// A graph has one breadth-first traversal from a node, and no other.
pub proof fn lemma_traversal_unique(g: Graph, start: Node, a: Visits, b: Visits)
    requires
        is_traversal(g, start, a),
        is_traversal(g, start, b),
    ensures
        a == b,
{
    if a.len() < b.len() {
        lemma_traversals_agree(g, start, a, b, a.len() as int);
        let extra = b[a.len() as int].0;
        let i = choose|i: int| 0 <= i < a.len() && (#[trigger] a[i]).0 == extra;
        assert(b[i].0 == b[a.len() as int].0);
    } else if b.len() < a.len() {
        lemma_traversals_agree(g, start, a, b, b.len() as int);
        let extra = a[b.len() as int].0;
        let i = choose|i: int| 0 <= i < b.len() && (#[trigger] b[i]).0 == extra;
        assert(a[i].0 == a[b.len() as int].0);
    } else {
        lemma_traversals_agree(g, start, a, b, a.len() as int);
        assert(a =~= b);
    }
}

/// The last node of a traversal is a farthest one: its depth is the
/// greatest degree of separation from the start.
pub proof fn lemma_traversal_max(g: Graph, start: Node, visits: Visits)
    requires
        is_traversal(g, start, visits),
    ensures
        is_max_distance(g, start, visits.last().1),
        max_distance(g, start) == visits.last().1,
{
    let m = visits.last().1;
    let last = visits.len() - 1;
    assert(reachable(g, start, visits[last].0) && distance(g, start, visits[last].0) == m);
    assert forall|to: Node| reachable(g, start, to) implies #[trigger] distance(g, start, to)
        <= m by {
        let i = choose|i: int| 0 <= i < visits.len() && (#[trigger] visits[i]).0 == to;
        assert(visits[i].1 <= visits[last].1);
    }
    crate::separation::lemma_max_distance_unique(g, start, m);
}

/// The nodes of the first `upto` visits.
spec fn visited(visits: Visits, upto: int) -> Set<Node> {
    Set::new(|node: Node| exists|i: int| 0 <= i < upto && (#[trigger] visits[i]).0 == node)
}

/// The first `upto` visits of a traversal visit `upto` nodes, and the
/// distances of these add up to the depths of the visits.
proof fn lemma_visited_totals(g: Graph, start: Node, visits: Visits, upto: int)
    requires
        is_traversal(g, start, visits),
        0 <= upto <= visits.len(),
    ensures
        visited(visits, upto).finite(),
        visited(visits, upto).len() == upto,
        visited(visits, upto).fold(0nat, add_distance(g, start)) == sum_depths(
            visits.take(upto),
        ),
    decreases upto,
{
    let f = add_distance(g, start);
    assert(is_fun_commutative(f));
    if upto == 0 {
        assert(visited(visits, 0) =~= Set::<Node>::empty());
        lemma_fold_empty(0nat, f);
    } else {
        let before = visited(visits, upto - 1);
        let node = visits[upto - 1].0;
        lemma_visited_totals(g, start, visits, upto - 1);
        assert(!before.contains(node)) by {
            if before.contains(node) {
                let i = choose|i: int| 0 <= i < upto - 1 && (#[trigger] visits[i]).0 == node;
                assert(visits[i].0 != visits[upto - 1].0);
            }
        }
        assert(visited(visits, upto) =~= before.insert(node)) by {
            assert forall|other: Node| before.insert(node).contains(other) implies visited(
                visits,
                upto,
            ).contains(other) by {
                if other == node {
                    assert(visits[upto - 1].0 == other);
                } else {
                    let i = choose|i: int|
                        0 <= i < upto - 1 && (#[trigger] visits[i]).0 == other;
                    assert(visits[i].0 == other);
                }
            }
        }
        lemma_fold_insert(before, 0nat, f, node);
        assert(visits.take(upto).drop_last() =~= visits.take(upto - 1));
        assert(visits.take(upto).last() == visits[upto - 1]);
    }
}

/// A traversal visits each node that can be reached once: they are as many
/// as the visits, and their distances add up to the depths of the visits.
pub proof fn lemma_traversal_totals(g: Graph, start: Node, visits: Visits)
    requires
        is_traversal(g, start, visits),
    ensures
        reach(g, start).finite(),
        reach(g, start).len() == visits.len(),
        total_distance(g, start) == sum_depths(visits),
{
    let all = visits.len() as int;
    lemma_visited_totals(g, start, visits, all);
    assert(visits.take(all) =~= visits);
    assert(visited(visits, all) =~= reach(g, start)) by {
        assert forall|node: Node| reach(g, start).contains(node) implies visited(
            visits,
            all,
        ).contains(node) by {
            let i = choose|i: int| 0 <= i < visits.len() && (#[trigger] visits[i]).0 == node;
            assert(visits[i].0 == node);
        }
    }
}

/// The sum and the number of the degrees of separation from one node: the
/// two parts of their mean.
#[derive(Debug, Clone, Copy, PartialEq, Eq, Structural)]
pub struct MeanDegree {
    /// The sum of the distances of the nodes that can be reached.
    pub total_degree: u128,
    /// The number of the nodes that can be reached, the start among them.
    pub total_nodes: usize,
}

/// Looks `start` up and, if the graph holds it, searches the graph from it.
fn explore(graph: &AdjacencyMap, start: &str) -> (found: Option<(Vec<usize>, Vec<usize>)>)
    ensures
        match found {
            Some((order, depth)) => {
                &&& graph@.contains_key(start@)
                &&& order.len() == depth.len()
                &&& forall|i: int|
                    0 <= i < order.len() ==> (#[trigger] order[i]) < graph.names.len()
                &&& is_traversal(graph@, start@, visits_of(graph.names@, order@, depth@))
            },
            None => !graph@.contains_key(start@) && is_traversal(
                graph@,
                start@,
                seq![(start@, 0nat)],
            ),
        },
{
    proof {
        use_type_invariant(graph);
        graph.lemma_view();
    }
    match graph.ids.get(start) {
        None => {
            proof {
                lemma_isolated_traversal(graph@, start@);
            }
            None
        },
        Some(id) => {
            let found = search(&graph.rows, *id);
            proof {
                lemma_search_is_traversal(
                    graph.ids@,
                    graph.names@,
                    graph.rows@,
                    *id,
                    found.0@,
                    found.1@,
                    found.2@,
                );
            }
            Some((found.0, found.1))
        },
    }
}

/// Traverses the graph breadth first from `start` and gives the nodes in
/// the order in which they are visited, each with its degree of separation
/// from `start`. The first is `start` itself, at 0, whether or not the graph
/// holds it; every node that can be reached follows once, and the degrees
/// never fall along the list.
pub fn breadth_first(graph: &AdjacencyMap, start: &str) -> (visits: Vec<(String, usize)>)
    ensures
        is_traversal(graph@, start@, visit_views(visits@)),
{
    let mut visits: Vec<(String, usize)> = Vec::new();
    match explore(graph, start) {
        None => {
            visits.push((start.to_owned(), 0));
            proof {
                assert(visit_views(visits@) =~= seq![(start@, 0nat)]);
            }
        },
        Some((order, depth)) => {
            let ghost all = visits_of(graph.names@, order@, depth@);
            let mut i: usize = 0;
            while i < order.len()
                invariant
                    i <= order.len() == depth.len(),
                    all == visits_of(graph.names@, order@, depth@),
                    forall|k: int|
                        0 <= k < order.len() ==> (#[trigger] order[k]) < graph.names.len(),
                    visit_views(visits@) == all.take(i as int),
                decreases order.len() - i,
            {
                let ghost before = visits@;
                visits.push((graph.names[order[i]].clone(), depth[i]));
                proof {
                    assert(visit_views(visits@) =~= visit_views(before).push(all[i as int]));
                    assert(all.take(i + 1) =~= all.take(i as int).push(all[i as int]));
                }
                i += 1;
            }
            proof {
                assert(all.take(i as int) =~= all);
            }
        },
    }
    visits
}

/// The greatest degree of separation from `start`: the distance of a node
/// farthest from it among those that can be reached. It is 0 where nothing
/// but `start` itself can be reached, as from a node that the graph does
/// not hold.
pub fn max_degree(graph: &AdjacencyMap, start: &str) -> (degree: usize)
    ensures
        degree == max_distance(graph@, start@),
        is_max_distance(graph@, start@, degree as nat),
        !graph@.contains_key(start@) ==> degree == 0,
{
    match explore(graph, start) {
        None => {
            proof {
                lemma_traversal_max(graph@, start@, seq![(start@, 0nat)]);
            }
            0
        },
        Some((order, depth)) => {
            proof {
                lemma_traversal_max(graph@, start@, visits_of(graph.names@, order@, depth@));
            }
            depth[depth.len() - 1]
        },
    }
}

/// The mean degree of separation from `start`, as its two parts: the sum of
/// the distances of the nodes that can be reached, and their number. The
/// start counts, at distance 0, so the number is at least 1; from a node
/// that the graph does not hold the sum is 0 and the number 1.
pub fn average_degree(graph: &AdjacencyMap, start: &str) -> (mean: MeanDegree)
    ensures
        reach(graph@, start@).finite(),
        reach(graph@, start@).contains(start@),
        mean.total_nodes == reach(graph@, start@).len(),
        mean.total_degree == total_distance(graph@, start@),
        mean.total_nodes >= 1,
        !graph@.contains_key(start@) ==> mean.total_degree == 0 && mean.total_nodes == 1,
{
    proof {
        crate::separation::lemma_distance_to_self(graph@, start@);
    }
    match explore(graph, start) {
        None => {
            proof {
                let visits = seq![(start@, 0nat)];
                lemma_traversal_totals(graph@, start@, visits);
                assert(visits.drop_last() =~= Seq::<(Node, nat)>::empty());
                assert(sum_depths(visits.drop_last()) == 0);
            }
            MeanDegree { total_degree: 0, total_nodes: 1 }
        },
        Some((order, depth)) => {
            let ghost all = visits_of(graph.names@, order@, depth@);
            let mut total: u128 = 0;
            let mut i: usize = 0;
            while i < depth.len()
                invariant
                    i <= depth.len() == order.len(),
                    all == visits_of(graph.names@, order@, depth@),
                    total == sum_depths(all.take(i as int)),
                    total <= i * usize::MAX,
                decreases depth.len() - i,
            {
                proof {
                    assert(all.take(i + 1).drop_last() =~= all.take(i as int));
                    assert(all.take(i + 1).last().1 == depth[i as int]);
                    assert((i + 1) * usize::MAX == i * usize::MAX + usize::MAX)
                        by (nonlinear_arith);
                    assert((i + 1) * usize::MAX <= usize::MAX * usize::MAX) by (nonlinear_arith)
                        requires
                            i + 1 <= usize::MAX,
                    ;
                    assert(usize::MAX * usize::MAX <= u128::MAX) by (nonlinear_arith)
                        requires
                            usize::MAX <= 0xffff_ffff_ffff_ffff,
                    ;
                }
                total = total + depth[i] as u128;
                i += 1;
            }
            proof {
                assert(all.take(i as int) =~= all);
                lemma_traversal_totals(graph@, start@, all);
            }
            MeanDegree { total_degree: total, total_nodes: depth.len() }
        },
    }
}

} // verus!
