use vstd::prelude::*;

verus! {

/// A node of the graph, by its name.
pub type Node = Seq<char>;

/// A graph as the specifications see it: each node that has neighbours,
/// with the list of them. A neighbour may occur more than once in a list.
pub type Graph = Map<Node, Seq<Node>>;

/// `to` is a neighbour of `from`.
pub open spec fn adjacent(g: Graph, from: Node, to: Node) -> bool {
    g.contains_key(from) && g[from].contains(to)
}

/// Some walk of exactly `steps` steps leads from `from` to `to`.
pub open spec fn reachable_in(g: Graph, from: Node, to: Node, steps: nat) -> bool
    decreases steps,
{
    if steps == 0 {
        to == from
    } else {
        exists|via: Node|
            reachable_in(g, from, via, (steps - 1) as nat) && #[trigger] adjacent(g, via, to)
    }
}

/// Some walk leads from `from` to `to`.
pub open spec fn reachable(g: Graph, from: Node, to: Node) -> bool {
    exists|steps: nat| reachable_in(g, from, to, steps)
}

/// `d` is the length of a shortest walk from `from` to `to`.
pub open spec fn is_distance(g: Graph, from: Node, to: Node, d: nat) -> bool {
    &&& reachable_in(g, from, to, d)
    &&& forall|steps: nat| steps < d ==> !reachable_in(g, from, to, steps)
}

/// The degree of separation of `to` from `from`: the length of a shortest
/// walk between them. It means something only where `to` can be reached.
pub open spec fn distance(g: Graph, from: Node, to: Node) -> nat {
    choose|d: nat| is_distance(g, from, to, d)
}

/// The nodes that can be reached from `from`; `from` is one of them.
pub open spec fn reach(g: Graph, from: Node) -> Set<Node> {
    Set::new(|to: Node| reachable(g, from, to))
}

/// `m` is the distance of a node farthest from `from` among those that can
/// be reached.
pub open spec fn is_max_distance(g: Graph, from: Node, m: nat) -> bool {
    &&& exists|to: Node| reachable(g, from, to) && #[trigger] distance(g, from, to) == m
    &&& forall|to: Node| reachable(g, from, to) ==> #[trigger] distance(g, from, to) <= m
}

/// The greatest degree of separation from `from`. It means something only
/// where finitely many nodes can be reached.
pub open spec fn max_distance(g: Graph, from: Node) -> nat {
    choose|m: nat| is_max_distance(g, from, m)
}

/// Adds the distance of one more node to a sum.
pub open spec fn add_distance(g: Graph, from: Node) -> spec_fn(nat, Node) -> nat {
    |sum: nat, to: Node| sum + distance(g, from, to)
}

/// The sum of the distances from `from` of all the nodes that can be
/// reached. It means something only where they are finitely many.
pub open spec fn total_distance(g: Graph, from: Node) -> nat {
    reach(g, from).fold(0nat, add_distance(g, from))
}

/// Among the lengths of the walks to a node there is a least one.
proof fn lemma_least_steps(g: Graph, from: Node, to: Node, steps: nat)
    requires
        reachable_in(g, from, to, steps),
    ensures
        exists|d: nat| is_distance(g, from, to, d),
    decreases steps,
{
    if exists|fewer: nat| fewer < steps && reachable_in(g, from, to, fewer) {
        let fewer = choose|fewer: nat| fewer < steps && reachable_in(g, from, to, fewer);
        lemma_least_steps(g, from, to, fewer);
    } else {
        assert(is_distance(g, from, to, steps));
    }
}

/// The distance of a node that can be reached is the length of a shortest
/// walk to it.
pub proof fn lemma_distance_is_least(g: Graph, from: Node, to: Node)
    requires
        reachable(g, from, to),
    ensures
        is_distance(g, from, to, distance(g, from, to)),
{
    let steps = choose|steps: nat| reachable_in(g, from, to, steps);
    lemma_least_steps(g, from, to, steps);
}

/// A node has one distance only.
pub proof fn lemma_distance_unique(g: Graph, from: Node, to: Node, d: nat)
    requires
        is_distance(g, from, to, d),
    ensures
        reachable(g, from, to),
        distance(g, from, to) == d,
{
    lemma_distance_is_least(g, from, to);
}

/// Every node can be reached from itself, at distance 0.
pub proof fn lemma_distance_to_self(g: Graph, from: Node)
    ensures
        reachable(g, from, from),
        distance(g, from, from) == 0,
{
    assert(is_distance(g, from, from, 0));
    lemma_distance_unique(g, from, from, 0);
}

/// No walk of one step or more leaves a node that has no neighbours.
proof fn lemma_no_walk_from_isolated(g: Graph, from: Node, to: Node, steps: nat)
    requires
        !g.contains_key(from),
        reachable_in(g, from, to, steps),
    ensures
        steps == 0,
        to == from,
    decreases steps,
{
    if steps > 0 {
        let via = choose|via: Node|
            reachable_in(g, from, via, (steps - 1) as nat) && #[trigger] adjacent(g, via, to);
        lemma_no_walk_from_isolated(g, from, via, (steps - 1) as nat);
    }
}

/// From a node that the graph does not hold, only the node itself can be
/// reached.
pub proof fn lemma_isolated_reach(g: Graph, from: Node)
    requires
        !g.contains_key(from),
    ensures
        reach(g, from) == set![from],
{
    lemma_distance_to_self(g, from);
    assert forall|to: Node| reachable(g, from, to) implies to == from by {
        let steps = choose|steps: nat| reachable_in(g, from, to, steps);
        lemma_no_walk_from_isolated(g, from, to, steps);
    }
    assert(reach(g, from) =~= set![from]);
}

/// There is one greatest distance only.
pub proof fn lemma_max_distance_unique(g: Graph, from: Node, m: nat)
    requires
        is_max_distance(g, from, m),
    ensures
        max_distance(g, from) == m,
{
    let other = max_distance(g, from);
    assert(is_max_distance(g, from, other));
    let far = choose|to: Node| reachable(g, from, to) && #[trigger] distance(g, from, to) == m;
    let far_other = choose|to: Node|
        reachable(g, from, to) && #[trigger] distance(g, from, to) == other;
    assert(distance(g, from, far) <= other);
    assert(distance(g, from, far_other) <= m);
}

} // verus!
