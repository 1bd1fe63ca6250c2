//! What holds of every bounded traversal.
use vstd::prelude::*;

use crate::graph::GraphView;
use crate::index::EdgeDirection;
use crate::plan::{ConstraintsModel, RuntimeModel};
use crate::reach::{closed_under, lemma_reach_closed, lemma_reach_grows, lemma_reach_hop, one_hop, reach};
use crate::records::{EdgeModel, NodeModel};
use crate::results::{edges_of, lemma_prefix_items, nodes_of, ItemModel};
use crate::traverse::{
    expansions, may_go, node_item, steps, walk_start, walked, ExpansionModel, WalkModel,
};

verus! {

/// Whether every record of a graph is found under its own id.
pub open spec fn keyed<G: GraphView>(view: &G) -> bool {
    &&& forall|id: Seq<char>|
        (#[trigger] view.node_at(id)) matches Some(node) ==> node.id == id
}

/// The ids of edges.
pub open spec fn edge_ids(edges: Seq<EdgeModel>) -> Seq<Seq<char>> {
    Seq::new(edges.len(), |i: int| edges[i].id)
}

/// The ids of nodes.
pub open spec fn node_ids(nodes: Seq<NodeModel>) -> Seq<Seq<char>> {
    Seq::new(nodes.len(), |i: int| nodes[i].id)
}

/// Whether a node was found under one of the given ids.
pub open spec fn found_under<G: GraphView>(
    view: &G,
    ids: Set<Seq<char>>,
    node: NodeModel,
) -> bool {
    exists|id: Seq<char>| ids.contains(id) && #[trigger] view.node_at(id) == Some(node)
}

spec fn bounded<G: GraphView>(
    walk: WalkModel,
    view: &G,
    limit: usize,
    reached: Set<Seq<char>>,
) -> bool {
    let nodes = nodes_of(walk.items);
    let edges = edges_of(walk.items);
    &&& walk.visited_nodes.finite()
    &&& walk.visited_edges.finite()
    &&& nodes.len() <= limit
    &&& nodes.len() <= walk.visited_nodes.len()
    &&& edges.len() == walk.visited_edges.len()
    &&& edges.len() <= limit
    &&& edge_ids(edges).no_duplicates()
    &&& forall|i: int| 0 <= i < edges.len() ==> walk.visited_edges.contains(#[trigger] edges[i].id)
    &&& keyed(view) ==> node_ids(nodes).no_duplicates()
    &&& keyed(view) ==> forall|i: int|
        0 <= i < nodes.len() ==> walk.visited_nodes.contains(#[trigger] nodes[i].id)
    &&& forall|i: int| 0 <= i < nodes.len() ==> found_under(view, reached, #[trigger] nodes[i])
}

proof fn lemma_node_item(node: Option<NodeModel>)
    ensures
        nodes_of(node_item(node)) == (match node {
            Some(found) => seq![found],
            None => Seq::<NodeModel>::empty(),
        }),
        edges_of(node_item(node)) == Seq::<EdgeModel>::empty(),
{
    let items = node_item(node);
    if node is Some {
        assert(items.last() == ItemModel::Node(node->0));
        assert(nodes_of(items.drop_last()).len() == 0);
        assert(edges_of(items.drop_last()).len() == 0);
        assert(nodes_of(items) =~= seq![node->0]);
        assert(edges_of(items) =~= Seq::<EdgeModel>::empty());
    } else {
        assert(nodes_of(items) =~= Seq::<NodeModel>::empty());
        assert(edges_of(items) =~= Seq::<EdgeModel>::empty());
    }
}

proof fn lemma_edge_item(edge: EdgeModel)
    ensures
        nodes_of(seq![ItemModel::Edge(edge)]) == Seq::<NodeModel>::empty(),
        edges_of(seq![ItemModel::Edge(edge)]) == seq![edge],
{
    let items = seq![ItemModel::Edge(edge)];
    assert(items.last() == ItemModel::Edge(edge));
    assert(nodes_of(items.drop_last()).len() == 0);
    assert(edges_of(items.drop_last()).len() == 0);
    assert(nodes_of(items) =~= Seq::<NodeModel>::empty());
    assert(edges_of(items) =~= seq![edge]);
}

/// What one step gives out.
proof fn lemma_step_items<G: GraphView>(
    walk: WalkModel,
    view: &G,
    limit: usize,
    depth: u8,
    step: ExpansionModel,
)
    ensures
        ({
            let next = walk.after_step(view, limit, depth, step);
            let takes_edge = walk.visited_edges.len() < limit && !walk.visited_edges.contains(
                step.edge.id,
            );
            let takes_node = !walk.visited_nodes.contains(step.neighbor)
                && walk.visited_nodes.insert(step.neighbor).len() <= limit;
            &&& edges_of(next.items) == if takes_edge {
                edges_of(walk.items).push(step.edge)
            } else {
                edges_of(walk.items)
            }
            &&& nodes_of(next.items) == if takes_node && view.node_at(step.neighbor) is Some {
                nodes_of(walk.items).push(view.node_at(step.neighbor)->0)
            } else {
                nodes_of(walk.items)
            }
        }),
{
    let takes_edge = walk.visited_edges.len() < limit && !walk.visited_edges.contains(step.edge.id);
    let takes_node = !walk.visited_nodes.contains(step.neighbor) && walk.visited_nodes.insert(
        step.neighbor,
    ).len() <= limit;
    let first = if takes_edge {
        seq![ItemModel::Edge(step.edge)]
    } else {
        Seq::<ItemModel>::empty()
    };
    let second = if takes_node {
        node_item(view.node_at(step.neighbor))
    } else {
        Seq::<ItemModel>::empty()
    };
    lemma_node_item(view.node_at(step.neighbor));
    lemma_edge_item(step.edge);
    lemma_prefix_items(walk.items, first);
    lemma_prefix_items(walk.items + first, second);
    let next = walk.after_step(view, limit, depth, step);
    assert(next.items == walk.items + first + second);
    assert(edges_of(Seq::<ItemModel>::empty()).len() == 0);
    assert(nodes_of(Seq::<ItemModel>::empty()).len() == 0);
    assert(edges_of(next.items) =~= if takes_edge {
        edges_of(walk.items).push(step.edge)
    } else {
        edges_of(walk.items)
    });
    assert(nodes_of(next.items) =~= if takes_node && view.node_at(step.neighbor) is Some {
        nodes_of(walk.items).push(view.node_at(step.neighbor)->0)
    } else {
        nodes_of(walk.items)
    });
}

proof fn lemma_step_bounded<G: GraphView>(
    walk: WalkModel,
    view: &G,
    limit: usize,
    depth: u8,
    step: ExpansionModel,
    reached: Set<Seq<char>>,
)
    requires
        bounded(walk, view, limit, reached),
        reached.contains(step.neighbor),
    ensures
        bounded(walk.after_step(view, limit, depth, step), view, limit, reached),
{
    lemma_step_items(walk, view, limit, depth, step);
    let next = walk.after_step(view, limit, depth, step);
    let nodes = nodes_of(next.items);
    let edges = edges_of(next.items);
    assert forall|i: int| 0 <= i < nodes.len() implies found_under(
        view,
        reached,
        #[trigger] nodes[i],
    ) by {
        if i < nodes_of(walk.items).len() {
            assert(found_under(view, reached, nodes_of(walk.items)[i]));
        } else {
            assert(view.node_at(step.neighbor) == Some(nodes[i]));
        }
    }
    assert forall|i: int| 0 <= i < edges.len() implies next.visited_edges.contains(
        #[trigger] edges[i].id,
    ) by {
        if i < edges_of(walk.items).len() {
            assert(walk.visited_edges.contains(edges_of(walk.items)[i].id));
        }
    }
    assert forall|i: int, j: int| 0 <= i < j < edges.len() implies edge_ids(edges)[i] != edge_ids(
        edges,
    )[j] by {
        let before = edges_of(walk.items);
        assert(walk.visited_edges.contains(before[i].id));
        if j < before.len() {
            assert(edge_ids(before)[i] != edge_ids(before)[j]);
        }
    }
    if keyed(view) {
        let before = nodes_of(walk.items);
        assert forall|i: int| 0 <= i < nodes.len() implies next.visited_nodes.contains(
            #[trigger] nodes[i].id,
        ) by {
            if i < before.len() {
                assert(walk.visited_nodes.contains(before[i].id));
            } else {
                assert(view.node_at(step.neighbor) == Some(nodes[i]));
            }
        }
        assert forall|i: int, j: int| 0 <= i < j < nodes.len() implies node_ids(nodes)[i]
            != node_ids(nodes)[j] by {
            assert(walk.visited_nodes.contains(before[i].id));
            if j < before.len() {
                assert(node_ids(before)[i] != node_ids(before)[j]);
            } else {
                assert(view.node_at(step.neighbor) == Some(nodes[j]));
            }
        }
    }
}

proof fn lemma_steps_bounded<G: GraphView>(
    walk: WalkModel,
    view: &G,
    limit: usize,
    depth: u8,
    taken: Seq<ExpansionModel>,
    reached: Set<Seq<char>>,
)
    requires
        bounded(walk, view, limit, reached),
        forall|i: int| 0 <= i < taken.len() ==> reached.contains((#[trigger] taken[i]).neighbor),
    ensures
        bounded(walk.after_steps(view, limit, depth, taken), view, limit, reached),
    decreases taken.len(),
{
    if taken.len() > 0 {
        assert forall|i: int| 0 <= i < taken.drop_last().len() implies reached.contains(
            (#[trigger] taken.drop_last()[i]).neighbor,
        ) by {
            assert(taken.drop_last()[i] == taken[i]);
        }
        lemma_steps_bounded(walk, view, limit, depth, taken.drop_last(), reached);
        lemma_step_bounded(
            walk.after_steps(view, limit, depth, taken.drop_last()),
            view,
            limit,
            depth,
            taken.last(),
            reached,
        );
    }
}

/// Whether every queued node can be reached in as many hops as its depth says.
spec fn queued_in_reach(
    walk: WalkModel,
    hops: spec_fn(Seq<char>, Seq<char>) -> bool,
    start: Seq<char>,
    max_depth: u8,
) -> bool {
    forall|i: int|
        0 <= i < walk.queue.len() ==> (#[trigger] walk.queue[i]).1 <= max_depth && reach(
            hops,
            start,
            walk.queue[i].1 as nat,
        ).contains(walk.queue[i].0)
}

proof fn lemma_steps_queued<G: GraphView>(
    walk: WalkModel,
    view: &G,
    limit: usize,
    depth: u8,
    taken: Seq<ExpansionModel>,
    hops: spec_fn(Seq<char>, Seq<char>) -> bool,
    start: Seq<char>,
    max_depth: u8,
)
    requires
        queued_in_reach(walk, hops, start, max_depth),
        depth < max_depth,
        forall|i: int|
            0 <= i < taken.len() ==> reach(hops, start, (depth + 1) as nat).contains(
                (#[trigger] taken[i]).neighbor,
            ),
    ensures
        queued_in_reach(walk.after_steps(view, limit, depth, taken), hops, start, max_depth),
    decreases taken.len(),
{
    if taken.len() > 0 {
        assert forall|i: int| 0 <= i < taken.drop_last().len() implies reach(
            hops,
            start,
            (depth + 1) as nat,
        ).contains((#[trigger] taken.drop_last()[i]).neighbor) by {
            assert(taken.drop_last()[i] == taken[i]);
        }
        lemma_steps_queued(
            walk,
            view,
            limit,
            depth,
            taken.drop_last(),
            hops,
            start,
            max_depth,
        );
        assert(taken.last() == taken[taken.len() - 1]);
    }
}

proof fn lemma_walked_bounded<G: GraphView>(
    view: &G,
    start: Seq<char>,
    direction: EdgeDirection,
    runtime: RuntimeModel,
    count: nat,
)
    requires
        runtime.limit >= 1,
    ensures
        ({
            let hops = steps(view, direction, runtime.constraints);
            let walk = walked(view, start, direction, runtime, count);
            &&& bounded(walk, view, runtime.limit, reach(hops, start, runtime.max_depth as nat))
            &&& queued_in_reach(walk, hops, start, runtime.max_depth)
        }),
    decreases count,
{
    let hops = steps(view, direction, runtime.constraints);
    let reached = reach(hops, start, runtime.max_depth as nat);
    if count == 0 {
        let walk = walk_start(view, start);
        lemma_node_item(view.node_at(start));
        assert(nodes_of(Seq::<ItemModel>::empty()).len() == 0);
        assert(edges_of(Seq::<ItemModel>::empty()).len() == 0);
        lemma_reach_grows(hops, start, 0, runtime.max_depth as nat);
        assert(reach(hops, start, 0).contains(start));
        let nodes = nodes_of(walk.items);
        assert forall|i: int| 0 <= i < nodes.len() implies found_under(
            view,
            reached,
            #[trigger] nodes[i],
        ) by {
            assert(view.node_at(start) == Some(nodes[i]));
        }
    } else {
        let before = walked(view, start, direction, runtime, (count - 1) as nat);
        lemma_walked_bounded(view, start, direction, runtime, (count - 1) as nat);
        if before.queue.len() > 0 {
            let node = before.queue[0].0;
            let depth = before.queue[0].1;
            let rest = WalkModel { queue: before.queue.drop_first(), ..before };
            assert(bounded(rest, view, runtime.limit, reached));
            assert forall|i: int| 0 <= i < rest.queue.len() implies (#[trigger] rest.queue[i]).1
                <= runtime.max_depth && reach(hops, start, rest.queue[i].1 as nat).contains(
                rest.queue[i].0,
            ) by {
                assert(rest.queue[i] == before.queue[i + 1]);
            }
            if depth < runtime.max_depth {
                let taken = expansions(view, node, direction, runtime.constraints);
                assert forall|i: int| 0 <= i < taken.len() implies reach(
                    hops,
                    start,
                    (depth + 1) as nat,
                ).contains((#[trigger] taken[i]).neighbor) && reached.contains(
                    taken[i].neighbor,
                ) by {
                    assert(may_go(
                        view,
                        direction,
                        runtime.constraints,
                        node,
                        taken[i].neighbor,
                    ));
                    assert(hops(node, taken[i].neighbor));
                    lemma_reach_hop(hops, start, depth as nat, node, taken[i].neighbor);
                    lemma_reach_grows(hops, start, (depth + 1) as nat, runtime.max_depth as nat);
                }
                lemma_steps_bounded(rest, view, runtime.limit, depth, taken, reached);
                lemma_steps_queued(
                    rest,
                    view,
                    runtime.limit,
                    depth,
                    taken,
                    hops,
                    start,
                    runtime.max_depth,
                );
            }
        }
    }
}

/// At every moment a traversal has given out no more nodes and no more edges than its limit, no
/// edge twice, no node twice (where records are found under their own ids), and only nodes that
/// can be reached from its start in as many hops as its depth allows.
pub proof fn law_traversal_is_bounded<G: GraphView>(
    view: &G,
    start: Seq<char>,
    direction: EdgeDirection,
    runtime: RuntimeModel,
    count: nat,
)
    requires
        runtime.limit >= 1,
    ensures
        ({
            let items = walked(view, start, direction, runtime, count).items;
            let hops = steps(view, direction, runtime.constraints);
            let reached = reach(hops, start, runtime.max_depth as nat);
            &&& nodes_of(items).len() <= runtime.limit
            &&& edges_of(items).len() <= runtime.limit
            &&& edge_ids(edges_of(items)).no_duplicates()
            &&& keyed(view) ==> node_ids(nodes_of(items)).no_duplicates()
            &&& forall|i: int|
                0 <= i < nodes_of(items).len() ==> found_under(
                    view,
                    reached,
                    #[trigger] nodes_of(items)[i],
                )
        }),
{
    lemma_walked_bounded(view, start, direction, runtime, count);
}

// ---------------------------------------------------------------------------------------------
// A traversal that comes to its end below its limit has seen all there is
// ---------------------------------------------------------------------------------------------

/// Whether a node stands in a queue at or after a place.
spec fn queued_from(queue: Seq<(Seq<char>, u8)>, from: int, node: Seq<char>) -> bool {
    exists|i: int| from <= i < queue.len() && (#[trigger] queue[i]).0 == node
}

/// Whether a node stands in a queue before a place.
spec fn queued_before(queue: Seq<(Seq<char>, u8)>, end: int, node: Seq<char>) -> bool {
    exists|i: int| 0 <= i < end && (#[trigger] queue[i]).0 == node
}

/// Whether one of the given steps leads to a node.
spec fn leads_to(taken: Seq<ExpansionModel>, node: Seq<char>) -> bool {
    exists|i: int| 0 <= i < taken.len() && (#[trigger] taken[i]).neighbor == node
}

/// Whether the given nodes have been given out, those that the graph has.
spec fn given_out<G: GraphView>(view: &G, ids: Set<Seq<char>>, nodes: Seq<NodeModel>) -> bool {
    forall|id: Seq<char>|
        ids.contains(id) ==> ((#[trigger] view.node_at(id)) matches Some(node) ==> nodes.contains(
            node,
        ))
}

proof fn lemma_open_steps<G: GraphView>(
    walk: WalkModel,
    view: &G,
    limit: usize,
    depth: u8,
    taken: Seq<ExpansionModel>,
)
    requires
        walk.visited_nodes.finite(),
        depth < u8::MAX,
        walk.after_steps(view, limit, depth, taken).visited_nodes.len() <= limit,
        given_out(view, walk.visited_nodes, nodes_of(walk.items)),
    ensures
        ({
            let next = walk.after_steps(view, limit, depth, taken);
            let n = walk.queue.len() as int;
            &&& next.visited_nodes.finite()
            &&& walk.visited_nodes.subset_of(next.visited_nodes)
            &&& forall|b: Seq<char>| #[trigger]
                next.visited_nodes.contains(b) <==> walk.visited_nodes.contains(b) || leads_to(
                    taken,
                    b,
                )
            &&& next.queue.len() >= n
            &&& forall|i: int| 0 <= i < n ==> #[trigger] next.queue[i] == walk.queue[i]
            &&& forall|i: int|
                n <= i < next.queue.len() ==> (#[trigger] next.queue[i]).1 == depth + 1
                    && next.visited_nodes.contains(next.queue[i].0)
            &&& forall|b: Seq<char>| #[trigger]
                next.visited_nodes.contains(b) && !walk.visited_nodes.contains(b) ==> queued_from(
                    next.queue,
                    n,
                    b,
                )
            &&& given_out(view, next.visited_nodes, nodes_of(next.items))
        }),
    decreases taken.len(),
{
    if taken.len() > 0 {
        let short = taken.drop_last();
        let step = taken.last();
        let mid = walk.after_steps(view, limit, depth, short);
        let next = walk.after_steps(view, limit, depth, taken);
        let n = walk.queue.len() as int;
        lemma_steps_finite(walk, view, limit, depth, short);
        assert(next.visited_nodes =~= mid.visited_nodes.insert(step.neighbor));
        vstd::set_lib::lemma_len_subset(mid.visited_nodes, next.visited_nodes);
        lemma_open_steps(walk, view, limit, depth, short);
        lemma_step_items(mid, view, limit, depth, step);
        assert forall|b: Seq<char>| #[trigger] next.visited_nodes.contains(b) <==> (
        walk.visited_nodes.contains(b) || leads_to(taken, b)) by {
            if leads_to(short, b) {
                let i = choose|i: int| 0 <= i < short.len() && (#[trigger] short[i]).neighbor == b;
                assert(taken[i].neighbor == b);
            }
            if b == step.neighbor {
                assert(taken[taken.len() - 1].neighbor == b);
            }
            if leads_to(taken, b) {
                let i = choose|i: int| 0 <= i < taken.len() && (#[trigger] taken[i]).neighbor == b;
                if i < short.len() {
                    assert(short[i].neighbor == b);
                }
            }
            assert(mid.visited_nodes.contains(b) <==> walk.visited_nodes.contains(b) || leads_to(
                short,
                b,
            ));
        }
        assert forall|b: Seq<char>| #[trigger]
            next.visited_nodes.contains(b) && !walk.visited_nodes.contains(b) implies queued_from(
            next.queue,
            n,
            b,
        ) by {
            if mid.visited_nodes.contains(b) {
                assert(queued_from(mid.queue, n, b));
                let i = choose|i: int| n <= i < mid.queue.len() && (#[trigger] mid.queue[i]).0 == b;
                assert(next.queue[i].0 == b);
            } else {
                assert(next.queue[next.queue.len() - 1].0 == b);
            }
        }
        assert forall|i: int| n <= i < next.queue.len() implies (#[trigger] next.queue[i]).1 == depth
            + 1 && next.visited_nodes.contains(next.queue[i].0) by {
            if i < mid.queue.len() {
                assert(next.queue[i] == mid.queue[i]);
            }
        }
        assert forall|i: int| 0 <= i < n implies #[trigger] next.queue[i] == walk.queue[i] by {
            assert(next.queue[i] == mid.queue[i]);
        }
        assert forall|id: Seq<char>| next.visited_nodes.contains(id) implies ((
        #[trigger] view.node_at(id)) matches Some(node) ==> nodes_of(next.items).contains(node)) by {
            if view.node_at(id) is Some {
                let node = view.node_at(id)->0;
                let held = nodes_of(mid.items);
                if mid.visited_nodes.contains(id) {
                    assert(held.contains(node));
                    let i = choose|i: int| 0 <= i < held.len() && held[i] == node;
                    assert(nodes_of(next.items)[i] == node);
                } else {
                    assert(nodes_of(next.items).last() == node);
                }
            }
        }
    } else {
        assert forall|b: Seq<char>| !leads_to(taken, b) by {}
    }
}

proof fn lemma_steps_finite<G: GraphView>(
    walk: WalkModel,
    view: &G,
    limit: usize,
    depth: u8,
    taken: Seq<ExpansionModel>,
)
    requires
        walk.visited_nodes.finite(),
    ensures
        walk.after_steps(view, limit, depth, taken).visited_nodes.finite(),
        walk.visited_nodes.subset_of(walk.after_steps(view, limit, depth, taken).visited_nodes),
    decreases taken.len(),
{
    if taken.len() > 0 {
        lemma_steps_finite(walk, view, limit, depth, taken.drop_last());
    }
}

proof fn lemma_walked_grows<G: GraphView>(
    view: &G,
    start: Seq<char>,
    direction: EdgeDirection,
    runtime: RuntimeModel,
    count: nat,
)
    ensures
        walked(view, start, direction, runtime, count).visited_nodes.finite(),
        count > 0 ==> walked(
            view,
            start,
            direction,
            runtime,
            (count - 1) as nat,
        ).visited_nodes.subset_of(walked(view, start, direction, runtime, count).visited_nodes),
    decreases count,
{
    if count > 0 {
        let before = walked(view, start, direction, runtime, (count - 1) as nat);
        lemma_walked_grows(view, start, direction, runtime, (count - 1) as nat);
        if before.queue.len() > 0 {
            let rest = WalkModel { queue: before.queue.drop_first(), ..before };
            lemma_steps_finite(
                rest,
                view,
                runtime.limit,
                before.queue[0].1,
                expansions(view, before.queue[0].0, direction, runtime.constraints),
            );
        }
    }
}

/// Whether a traversal below its limit is at a level: it has seen all that fewer hops reach and
/// part of the next level, its queue holds the rest of the level and then what it has seen of the
/// next one.
spec fn at_level<G: GraphView>(
    walk: WalkModel,
    view: &G,
    hops: spec_fn(Seq<char>, Seq<char>) -> bool,
    start: Seq<char>,
    max_depth: u8,
    level: u8,
    split: int,
) -> bool {
    let full = reach(hops, start, level as nat);
    &&& level <= max_depth
    &&& 0 <= split <= walk.queue.len()
    &&& walk.visited_nodes.finite()
    &&& full.subset_of(walk.visited_nodes)
    &&& walk.visited_nodes.subset_of(reach(hops, start, (level + 1) as nat))
    &&& split < walk.queue.len() ==> level < max_depth
    &&& forall|i: int|
        0 <= i < split ==> (#[trigger] walk.queue[i]).1 == level && full.contains(walk.queue[i].0)
    &&& forall|i: int|
        split <= i < walk.queue.len() ==> (#[trigger] walk.queue[i]).1 == level + 1
            && walk.visited_nodes.contains(walk.queue[i].0)
    &&& forall|b: Seq<char>| #[trigger]
        walk.visited_nodes.contains(b) ==> full.contains(b) || queued_from(walk.queue, split, b)
    &&& level < max_depth ==> forall|a: Seq<char>, b: Seq<char>|
        full.contains(a) && #[trigger] hops(a, b) ==> walk.visited_nodes.contains(b)
            || queued_before(walk.queue, split, a)
    &&& given_out(view, walk.visited_nodes, nodes_of(walk.items))
}

/// When nothing of a level is left, the traversal is at the next one.
proof fn lemma_next_level<G: GraphView>(
    walk: WalkModel,
    view: &G,
    hops: spec_fn(Seq<char>, Seq<char>) -> bool,
    start: Seq<char>,
    max_depth: u8,
    level: u8,
)
    requires
        at_level(walk, view, hops, start, max_depth, level, 0),
        walk.queue.len() > 0,
    ensures
        at_level(
            walk,
            view,
            hops,
            start,
            max_depth,
            (level + 1) as u8,
            walk.queue.len() as int,
        ),
{
    let full = reach(hops, start, level as nat);
    let next = reach(hops, start, (level + 1) as nat);
    assert forall|b: Seq<char>| next.contains(b) implies walk.visited_nodes.contains(b) by {
        if !full.contains(b) {
            assert(one_hop(hops, full, b));
            let a = choose|a: Seq<char>| full.contains(a) && #[trigger] hops(a, b);
            assert(hops(a, b));
            assert(!queued_before(walk.queue, 0, a));
        }
    }
    assert(next =~= walk.visited_nodes);
    lemma_reach_grows(hops, start, (level + 1) as nat, (level + 2) as nat);
    assert forall|a: Seq<char>, b: Seq<char>|
        next.contains(a) && #[trigger] hops(a, b) implies walk.visited_nodes.contains(b)
        || queued_before(walk.queue, walk.queue.len() as int, a) by {
        if full.contains(a) {
            assert(!queued_before(walk.queue, 0, a));
        } else {
            assert(queued_from(walk.queue, 0, a));
            let i = choose|i: int| 0 <= i < walk.queue.len() && (#[trigger] walk.queue[i]).0 == a;
            assert(walk.queue[i].0 == a);
        }
    }
}

/// Leaving from a node keeps the level.
#[verifier::rlimit(30)]
proof fn lemma_keeps_level<G: GraphView>(
    walk: WalkModel,
    view: &G,
    start: Seq<char>,
    direction: EdgeDirection,
    runtime: RuntimeModel,
    level: u8,
    split: int,
)
    requires
        at_level(
            walk,
            view,
            steps(view, direction, runtime.constraints),
            start,
            runtime.max_depth,
            level,
            split,
        ),
        split > 0,
        walk.advanced(view, direction, runtime).visited_nodes.len() < runtime.limit,
        walk.visited_nodes.len() < runtime.limit,
    ensures
        at_level(
            walk.advanced(view, direction, runtime),
            view,
            steps(view, direction, runtime.constraints),
            start,
            runtime.max_depth,
            level,
            split - 1,
        ),
{
    let hops = steps(view, direction, runtime.constraints);
    let full = reach(hops, start, level as nat);
    let node = walk.queue[0].0;
    let rest = WalkModel { queue: walk.queue.drop_first(), ..walk };
    let next = walk.advanced(view, direction, runtime);
    assert(walk.queue[0].1 == level);
    assert forall|b: Seq<char>| queued_from(walk.queue, split, b) implies queued_from(
        rest.queue,
        split - 1,
        b,
    ) by {
        let i = choose|i: int| split <= i < walk.queue.len() && (#[trigger] walk.queue[i]).0 == b;
        assert(rest.queue[i - 1].0 == b);
    }
    assert forall|i: int| 0 <= i < rest.queue.len() implies #[trigger] rest.queue[i]
        == walk.queue[i + 1] by {}
    if level == runtime.max_depth {
        assert(next == rest);
        assert(split == walk.queue.len());
    } else {
        let taken = expansions(view, node, direction, runtime.constraints);
        assert(next == rest.after_steps(view, runtime.limit, level, taken));
        lemma_open_steps(rest, view, runtime.limit, level, taken);
        let n = rest.queue.len() as int;
        assert forall|b: Seq<char>| #[trigger] leads_to(taken, b) <==> hops(node, b) by {
            if leads_to(taken, b) {
                let i = choose|i: int| 0 <= i < taken.len() && (#[trigger] taken[i]).neighbor == b;
                assert(expansions(view, node, direction, runtime.constraints)[i].neighbor == b);
            }
            if hops(node, b) {
                assert(may_go(view, direction, runtime.constraints, node, b));
                let i = choose|i: int|
                    0 <= i < expansions(view, node, direction, runtime.constraints).len() && (
                    #[trigger] expansions(
                        view,
                        node,
                        direction,
                        runtime.constraints,
                    )[i]).neighbor == b;
                assert(taken[i].neighbor == b);
            }
        }
        assert forall|b: Seq<char>| next.visited_nodes.contains(b) implies reach(
            hops,
            start,
            (level + 1) as nat,
        ).contains(b) by {
            if !rest.visited_nodes.contains(b) {
                assert(leads_to(taken, b));
                assert(full.contains(node));
                lemma_reach_hop(hops, start, level as nat, node, b);
            }
        }
        assert forall|b: Seq<char>| #[trigger] next.visited_nodes.contains(b) implies full.contains(
            b,
        ) || queued_from(next.queue, split - 1, b) by {
            if rest.visited_nodes.contains(b) {
                if !full.contains(b) {
                    assert(queued_from(walk.queue, split, b));
                    assert(queued_from(rest.queue, split - 1, b));
                    let i = choose|i: int|
                        split - 1 <= i < rest.queue.len() && (#[trigger] rest.queue[i]).0 == b;
                    assert(next.queue[i].0 == b);
                }
            } else {
                assert(queued_from(next.queue, n, b));
                let i = choose|i: int|
                    n <= i < next.queue.len() && (#[trigger] next.queue[i]).0 == b;
                assert(next.queue[i].0 == b);
            }
        }
        assert forall|a: Seq<char>, b: Seq<char>|
            full.contains(a) && #[trigger] hops(a, b) implies next.visited_nodes.contains(b)
            || queued_before(next.queue, split - 1, a) by {
            if a == node {
                assert(leads_to(taken, b));
            } else if !walk.visited_nodes.contains(b) {
                assert(queued_before(walk.queue, split, a));
                let i = choose|i: int| 0 <= i < split && (#[trigger] walk.queue[i]).0 == a;
                assert(i > 0);
                assert(next.queue[i - 1] == rest.queue[i - 1]);
                assert(next.queue[i - 1].0 == a);
            }
        }
        assert forall|i: int| 0 <= i < split - 1 implies (#[trigger] next.queue[i]).1 == level
            && full.contains(next.queue[i].0) by {
            assert(next.queue[i] == walk.queue[i + 1]);
        }
        assert forall|i: int| split - 1 <= i < next.queue.len() implies (#[trigger] next.queue[i]).1
            == level + 1 && next.visited_nodes.contains(next.queue[i].0) by {
            if i < n {
                assert(next.queue[i] == walk.queue[i + 1]);
            }
        }
        assert(full.subset_of(next.visited_nodes));
    }
}

proof fn lemma_walked_at_level<G: GraphView>(
    view: &G,
    start: Seq<char>,
    direction: EdgeDirection,
    runtime: RuntimeModel,
    count: nat,
) -> (r: (u8, int))
    requires
        view.has_node(start),
        walked(view, start, direction, runtime, count).visited_nodes.len() < runtime.limit,
    ensures
        at_level(
            walked(view, start, direction, runtime, count),
            view,
            steps(view, direction, runtime.constraints),
            start,
            runtime.max_depth,
            r.0,
            r.1,
        ),
    decreases count,
{
    let hops = steps(view, direction, runtime.constraints);
    let walk = walked(view, start, direction, runtime, count);
    if count == 0 {
        assert(reach(hops, start, 0) =~= walk.visited_nodes);
        lemma_reach_grows(hops, start, 0, 1);
        lemma_node_item(view.node_at(start));
        assert(walk.queue[0].0 == start);
        assert forall|id: Seq<char>| walk.visited_nodes.contains(id) implies ((
        #[trigger] view.node_at(id)) matches Some(node) ==> nodes_of(walk.items).contains(node)) by {
            if view.node_at(id) is Some {
                assert(nodes_of(walk.items)[0] == view.node_at(id)->0);
            }
        }
        (0, 1)
    } else {
        let before = walked(view, start, direction, runtime, (count - 1) as nat);
        lemma_walked_grows(view, start, direction, runtime, count);
        vstd::set_lib::lemma_len_subset(before.visited_nodes, walk.visited_nodes);
        let (level, split) = lemma_walked_at_level(
            view,
            start,
            direction,
            runtime,
            (count - 1) as nat,
        );
        if before.queue.len() == 0 {
            (level, split)
        } else if split > 0 {
            lemma_keeps_level(before, view, start, direction, runtime, level, split);
            (level, split - 1)
        } else {
            let whole = before.queue.len() as int;
            lemma_next_level(before, view, hops, start, runtime.max_depth, level);
            lemma_keeps_level(
                before,
                view,
                start,
                direction,
                runtime,
                (level + 1) as u8,
                whole,
            );
            ((level + 1) as u8, whole - 1)
        }
    }
}

/// A traversal that has come to its end and has seen fewer nodes than its limit has seen exactly
/// the nodes that can be reached from its start in as many hops as its depth allows, and has given
/// out every one of them that the graph has.
pub proof fn law_traversal_is_complete<G: GraphView>(
    view: &G,
    start: Seq<char>,
    direction: EdgeDirection,
    runtime: RuntimeModel,
    count: nat,
)
    requires
        view.has_node(start),
        walked(view, start, direction, runtime, count).queue.len() == 0,
        walked(view, start, direction, runtime, count).visited_nodes.len() < runtime.limit,
    ensures
        ({
            let walk = walked(view, start, direction, runtime, count);
            let reached = reach(
                steps(view, direction, runtime.constraints),
                start,
                runtime.max_depth as nat,
            );
            &&& walk.visited_nodes == reached
            &&& forall|id: Seq<char>|
                reached.contains(id) ==> ((#[trigger] view.node_at(id)) matches Some(node)
                    ==> nodes_of(walk.items).contains(node))
        }),
{
    let hops = steps(view, direction, runtime.constraints);
    let walk = walked(view, start, direction, runtime, count);
    let (level, split) = lemma_walked_at_level(view, start, direction, runtime, count);
    let full = reach(hops, start, level as nat);
    assert forall|b: Seq<char>| #[trigger] walk.visited_nodes.contains(b) implies full.contains(
        b,
    ) by {
        assert(!queued_from(walk.queue, split, b));
    }
    assert(full =~= walk.visited_nodes);
    if level < runtime.max_depth {
        assert forall|a: Seq<char>, b: Seq<char>| full.contains(a) && #[trigger] hops(
            a,
            b,
        ) implies full.contains(b) by {
            assert(!queued_before(walk.queue, split, a));
        }
        assert(closed_under(hops, full));
        lemma_reach_closed(hops, start, level as nat, runtime.max_depth as nat);
    }
}

// ---------------------------------------------------------------------------------------------
// Its edges
// ---------------------------------------------------------------------------------------------

/// Whether a list has an edge of an id.
spec fn has_edge_id(edges: Seq<EdgeModel>, id: Seq<char>) -> bool {
    exists|k: int| 0 <= k < edges.len() && (#[trigger] edges[k]).id == id
}

/// Whether a step from one of the given nodes takes an edge.
pub open spec fn takes_edge<G: GraphView>(
    view: &G,
    direction: EdgeDirection,
    constraints: ConstraintsModel,
    near: Set<Seq<char>>,
    edge: EdgeModel,
) -> bool {
    exists|a: Seq<char>, i: int|
        near.contains(a) && 0 <= i < expansions(view, a, direction, constraints).len() && (
        #[trigger] expansions(view, a, direction, constraints)[i]).edge == edge
}

/// The nodes that a traversal of a depth leaves from: those that fewer hops reach.
pub open spec fn left_from(
    hops: spec_fn(Seq<char>, Seq<char>) -> bool,
    start: Seq<char>,
    max_depth: u8,
) -> Set<Seq<char>> {
    if max_depth == 0 {
        Set::empty()
    } else {
        reach(hops, start, (max_depth - 1) as nat)
    }
}

/// Whether what a traversal has seen lies in reach, and what it has given out are the edges that it
/// has taken.
spec fn seen_in_reach(
    walk: WalkModel,
    reached: Set<Seq<char>>,
    good: spec_fn(EdgeModel) -> bool,
) -> bool {
    let edges = edges_of(walk.items);
    &&& walk.visited_nodes.subset_of(reached)
    &&& walk.visited_edges.finite()
    &&& forall|k: int| 0 <= k < edges.len() ==> good(#[trigger] edges[k])
    &&& forall|id: Seq<char>| #[trigger]
        walk.visited_edges.contains(id) ==> has_edge_id(edges, id)
}

proof fn lemma_steps_seen<G: GraphView>(
    walk: WalkModel,
    view: &G,
    limit: usize,
    depth: u8,
    taken: Seq<ExpansionModel>,
    reached: Set<Seq<char>>,
    good: spec_fn(EdgeModel) -> bool,
)
    requires
        seen_in_reach(walk, reached, good),
        forall|i: int|
            0 <= i < taken.len() ==> reached.contains((#[trigger] taken[i]).neighbor) && good(
                taken[i].edge,
            ),
    ensures
        ({
            let next = walk.after_steps(view, limit, depth, taken);
            &&& seen_in_reach(next, reached, good)
            &&& walk.visited_edges.subset_of(next.visited_edges)
            &&& walk.visited_edges.len() <= next.visited_edges.len()
            &&& forall|i: int|
                0 <= i < taken.len() ==> next.visited_edges.contains((#[trigger] taken[i]).edge.id)
                    || next.visited_edges.len() >= limit
        }),
    decreases taken.len(),
{
    if taken.len() > 0 {
        let short = taken.drop_last();
        let step = taken.last();
        assert forall|i: int| 0 <= i < short.len() implies reached.contains(
            (#[trigger] short[i]).neighbor,
        ) && good(short[i].edge) by {
            assert(short[i] == taken[i]);
        }
        lemma_steps_seen(walk, view, limit, depth, short, reached, good);
        let mid = walk.after_steps(view, limit, depth, short);
        let next = walk.after_steps(view, limit, depth, taken);
        lemma_step_items(mid, view, limit, depth, step);
        assert(taken[taken.len() - 1] == step);
        let before = edges_of(mid.items);
        let edges = edges_of(next.items);
        assert forall|k: int| 0 <= k < edges.len() implies good(#[trigger] edges[k]) by {
            if k < before.len() {
                assert(good(before[k]));
            }
        }
        assert forall|id: Seq<char>| #[trigger]
            next.visited_edges.contains(id) implies has_edge_id(edges, id) by {
            if mid.visited_edges.contains(id) {
                assert(has_edge_id(before, id));
                let k = choose|k: int| 0 <= k < before.len() && (#[trigger] before[k]).id == id;
                assert(edges[k].id == id);
            } else {
                assert(edges[edges.len() - 1].id == id);
            }
        }
        assert forall|i: int| 0 <= i < taken.len() implies next.visited_edges.contains(
            (#[trigger] taken[i]).edge.id,
        ) || next.visited_edges.len() >= limit by {
            if i < short.len() {
                assert(short[i] == taken[i]);
            }
        }
    }
}

proof fn lemma_walked_seen<G: GraphView>(
    view: &G,
    start: Seq<char>,
    direction: EdgeDirection,
    runtime: RuntimeModel,
    count: nat,
)
    requires
        runtime.limit >= 1,
    ensures
        ({
            let hops = steps(view, direction, runtime.constraints);
            let near = left_from(hops, start, runtime.max_depth);
            seen_in_reach(
                walked(view, start, direction, runtime, count),
                reach(hops, start, runtime.max_depth as nat),
                |edge: EdgeModel| takes_edge(view, direction, runtime.constraints, near, edge),
            )
        }),
    decreases count,
{
    let hops = steps(view, direction, runtime.constraints);
    let reached = reach(hops, start, runtime.max_depth as nat);
    let near = left_from(hops, start, runtime.max_depth);
    let good = |edge: EdgeModel| takes_edge(view, direction, runtime.constraints, near, edge);
    if count == 0 {
        lemma_node_item(view.node_at(start));
        assert(edges_of(Seq::<ItemModel>::empty()).len() == 0);
        lemma_reach_grows(hops, start, 0, runtime.max_depth as nat);
    } else {
        let before = walked(view, start, direction, runtime, (count - 1) as nat);
        lemma_walked_seen(view, start, direction, runtime, (count - 1) as nat);
        lemma_walked_bounded(view, start, direction, runtime, (count - 1) as nat);
        if before.queue.len() > 0 {
            let node = before.queue[0].0;
            let depth = before.queue[0].1;
            let rest = WalkModel { queue: before.queue.drop_first(), ..before };
            assert(seen_in_reach(rest, reached, good));
            if depth < runtime.max_depth {
                let taken = expansions(view, node, direction, runtime.constraints);
                lemma_reach_grows(hops, start, depth as nat, (runtime.max_depth - 1) as nat);
                assert(near.contains(node));
                assert forall|i: int| 0 <= i < taken.len() implies reached.contains(
                    (#[trigger] taken[i]).neighbor,
                ) && good(taken[i].edge) by {
                    assert(may_go(
                        view,
                        direction,
                        runtime.constraints,
                        node,
                        taken[i].neighbor,
                    ));
                    assert(hops(node, taken[i].neighbor));
                    lemma_reach_hop(hops, start, depth as nat, node, taken[i].neighbor);
                    lemma_reach_grows(hops, start, (depth + 1) as nat, runtime.max_depth as nat);
                    assert(expansions(view, node, direction, runtime.constraints)[i].edge
                        == taken[i].edge);
                }
                lemma_steps_seen(rest, view, runtime.limit, depth, taken, reached, good);
            }
        }
    }
}

/// Whether a traversal at a level has taken every edge of the nodes that it has left from, or as
/// many edges as it may.
spec fn edges_taken<G: GraphView>(
    walk: WalkModel,
    view: &G,
    start: Seq<char>,
    direction: EdgeDirection,
    runtime: RuntimeModel,
    level: u8,
    split: int,
) -> bool {
    let hops = steps(view, direction, runtime.constraints);
    let near = if level < runtime.max_depth {
        reach(hops, start, level as nat)
    } else {
        left_from(hops, start, runtime.max_depth)
    };
    walk.visited_edges.len() >= runtime.limit || forall|a: Seq<char>, i: int|
        near.contains(a) && 0 <= i < expansions(view, a, direction, runtime.constraints).len()
            ==> walk.visited_edges.contains(
            (#[trigger] expansions(view, a, direction, runtime.constraints)[i]).edge.id,
        ) || (level < runtime.max_depth && queued_before(walk.queue, split, a))
}

proof fn lemma_walked_takes<G: GraphView>(
    view: &G,
    start: Seq<char>,
    direction: EdgeDirection,
    runtime: RuntimeModel,
    count: nat,
) -> (r: (u8, int))
    requires
        view.has_node(start),
        runtime.limit >= 1,
        walked(view, start, direction, runtime, count).visited_nodes.len() < runtime.limit,
    ensures
        at_level(
            walked(view, start, direction, runtime, count),
            view,
            steps(view, direction, runtime.constraints),
            start,
            runtime.max_depth,
            r.0,
            r.1,
        ),
        edges_taken(
            walked(view, start, direction, runtime, count),
            view,
            start,
            direction,
            runtime,
            r.0,
            r.1,
        ),
    decreases count,
{
    let hops = steps(view, direction, runtime.constraints);
    let walk = walked(view, start, direction, runtime, count);
    if count == 0 {
        let (level, split) = lemma_walked_at_level(view, start, direction, runtime, 0);
        assert(walk.queue[0].0 == start);
        assert(level == 0 && split == 1) by {
            if level > 0 {
                assert(walk.queue[0].1 == 0);
                assert(split == 0);
            } else if split == 0 {
                assert(walk.queue[0].1 == 1);
            }
        }
        assert(queued_before(walk.queue, 1, start));
        (level, split)
    } else {
        let before = walked(view, start, direction, runtime, (count - 1) as nat);
        lemma_walked_grows(view, start, direction, runtime, count);
        vstd::set_lib::lemma_len_subset(before.visited_nodes, walk.visited_nodes);
        let (level, split) = lemma_walked_takes(
            view,
            start,
            direction,
            runtime,
            (count - 1) as nat,
        );
        lemma_walked_seen(view, start, direction, runtime, (count - 1) as nat);
        if before.queue.len() == 0 {
            (level, split)
        } else if split > 0 {
            lemma_keeps_level(before, view, start, direction, runtime, level, split);
            lemma_keeps_taken(before, view, start, direction, runtime, level, split);
            (level, split - 1)
        } else {
            let whole = before.queue.len() as int;
            let next = (level + 1) as u8;
            lemma_next_level(before, view, hops, start, runtime.max_depth, level);
            lemma_next_taken(before, view, start, direction, runtime, level);
            lemma_keeps_level(before, view, start, direction, runtime, next, whole);
            lemma_keeps_taken(before, view, start, direction, runtime, next, whole);
            (next, whole - 1)
        }
    }
}

proof fn lemma_next_taken<G: GraphView>(
    walk: WalkModel,
    view: &G,
    start: Seq<char>,
    direction: EdgeDirection,
    runtime: RuntimeModel,
    level: u8,
)
    requires
        at_level(
            walk,
            view,
            steps(view, direction, runtime.constraints),
            start,
            runtime.max_depth,
            level,
            0,
        ),
        edges_taken(walk, view, start, direction, runtime, level, 0),
        at_level(
            walk,
            view,
            steps(view, direction, runtime.constraints),
            start,
            runtime.max_depth,
            (level + 1) as u8,
            walk.queue.len() as int,
        ),
        walk.queue.len() > 0,
    ensures
        edges_taken(
            walk,
            view,
            start,
            direction,
            runtime,
            (level + 1) as u8,
            walk.queue.len() as int,
        ),
{
    let hops = steps(view, direction, runtime.constraints);
    let whole = walk.queue.len() as int;
    let full = reach(hops, start, level as nat);
    let next = reach(hops, start, (level + 1) as nat);
    if walk.visited_edges.len() < runtime.limit {
        assert forall|a: Seq<char>| !queued_before(walk.queue, 0, a) by {}
        assert forall|a: Seq<char>, i: int|
            next.contains(a) && 0 <= i < expansions(
                view,
                a,
                direction,
                runtime.constraints,
            ).len() implies walk.visited_edges.contains(
            (#[trigger] expansions(view, a, direction, runtime.constraints)[i]).edge.id,
        ) || queued_before(walk.queue, whole, a) by {
            if !full.contains(a) {
                assert(walk.visited_nodes.contains(a));
                assert(queued_from(walk.queue, 0, a));
                let k = choose|k: int| 0 <= k < walk.queue.len() && (#[trigger] walk.queue[k]).0
                    == a;
                assert(walk.queue[k].0 == a);
            }
        }
    }
}

proof fn lemma_keeps_taken<G: GraphView>(
    walk: WalkModel,
    view: &G,
    start: Seq<char>,
    direction: EdgeDirection,
    runtime: RuntimeModel,
    level: u8,
    split: int,
)
    requires
        at_level(
            walk,
            view,
            steps(view, direction, runtime.constraints),
            start,
            runtime.max_depth,
            level,
            split,
        ),
        edges_taken(walk, view, start, direction, runtime, level, split),
        split > 0,
        walk.visited_nodes.len() < runtime.limit,
        walk.visited_edges.finite(),
        exists|reached: Set<Seq<char>>, good: spec_fn(EdgeModel) -> bool| #[trigger]
            seen_in_reach(walk, reached, good),
    ensures
        edges_taken(
            walk.advanced(view, direction, runtime),
            view,
            start,
            direction,
            runtime,
            level,
            split - 1,
        ),
{
    let node = walk.queue[0].0;
    let rest = WalkModel { queue: walk.queue.drop_first(), ..walk };
    let next = walk.advanced(view, direction, runtime);
    assert(walk.queue[0].1 == level);
    if level < runtime.max_depth {
        let taken = expansions(view, node, direction, runtime.constraints);
        let all = Set::<Seq<char>>::full();
        let any = |edge: EdgeModel| true;
        assert(seen_in_reach(rest, all, any));
        lemma_steps_seen(rest, view, runtime.limit, level, taken, all, any);
        assert(next == rest.after_steps(view, runtime.limit, level, taken));
        lemma_queue_grows(rest, view, runtime.limit, level, taken);
        let full = reach(steps(view, direction, runtime.constraints), start, level as nat);
        if next.visited_edges.len() < runtime.limit {
            assert forall|a: Seq<char>, i: int|
                full.contains(a) && 0 <= i < expansions(
                    view,
                    a,
                    direction,
                    runtime.constraints,
                ).len() implies next.visited_edges.contains(
                (#[trigger] expansions(view, a, direction, runtime.constraints)[i]).edge.id,
            ) || queued_before(next.queue, split - 1, a) by {
                let edge = expansions(view, a, direction, runtime.constraints)[i].edge;
                if a == node {
                    assert(taken[i].edge == edge);
                } else if !walk.visited_edges.contains(edge.id) {
                    assert(queued_before(walk.queue, split, a));
                    let k = choose|k: int| 0 <= k < split && (#[trigger] walk.queue[k]).0 == a;
                    assert(k > 0);
                    assert(rest.queue[k - 1] == walk.queue[k]);
                    assert(next.queue[k - 1].0 == a);
                }
            }
        }
    }
}

proof fn lemma_queue_grows<G: GraphView>(
    walk: WalkModel,
    view: &G,
    limit: usize,
    depth: u8,
    taken: Seq<ExpansionModel>,
)
    ensures
        ({
            let next = walk.after_steps(view, limit, depth, taken);
            &&& next.queue.len() >= walk.queue.len()
            &&& forall|i: int| 0 <= i < walk.queue.len() ==> #[trigger] next.queue[i]
                == walk.queue[i]
        }),
    decreases taken.len(),
{
    if taken.len() > 0 {
        lemma_queue_grows(walk, view, limit, depth, taken.drop_last());
    }
}

/// A traversal gives out only edges that a step takes from a node that fewer hops than its depth
/// reach, and has seen only nodes in its reach. One that has come to its end, and has seen fewer
/// nodes and given out fewer edges than its limit, has given out every such edge.
pub proof fn law_traversal_edges<G: GraphView>(
    view: &G,
    start: Seq<char>,
    direction: EdgeDirection,
    runtime: RuntimeModel,
    count: nat,
)
    requires
        runtime.limit >= 1,
    ensures
        ({
            let walk = walked(view, start, direction, runtime, count);
            let hops = steps(view, direction, runtime.constraints);
            let near = left_from(hops, start, runtime.max_depth);
            let edges = edges_of(walk.items);
            &&& walk.visited_nodes.subset_of(reach(hops, start, runtime.max_depth as nat))
            &&& forall|k: int|
                0 <= k < edges.len() ==> takes_edge(
                    view,
                    direction,
                    runtime.constraints,
                    near,
                    #[trigger] edges[k],
                )
            &&& view.has_node(start) && walk.queue.len() == 0 && walk.visited_nodes.len()
                < runtime.limit && edges.len() < runtime.limit ==> forall|edge: EdgeModel|
                #[trigger]
                takes_edge(view, direction, runtime.constraints, near, edge) ==> edge_ids(
                    edges,
                ).contains(edge.id)
        }),
{
    let walk = walked(view, start, direction, runtime, count);
    let hops = steps(view, direction, runtime.constraints);
    let near = left_from(hops, start, runtime.max_depth);
    let edges = edges_of(walk.items);
    lemma_walked_seen(view, start, direction, runtime, count);
    lemma_walked_bounded(view, start, direction, runtime, count);
    if view.has_node(start) && walk.queue.len() == 0 && walk.visited_nodes.len() < runtime.limit
        && edges.len() < runtime.limit {
        let (level, split) = lemma_walked_takes(view, start, direction, runtime, count);
        let full = reach(hops, start, level as nat);
        if level < runtime.max_depth {
            assert forall|b: Seq<char>| #[trigger]
                walk.visited_nodes.contains(b) implies full.contains(b) by {
                assert(!queued_from(walk.queue, split, b));
            }
            assert forall|a: Seq<char>, b: Seq<char>| full.contains(a) && #[trigger] hops(
                a,
                b,
            ) implies full.contains(b) by {
                assert(!queued_before(walk.queue, split, a));
            }
            assert(closed_under(hops, full));
            lemma_reach_closed(hops, start, level as nat, (runtime.max_depth - 1) as nat);
        }
        assert forall|edge: EdgeModel| #[trigger]
            takes_edge(view, direction, runtime.constraints, near, edge) implies edge_ids(
            edges,
        ).contains(edge.id) by {
            let (a, i) = choose|a: Seq<char>, i: int|
                near.contains(a) && 0 <= i < expansions(
                    view,
                    a,
                    direction,
                    runtime.constraints,
                ).len() && (#[trigger] expansions(view, a, direction, runtime.constraints)[i]).edge
                    == edge;
            assert(!queued_before(walk.queue, split, a));
            assert(walk.visited_edges.contains(edge.id));
            assert(has_edge_id(edges, edge.id));
            let k = choose|k: int| 0 <= k < edges.len() && (#[trigger] edges[k]).id == edge.id;
            assert(edge_ids(edges)[k] == edge.id);
        }
    }
}

} // verus!
