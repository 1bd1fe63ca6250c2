//! What the answers to traversals and to searches for paths say of the edges of the graph.
use vstd::prelude::*;

use crate::clock::ran_out;
use crate::common::NodeId;
use crate::distances::{distances, edge_joins, joined, least_hops, ties};
use crate::execute::{answers, found_edges, found_nodes, path_answer, RankingInputs};
use crate::graph::GraphView;
use crate::index::EdgeDirection;
use crate::paths::{
    hops_fit, is_route, may_take, never_meet, path_allowed, too_many_found,
};
use crate::plan::{runtime_model, ConstraintsModel, QueryRequest, TraversalConstraints};
use crate::reach::{
    closed_under, lemma_apart, lemma_reach_back, lemma_reach_closed, lemma_reach_grows, one_hop,
    reach, turned,
};
use crate::records::EdgeModel;
use crate::replies::{asked_limit, lemma_push_holds};
use crate::results::{
    edge_items, edges_of, node_items, nodes_of, path_items, path_of, ItemModel, PathModel,
};
use crate::text;
use crate::traverse::{
    expansion, expansions, expansions_by, far_end, may_go, reversed, steps, walked, ExpansionModel,
};
use crate::truth::{of_type, stands_at, truthful};
use crate::walks::{
    edge_ids, law_traversal_edges, law_traversal_is_bounded, law_traversal_is_complete, left_from,
    node_ids, takes_edge,
};

verus! {

// ---------------------------------------------------------------------------------------------
// Steps along edges
// ---------------------------------------------------------------------------------------------

/// Whether an edge leads from a node to another one in a direction.
pub open spec fn edge_leads(
    edge: EdgeModel,
    direction: EdgeDirection,
    from: Seq<char>,
    to: Seq<char>,
) -> bool {
    ||| direction != EdgeDirection::Incoming && edge.source == from && edge.target == to
    ||| direction != EdgeDirection::Outgoing && edge.target == from && edge.source == to
}

/// Whether a list of strings holds a string.
pub open spec fn names(list: Seq<String>, name: Seq<char>) -> bool {
    exists|k: int| 0 <= k < list.len() && (#[trigger] list[k])@ == name
}

/// Whether a request admits an edge type: it asks for none, or for this one, by itself or among
/// its constraints.
pub open spec fn type_admitted(
    edge_type: Option<String>,
    constraints: Option<TraversalConstraints>,
    name: Seq<char>,
) -> bool {
    ||| edge_type is None && (constraints matches Some(c) ==> c.edge_types@.len() == 0)
    ||| edge_type matches Some(t) && t@ == name
    ||| constraints matches Some(c) && names(c.edge_types@, name)
}

/// Whether a request admits a label: it asks for none, or for this one among its constraints.
pub open spec fn label_admitted(constraints: Option<TraversalConstraints>, label: Seq<char>) -> bool {
    constraints matches Some(c) ==> c.node_labels@.len() == 0 || names(c.node_labels@, label)
}

/// Whether an edge of the graph takes a request from a node to another one: it leads there in the
/// direction, is of a type that is admitted, and the graph has the other node, with a label that is
/// admitted.
pub open spec fn edge_takes<G: GraphView>(
    view: &G,
    direction: EdgeDirection,
    edge_type: Option<String>,
    constraints: Option<TraversalConstraints>,
    edge: EdgeModel,
    from: Seq<char>,
    to: Seq<char>,
) -> bool {
    &&& view.edge_at(edge.id) == Some(edge)
    &&& edge_leads(edge, direction, from, to)
    &&& type_admitted(edge_type, constraints, edge.edge_type)
    &&& view.node_at(to) matches Some(node) && label_admitted(constraints, node.node_type)
}

/// Whether some edge takes a request from a node to another one.
pub open spec fn goes<G: GraphView>(
    view: &G,
    direction: EdgeDirection,
    edge_type: Option<String>,
    constraints: Option<TraversalConstraints>,
) -> spec_fn(Seq<char>, Seq<char>) -> bool {
    |a: Seq<char>, b: Seq<char>|
        exists|edge: EdgeModel| #[trigger]
            edge_takes(view, direction, edge_type, constraints, edge, a, b)
}

/// The constraints of a request with its edge type.
pub open spec fn asked_constraints(
    edge_type: Option<String>,
    constraints: Option<TraversalConstraints>,
) -> ConstraintsModel {
    runtime_model(None, None, None, constraints).merged(
        text::optional_string(edge_type),
    ).constraints
}

proof fn lemma_names(list: Seq<String>, name: Seq<char>)
    ensures
        text::texts(list).contains(name) <==> names(list, name),
{
    let all = text::texts(list);
    if all.contains(name) {
        let k = choose|k: int| 0 <= k < all.len() && all[k] == name;
        assert(list[k]@ == name);
    }
    if names(list, name) {
        let k = choose|k: int| 0 <= k < list.len() && (#[trigger] list[k])@ == name;
        assert(all[k] == name);
    }
}

proof fn lemma_admitted(
    edge_type: Option<String>,
    constraints: Option<TraversalConstraints>,
    name: Seq<char>,
)
    ensures
        asked_constraints(edge_type, constraints).admits_edge_type(name) <==> type_admitted(
            edge_type,
            constraints,
            name,
        ),
        asked_constraints(edge_type, constraints).admits_label(name) <==> label_admitted(
            constraints,
            name,
        ),
{
    let model = crate::plan::constraints_model(constraints);
    match constraints {
        Some(c) => {
            lemma_names(c.edge_types@, name);
            lemma_names(c.node_labels@, name);
        },
        None => {},
    }
    match edge_type {
        Some(t) => {
            crate::reach::lemma_push_contains(model.edge_types, t@, name);
            assert(asked_constraints(edge_type, constraints).edge_types
                == crate::ordered::with_unique(model.edge_types, t@));
            if model.edge_types.contains(t@) {
                let k = choose|k: int| 0 <= k < model.edge_types.len() && model.edge_types[k] == t@;
                assert(model.edge_types.len() > 0);
            }
        },
        None => {},
    }
}

/// Which edges the steps from a node take, and where to.
proof fn lemma_steps_by<G: GraphView>(
    view: &G,
    node: Seq<char>,
    direction: EdgeDirection,
    constraints: ConstraintsModel,
    ids: Seq<Seq<char>>,
    step: ExpansionModel,
)
    ensures
        expansions_by(view, node, direction, constraints, ids).contains(step) <==> (exists|
            id: Seq<char>,
        |
            #![trigger ids.contains(id)]
            ids.contains(id) && expansion(view, node, direction, constraints, id) == Some(step)),
    decreases ids.len(),
{
    if ids.len() > 0 {
        let short = ids.drop_last();
        let last = ids.last();
        lemma_steps_by(view, node, direction, constraints, short, step);
        assert(ids =~= short.push(last));
        assert forall|id: Seq<char>| #[trigger] ids.contains(id) <==> short.contains(id) || id
            == last by {
            crate::reach::lemma_push_contains(short, last, id);
        }
        let before = expansions_by(view, node, direction, constraints, short);
        match expansion(view, node, direction, constraints, last) {
            Some(found) => {
                lemma_push_holds(before, found, step);
            },
            None => {},
        }
        if before.contains(step) {
            let id = choose|id: Seq<char>|
                #![trigger short.contains(id)]
                short.contains(id) && expansion(view, node, direction, constraints, id) == Some(
                    step,
                );
            assert(ids.contains(id));
        }
        assert(ids.contains(last));
    }
}

/// A step takes an edge to a node exactly if the edge takes the request there.
proof fn lemma_step_is_edge<G: GraphView>(
    view: &G,
    direction: EdgeDirection,
    edge_type: Option<String>,
    constraints: Option<TraversalConstraints>,
    from: Seq<char>,
    edge: EdgeModel,
    to: Seq<char>,
)
    requires
        truthful(view),
    ensures
        expansions(view, from, direction, asked_constraints(edge_type, constraints)).contains(
            ExpansionModel { edge, neighbor: to },
        ) <==> edge_takes(view, direction, edge_type, constraints, edge, from, to),
{
    let c = asked_constraints(edge_type, constraints);
    let ids = view.incident_ids(from, direction, None);
    let step = ExpansionModel { edge, neighbor: to };
    lemma_steps_by(view, from, direction, c, ids, step);
    lemma_admitted(edge_type, constraints, edge.edge_type);
    if view.node_at(to) is Some {
        lemma_admitted(edge_type, constraints, view.node_at(to)->0.node_type);
    }
    if expansions(view, from, direction, c).contains(step) {
        let id = choose|id: Seq<char>|
            #![trigger ids.contains(id)]
            ids.contains(id) && expansion(view, from, direction, c, id) == Some(step);
        assert(view.incident_ids(from, direction, None).contains(id));
        assert(view.edge_at(id) == Some(edge));
        assert(stands_at(edge, from, direction));
    }
    if edge_takes(view, direction, edge_type, constraints, edge, from, to) {
        assert(stands_at(edge, from, direction));
        assert(of_type(edge, None));
        assert(view.incident_ids(from, direction, None).contains(edge.id));
        assert(expansion(view, from, direction, c, edge.id) == Some(step));
    }
}

/// A walk goes from a node to another one exactly if some edge of the graph takes it there.
pub proof fn law_steps_follow_edges<G: GraphView>(
    view: &G,
    direction: EdgeDirection,
    edge_type: Option<String>,
    constraints: Option<TraversalConstraints>,
)
    requires
        truthful(view),
    ensures
        steps(view, direction, asked_constraints(edge_type, constraints)) == goes(
            view,
            direction,
            edge_type,
            constraints,
        ),
{
    let c = asked_constraints(edge_type, constraints);
    let hops = steps(view, direction, c);
    let along = goes(view, direction, edge_type, constraints);
    assert forall|a: Seq<char>, b: Seq<char>| #[trigger] hops(a, b) == along(a, b) by {
        let all = expansions(view, a, direction, c);
        if hops(a, b) {
            assert(may_go(view, direction, c, a, b));
            let i = choose|i: int|
                0 <= i < expansions(view, a, direction, c).len() && (#[trigger] expansions(
                    view,
                    a,
                    direction,
                    c,
                )[i]).neighbor == b;
            let edge = all[i].edge;
            assert(all[i] == ExpansionModel { edge, neighbor: b });
            assert(all.contains(all[i]));
            lemma_step_is_edge(view, direction, edge_type, constraints, a, edge, b);
            assert(edge_takes(view, direction, edge_type, constraints, edge, a, b));
        }
        if along(a, b) {
            let edge = choose|edge: EdgeModel| #[trigger]
                edge_takes(view, direction, edge_type, constraints, edge, a, b);
            lemma_step_is_edge(view, direction, edge_type, constraints, a, edge, b);
            let step = ExpansionModel { edge, neighbor: b };
            assert(all.contains(step));
            let i = choose|i: int| 0 <= i < all.len() && all[i] == step;
            assert(expansions(view, a, direction, c)[i].neighbor == b);
            assert(may_go(view, direction, c, a, b));
        }
    }
    assert(hops =~= along);
}

// ---------------------------------------------------------------------------------------------
// Traversals
// ---------------------------------------------------------------------------------------------

/// The depth that a request sets, or 5 where it sets none.
pub open spec fn asked_depth(max_depth: Option<u8>) -> nat {
    match max_depth {
        Some(d) => d as nat,
        None => 5,
    }
}

/// The time in milliseconds that a request sets, or 5000 where it sets none.
pub open spec fn asked_time(timeout_ms: Option<u64>) -> u64 {
    match timeout_ms {
        Some(t) => t,
        None => 5000,
    }
}

/// Whether an edge takes a request from one of the given nodes somewhere.
pub open spec fn edge_leaves<G: GraphView>(
    view: &G,
    direction: EdgeDirection,
    edge_type: Option<String>,
    constraints: Option<TraversalConstraints>,
    near: Set<Seq<char>>,
    edge: EdgeModel,
) -> bool {
    exists|a: Seq<char>, b: Seq<char>|
        near.contains(a) && #[trigger] edge_takes(
            view,
            direction,
            edge_type,
            constraints,
            edge,
            a,
            b,
        )
}

proof fn lemma_takes_is_leaves<G: GraphView>(
    view: &G,
    direction: EdgeDirection,
    edge_type: Option<String>,
    constraints: Option<TraversalConstraints>,
    near: Set<Seq<char>>,
    edge: EdgeModel,
)
    requires
        truthful(view),
    ensures
        takes_edge(view, direction, asked_constraints(edge_type, constraints), near, edge)
            <==> edge_leaves(view, direction, edge_type, constraints, near, edge),
{
    let c = asked_constraints(edge_type, constraints);
    if takes_edge(view, direction, c, near, edge) {
        let (a, i) = choose|a: Seq<char>, i: int|
            near.contains(a) && 0 <= i < expansions(view, a, direction, c).len() && (
            #[trigger] expansions(view, a, direction, c)[i]).edge == edge;
        let all = expansions(view, a, direction, c);
        let b = all[i].neighbor;
        assert(all[i] == ExpansionModel { edge, neighbor: b });
        assert(all.contains(all[i]));
        lemma_step_is_edge(view, direction, edge_type, constraints, a, edge, b);
    }
    if edge_leaves(view, direction, edge_type, constraints, near, edge) {
        let (a, b) = choose|a: Seq<char>, b: Seq<char>|
            near.contains(a) && #[trigger] edge_takes(
                view,
                direction,
                edge_type,
                constraints,
                edge,
                a,
                b,
            );
        lemma_step_is_edge(view, direction, edge_type, constraints, a, edge, b);
        let all = expansions(view, a, direction, c);
        let step = ExpansionModel { edge, neighbor: b };
        let i = choose|i: int| 0 <= i < all.len() && all[i] == step;
        assert(expansions(view, a, direction, c)[i].edge == edge);
    }
}

/// Whether an answer to a traversal holds only what it may: nodes that can be reached from the
/// start in as many hops as are asked for, and edges that lead on from nodes that fewer hops reach;
/// no more of either than the limit, and none twice.
pub open spec fn tour_in_reach<G: GraphView>(
    view: &G,
    start: Seq<char>,
    edge_type: Option<String>,
    direction: EdgeDirection,
    max_hops: Option<u8>,
    limit: Option<usize>,
    constraints: Option<TraversalConstraints>,
    items: Seq<ItemModel>,
) -> bool {
    let hops = goes(view, direction, edge_type, constraints);
    &&& forall|i: int|
        0 <= i < nodes_of(items).len() ==> view.node_at((#[trigger] nodes_of(items)[i]).id) == Some(
            nodes_of(items)[i],
        ) && reach(hops, start, asked_depth(max_hops)).contains(nodes_of(items)[i].id)
    &&& edges_of(items).len() > 0 ==> asked_depth(max_hops) > 0
    &&& forall|i: int|
        0 <= i < edges_of(items).len() ==> edge_leaves(
            view,
            direction,
            edge_type,
            constraints,
            reach(hops, start, (asked_depth(max_hops) - 1) as nat),
            #[trigger] edges_of(items)[i],
        )
    &&& nodes_of(items).len() <= asked_limit(limit)
    &&& edges_of(items).len() <= asked_limit(limit)
    &&& node_ids(nodes_of(items)).no_duplicates()
    &&& edge_ids(edges_of(items)).no_duplicates()
}

/// A traversal gives out only nodes and edges in its reach. From a node that the graph does not
/// have it gives out nothing. Unless the clock showed that its time was up, it gives out every node
/// that can be reached in as many hops as are asked for, provided that these are fewer than the
/// limit; and then every edge that leads on from nodes that fewer hops reach, provided that it gives
/// out fewer edges than the limit.
pub proof fn law_traversal<G: GraphView>(
    view: &G,
    start_node_id: NodeId,
    edge_type: Option<String>,
    direction: EdgeDirection,
    max_hops: Option<u8>,
    limit: Option<usize>,
    timeout_ms: Option<u64>,
    constraints: Option<TraversalConstraints>,
    inputs: RankingInputs,
    items: Seq<ItemModel>,
)
    requires
        answers(
            QueryRequest::Traverse {
                start_node_id,
                edge_type,
                direction,
                max_hops,
                limit,
                timeout_ms,
                constraints,
            },
            view,
            inputs,
            items,
        ),
        truthful(view),
        asked_limit(limit) >= 1,
    ensures
        tour_in_reach(
            view,
            start_node_id@,
            edge_type,
            direction,
            max_hops,
            limit,
            constraints,
            items,
        ),
        view.node_at(start_node_id@) is None ==> items.len() == 0,
        view.node_at(start_node_id@) is Some ==> items.len() > 0 && items[0] == ItemModel::Node(
            view.node_at(start_node_id@)->0,
        ),
        ({
            let hops = goes(view, direction, edge_type, constraints);
            let reached = reach(hops, start_node_id@, asked_depth(max_hops));
            !ran_out(asked_time(timeout_ms)) && view.node_at(start_node_id@) is Some
                && reached.len() < asked_limit(limit) ==> {
                &&& forall|id: Seq<char>| #[trigger]
                    reached.contains(id) ==> (view.node_at(id) matches Some(node)
                        && nodes_of(items).contains(node))
                &&& edges_of(items).len() < asked_limit(limit) && asked_depth(max_hops) > 0
                    ==> forall|edge: EdgeModel| #[trigger]
                    edge_leaves(
                        view,
                        direction,
                        edge_type,
                        constraints,
                        reach(hops, start_node_id@, (asked_depth(max_hops) - 1) as nat),
                        edge,
                    ) ==> edges_of(items).contains(edge)
            }
        }),
{
    let start = start_node_id@;
    let runtime = runtime_model(max_hops, limit, timeout_ms, constraints).merged(
        text::optional_string(edge_type),
    );
    let c = asked_constraints(edge_type, constraints);
    assert(runtime.constraints == c);
    law_steps_follow_edges(view, direction, edge_type, constraints);
    let hops = goes(view, direction, edge_type, constraints);
    let count = choose|count: nat|
        {
            let walk = #[trigger] walked(view, start, direction, runtime, count);
            &&& items == walk.items
            &&& walk.queue.len() == 0 || ran_out(asked_time(timeout_ms))
        };
    let walk = walked(view, start, direction, runtime, count);
    law_traversal_is_bounded(view, start, direction, runtime, count);
    law_traversal_edges(view, start, direction, runtime, count);
    lemma_walk_starts(view, start, direction, runtime, count);
    let near = left_from(hops, start, runtime.max_depth);
    let edges = edges_of(items);
    let nodes = nodes_of(items);
    let reached = reach(hops, start, asked_depth(max_hops));
    assert forall|i: int| 0 <= i < edges_of(items).len() implies edge_leaves(
        view,
        direction,
        edge_type,
        constraints,
        reach(
            goes(view, direction, edge_type, constraints),
            start,
            (asked_depth(max_hops) - 1) as nat,
        ),
        #[trigger] edges_of(items)[i],
    ) by {
        lemma_takes_is_leaves(view, direction, edge_type, constraints, near, edges[i]);
    }
    if edges.len() > 0 {
        lemma_takes_is_leaves(view, direction, edge_type, constraints, near, edges[0]);
    }
    assert forall|i: int| 0 <= i < nodes.len() implies view.node_at((#[trigger] nodes[i]).id)
        == Some(nodes[i]) && reached.contains(nodes[i].id) by {
        assert(crate::walks::found_under(view, reached, nodes[i]));
    }
    assert(crate::walks::keyed(view));
    assert(tour_in_reach(
        view,
        start,
        edge_type,
        direction,
        max_hops,
        limit,
        constraints,
        items,
    ));
    if !ran_out(asked_time(timeout_ms)) && view.node_at(start) is Some && reached.len()
        < asked_limit(limit) {
        assert forall|a: Seq<char>| (#[trigger] fan_of(hops, a)).finite() by {
            lemma_steps_finite(view, direction, c, a);
        }
        lemma_reach_finite(hops, start, runtime.max_depth as nat);
        vstd::set_lib::lemma_len_subset(walk.visited_nodes, reached);
        assert(view.has_node(start));
        law_traversal_is_complete(view, start, direction, runtime, count);
        assert forall|id: Seq<char>| #[trigger] reached.contains(id) implies (view.node_at(
            id,
        ) matches Some(node) && nodes.contains(node)) by {
            lemma_reached_is_there(
                view,
                direction,
                edge_type,
                constraints,
                start,
                asked_depth(max_hops),
                id,
            );
            let node = view.node_at(id)->0;
            assert(nodes.contains(node));
        }
        if edges.len() < asked_limit(limit) && asked_depth(max_hops) > 0 {
            assert forall|edge: EdgeModel| #[trigger] edge_leaves(
                view,
                direction,
                edge_type,
                constraints,
                near,
                edge,
            ) implies edges.contains(edge) by {
                lemma_takes_is_leaves(view, direction, edge_type, constraints, near, edge);
                assert(edge_ids(edges).contains(edge.id));
                let k = choose|k: int| 0 <= k < edges.len() && edge_ids(edges)[k] == edge.id;
                assert(edge_leaves(
                    view,
                    direction,
                    edge_type,
                    constraints,
                    near,
                    edges[k],
                ));
                assert(edges[k] == edge);
            }
        }
    }
}

/// What can be reached from a node of the graph are nodes of the graph.
proof fn lemma_reached_is_there<G: GraphView>(
    view: &G,
    direction: EdgeDirection,
    edge_type: Option<String>,
    constraints: Option<TraversalConstraints>,
    start: Seq<char>,
    count: nat,
    id: Seq<char>,
)
    requires
        view.node_at(start) is Some,
        reach(goes(view, direction, edge_type, constraints), start, count).contains(id),
    ensures
        view.node_at(id) is Some,
    decreases count,
{
    let hops = goes(view, direction, edge_type, constraints);
    if count > 0 {
        let near = reach(hops, start, (count - 1) as nat);
        if near.contains(id) {
            lemma_reached_is_there(
                view,
                direction,
                edge_type,
                constraints,
                start,
                (count - 1) as nat,
                id,
            );
        } else {
            let a = choose|a: Seq<char>| near.contains(a) && #[trigger] hops(a, id);
            let edge = choose|edge: EdgeModel| #[trigger]
                edge_takes(view, direction, edge_type, constraints, edge, a, id);
            assert(view.node_at(id) is Some);
        }
    }
}

/// Where finitely many nodes are one hop from each node, finitely many can be reached.
pub proof fn lemma_reach_finite(
    hops: spec_fn(Seq<char>, Seq<char>) -> bool,
    start: Seq<char>,
    count: nat,
)
    requires
        forall|a: Seq<char>| (#[trigger] fan_of(hops, a)).finite(),
    ensures
        reach(hops, start, count).finite(),
    decreases count,
{
    let whole = reach(hops, start, count);
    if count > 0 {
        lemma_reach_finite(hops, start, (count - 1) as nat);
        let near = reach(hops, start, (count - 1) as nat);
        let fan = |a: Seq<char>| fan_of(hops, a);
        assert forall|a: Seq<char>| near.contains(a) implies (#[trigger] fan(a)).finite() by {
            assert(fan_of(hops, a).finite());
        }
        lemma_union_finite(near, fan);
        let spread = Set::new(
            |b: Seq<char>| exists|a: Seq<char>| near.contains(a) && #[trigger] fan(a).contains(b),
        );
        assert forall|b: Seq<char>| #[trigger] whole.contains(b) implies near.union(
            spread,
        ).contains(b) by {
            if !near.contains(b) {
                let a = choose|a: Seq<char>| near.contains(a) && #[trigger] hops(a, b);
                assert(fan(a).contains(b));
            }
        }
        vstd::set_lib::lemma_set_subset_finite(near.union(spread), whole);
    }
}

/// The nodes that are one hop from a node.
pub open spec fn fan_of(hops: spec_fn(Seq<char>, Seq<char>) -> bool, a: Seq<char>) -> Set<
    Seq<char>,
> {
    Set::new(|b: Seq<char>| hops(a, b))
}

/// Finitely many nodes are one step from a node.
proof fn lemma_steps_finite<G: GraphView>(
    view: &G,
    direction: EdgeDirection,
    constraints: ConstraintsModel,
    a: Seq<char>,
)
    ensures
        fan_of(steps(view, direction, constraints), a).finite(),
{
    let fan = fan_of(steps(view, direction, constraints), a);
    let all = expansions(view, a, direction, constraints);
    let ends = Seq::new(all.len(), |i: int| all[i].neighbor);
    vstd::seq_lib::seq_to_set_is_finite(ends);
    assert forall|b: Seq<char>| #[trigger] fan.contains(b) implies ends.to_set().contains(b) by {
        assert(may_go(view, direction, constraints, a, b));
        let i = choose|i: int|
            0 <= i < expansions(view, a, direction, constraints).len() && (#[trigger] expansions(
                view,
                a,
                direction,
                constraints,
            )[i]).neighbor == b;
        assert(ends[i] == b);
    }
    vstd::set_lib::lemma_set_subset_finite(ends.to_set(), fan);
}

/// Finitely many finite sets are finite together.
proof fn lemma_union_finite(
    from: Set<Seq<char>>,
    fan: spec_fn(Seq<char>) -> Set<Seq<char>>,
)
    requires
        from.finite(),
        forall|a: Seq<char>| from.contains(a) ==> (#[trigger] fan(a)).finite(),
    ensures
        Set::new(
            |b: Seq<char>| exists|a: Seq<char>| from.contains(a) && #[trigger] fan(a).contains(b),
        ).finite(),
    decreases from.len(),
{
    let whole = Set::new(
        |b: Seq<char>| exists|a: Seq<char>| from.contains(a) && #[trigger] fan(a).contains(b),
    );
    if from.len() == 0 {
        assert(whole =~= Set::<Seq<char>>::empty());
    } else {
        let a = from.choose();
        let less = from.remove(a);
        lemma_union_finite(less, fan);
        let part = Set::new(
            |b: Seq<char>| exists|x: Seq<char>| less.contains(x) && #[trigger] fan(x).contains(b),
        );
        assert(whole =~= part.union(fan(a))) by {
            assert forall|b: Seq<char>| #[trigger] whole.contains(b) <==> part.union(
                fan(a),
            ).contains(b) by {
                if whole.contains(b) {
                    let x = choose|x: Seq<char>| from.contains(x) && #[trigger] fan(x).contains(b);
                    if x != a {
                        assert(less.contains(x));
                    }
                }
                if part.contains(b) {
                    let x = choose|x: Seq<char>| less.contains(x) && #[trigger] fan(x).contains(b);
                    assert(from.contains(x) && fan(x).contains(b));
                }
                if fan(a).contains(b) {
                    assert(from.contains(a) && fan(a).contains(b));
                }
            }
        }
    }
}

/// A traversal gives out its start first.
proof fn lemma_walk_starts<G: GraphView>(
    view: &G,
    start: Seq<char>,
    direction: EdgeDirection,
    runtime: crate::plan::RuntimeModel,
    count: nat,
)
    requires
        truthful(view),
    ensures
        ({
            let items = walked(view, start, direction, runtime, count).items;
            &&& view.node_at(start) is None ==> items.len() == 0 && walked(
                view,
                start,
                direction,
                runtime,
                count,
            ).queue.len() == 0
            &&& view.node_at(start) is Some ==> items.len() > 0 && items[0] == ItemModel::Node(
                view.node_at(start)->0,
            )
        }),
    decreases count,
{
    if count > 0 {
        lemma_walk_starts(view, start, direction, runtime, (count - 1) as nat);
        let before = walked(view, start, direction, runtime, (count - 1) as nat);
        if before.queue.len() > 0 {
            let rest = crate::traverse::WalkModel { queue: before.queue.drop_first(), ..before };
            lemma_items_grow(
                rest,
                view,
                runtime.limit,
                before.queue[0].1,
                expansions(view, before.queue[0].0, direction, runtime.constraints),
            );
        }
    } else {
        assert(view.has_node(start) <==> view.node_at(start) is Some);
    }
}

proof fn lemma_items_grow<G: GraphView>(
    walk: crate::traverse::WalkModel,
    view: &G,
    limit: usize,
    depth: u8,
    taken: Seq<ExpansionModel>,
)
    ensures
        ({
            let next = walk.after_steps(view, limit, depth, taken).items;
            next.len() >= walk.items.len() && forall|i: int|
                0 <= i < walk.items.len() ==> next[i] == #[trigger] walk.items[i]
        }),
    decreases taken.len(),
{
    if taken.len() > 0 {
        lemma_items_grow(walk, view, limit, depth, taken.drop_last());
    }
}

// ---------------------------------------------------------------------------------------------
// Paths
// ---------------------------------------------------------------------------------------------

/// Whether the graph has a node and a request admits its label.
pub open spec fn node_admitted<G: GraphView>(
    view: &G,
    constraints: Option<TraversalConstraints>,
    id: Seq<char>,
) -> bool {
    view.node_at(id) matches Some(node) && label_admitted(constraints, node.node_type)
}

/// Whether a path leads from a node to another one along edges of the graph: every hop takes an
/// edge in the direction and of a type that is admitted, and the nodes between the ends are nodes
/// of the graph with labels that are admitted.
pub open spec fn path_is_real<G: GraphView>(
    view: &G,
    source: Seq<char>,
    target: Seq<char>,
    direction: EdgeDirection,
    constraints: Option<TraversalConstraints>,
    path: PathModel,
) -> bool {
    &&& path.edge_ids.len() == path.hop_count
    &&& path.node_ids.len() == path.hop_count + 1
    &&& path.node_ids[0] == source
    &&& path.node_ids[path.hop_count as int] == target
    &&& forall|k: int|
        0 <= k < path.hop_count ==> (view.edge_at(#[trigger] path.edge_ids[k]) matches Some(edge)
            && edge_leads(edge, direction, path.node_ids[k], path.node_ids[k + 1])
            && type_admitted(None, constraints, edge.edge_type))
    &&& forall|k: int|
        0 < k < path.hop_count ==> node_admitted(view, constraints, #[trigger] path.node_ids[k])
}

/// A step of a search takes an edge of the graph.
proof fn lemma_may_take<G: GraphView>(
    view: &G,
    direction: EdgeDirection,
    constraints: Option<TraversalConstraints>,
    from: Seq<char>,
    to: Seq<char>,
    edge_id: Seq<char>,
)
    requires
        truthful(view),
        may_take(view, direction, asked_constraints(None, constraints), from, to, edge_id),
    ensures
        view.edge_at(edge_id) matches Some(edge) && edge_leads(edge, direction, from, to)
            && type_admitted(None, constraints, edge.edge_type),
        node_admitted(view, constraints, to),
{
    let c = asked_constraints(None, constraints);
    let all = expansions(view, from, direction, c);
    let i = choose|i: int|
        0 <= i < expansions(view, from, direction, c).len() && (#[trigger] expansions(
            view,
            from,
            direction,
            c,
        )[i]).neighbor == to && expansions(view, from, direction, c)[i].edge.id == edge_id;
    let edge = all[i].edge;
    assert(all[i] == ExpansionModel { edge, neighbor: to });
    assert(all.contains(all[i]));
    lemma_step_is_edge(view, direction, None, constraints, from, edge, to);
}

proof fn lemma_route_is_real<G: GraphView>(
    view: &G,
    source: Seq<char>,
    target: Seq<char>,
    direction: EdgeDirection,
    constraints: Option<TraversalConstraints>,
    path: PathModel,
)
    requires
        truthful(view),
        is_route(view, direction, asked_constraints(None, constraints), path, source, target),
    ensures
        path_is_real(view, source, target, direction, constraints, path),
{
    let c = asked_constraints(None, constraints);
    let split = choose|split: int| #[trigger] hops_fit(view, direction, c, path, split);
    assert forall|k: int| 0 <= k < path.hop_count implies (view.edge_at(
        #[trigger] path.edge_ids[k],
    ) matches Some(edge) && edge_leads(edge, direction, path.node_ids[k], path.node_ids[k + 1])
        && type_admitted(None, constraints, edge.edge_type)) by {
        let a = path.node_ids[k];
        let b = path.node_ids[k + 1];
        if k < split {
            lemma_may_take(view, direction, constraints, a, b, path.edge_ids[k]);
        } else {
            lemma_may_take(view, reversed(direction), constraints, b, a, path.edge_ids[k]);
        }
    }
    assert forall|k: int| 0 < k < path.hop_count implies node_admitted(
        view,
        constraints,
        #[trigger] path.node_ids[k],
    ) by {
        let b = path.node_ids[k];
        if k <= split {
            let edge_id = path.edge_ids[k - 1];
            assert(may_take(view, direction, c, path.node_ids[k - 1], b, edge_id));
            lemma_may_take(view, direction, constraints, path.node_ids[k - 1], b, edge_id);
        } else {
            let edge_id = path.edge_ids[k];
            assert(may_take(view, reversed(direction), c, path.node_ids[k + 1], b, edge_id));
            lemma_may_take(
                view,
                reversed(direction),
                constraints,
                path.node_ids[k + 1],
                b,
                edge_id,
            );
        }
    }
}

/// Where the graph has every node of a list of ids, they are found one by one.
pub proof fn lemma_all_found<G: GraphView>(view: &G, ids: Seq<Seq<char>>)
    requires
        forall|k: int| 0 <= k < ids.len() ==> view.node_at(#[trigger] ids[k]) is Some,
    ensures
        found_nodes(view, ids).len() == ids.len(),
        forall|k: int|
            0 <= k < ids.len() ==> view.node_at(#[trigger] ids[k]) == Some(
                found_nodes(view, ids)[k],
            ),
    decreases ids.len(),
{
    if ids.len() > 0 {
        let short = ids.drop_last();
        assert forall|k: int| 0 <= k < short.len() implies view.node_at(
            #[trigger] short[k],
        ) is Some by {
            assert(view.node_at(ids[k]) is Some);
        }
        lemma_all_found(view, short);
        assert(view.node_at(ids[ids.len() - 1]) is Some);
        assert forall|k: int| 0 <= k < ids.len() implies view.node_at(#[trigger] ids[k]) == Some(
            found_nodes(view, ids)[k],
        ) by {
            if k < short.len() {
                assert(view.node_at(short[k]) == Some(found_nodes(view, short)[k]));
            }
        }
    }
}

/// Where the graph has every edge of a list of ids, they are found one by one.
proof fn lemma_all_edges_found<G: GraphView>(view: &G, ids: Seq<Seq<char>>)
    requires
        forall|k: int| 0 <= k < ids.len() ==> view.edge_at(#[trigger] ids[k]) is Some,
    ensures
        found_edges(view, ids).len() == ids.len(),
        forall|k: int|
            0 <= k < ids.len() ==> view.edge_at(#[trigger] ids[k]) == Some(
                found_edges(view, ids)[k],
            ),
    decreases ids.len(),
{
    if ids.len() > 0 {
        let short = ids.drop_last();
        assert forall|k: int| 0 <= k < short.len() implies view.edge_at(
            #[trigger] short[k],
        ) is Some by {
            assert(view.edge_at(ids[k]) is Some);
        }
        lemma_all_edges_found(view, short);
        assert(view.edge_at(ids[ids.len() - 1]) is Some);
        assert forall|k: int| 0 <= k < ids.len() implies view.edge_at(#[trigger] ids[k]) == Some(
            found_edges(view, ids)[k],
        ) by {
            if k < short.len() {
                assert(view.edge_at(short[k]) == Some(found_edges(view, short)[k]));
            }
        }
    }
}

proof fn lemma_path_parts<G: GraphView>(view: &G, path: Option<PathModel>)
    ensures
        path_of(path_answer(view, path)) == path,
        path is None ==> path_answer(view, path).len() == 0,
        path matches Some(p) ==> nodes_of(path_answer(view, path)) == found_nodes(view, p.node_ids)
            && edges_of(path_answer(view, path)) == found_edges(view, p.edge_ids),
{
    match path {
        Some(p) => {
            let head = node_items(found_nodes(view, p.node_ids));
            let middle = edge_items(found_edges(view, p.edge_ids));
            let tail = path_items(path);
            crate::results::lemma_node_items(found_nodes(view, p.node_ids));
            crate::results::lemma_edge_items(found_edges(view, p.edge_ids));
            crate::results::lemma_prefix_items(head, middle);
            crate::results::lemma_prefix_items(head + middle, tail);
            assert(tail.last() == ItemModel::Path(p));
            assert(tail.drop_last() =~= Seq::<ItemModel>::empty());
            assert(nodes_of(Seq::<ItemModel>::empty()).len() == 0);
            assert(edges_of(Seq::<ItemModel>::empty()).len() == 0);
            assert(nodes_of(tail).len() == 0);
            assert(edges_of(tail).len() == 0);
            assert(nodes_of(path_answer(view, path)) =~= found_nodes(view, p.node_ids));
            assert(edges_of(path_answer(view, path)) =~= found_edges(view, p.edge_ids));
        },
        None => {},
    }
}

/// The answer to a search for a path holds no more than the path, and with it its nodes and its
/// edges, in the order of the path. The path leads from the one node to the other along edges of
/// the graph; from a node to itself it has no hops. There is none where the graph does not have
/// one of the two.
pub proof fn law_path_is_real<G: GraphView>(
    view: &G,
    source_node_id: NodeId,
    target_node_id: NodeId,
    direction: EdgeDirection,
    max_depth: Option<u8>,
    limit: Option<usize>,
    timeout_ms: Option<u64>,
    constraints: Option<TraversalConstraints>,
    inputs: RankingInputs,
    items: Seq<ItemModel>,
)
    requires
        answers(
            QueryRequest::ShortestPath {
                source_node_id,
                target_node_id,
                direction,
                max_depth,
                limit,
                timeout_ms,
                constraints,
            },
            view,
            inputs,
            items,
        ),
        truthful(view),
    ensures
        path_of(items) is None ==> items.len() == 0,
        view.node_at(source_node_id@) is None || view.node_at(target_node_id@) is None
            ==> path_of(items) is None,
        path_of(items) matches Some(path) ==> {
            &&& path_is_real(
                view,
                source_node_id@,
                target_node_id@,
                direction,
                constraints,
                path,
            )
            &&& path.hop_count == 0 <==> source_node_id@ == target_node_id@
            &&& path.hop_count <= 2 * asked_depth(max_depth)
            &&& nodes_of(items).len() == path.node_ids.len()
            &&& forall|k: int|
                0 <= k < path.node_ids.len() ==> view.node_at(#[trigger] path.node_ids[k]) == Some(
                    nodes_of(items)[k],
                )
            &&& edges_of(items).len() == path.edge_ids.len()
            &&& forall|k: int|
                0 <= k < path.edge_ids.len() ==> view.edge_at(#[trigger] path.edge_ids[k]) == Some(
                    edges_of(items)[k],
                )
        },
        view.node_at(source_node_id@) is Some && source_node_id@ == target_node_id@ ==> path_of(
            items,
        ) is Some,
{
    let source = source_node_id@;
    let target = target_node_id@;
    let runtime = runtime_model(max_depth, limit, timeout_ms, constraints);
    let c = asked_constraints(None, constraints);
    assert(runtime.constraints == c);
    let path = choose|path: Option<PathModel>|
        items == path_answer(view, path) && #[trigger] path_allowed(
            view,
            source,
            target,
            direction,
            runtime,
            path,
        );
    lemma_path_parts(view, path);
    assert(view.has_node(source) <==> view.node_at(source) is Some);
    assert(view.has_node(target) <==> view.node_at(target) is Some);
    match path {
        Some(p) => {
            lemma_route_is_real(view, source, target, direction, constraints, p);
            assert forall|k: int| 0 <= k < p.node_ids.len() implies view.node_at(
                #[trigger] p.node_ids[k],
            ) is Some by {
                if 0 < k < p.hop_count {
                    assert(node_admitted(view, constraints, p.node_ids[k]));
                }
            }
            assert forall|k: int| 0 <= k < p.edge_ids.len() implies view.edge_at(
                #[trigger] p.edge_ids[k],
            ) is Some by {}
            lemma_all_found(view, p.node_ids);
            lemma_all_edges_found(view, p.edge_ids);
        },
        None => {},
    }
}

/// The steps between nodes that are admitted.
spec fn among<G: GraphView>(
    view: &G,
    direction: EdgeDirection,
    constraints: Option<TraversalConstraints>,
) -> spec_fn(Seq<char>, Seq<char>) -> bool {
    |a: Seq<char>, b: Seq<char>|
        goes(view, direction, None, constraints)(a, b) && node_admitted(view, constraints, a)
}

proof fn lemma_among_turned<G: GraphView>(
    view: &G,
    direction: EdgeDirection,
    constraints: Option<TraversalConstraints>,
)
    ensures
        turned(among(view, direction, constraints), among(view, reversed(direction), constraints)),
{
    let hops = among(view, direction, constraints);
    let back = among(view, reversed(direction), constraints);
    assert forall|a: Seq<char>, b: Seq<char>| #[trigger] hops(a, b) <==> back(b, a) by {
        if hops(a, b) {
            let edge = choose|edge: EdgeModel| #[trigger]
                edge_takes(view, direction, None, constraints, edge, a, b);
            assert(edge_takes(view, reversed(direction), None, constraints, edge, b, a));
        }
        if back(b, a) {
            let edge = choose|edge: EdgeModel| #[trigger]
                edge_takes(view, reversed(direction), None, constraints, edge, b, a);
            assert(edge_takes(view, direction, None, constraints, edge, a, b));
        }
    }
}

proof fn lemma_among_reach<G: GraphView>(
    view: &G,
    direction: EdgeDirection,
    constraints: Option<TraversalConstraints>,
    start: Seq<char>,
    count: nat,
)
    requires
        node_admitted(view, constraints, start),
    ensures
        reach(goes(view, direction, None, constraints), start, count) == reach(
            among(view, direction, constraints),
            start,
            count,
        ),
        forall|b: Seq<char>| #[trigger]
            reach(goes(view, direction, None, constraints), start, count).contains(b)
                ==> node_admitted(view, constraints, b),
    decreases count,
{
    let hops = goes(view, direction, None, constraints);
    let held = among(view, direction, constraints);
    let whole = reach(hops, start, count);
    if count > 0 {
        lemma_among_reach(view, direction, constraints, start, (count - 1) as nat);
        let near = reach(hops, start, (count - 1) as nat);
        assert forall|b: Seq<char>| #[trigger] whole.contains(b) <==> reach(
            held,
            start,
            count,
        ).contains(b) by {
            if one_hop(hops, near, b) {
                let a = choose|a: Seq<char>| near.contains(a) && #[trigger] hops(a, b);
                assert(held(a, b));
            }
            if one_hop(held, near, b) {
                let a = choose|a: Seq<char>| near.contains(a) && #[trigger] held(a, b);
                assert(hops(a, b));
            }
        }
        assert(whole =~= reach(held, start, count));
        assert forall|b: Seq<char>| #[trigger] whole.contains(b) implies node_admitted(
            view,
            constraints,
            b,
        ) by {
            if !near.contains(b) {
                let a = choose|a: Seq<char>| near.contains(a) && #[trigger] hops(a, b);
                let edge = choose|edge: EdgeModel| #[trigger]
                    edge_takes(view, direction, None, constraints, edge, a, b);
                assert(node_admitted(view, constraints, b));
            }
        }
    } else {
        assert(whole =~= reach(held, start, count));
    }
}

/// Where the two searches cannot meet, the end is out of reach.
proof fn lemma_out_of_reach(
    hops: spec_fn(Seq<char>, Seq<char>) -> bool,
    back: spec_fn(Seq<char>, Seq<char>) -> bool,
    source: Seq<char>,
    target: Seq<char>,
    max_depth: nat,
    depth: nat,
)
    requires
        turned(hops, back),
        depth <= max_depth,
        reach(hops, source, depth).disjoint(reach(back, target, depth)),
        depth == max_depth || closed_under(hops, reach(hops, source, depth)) || closed_under(
            back,
            reach(back, target, depth),
        ),
    ensures
        !reach(hops, source, 2 * max_depth).contains(target),
{
    let ahead = reach(hops, source, depth);
    let behind = reach(back, target, depth);
    lemma_reach_grows(hops, source, 0, depth);
    lemma_reach_grows(back, target, 0, depth);
    if depth == max_depth {
        lemma_apart(hops, back, source, depth, target, depth);
    } else if closed_under(hops, ahead) {
        lemma_reach_closed(hops, source, depth, 2 * max_depth);
        assert(behind.contains(target));
    } else {
        lemma_reach_closed(back, target, depth, 2 * max_depth);
        if reach(hops, source, 2 * max_depth).contains(target) {
            lemma_reach_back(hops, back, source, 2 * max_depth, target);
            assert(behind.contains(source));
            assert(ahead.contains(source));
        }
    }
}

/// A path is found between two nodes of the graph whose labels are admitted, where the one can be
/// reached from the other in twice as many hops as the depth, where the searches from both ends
/// find fewer nodes than the limit until they meet, and unless the clock showed that time was up.
pub proof fn law_path_is_found<G: GraphView>(
    view: &G,
    source_node_id: NodeId,
    target_node_id: NodeId,
    direction: EdgeDirection,
    max_depth: Option<u8>,
    limit: Option<usize>,
    timeout_ms: Option<u64>,
    constraints: Option<TraversalConstraints>,
    inputs: RankingInputs,
    items: Seq<ItemModel>,
)
    requires
        answers(
            QueryRequest::ShortestPath {
                source_node_id,
                target_node_id,
                direction,
                max_depth,
                limit,
                timeout_ms,
                constraints,
            },
            view,
            inputs,
            items,
        ),
        truthful(view),
        node_admitted(view, constraints, source_node_id@),
        node_admitted(view, constraints, target_node_id@),
        reach(
            goes(view, direction, None, constraints),
            source_node_id@,
            2 * asked_depth(max_depth),
        ).contains(target_node_id@),
        forall|depth: nat|
            {
                let ahead = #[trigger] reach(
                    goes(view, direction, None, constraints),
                    source_node_id@,
                    depth,
                );
                let behind = reach(
                    goes(view, reversed(direction), None, constraints),
                    target_node_id@,
                    depth,
                );
                depth <= asked_depth(max_depth) && ahead.disjoint(behind) ==> ahead.len()
                    + behind.len() < asked_limit(limit)
            },
        !ran_out(asked_time(timeout_ms)),
    ensures
        path_of(items) is Some,
{
    let source = source_node_id@;
    let target = target_node_id@;
    let runtime = runtime_model(max_depth, limit, timeout_ms, constraints);
    let c = asked_constraints(None, constraints);
    assert(runtime.constraints == c);
    let path = choose|path: Option<PathModel>|
        items == path_answer(view, path) && #[trigger] path_allowed(
            view,
            source,
            target,
            direction,
            runtime,
            path,
        );
    lemma_path_parts(view, path);
    assert(view.has_node(source));
    assert(view.has_node(target));
    law_steps_follow_edges(view, direction, None, constraints);
    law_steps_follow_edges(view, reversed(direction), None, constraints);
    let hops = goes(view, direction, None, constraints);
    let back = goes(view, reversed(direction), None, constraints);
    if path is None {
        if exists|depth: nat| #[trigger]
            never_meet(view, direction, c, source, target, runtime.max_depth as nat, depth) {
            let depth = choose|depth: nat| #[trigger]
                never_meet(view, direction, c, source, target, runtime.max_depth as nat, depth);
            let f = among(view, direction, constraints);
            let b = among(view, reversed(direction), constraints);
            lemma_among_turned(view, direction, constraints);
            lemma_among_reach(view, direction, constraints, source, depth);
            lemma_among_reach(view, direction, constraints, source, 2 * asked_depth(max_depth));
            lemma_among_reach(view, reversed(direction), constraints, target, depth);
            let ahead = reach(hops, source, depth);
            let behind = reach(back, target, depth);
            if closed_under(hops, ahead) {
                assert forall|x: Seq<char>, y: Seq<char>| ahead.contains(x) && #[trigger] f(
                    x,
                    y,
                ) implies ahead.contains(y) by {
                    assert(hops(x, y));
                }
            }
            if closed_under(back, behind) {
                assert forall|x: Seq<char>, y: Seq<char>| behind.contains(x) && #[trigger] b(
                    x,
                    y,
                ) implies behind.contains(y) by {
                    assert(back(x, y));
                }
            }
            lemma_out_of_reach(f, b, source, target, runtime.max_depth as nat, depth);
        } else {
            let depth = choose|depth: nat| #[trigger]
                too_many_found(view, direction, runtime, source, target, depth);
            assert(too_many_found(view, direction, runtime, source, target, depth));
            assert(reach(hops, source, depth).disjoint(reach(back, target, depth)));
        }
    }
}

/// No path that is found between nodes whose labels are admitted is longer than it has to be: in
/// fewer hops its end cannot be reached from its start.
pub proof fn law_path_is_shortest<G: GraphView>(
    view: &G,
    source_node_id: NodeId,
    target_node_id: NodeId,
    direction: EdgeDirection,
    max_depth: Option<u8>,
    limit: Option<usize>,
    timeout_ms: Option<u64>,
    constraints: Option<TraversalConstraints>,
    inputs: RankingInputs,
    items: Seq<ItemModel>,
    count: nat,
)
    requires
        answers(
            QueryRequest::ShortestPath {
                source_node_id,
                target_node_id,
                direction,
                max_depth,
                limit,
                timeout_ms,
                constraints,
            },
            view,
            inputs,
            items,
        ),
        truthful(view),
        node_admitted(view, constraints, source_node_id@),
        node_admitted(view, constraints, target_node_id@),
        path_of(items) is Some,
        count < path_of(items)->0.hop_count,
    ensures
        !reach(goes(view, direction, None, constraints), source_node_id@, count).contains(
            target_node_id@,
        ),
{
    let source = source_node_id@;
    let target = target_node_id@;
    let runtime = runtime_model(max_depth, limit, timeout_ms, constraints);
    let c = asked_constraints(None, constraints);
    assert(runtime.constraints == c);
    let path = choose|path: Option<PathModel>|
        items == path_answer(view, path) && #[trigger] path_allowed(
            view,
            source,
            target,
            direction,
            runtime,
            path,
        );
    lemma_path_parts(view, path);
    law_steps_follow_edges(view, direction, None, constraints);
    law_steps_follow_edges(view, reversed(direction), None, constraints);
    let hop_count = path->0.hop_count as nat;
    let m = hop_count / 2;
    let n = ((hop_count - 1) / 2) as nat;
    assert(m + n == hop_count - 1);
    let f = among(view, direction, constraints);
    let b = among(view, reversed(direction), constraints);
    lemma_among_turned(view, direction, constraints);
    lemma_among_reach(view, direction, constraints, source, m);
    lemma_among_reach(view, direction, constraints, source, count);
    lemma_among_reach(view, reversed(direction), constraints, target, n);
    lemma_apart(f, b, source, m, target, n);
    lemma_reach_grows(f, source, count, m + n);
}

/// A search that has no time, or whose limit is no more than the two ends, finds no path between
/// two nodes.
pub proof fn law_no_room_for_a_path<G: GraphView>(
    view: &G,
    source_node_id: NodeId,
    target_node_id: NodeId,
    direction: EdgeDirection,
    max_depth: Option<u8>,
    limit: Option<usize>,
    timeout_ms: Option<u64>,
    constraints: Option<TraversalConstraints>,
    inputs: RankingInputs,
    items: Seq<ItemModel>,
)
    requires
        answers(
            QueryRequest::ShortestPath {
                source_node_id,
                target_node_id,
                direction,
                max_depth,
                limit,
                timeout_ms,
                constraints,
            },
            view,
            inputs,
            items,
        ),
        source_node_id@ != target_node_id@,
        asked_time(timeout_ms) == 0 || asked_limit(limit) <= 2 || asked_depth(max_depth) == 0,
    ensures
        items.len() == 0,
{
    let runtime = runtime_model(max_depth, limit, timeout_ms, constraints);
    let path = choose|path: Option<PathModel>|
        items == path_answer(view, path) && #[trigger] path_allowed(
            view,
            source_node_id@,
            target_node_id@,
            direction,
            runtime,
            path,
        );
    lemma_path_parts(view, path);
    if path is Some {
        let p = path->0;
        assert(is_route(
            view,
            direction,
            runtime.constraints,
            p,
            source_node_id@,
            target_node_id@,
        ));
        assert(p.hop_count > 0);
    }
}

// ---------------------------------------------------------------------------------------------
// Distances
// ---------------------------------------------------------------------------------------------

/// Whether an edge of the graph, of the type that is asked for, if one is, joins two nodes,
/// whichever way it points.
pub open spec fn tied<G: GraphView>(view: &G, edge_type: Option<Seq<char>>) -> spec_fn(
    Seq<char>,
    Seq<char>,
) -> bool {
    |a: Seq<char>, b: Seq<char>|
        exists|id: Seq<char>|
            (#[trigger] view.edge_at(id)) matches Some(edge) && (edge_type matches Some(t)
                ==> edge.edge_type == t) && ((edge.source == a && edge.target == b) || (edge.target
                == a && edge.source == b))
}

/// What counts as joined for a distance is joined by an edge of the graph.
pub proof fn law_ties_follow_edges<G: GraphView>(view: &G, edge_type: Option<Seq<char>>)
    requires
        truthful(view),
    ensures
        ties(view, edge_type) == tied(view, edge_type),
        forall|a: Seq<char>| (#[trigger] fan_of(tied(view, edge_type), a)).finite(),
{
    let hops = ties(view, edge_type);
    let along = tied(view, edge_type);
    let both = EdgeDirection::Both;
    assert forall|a: Seq<char>, b: Seq<char>| #[trigger] hops(a, b) == along(a, b) by {
        let ids = view.incident_ids(a, both, edge_type);
        if hops(a, b) {
            assert(joined(view, edge_type, a, b));
            let i = choose|i: int|
                0 <= i < view.incident_ids(a, both, edge_type).len() && edge_joins(
                    view,
                    #[trigger] view.incident_ids(a, both, edge_type)[i],
                    a,
                    b,
                );
            let id = ids[i];
            assert(ids.contains(id));
            assert(view.incident_ids(a, both, edge_type).contains(id));
            let edge = view.edge_at(id)->0;
            assert(stands_at(edge, a, both));
            assert(of_type(edge, edge_type));
        }
        if along(a, b) {
            let id = choose|id: Seq<char>|
                (#[trigger] view.edge_at(id)) matches Some(edge) && (edge_type matches Some(t)
                    ==> edge.edge_type == t) && ((edge.source == a && edge.target == b) || (
                edge.target == a && edge.source == b));
            let edge = view.edge_at(id)->0;
            assert(stands_at(edge, a, both));
            assert(of_type(edge, edge_type));
            assert(view.incident_ids(a, both, edge_type).contains(id));
            let i = choose|i: int| 0 <= i < ids.len() && ids[i] == id;
            assert(edge_joins(view, view.incident_ids(a, both, edge_type)[i], a, b));
            assert(joined(view, edge_type, a, b));
        }
    }
    assert(hops =~= along);
    assert forall|a: Seq<char>| (#[trigger] fan_of(along, a)).finite() by {
        let ids = view.incident_ids(a, both, edge_type);
        let ends = Seq::new(ids.len(), |i: int| far_end(view.edge_at(ids[i])->0, a, both));
        vstd::seq_lib::seq_to_set_is_finite(ends);
        let fan = fan_of(along, a);
        assert forall|b: Seq<char>| #[trigger] fan.contains(b) implies ends.to_set().contains(
            b,
        ) by {
            assert(hops(a, b));
            assert(joined(view, edge_type, a, b));
            let i = choose|i: int|
                0 <= i < view.incident_ids(a, both, edge_type).len() && edge_joins(
                    view,
                    #[trigger] view.incident_ids(a, both, edge_type)[i],
                    a,
                    b,
                );
            assert(ends[i] == b);
        }
        vstd::set_lib::lemma_set_subset_finite(ends.to_set(), fan);
    }
}

proof fn lemma_least_hops(
    hops: spec_fn(Seq<char>, Seq<char>) -> bool,
    start: Seq<char>,
    node: Seq<char>,
    most: nat,
)
    requires
        reach(hops, start, most).contains(node),
    ensures
        least_hops(hops, start, node, most) <= most,
        reach(hops, start, least_hops(hops, start, node, most)).contains(node),
        forall|n: nat|
            n < least_hops(hops, start, node, most) ==> !(#[trigger] reach(hops, start, n)).contains(
                node,
            ),
    decreases most,
{
    if most == 0 || !reach(hops, start, (most - 1) as nat).contains(node) {
        assert forall|n: nat| n < most implies !(#[trigger] reach(hops, start, n)).contains(node) by {
            lemma_reach_grows(hops, start, n, (most - 1) as nat);
        }
    } else {
        lemma_least_hops(hops, start, node, (most - 1) as nat);
    }
}

/// The distance of a node from another one is the least number of edges between them, whichever
/// way these point, of the type that is asked for, if one is. Exactly the nodes within three edges
/// have one, where the graph has the node that they are counted from.
pub proof fn law_distances<G: GraphView>(
    view: &G,
    start: Seq<char>,
    edge_type: Option<Seq<char>>,
    id: Seq<char>,
)
    requires
        truthful(view),
    ensures
        ({
            let known = distances(view, start, edge_type);
            let hops = tied(view, edge_type);
            &&& known.contains_key(id) <==> view.node_at(start) is Some && reach(
                hops,
                start,
                3,
            ).contains(id)
            &&& known.contains_key(id) ==> known[id] <= 3 && reach(
                hops,
                start,
                known[id] as nat,
            ).contains(id) && forall|n: nat|
                n < known[id] ==> !(#[trigger] reach(hops, start, n)).contains(id)
            &&& known.dom().finite()
        }),
{
    law_ties_follow_edges(view, edge_type);
    let hops = tied(view, edge_type);
    let known = distances(view, start, edge_type);
    assert(view.has_node(start) <==> view.node_at(start) is Some);
    if known.contains_key(id) {
        lemma_least_hops(hops, start, id, 3);
    }
    lemma_reach_finite(hops, start, 3);
    vstd::set_lib::lemma_set_subset_finite(reach(hops, start, 3), known.dom());
}

} // verus!
