//! Walking the graph: neighbours, distances, bounded traversal and paths.
use vstd::prelude::*;
use vstd::std_specs::vecdeque::*;
use vstd::string::*;

use std::collections::VecDeque;

use crate::clock::{ran_out, was_in_time, Deadline};
use crate::common::{EdgeId, NodeId};
use crate::graph::GraphView;
use crate::index::EdgeDirection;
use crate::ordered::{models, same_key, OrderedSet, Replicate};
use crate::plan::{ConstraintsModel, RuntimeModel, TraversalConstraints, TraversalRuntime};
use crate::records::{EdgeModel, EdgeRecord, NodeModel};
use crate::results::{add_item, ItemModel, QueryExecutionItem};
use crate::text;

verus! {

// ---------------------------------------------------------------------------------------------
// Neighbours
// ---------------------------------------------------------------------------------------------

/// The other direction.
pub open spec fn reversed(direction: EdgeDirection) -> EdgeDirection {
    match direction {
        EdgeDirection::Outgoing => EdgeDirection::Incoming,
        EdgeDirection::Incoming => EdgeDirection::Outgoing,
        EdgeDirection::Both => EdgeDirection::Both,
    }
}

/// The other direction.
pub fn reverse_direction(direction: EdgeDirection) -> (r: EdgeDirection)
    ensures
        r == reversed(direction),
{
    match direction {
        EdgeDirection::Outgoing => EdgeDirection::Incoming,
        EdgeDirection::Incoming => EdgeDirection::Outgoing,
        EdgeDirection::Both => EdgeDirection::Both,
    }
}

/// Turning a direction around twice gives it back.
pub proof fn law_reverse_direction_twice(direction: EdgeDirection)
    ensures
        reversed(reversed(direction)) == direction,
{
}

/// The node that an edge leads to from a node.
pub open spec fn far_end(edge: EdgeModel, node: Seq<char>, direction: EdgeDirection) -> Seq<char> {
    match direction {
        EdgeDirection::Outgoing => edge.target,
        EdgeDirection::Incoming => edge.source,
        EdgeDirection::Both => if edge.source == node {
            edge.target
        } else {
            edge.source
        },
    }
}

/// The node that an edge leads to from a node.
pub fn neighbor_of(edge: &EdgeRecord, node_id: &NodeId, direction: EdgeDirection) -> (r: NodeId)
    ensures
        r@ == far_end(edge@, node_id@, direction),
{
    match direction {
        EdgeDirection::Outgoing => edge.target.clone(),
        EdgeDirection::Incoming => edge.source.clone(),
        EdgeDirection::Both => {
            if same_key(&edge.source, node_id) {
                edge.target.clone()
            } else {
                edge.source.clone()
            }
        },
    }
}

/// An edge that a walk may take, and the node it leads to.
#[derive(Debug, PartialEq, Eq)]
pub struct Expansion {
    pub edge: EdgeRecord,
    pub neighbor: NodeId,
}

/// The model of an edge that a walk may take.
pub struct ExpansionModel {
    pub edge: EdgeModel,
    pub neighbor: Seq<char>,
}

impl View for Expansion {
    type V = ExpansionModel;

    open spec fn view(&self) -> ExpansionModel {
        ExpansionModel { edge: self.edge@, neighbor: self.neighbor@ }
    }
}

/// The step that an edge of a node offers to a walk: the edge must be of an admitted type, and
/// the node that it leads to must exist and carry an admitted label.
pub open spec fn expansion<G: GraphView>(
    view: &G,
    node: Seq<char>,
    direction: EdgeDirection,
    constraints: ConstraintsModel,
    edge_id: Seq<char>,
) -> Option<ExpansionModel> {
    match view.edge_at(edge_id) {
        Some(edge) => {
            let neighbor = far_end(edge, node, direction);
            match view.node_at(neighbor) {
                Some(found) => if constraints.admits_edge_type(edge.edge_type)
                    && constraints.admits_label(found.node_type) {
                    Some(ExpansionModel { edge, neighbor })
                } else {
                    None
                },
                None => None,
            }
        },
        None => None,
    }
}

/// The steps that a list of edges of a node offers, in the order of the list.
pub open spec fn expansions_by<G: GraphView>(
    view: &G,
    node: Seq<char>,
    direction: EdgeDirection,
    constraints: ConstraintsModel,
    edge_ids: Seq<Seq<char>>,
) -> Seq<ExpansionModel>
    decreases edge_ids.len(),
{
    if edge_ids.len() == 0 {
        Seq::empty()
    } else {
        let before = expansions_by(view, node, direction, constraints, edge_ids.drop_last());
        match expansion(view, node, direction, constraints, edge_ids.last()) {
            Some(step) => before.push(step),
            None => before,
        }
    }
}

/// The steps that a walk may take from a node.
pub open spec fn expansions<G: GraphView>(
    view: &G,
    node: Seq<char>,
    direction: EdgeDirection,
    constraints: ConstraintsModel,
) -> Seq<ExpansionModel> {
    expansions_by(view, node, direction, constraints, view.incident_ids(node, direction, None))
}

/// The steps that a walk may take from a node.
pub fn expand_neighbors<G: GraphView>(
    view: &G,
    node_id: &NodeId,
    direction: EdgeDirection,
    constraints: &TraversalConstraints,
) -> (r: Vec<Expansion>)
    ensures
        models(r@) == expansions(view, node_id@, direction, constraints@),
{
    let ids: Vec<EdgeId> = view.edge_ids_for_iter(node_id, direction, None);
    let ghost want = models(ids@);
    let mut out: Vec<Expansion> = Vec::new();
    let mut i: usize = 0;
    proof {
        assert(want.take(0).len() == 0);
        assert(models(out@) =~= Seq::empty());
    }
    while i < ids.len()
        invariant
            i <= ids.len(),
            want == models(ids@),
            models(out@) == expansions_by(
                view,
                node_id@,
                direction,
                constraints@,
                want.take(i as int),
            ),
        decreases ids.len() - i,
    {
        proof {
            assert(want.take(i + 1).drop_last() =~= want.take(i as int));
            assert(want.take(i + 1).last() == ids@[i as int]@);
        }
        let ghost held = out@;
        match view.get_edge(&ids[i]) {
            Some(edge) => {
                let type_fits: bool = constraints.edge_types.len() == 0 || text::list_contains(
                    &constraints.edge_types,
                    edge.edge_type.as_str(),
                );
                let neighbor: NodeId = neighbor_of(&edge, node_id, direction);
                match view.get_node(&neighbor) {
                    Some(node) => {
                        let label_fits: bool = constraints.node_labels.len() == 0
                            || text::list_contains(
                            &constraints.node_labels,
                            node.node_type.as_str(),
                        );
                        proof {
                            assert(constraints@.edge_types.len() == constraints.edge_types.len());
                            assert(constraints@.node_labels.len() == constraints.node_labels.len());
                        }
                        if type_fits && label_fits {
                            out.push(Expansion { edge, neighbor });
                            proof {
                                assert(models(out@) =~= models(held).push(out@.last()@));
                            }
                        }
                    },
                    None => {},
                }
            },
            None => {},
        }
        i = i + 1;
    }
    proof {
        assert(want.take(i as int) =~= want);
    }
    out
}

/// Whether a walk may go from a node to another one in one step.
pub open spec fn may_go<G: GraphView>(
    view: &G,
    direction: EdgeDirection,
    constraints: ConstraintsModel,
    from: Seq<char>,
    to: Seq<char>,
) -> bool {
    exists|i: int|
        0 <= i < expansions(view, from, direction, constraints).len() && (
        #[trigger] expansions(view, from, direction, constraints)[i]).neighbor == to
}

/// The steps of a walk, as a relation between nodes.
pub open spec fn steps<G: GraphView>(
    view: &G,
    direction: EdgeDirection,
    constraints: ConstraintsModel,
) -> spec_fn(Seq<char>, Seq<char>) -> bool {
    |a: Seq<char>, b: Seq<char>| may_go(view, direction, constraints, a, b)
}

// ---------------------------------------------------------------------------------------------
// Bounded traversal
// ---------------------------------------------------------------------------------------------

/// How far a traversal has come: what it has seen, what it has still to leave from and at which
/// depth, and what it has given out.
pub struct Walk {
    pub visited_nodes: OrderedSet<NodeId>,
    pub visited_edges: OrderedSet<EdgeId>,
    pub queue: VecDeque<(NodeId, u8)>,
    pub items: Vec<QueryExecutionItem>,
}

/// The model of how far a traversal has come.
pub struct WalkModel {
    pub visited_nodes: Set<Seq<char>>,
    pub visited_edges: Set<Seq<char>>,
    pub queue: Seq<(Seq<char>, u8)>,
    pub items: Seq<ItemModel>,
}

/// The model of a queue.
pub open spec fn queue_model(queue: Seq<(NodeId, u8)>) -> Seq<(Seq<char>, u8)> {
    Seq::new(queue.len(), |i: int| (queue[i].0@, queue[i].1))
}

impl View for Walk {
    type V = WalkModel;

    open spec fn view(&self) -> WalkModel {
        WalkModel {
            visited_nodes: self.visited_nodes@,
            visited_edges: self.visited_edges@,
            queue: queue_model(self.queue@),
            items: models(self.items@),
        }
    }
}

/// A node that is there, as an item.
pub open spec fn node_item(node: Option<NodeModel>) -> Seq<ItemModel> {
    match node {
        Some(found) => seq![ItemModel::Node(found)],
        None => Seq::empty(),
    }
}

/// A traversal before its first step: it has seen the start, if the graph has it.
pub open spec fn walk_start<G: GraphView>(view: &G, start: Seq<char>) -> WalkModel {
    if view.has_node(start) {
        WalkModel {
            visited_nodes: Set::empty().insert(start),
            visited_edges: Set::empty(),
            queue: seq![(start, 0u8)],
            items: node_item(view.node_at(start)),
        }
    } else {
        WalkModel {
            visited_nodes: Set::empty(),
            visited_edges: Set::empty(),
            queue: Seq::empty(),
            items: Seq::empty(),
        }
    }
}

impl WalkModel {
    /// The traversal after it has looked at one edge: an edge that it had not seen is given out
    /// while fewer than the limit were; a node that it had not seen is given out and queued while
    /// no more than the limit have been seen.
    pub open spec fn after_step<G: GraphView>(
        self,
        view: &G,
        limit: usize,
        depth: u8,
        step: ExpansionModel,
    ) -> WalkModel {
        let takes_edge = self.visited_edges.len() < limit && !self.visited_edges.contains(
            step.edge.id,
        );
        let seen = self.visited_nodes.insert(step.neighbor);
        let takes_node = !self.visited_nodes.contains(step.neighbor) && seen.len() <= limit;
        WalkModel {
            visited_nodes: seen,
            visited_edges: if takes_edge {
                self.visited_edges.insert(step.edge.id)
            } else {
                self.visited_edges
            },
            queue: if takes_node {
                self.queue.push((step.neighbor, (depth + 1) as u8))
            } else {
                self.queue
            },
            items: self.items + (if takes_edge {
                seq![ItemModel::Edge(step.edge)]
            } else {
                Seq::empty()
            }) + (if takes_node {
                node_item(view.node_at(step.neighbor))
            } else {
                Seq::empty()
            }),
        }
    }

    /// The traversal after it has looked at several edges in turn.
    pub open spec fn after_steps<G: GraphView>(
        self,
        view: &G,
        limit: usize,
        depth: u8,
        steps: Seq<ExpansionModel>,
    ) -> WalkModel
        decreases steps.len(),
    {
        if steps.len() == 0 {
            self
        } else {
            self.after_steps(view, limit, depth, steps.drop_last()).after_step(
                view,
                limit,
                depth,
                steps.last(),
            )
        }
    }

    /// The traversal after it has left from the first node of its queue: nothing is done for a
    /// node at the greatest depth, nor once the limit has been reached.
    pub open spec fn advanced<G: GraphView>(
        self,
        view: &G,
        direction: EdgeDirection,
        runtime: RuntimeModel,
    ) -> WalkModel {
        if self.queue.len() == 0 {
            self
        } else {
            let node = self.queue[0].0;
            let depth = self.queue[0].1;
            let rest = WalkModel { queue: self.queue.drop_first(), ..self };
            if depth == runtime.max_depth || self.visited_nodes.len() >= runtime.limit {
                rest
            } else {
                rest.after_steps(
                    view,
                    runtime.limit,
                    depth,
                    expansions(view, node, direction, runtime.constraints),
                )
            }
        }
    }
}

/// The traversal after it has left from the given number of nodes.
pub open spec fn walked<G: GraphView>(
    view: &G,
    start: Seq<char>,
    direction: EdgeDirection,
    runtime: RuntimeModel,
    count: nat,
) -> WalkModel
    decreases count,
{
    if count == 0 {
        walk_start(view, start)
    } else {
        walked(view, start, direction, runtime, (count - 1) as nat).advanced(
            view,
            direction,
            runtime,
        )
    }
}

impl Walk {
    /// A traversal before its first step.
    pub fn begin<G: GraphView>(view: &G, start_node_id: &NodeId) -> (r: Self)
        ensures
            r@ == walk_start(view, start_node_id@),
    {
        let mut visited_nodes: OrderedSet<NodeId> = OrderedSet::new();
        let visited_edges: OrderedSet<EdgeId> = OrderedSet::new();
        let mut queue: VecDeque<(NodeId, u8)> = VecDeque::new();
        let mut items: Vec<QueryExecutionItem> = Vec::new();
        proof {
            assert(models(items@) =~= Seq::<ItemModel>::empty());
        }
        if view.contains_node(start_node_id) {
            visited_nodes.insert(start_node_id.clone());
            queue.push_back((start_node_id.clone(), 0));
            match view.get_node(start_node_id) {
                Some(node) => add_item(&mut items, QueryExecutionItem::Node(node)),
                None => {},
            }
        }
        proof {
            let want = walk_start(view, start_node_id@);
            assert(queue_model(queue@) =~= want.queue);
            assert(models(items@) =~= want.items);
        }
        Walk { visited_nodes, visited_edges, queue, items }
    }

    /// Looks at one edge.
    fn look<G: GraphView>(&mut self, view: &G, limit: usize, depth: u8, step: &Expansion)
        requires
            depth < u8::MAX,
        ensures
            final(self)@ == old(self)@.after_step(view, limit, depth, step@),
    {
        let ghost before = self@;
        let ghost want = before.after_step(view, limit, depth, step@);
        if self.visited_edges.len() < limit {
            if self.visited_edges.insert(step.edge.id.clone()) {
                add_item(&mut self.items, QueryExecutionItem::Edge(step.edge.replicate()));
            } else {
                proof {
                    assert(before.visited_edges.insert(step@.edge.id) =~= before.visited_edges);
                }
            }
        }
        if self.visited_nodes.insert(step.neighbor.clone()) {
            if self.visited_nodes.len() <= limit {
                let ghost held = self.queue@;
                self.queue.push_back((step.neighbor.clone(), depth + 1));
                proof {
                    assert(queue_model(self.queue@) =~= queue_model(held).push(
                        (step@.neighbor, (depth + 1) as u8),
                    ));
                }
                match view.get_node(&step.neighbor) {
                    Some(node) => add_item(&mut self.items, QueryExecutionItem::Node(node)),
                    None => {},
                }
            }
        }
        proof {
            assert(self@.items =~= want.items);
        }
    }

    /// Leaves from the first node of the queue, unless time is up: then nothing more is done and
    /// the answer is false, as it is when the queue is empty.
    pub fn advance<G: GraphView>(
        &mut self,
        view: &G,
        direction: EdgeDirection,
        runtime: &TraversalRuntime,
        time_is_up: bool,
    ) -> (r: bool)
        requires
            forall|i: int|
                0 <= i < old(self)@.queue.len() ==> (#[trigger] old(self)@.queue[i]).1
                    <= runtime.max_depth,
        ensures
            r == (old(self)@.queue.len() > 0 && !time_is_up),
            r ==> final(self)@ == old(self)@.advanced(view, direction, runtime@),
            !r ==> final(self)@ == old(self)@,
    {
        if time_is_up {
            return false;
        }
        let ghost before = self@;
        proof {
            if self.queue@.len() == 0 {
                assert(before.queue.len() == 0);
            }
        }
        match self.queue.pop_front() {
            Some(front) => {
                let node_id: NodeId = front.0;
                let depth: u8 = front.1;
                proof {
                    assert(before.queue[0] == (node_id@, depth));
                    assert(self@.queue =~= before.queue.drop_first());
                }
                if depth != runtime.max_depth && self.visited_nodes.len() < runtime.limit {
                    let found: Vec<Expansion> = expand_neighbors(
                        view,
                        &node_id,
                        direction,
                        &runtime.constraints,
                    );
                    let ghost all = models(found@);
                    let ghost rest = self@;
                    let mut i: usize = 0;
                    proof {
                        assert(all.take(0).len() == 0);
                    }
                    while i < found.len()
                        invariant
                            i <= found.len(),
                            depth < u8::MAX,
                            all == models(found@),
                            self@ == rest.after_steps(
                                view,
                                runtime.limit,
                                depth,
                                all.take(i as int),
                            ),
                        decreases found.len() - i,
                    {
                        proof {
                            assert(all.take(i + 1).drop_last() =~= all.take(i as int));
                            assert(all.take(i + 1).last() == found@[i as int]@);
                        }
                        self.look(view, runtime.limit, depth, &found[i]);
                        i = i + 1;
                    }
                    proof {
                        assert(all.take(i as int) =~= all);
                    }
                }
                true
            },
            None => false,
        }
    }
}

impl WalkModel {
    /// Whether a traversal has seen finitely much and queues no node beyond the greatest depth.
    pub open spec fn in_order(self, max_depth: u8) -> bool {
        &&& self.visited_nodes.finite()
        &&& self.visited_edges.finite()
        &&& forall|i: int|
            0 <= i < self.queue.len() ==> (#[trigger] self.queue[i]).1 <= max_depth
    }

    /// How much a traversal can still do: it falls with every node that it leaves from.
    pub open spec fn work_left(self, limit: usize) -> int {
        2 * (if self.visited_nodes.len() < limit {
            limit - self.visited_nodes.len()
        } else {
            0
        }) + self.queue.len()
    }
}

proof fn lemma_step_in_order<G: GraphView>(
    walk: WalkModel,
    view: &G,
    limit: usize,
    depth: u8,
    step: ExpansionModel,
    max_depth: u8,
)
    requires
        walk.in_order(max_depth),
        depth < max_depth,
    ensures
        walk.after_step(view, limit, depth, step).in_order(max_depth),
        walk.after_step(view, limit, depth, step).work_left(limit) <= walk.work_left(limit),
{
}

proof fn lemma_steps_in_order<G: GraphView>(
    walk: WalkModel,
    view: &G,
    limit: usize,
    depth: u8,
    steps: Seq<ExpansionModel>,
    max_depth: u8,
)
    requires
        walk.in_order(max_depth),
        depth < max_depth,
    ensures
        walk.after_steps(view, limit, depth, steps).in_order(max_depth),
        walk.after_steps(view, limit, depth, steps).work_left(limit) <= walk.work_left(limit),
    decreases steps.len(),
{
    if steps.len() > 0 {
        lemma_steps_in_order(walk, view, limit, depth, steps.drop_last(), max_depth);
        lemma_step_in_order(
            walk.after_steps(view, limit, depth, steps.drop_last()),
            view,
            limit,
            depth,
            steps.last(),
            max_depth,
        );
    }
}

proof fn lemma_advanced_in_order<G: GraphView>(
    walk: WalkModel,
    view: &G,
    direction: EdgeDirection,
    runtime: RuntimeModel,
)
    requires
        walk.in_order(runtime.max_depth),
    ensures
        walk.advanced(view, direction, runtime).in_order(runtime.max_depth),
        walk.queue.len() > 0 ==> walk.advanced(view, direction, runtime).work_left(runtime.limit)
            < walk.work_left(runtime.limit),
{
    if walk.queue.len() > 0 {
        let rest = WalkModel { queue: walk.queue.drop_first(), ..walk };
        assert(rest.in_order(runtime.max_depth));
        if walk.queue[0].1 < runtime.max_depth {
            lemma_steps_in_order(
                rest,
                view,
                runtime.limit,
                walk.queue[0].1,
                expansions(view, walk.queue[0].0, direction, runtime.constraints),
                runtime.max_depth,
            );
        }
    }
}

proof fn lemma_walked_in_order<G: GraphView>(
    view: &G,
    start: Seq<char>,
    direction: EdgeDirection,
    runtime: RuntimeModel,
    count: nat,
)
    ensures
        walked(view, start, direction, runtime, count).in_order(runtime.max_depth),
    decreases count,
{
    if count > 0 {
        lemma_walked_in_order(view, start, direction, runtime, (count - 1) as nat);
        lemma_advanced_in_order(
            walked(view, start, direction, runtime, (count - 1) as nat),
            view,
            direction,
            runtime,
        );
    }
}

/// What a traversal gives out, and whether it came to its end before its time was up.
///
/// How far it comes when time is short depends on the clock: what it has given out is what the
/// traversal gives out after some number of steps, and after its last step if it came to its end.
/// It takes a step only if the clock shows that there is time, and it stops short of its end only
/// if the clock shows that there is none.
pub fn traverse<G: GraphView>(
    view: &G,
    start_node_id: &NodeId,
    direction: EdgeDirection,
    runtime: &TraversalRuntime,
) -> (r: (Vec<QueryExecutionItem>, bool))
    ensures
        exists|count: nat|
            {
                let walk = #[trigger] walked(view, start_node_id@, direction, runtime@, count);
                models(r.0@) == walk.items && r.1 == (walk.queue.len() == 0) && (count > 0
                    ==> was_in_time(runtime.timeout_ms))
            },
        r.1 || ran_out(runtime.timeout_ms),
{
    let deadline: Deadline = Deadline::after(runtime.timeout_ms);
    let mut walk: Walk = Walk::begin(view, start_node_id);
    let ghost mut count: nat = 0;
    let mut going: bool = true;
    proof {
        lemma_walked_in_order(view, start_node_id@, direction, runtime@, 0);
    }
    while going && walk.queue.len() > 0
        invariant
            deadline.timeout() == runtime.timeout_ms,
            walk@ == walked(view, start_node_id@, direction, runtime@, count),
            walk@.in_order(runtime.max_depth),
            count > 0 ==> was_in_time(runtime.timeout_ms),
            going || ran_out(runtime.timeout_ms),
        decreases walk@.work_left(runtime.limit) + (if going {
            1int
        } else {
            0
        }),
    {
        proof {
            lemma_advanced_in_order(walk@, view, direction, runtime@);
        }
        let time_is_up: bool = deadline.passed();
        let ghost before = walk@;
        going = walk.advance(view, direction, runtime, time_is_up);
        proof {
            if going {
                count = count + 1;
            }
        }
    }
    (walk.items, walk.queue.len() == 0)
}

} // verus!
