//! Shortest paths, sought from both ends.
use vstd::prelude::*;

use crate::clock::{ran_out, was_in_time, Deadline};
use crate::common::{EdgeId, NodeId};
use crate::graph::GraphView;
use crate::index::EdgeDirection;
use crate::ordered::{models, same_key, OrderedMap, Replicate};
use crate::plan::{ConstraintsModel, RuntimeModel, TraversalConstraints, TraversalRuntime};
use crate::reach::{
    closed_under, lemma_apart, lemma_reach_back, lemma_reach_closed, lemma_reach_grows,
    lemma_reach_hop, one_hop, reach, turned,
};
use crate::results::{GraphPath, PathModel};
use crate::traverse::{
    expand_neighbors, expansions, may_go, reverse_direction, reversed, steps, Expansion,
    ExpansionModel,
};

verus! {

// ---------------------------------------------------------------------------------------------
// Routes
// ---------------------------------------------------------------------------------------------

/// Whether a walk may take an edge from a node to another one.
pub open spec fn may_take<G: GraphView>(
    view: &G,
    direction: EdgeDirection,
    constraints: ConstraintsModel,
    from: Seq<char>,
    to: Seq<char>,
    edge_id: Seq<char>,
) -> bool {
    exists|i: int|
        0 <= i < expansions(view, from, direction, constraints).len() && (
        #[trigger] expansions(view, from, direction, constraints)[i]).neighbor == to && expansions(
            view,
            from,
            direction,
            constraints,
        )[i].edge.id == edge_id
}

/// Whether the first hops of a path are steps from its start and the others are steps from its
/// end.
pub open spec fn hops_fit<G: GraphView>(
    view: &G,
    direction: EdgeDirection,
    constraints: ConstraintsModel,
    path: PathModel,
    split: int,
) -> bool {
    &&& 0 <= split <= path.edge_ids.len()
    &&& forall|k: int|
        0 <= k < split ==> may_take(
            view,
            direction,
            constraints,
            path.node_ids[k],
            path.node_ids[k + 1],
            #[trigger] path.edge_ids[k],
        )
    &&& forall|k: int|
        split <= k < path.edge_ids.len() ==> may_take(
            view,
            reversed(direction),
            constraints,
            path.node_ids[k + 1],
            path.node_ids[k],
            #[trigger] path.edge_ids[k],
        )
}

/// Whether a path leads from a node to another one: its hops are steps in the direction, up to a
/// node from which on they are steps against it, taken from the other end.
pub open spec fn is_route<G: GraphView>(
    view: &G,
    direction: EdgeDirection,
    constraints: ConstraintsModel,
    path: PathModel,
    source: Seq<char>,
    target: Seq<char>,
) -> bool {
    &&& path.node_ids.len() == path.edge_ids.len() + 1
    &&& path.hop_count == path.edge_ids.len()
    &&& path.node_ids[0] == source
    &&& path.node_ids.last() == target
    &&& exists|split: int| #[trigger] hops_fit(view, direction, constraints, path, split)
}

/// Whether no two searches, one from each end, meet in fewer hops together than the given number.
pub open spec fn none_shorter<G: GraphView>(
    view: &G,
    direction: EdgeDirection,
    constraints: ConstraintsModel,
    source: Seq<char>,
    target: Seq<char>,
    count: nat,
) -> bool {
    count > 0 ==> reach(steps(view, direction, constraints), source, count / 2).disjoint(
        reach(steps(view, reversed(direction), constraints), target, ((count - 1) / 2) as nat),
    )
}

/// Whether two searches, one from each end and of at most the given depth, have both gone as far
/// as one of them can, and have not met.
pub open spec fn never_meet<G: GraphView>(
    view: &G,
    direction: EdgeDirection,
    constraints: ConstraintsModel,
    source: Seq<char>,
    target: Seq<char>,
    max_depth: nat,
    depth: nat,
) -> bool {
    let ahead = reach(steps(view, direction, constraints), source, depth);
    let behind = reach(steps(view, reversed(direction), constraints), target, depth);
    &&& depth <= max_depth
    &&& ahead.disjoint(behind)
    &&& {
        ||| depth == max_depth
        ||| closed_under(steps(view, direction, constraints), ahead)
        ||| closed_under(steps(view, reversed(direction), constraints), behind)
    }
}

// ---------------------------------------------------------------------------------------------
// Parents
// ---------------------------------------------------------------------------------------------

/// How a search came to a node: from where, by which edge, and after how many hops.
#[derive(Debug, PartialEq, Eq)]
pub struct PathParent {
    pub previous: Option<NodeId>,
    pub via_edge: Option<EdgeId>,
    pub depth: u8,
}

/// The model of how a search came to a node.
pub struct ParentModel {
    pub previous: Option<Seq<char>>,
    pub via_edge: Option<Seq<char>>,
    pub depth: u8,
}

impl View for PathParent {
    type V = ParentModel;

    open spec fn view(&self) -> ParentModel {
        ParentModel {
            previous: crate::graph::optional_view(self.previous),
            via_edge: crate::graph::optional_view(self.via_edge),
            depth: self.depth,
        }
    }
}

/// Whether depths grow by one with every hop, and start at zero.
pub open spec fn ranked(parents: Map<Seq<char>, ParentModel>) -> bool {
    forall|id: Seq<char>| #[trigger]
        parents.contains_key(id) ==> match parents[id].previous {
            None => parents[id].depth == 0 && parents[id].via_edge is None,
            Some(previous) => parents[id].via_edge is Some && parents.contains_key(previous)
                && parents[id].depth == parents[previous].depth + 1,
        }
}

/// The nodes by which a search came to a node, from its start.
pub open spec fn trail_nodes(parents: Map<Seq<char>, ParentModel>, id: Seq<char>) -> Seq<Seq<char>>
    decreases parents[id].depth,
    when ranked(parents) && parents.contains_key(id)
{
    match parents[id].previous {
        None => seq![id],
        Some(previous) => trail_nodes(parents, previous).push(id),
    }
}

/// The edges by which a search came to a node, from its start.
pub open spec fn trail_edges(parents: Map<Seq<char>, ParentModel>, id: Seq<char>) -> Seq<Seq<char>>
    decreases parents[id].depth,
    when ranked(parents) && parents.contains_key(id)
{
    match parents[id].previous {
        None => Seq::empty(),
        Some(previous) => trail_edges(parents, previous).push(parents[id].via_edge->0),
    }
}

/// The nodes of the path through a node that two searches came to.
pub open spec fn joined_nodes(
    forward: Map<Seq<char>, ParentModel>,
    backward: Map<Seq<char>, ParentModel>,
    meet: Seq<char>,
) -> Seq<Seq<char>> {
    (if forward.contains_key(meet) {
        trail_nodes(forward, meet)
    } else {
        Seq::empty()
    }) + (if backward.contains_key(meet) {
        trail_nodes(backward, meet).drop_last().reverse()
    } else {
        Seq::empty()
    })
}

/// The edges of the path through a node that two searches came to.
pub open spec fn joined_edges(
    forward: Map<Seq<char>, ParentModel>,
    backward: Map<Seq<char>, ParentModel>,
    meet: Seq<char>,
) -> Seq<Seq<char>> {
    (if forward.contains_key(meet) {
        trail_edges(forward, meet)
    } else {
        Seq::empty()
    }) + (if backward.contains_key(meet) {
        trail_edges(backward, meet).reverse()
    } else {
        Seq::empty()
    })
}

/// The nodes and the edges by which a search came to a node.
fn trail(parents: &OrderedMap<NodeId, PathParent>, id: &NodeId) -> (r: (Vec<NodeId>, Vec<EdgeId>))
    requires
        ranked(parents@),
        parents@.contains_key(id@),
    ensures
        models(r.0@) == trail_nodes(parents@, id@),
        models(r.1@) == trail_edges(parents@, id@),
        r.0.len() == parents@[id@].depth + 1,
        r.1.len() == parents@[id@].depth,
    decreases parents@[id@].depth,
{
    let mut nodes: Vec<NodeId> = Vec::new();
    let mut edges: Vec<EdgeId> = Vec::new();
    match parents.get(id) {
        Some(parent) => {
            match (&parent.previous, &parent.via_edge) {
                (Some(previous), Some(edge)) => {
                    let before: (Vec<NodeId>, Vec<EdgeId>) = trail(parents, previous);
                    nodes = before.0;
                    edges = before.1;
                    let ghost nodes0 = nodes@;
                    let ghost edges0 = edges@;
                    nodes.push(id.clone());
                    edges.push(edge.clone());
                    proof {
                        assert(models(nodes@) =~= models(nodes0).push(id@));
                        assert(models(edges@) =~= models(edges0).push(edge@));
                    }
                },
                _ => {
                    nodes.push(id.clone());
                    proof {
                        assert(models(nodes@) =~= seq![id@]);
                        assert(models(edges@) =~= Seq::<Seq<char>>::empty());
                    }
                },
            }
        },
        None => {},
    }
    (nodes, edges)
}

/// Puts the items of a list at the end of another one, the last one first.
fn extend_reversed<T: Replicate>(out: &mut Vec<T>, items: &Vec<T>, count: usize)
    requires
        count <= items.len(),
    ensures
        models(final(out)@) == models(old(out)@) + models(items@).take(count as int).reverse(),
{
    let ghost before = models(out@);
    let mut i: usize = count;
    while i > 0
        invariant
            i <= count <= items.len(),
            out.len() == before.len() + (count - i),
            forall|k: int| 0 <= k < before.len() ==> (#[trigger] out@[k])@ == before[k],
            forall|k: int|
                before.len() <= k < out.len() ==> (#[trigger] out@[k])@ == items@[count - 1 - (k
                    - before.len())]@,
        decreases i,
    {
        i = i - 1;
        out.push(items[i].replicate());
    }
    proof {
        assert(models(out@) =~= before + models(items@).take(count as int).reverse());
    }
}

/// The path through a node that two searches came to, if it leads from the one end to the other.
pub fn reconstruct_path(
    source_node_id: &NodeId,
    target_node_id: &NodeId,
    meet_node_id: &NodeId,
    forward_parents: &OrderedMap<NodeId, PathParent>,
    backward_parents: &OrderedMap<NodeId, PathParent>,
) -> (r: Option<GraphPath>)
    requires
        ranked(forward_parents@),
        ranked(backward_parents@),
    ensures
        ({
            let nodes = joined_nodes(forward_parents@, backward_parents@, meet_node_id@);
            let edges = joined_edges(forward_parents@, backward_parents@, meet_node_id@);
            match r {
                Some(path) => nodes.len() > 0 && nodes[0] == source_node_id@ && nodes.last()
                    == target_node_id@ && path@.node_ids == nodes && path@.edge_ids == edges
                    && path.hop_count == edges.len(),
                None => nodes.len() == 0 || nodes[0] != source_node_id@ || nodes.last()
                    != target_node_id@,
            }
        }),
{
    let ghost nodes = joined_nodes(forward_parents@, backward_parents@, meet_node_id@);
    let ghost edges = joined_edges(forward_parents@, backward_parents@, meet_node_id@);
    let mut node_ids: Vec<NodeId> = Vec::new();
    let mut edge_ids: Vec<EdgeId> = Vec::new();
    if forward_parents.contains_key(meet_node_id) {
        let left: (Vec<NodeId>, Vec<EdgeId>) = trail(forward_parents, meet_node_id);
        node_ids = left.0;
        edge_ids = left.1;
    }
    if backward_parents.contains_key(meet_node_id) {
        let right: (Vec<NodeId>, Vec<EdgeId>) = trail(backward_parents, meet_node_id);
        let node_count: usize = right.0.len() - 1;
        let edge_count: usize = right.1.len();
        extend_reversed(&mut node_ids, &right.0, node_count);
        extend_reversed(&mut edge_ids, &right.1, edge_count);
        proof {
            assert(models(right.0@).take(node_count as int) =~= models(right.0@).drop_last());
            assert(models(right.1@).take(edge_count as int) =~= models(right.1@));
        }
    }
    proof {
        assert(models(node_ids@) =~= nodes);
        assert(models(edge_ids@) =~= edges);
    }
    let count: usize = node_ids.len();
    if count == 0 || !same_key(&node_ids[0], source_node_id) || !same_key(
        &node_ids[count - 1],
        target_node_id,
    ) {
        return None;
    }
    let hop_count: usize = edge_ids.len();
    Some(GraphPath { node_ids, edge_ids, hop_count })
}

/// Whether parents are those of a search from a node: every other node was come to by a step.
pub open spec fn linked<G: GraphView>(
    parents: Map<Seq<char>, ParentModel>,
    view: &G,
    direction: EdgeDirection,
    constraints: ConstraintsModel,
    root: Seq<char>,
) -> bool {
    &&& ranked(parents)
    &&& parents.contains_key(root)
    &&& forall|id: Seq<char>| #[trigger]
        parents.contains_key(id) ==> match parents[id].previous {
            None => id == root,
            Some(previous) => may_take(
                view,
                direction,
                constraints,
                previous,
                id,
                parents[id].via_edge->0,
            ),
        }
}

proof fn lemma_trail<G: GraphView>(
    parents: Map<Seq<char>, ParentModel>,
    view: &G,
    direction: EdgeDirection,
    constraints: ConstraintsModel,
    root: Seq<char>,
    id: Seq<char>,
)
    requires
        linked(parents, view, direction, constraints, root),
        parents.contains_key(id),
    ensures
        ({
            let nodes = trail_nodes(parents, id);
            let edges = trail_edges(parents, id);
            &&& nodes.len() == parents[id].depth + 1
            &&& edges.len() == parents[id].depth
            &&& nodes[0] == root
            &&& nodes.last() == id
            &&& forall|k: int|
                0 <= k < edges.len() ==> may_take(
                    view,
                    direction,
                    constraints,
                    nodes[k],
                    nodes[k + 1],
                    #[trigger] edges[k],
                )
        }),
    decreases parents[id].depth,
{
    match parents[id].previous {
        None => {},
        Some(previous) => {
            lemma_trail(parents, view, direction, constraints, root, previous);
        },
    }
}

/// The path that two searches make is a route.
proof fn lemma_joined_is_route<G: GraphView>(
    forward: Map<Seq<char>, ParentModel>,
    backward: Map<Seq<char>, ParentModel>,
    view: &G,
    direction: EdgeDirection,
    constraints: ConstraintsModel,
    source: Seq<char>,
    target: Seq<char>,
    meet: Seq<char>,
    path: PathModel,
)
    requires
        linked(forward, view, direction, constraints, source),
        linked(backward, view, reversed(direction), constraints, target),
        forward.contains_key(meet),
        backward.contains_key(meet),
        path.node_ids == joined_nodes(forward, backward, meet),
        path.edge_ids == joined_edges(forward, backward, meet),
        path.hop_count == path.edge_ids.len(),
    ensures
        is_route(view, direction, constraints, path, source, target),
        path.hop_count == forward[meet].depth + backward[meet].depth,
        path.node_ids.len() > 0,
{
    lemma_trail(forward, view, direction, constraints, source, meet);
    lemma_trail(backward, view, reversed(direction), constraints, target, meet);
    let split = forward[meet].depth as int;
    let fn_ = trail_nodes(forward, meet);
    let fe = trail_edges(forward, meet);
    let bn = trail_nodes(backward, meet);
    let be = trail_edges(backward, meet);
    let n = path.edge_ids.len() as int;
    assert forall|k: int| 0 <= k < split implies may_take(
        view,
        direction,
        constraints,
        path.node_ids[k],
        path.node_ids[k + 1],
        #[trigger] path.edge_ids[k],
    ) by {
        assert(path.edge_ids[k] == fe[k]);
        assert(path.node_ids[k] == fn_[k]);
        assert(path.node_ids[k + 1] == fn_[k + 1]);
    }
    assert forall|k: int| split <= k < n implies may_take(
        view,
        reversed(direction),
        constraints,
        path.node_ids[k + 1],
        path.node_ids[k],
        #[trigger] path.edge_ids[k],
    ) by {
        let j = n - 1 - k;
        assert(path.edge_ids[k] == be[j]);
        assert(path.node_ids[k + 1] == bn[j]);
        if k == split {
            assert(path.node_ids[k] == meet);
            assert(bn[j + 1] == meet);
        } else {
            assert(path.node_ids[k] == bn[j + 1]);
        }
    }
    assert(hops_fit(view, direction, constraints, path, split));
    if backward[meet].depth > 0 {
        assert(path.node_ids.last() == bn[0]);
    } else {
        assert(meet == bn[0]);
        assert(path.node_ids.last() == meet);
    }
}

// ---------------------------------------------------------------------------------------------
// One side of the search
// ---------------------------------------------------------------------------------------------

/// One of the two searches: how it came to the nodes it has found, and those it found last.
pub struct SearchSide {
    pub frontier: Vec<NodeId>,
    pub parents: OrderedMap<NodeId, PathParent>,
}

/// The model of one of the two searches.
pub struct SideModel {
    pub frontier: Seq<Seq<char>>,
    pub parents: Map<Seq<char>, ParentModel>,
}

impl View for SearchSide {
    type V = SideModel;

    open spec fn view(&self) -> SideModel {
        SideModel { frontier: models(self.frontier@), parents: self.parents@ }
    }
}

/// A search that has found its start.
pub open spec fn side_start(root: Seq<char>) -> SideModel {
    SideModel {
        frontier: seq![root],
        parents: Map::empty().insert(
            root,
            ParentModel { previous: None, via_edge: None, depth: 0 },
        ),
    }
}

/// A search of which steps from a node have been taken, in turn, up to the first one that leads to
/// one of the nodes that the other search has found, and that node. A step to a node that the
/// search has found already leads nowhere.
pub open spec fn left(
    side: SideModel,
    node: Seq<char>,
    depth: u8,
    found: Seq<ExpansionModel>,
    other: Set<Seq<char>>,
) -> (SideModel, Option<Seq<char>>)
    decreases found.len(),
{
    if found.len() == 0 {
        (side, None)
    } else {
        let before = left(side, node, depth, found.drop_last(), other);
        let step = found.last();
        if before.1 is Some || before.0.parents.contains_key(step.neighbor) {
            before
        } else {
            let parents = before.0.parents.insert(
                step.neighbor,
                ParentModel {
                    previous: Some(node),
                    via_edge: Some(step.edge.id),
                    depth: (depth + 1) as u8,
                },
            );
            if other.contains(step.neighbor) {
                (SideModel { parents, ..before.0 }, Some(step.neighbor))
            } else {
                (SideModel { parents, frontier: before.0.frontier.push(step.neighbor) }, None)
            }
        }
    }
}

/// A search of which the steps from several nodes have been taken, one node after the other, up to
/// the first step that leads to one of the nodes that the other search has found.
pub open spec fn left_all<G: GraphView>(
    side: SideModel,
    view: &G,
    direction: EdgeDirection,
    constraints: ConstraintsModel,
    nodes: Seq<Seq<char>>,
    depth: u8,
    other: Set<Seq<char>>,
) -> (SideModel, Option<Seq<char>>)
    decreases nodes.len(),
{
    if nodes.len() == 0 {
        (side, None)
    } else {
        let before = left_all(
            side,
            view,
            direction,
            constraints,
            nodes.drop_last(),
            depth,
            other,
        );
        if before.1 is Some {
            before
        } else {
            left(
                before.0,
                nodes.last(),
                depth,
                expansions(view, nodes.last(), direction, constraints),
                other,
            )
        }
    }
}

/// A search that has taken the steps from the nodes found last.
pub open spec fn expanded<G: GraphView>(
    side: SideModel,
    view: &G,
    direction: EdgeDirection,
    constraints: ConstraintsModel,
    depth: u8,
    other: Set<Seq<char>>,
) -> (SideModel, Option<Seq<char>>) {
    left_all(
        SideModel { frontier: Seq::empty(), ..side },
        view,
        direction,
        constraints,
        side.frontier,
        depth,
        other,
    )
}

/// Once a search has met the other one, it takes no more steps.
proof fn lemma_left_stays(
    side: SideModel,
    node: Seq<char>,
    depth: u8,
    found: Seq<ExpansionModel>,
    other: Set<Seq<char>>,
    i: int,
)
    requires
        0 <= i <= found.len(),
        left(side, node, depth, found.take(i), other).1 is Some,
    ensures
        left(side, node, depth, found, other) == left(side, node, depth, found.take(i), other),
    decreases found.len(),
{
    if i == found.len() {
        assert(found.take(i) =~= found);
    } else {
        assert(found.drop_last().take(i) =~= found.take(i));
        lemma_left_stays(side, node, depth, found.drop_last(), other, i);
    }
}

/// Once a search has met the other one, it leaves no more nodes.
proof fn lemma_left_all_stays<G: GraphView>(
    side: SideModel,
    view: &G,
    direction: EdgeDirection,
    constraints: ConstraintsModel,
    nodes: Seq<Seq<char>>,
    depth: u8,
    other: Set<Seq<char>>,
    i: int,
)
    requires
        0 <= i <= nodes.len(),
        left_all(side, view, direction, constraints, nodes.take(i), depth, other).1 is Some,
    ensures
        left_all(side, view, direction, constraints, nodes, depth, other) == left_all(
            side,
            view,
            direction,
            constraints,
            nodes.take(i),
            depth,
            other,
        ),
    decreases nodes.len(),
{
    if i == nodes.len() {
        assert(nodes.take(i) =~= nodes);
    } else {
        assert(nodes.drop_last().take(i) =~= nodes.take(i));
        lemma_left_all_stays(
            side,
            view,
            direction,
            constraints,
            nodes.drop_last(),
            depth,
            other,
            i,
        );
    }
}

/// Whether a list holds what a set has more than another one.
pub open spec fn lists_added(
    list: Seq<Seq<char>>,
    before: Set<Seq<char>>,
    after: Set<Seq<char>>,
) -> bool {
    forall|b: Seq<char>| #[trigger]
        list.contains(b) <==> after.contains(b) && !before.contains(b)
}

impl SearchSide {
    /// Whether a search has found exactly what the given number of hops reaches, and its last
    /// finds are the nodes that steps may lead on from.
    pub open spec fn complete<G: GraphView>(
        self,
        view: &G,
        direction: EdgeDirection,
        constraints: ConstraintsModel,
        root: Seq<char>,
        depth: u8,
    ) -> bool {
        let hops = steps(view, direction, constraints);
        &&& linked(self.parents@, view, direction, constraints, root)
        &&& self.parents@.dom() == reach(hops, root, depth as nat)
        &&& forall|id: Seq<char>| #[trigger]
            self.parents@.contains_key(id) ==> self.parents@[id].depth <= depth
        &&& forall|i: int|
            0 <= i < self.frontier.len() ==> self.parents@.contains_key(
                (#[trigger] self.frontier@[i])@,
            ) && self.parents@[self.frontier@[i]@].depth == depth
        &&& forall|a: Seq<char>, b: Seq<char>| #[trigger]
            hops(a, b) && self.parents@.contains_key(a) && !models(self.frontier@).contains(a)
                ==> self.parents@.contains_key(b)
    }

    /// A search that has found its start.
    fn begin<G: GraphView>(
        view: &G,
        direction: EdgeDirection,
        constraints: &TraversalConstraints,
        root: &NodeId,
    ) -> (r: Self)
        ensures
            r.complete(view, direction, constraints@, root@, 0),
            r.frontier.len() == 1,
            r.parents@.dom() == Set::empty().insert(root@),
            r@ == side_start(root@),
    {
        let mut frontier: Vec<NodeId> = Vec::new();
        frontier.push(root.clone());
        let mut parents: OrderedMap<NodeId, PathParent> = OrderedMap::new();
        let parent: PathParent = PathParent { previous: None, via_edge: None, depth: 0 };
        parents.insert(root.clone(), parent);
        proof {
            assert(parents@.dom() =~= Set::empty().insert(root@));
            assert(reach(steps(view, direction, constraints@), root@, 0) =~= parents@.dom());
            assert(models(frontier@)[0] == root@);
            assert(models(frontier@).contains(root@));
        }
        let side: SearchSide = SearchSide { frontier, parents };
        proof {
            assert(side@.frontier =~= seq![root@]);
            assert(side@.parents =~= side_start(root@).parents);
        }
        side
    }

    /// Takes the steps from one node, up to the first one that leads to a node that the other
    /// search has found.
    #[verifier::spinoff_prover]
    #[verifier::rlimit(40)]
    fn leave<G: GraphView>(
        &mut self,
        view: &G,
        direction: EdgeDirection,
        constraints: &TraversalConstraints,
        Ghost(root): Ghost<Seq<char>>,
        Ghost(start): Ghost<Set<Seq<char>>>,
        node_id: &NodeId,
        depth: u8,
        other: &OrderedMap<NodeId, PathParent>,
    ) -> (r: Option<NodeId>)
        requires
            linked(old(self).parents@, view, direction, constraints@, root),
            depth < u8::MAX,
            old(self).parents@.contains_key(node_id@),
            old(self).parents@[node_id@].depth == depth,
            lists_added(models(old(self).frontier@), start, old(self).parents@.dom()),
            start.subset_of(old(self).parents@.dom()),
        ensures
            linked(final(self).parents@, view, direction, constraints@, root),
            forall|b: Seq<char>| #[trigger]
                old(self).parents@.contains_key(b) ==> final(self).parents@.contains_key(b)
                    && final(self).parents@[b] == old(self).parents@[b],
            forall|b: Seq<char>| #[trigger]
                final(self).parents@.contains_key(b) ==> old(self).parents@.contains_key(b) || (
                final(self).parents@[b].depth == depth + 1 && may_go(
                    view,
                    direction,
                    constraints@,
                    node_id@,
                    b,
                )),
            match r {
                None => {
                    &&& forall|b: Seq<char>| #[trigger]
                        may_go(view, direction, constraints@, node_id@, b) ==> final(self).parents@.contains_key(b)
                    &&& lists_added(
                        models(final(self).frontier@),
                        start,
                        final(self).parents@.dom(),
                    )
                    &&& forall|b: Seq<char>| #[trigger]
                        final(self).parents@.contains_key(b) ==> old(self).parents@.contains_key(b)
                            || !other@.contains_key(b)
                },
                Some(meet) => final(self).parents@.contains_key(meet@) && !old(self).parents@.contains_key(meet@) && other@.contains_key(meet@),
            },
            (final(self)@, crate::graph::optional_view(r)) == left(
                old(self)@,
                node_id@,
                depth,
                expansions(view, node_id@, direction, constraints@),
                other@.dom(),
            ),
    {
        let found: Vec<Expansion> = expand_neighbors(view, node_id, direction, constraints);
        let ghost all = expansions(view, node_id@, direction, constraints@);
        let ghost parents0 = self.parents@;
        let ghost side0 = self@;
        let mut i: usize = 0;
        while i < found.len()
            invariant
                i <= found.len(),
                side0 == old(self)@,
                left(side0, node_id@, depth, all.take(i as int), other@.dom()) == (
                    self@,
                    None::<Seq<char>>,
                ),
                models(found@) == all,
                all == expansions(view, node_id@, direction, constraints@),
                depth < u8::MAX,
                parents0 == old(self).parents@,
                parents0.contains_key(node_id@),
                parents0[node_id@].depth == depth,
                start.subset_of(parents0.dom()),
                linked(self.parents@, view, direction, constraints@, root),
                forall|b: Seq<char>| #[trigger]
                    parents0.contains_key(b) ==> self.parents@.contains_key(b) && self.parents@[b]
                        == parents0[b],
                forall|b: Seq<char>| #[trigger]
                    self.parents@.contains_key(b) ==> parents0.contains_key(b) || (
                    self.parents@[b].depth == depth + 1 && may_go(
                        view,
                        direction,
                        constraints@,
                        node_id@,
                        b,
                    )),
                forall|k: int|
                    0 <= k < i ==> self.parents@.contains_key((#[trigger] all[k]).neighbor),
                lists_added(models(self.frontier@), start, self.parents@.dom()),
                forall|b: Seq<char>| #[trigger]
                    self.parents@.contains_key(b) ==> parents0.contains_key(b)
                        || !other@.contains_key(b),
            decreases found.len() - i,
        {
            let ghost parents1 = self.parents@;
            let ghost frontier1 = self.frontier@;
            let step: &Expansion = &found[i];
            let ghost to = step.neighbor@;
            let ghost side1 = self@;
            proof {
                assert(all[i as int] == step@);
                assert(all.take(i + 1).drop_last() =~= all.take(i as int));
                assert(all.take(i + 1).last() == step@);
                assert(may_go(view, direction, constraints@, node_id@, to));
                assert(may_take(view, direction, constraints@, node_id@, to, step.edge.id@));
            }
            if !self.parents.contains_key(&step.neighbor) {
                let parent: PathParent = PathParent {
                    previous: Some(node_id.clone()),
                    via_edge: Some(step.edge.id.clone()),
                    depth: depth + 1,
                };
                self.parents.insert(step.neighbor.clone(), parent);
                proof {
                    assert(parents1.contains_key(node_id@));
                    assert forall|id: Seq<char>| #[trigger] self.parents@.contains_key(id)
                        implies match self.parents@[id].previous {
                        None => self.parents@[id].depth == 0 && self.parents@[id].via_edge is None,
                        Some(previous) => self.parents@[id].via_edge is Some
                            && self.parents@.contains_key(previous) && self.parents@[id].depth
                            == self.parents@[previous].depth + 1,
                    } by {
                        if id != to {
                            assert(parents1.contains_key(id));
                            if self.parents@[id].previous is Some {
                                assert(parents1.contains_key(self.parents@[id].previous->0));
                            }
                        }
                    }
                    assert(ranked(self.parents@));
                    assert forall|id: Seq<char>| #[trigger] self.parents@.contains_key(id)
                        implies match self.parents@[id].previous {
                        None => id == root,
                        Some(previous) => may_take(
                            view,
                            direction,
                            constraints@,
                            previous,
                            id,
                            self.parents@[id].via_edge->0,
                        ),
                    } by {
                        if id != to {
                            assert(parents1.contains_key(id));
                        }
                    }
                    assert(!parents0.contains_key(to));
                }
                if other.contains_key(&step.neighbor) {
                    proof {
                        assert(self@.parents == left(
                            side0,
                            node_id@,
                            depth,
                            all.take(i + 1),
                            other@.dom(),
                        ).0.parents);
                        lemma_left_stays(side0, node_id@, depth, all, other@.dom(), i + 1);
                    }
                    return Some(step.neighbor.clone());
                }
                self.frontier.push(step.neighbor.clone());
                proof {
                    assert(models(self.frontier@) =~= models(frontier1).push(to));
                    assert forall|b: Seq<char>| #[trigger]
                        models(self.frontier@).contains(b) <==> self.parents@.dom().contains(b)
                            && !start.contains(b) by {
                        crate::reach::lemma_push_contains(models(frontier1), to, b);
                        assert(models(frontier1).contains(b) <==> parents1.dom().contains(b)
                            && !start.contains(b));
                    }
                }
            }
            i = i + 1;
        }
        proof {
            assert(all.take(i as int) =~= all);
            assert forall|b: Seq<char>| #[trigger]
                may_go(view, direction, constraints@, node_id@, b) implies self.parents@.contains_key(
                b,
            ) by {
                let k = choose|k: int|
                    0 <= k < expansions(view, node_id@, direction, constraints@).len() && (
                    #[trigger] expansions(view, node_id@, direction, constraints@)[k]).neighbor
                        == b;
                assert(all[k].neighbor == b);
            }
        }
        None
    }

    /// Takes the steps from all nodes found last, up to the first one that leads to a node that
    /// the other search has found.
    #[verifier::spinoff_prover]
    #[verifier::rlimit(40)]
    fn expand<G: GraphView>(
        &mut self,
        view: &G,
        direction: EdgeDirection,
        constraints: &TraversalConstraints,
        Ghost(root): Ghost<Seq<char>>,
        depth: u8,
        other: &OrderedMap<NodeId, PathParent>,
    ) -> (r: Option<NodeId>)
        requires
            old(self).complete(view, direction, constraints@, root, depth),
            depth < u8::MAX,
            old(self).parents@.dom().disjoint(other@.dom()),
        ensures
            match r {
                None => final(self).complete(
                    view,
                    direction,
                    constraints@,
                    root,
                    (depth + 1) as u8,
                ) && final(self).parents@.dom().disjoint(other@.dom()),
                Some(meet) => {
                    &&& linked(final(self).parents@, view, direction, constraints@, root)
                    &&& final(self).parents@.contains_key(meet@)
                    &&& final(self).parents@[meet@].depth == depth + 1
                    &&& other@.contains_key(meet@)
                    &&& reach(
                        steps(view, direction, constraints@),
                        root,
                        (depth + 1) as nat,
                    ).contains(meet@)
                },
            },
            (final(self)@, crate::graph::optional_view(r)) == expanded(
                old(self)@,
                view,
                direction,
                constraints@,
                depth,
                other@.dom(),
            ),
    {
        let ghost all = self@.frontier;
        let ghost side0 = SideModel { frontier: Seq::empty(), ..self@ };
        let ghost hops = steps(view, direction, constraints@);
        let ghost parents0 = self.parents@;
        let mut frontier: Vec<NodeId> = Vec::new();
        proof {
            assert(models(frontier@).len() == 0);
        }
        std::mem::swap(&mut frontier, &mut self.frontier);
        let ghost start = parents0.dom();
        let mut i: usize = 0;
        proof {
            assert(self@.frontier =~= Seq::empty());
        }
        while i < frontier.len()
            invariant
                i <= frontier.len(),
                all == models(frontier@),
                all == old(self)@.frontier,
                side0 == (SideModel { frontier: Seq::empty(), ..old(self)@ }),
                left_all(
                    side0,
                    view,
                    direction,
                    constraints@,
                    all.take(i as int),
                    depth,
                    other@.dom(),
                ) == (self@, None::<Seq<char>>),
                depth < u8::MAX,
                hops == steps(view, direction, constraints@),
                start == parents0.dom(),
                start == reach(hops, root, depth as nat),
                linked(self.parents@, view, direction, constraints@, root),
                forall|k: int|
                    0 <= k < frontier.len() ==> parents0.contains_key((#[trigger] frontier@[k])@)
                        && parents0[frontier@[k]@].depth == depth,
                forall|b: Seq<char>| #[trigger]
                    parents0.contains_key(b) ==> self.parents@.contains_key(b) && self.parents@[b]
                        == parents0[b],
                forall|b: Seq<char>| #[trigger]
                    self.parents@.contains_key(b) ==> parents0.contains_key(b) || (
                    self.parents@[b].depth == depth + 1 && reach(
                        hops,
                        root,
                        (depth + 1) as nat,
                    ).contains(b)),
                forall|k: int, b: Seq<char>|
                    0 <= k < i && #[trigger] may_go(
                        view,
                        direction,
                        constraints@,
                        frontier@[k]@,
                        b,
                    ) ==> self.parents@.contains_key(b),
                lists_added(models(self.frontier@), start, self.parents@.dom()),
                self.parents@.dom().disjoint(other@.dom()),
            decreases frontier.len() - i,
        {
            let ghost parents1 = self.parents@;
            let ghost node = frontier@[i as int]@;
            proof {
                assert(parents0.contains_key(node));
                assert(all.take(i + 1).drop_last() =~= all.take(i as int));
                assert(all.take(i + 1).last() == node);
            }
            let met: Option<NodeId> = self.leave(
                view,
                direction,
                constraints,
                Ghost(root),
                Ghost(start),
                &frontier[i],
                depth,
                other,
            );
            proof {
                assert forall|b: Seq<char>| #[trigger] self.parents@.contains_key(b) implies
                    parents0.contains_key(b) || (self.parents@[b].depth == depth + 1 && reach(
                    hops,
                    root,
                    (depth + 1) as nat,
                ).contains(b)) by {
                    if parents1.contains_key(b) {
                        assert(parents0.contains_key(b) || parents1[b].depth == depth + 1);
                    } else {
                        assert(hops(node, b));
                        lemma_reach_hop(hops, root, depth as nat, node, b);
                    }
                }
                assert forall|b: Seq<char>| #[trigger] parents0.contains_key(b) implies
                    self.parents@.contains_key(b) && self.parents@[b] == parents0[b] by {
                    assert(parents1.contains_key(b));
                }
            }
            if met.is_some() {
                proof {
                    let meet = met->0@;
                    lemma_left_all_stays(
                        side0,
                        view,
                        direction,
                        constraints@,
                        all,
                        depth,
                        other@.dom(),
                        i + 1,
                    );
                    assert(!parents1.contains_key(meet));
                    if parents0.contains_key(meet) {
                        assert(parents1.contains_key(meet));
                    }
                }
                return met;
            }
            proof {
                assert forall|k: int, b: Seq<char>|
                    0 <= k < i + 1 && #[trigger] may_go(
                        view,
                        direction,
                        constraints@,
                        frontier@[k]@,
                        b,
                    ) implies self.parents@.contains_key(b) by {
                    if k < i {
                        assert(parents1.contains_key(b));
                    }
                }
                assert forall|b: Seq<char>| self.parents@.dom().contains(b) implies !other@.dom().contains(b) by {
                    assert(self.parents@.contains_key(b));
                    if parents1.contains_key(b) {
                        assert(parents1.dom().contains(b));
                    }
                }
            }
            i = i + 1;
        }
        proof {
            assert(all.take(i as int) =~= all);
            let full = reach(hops, root, (depth + 1) as nat);
            assert forall|b: Seq<char>| full.contains(b) implies self.parents@.dom().contains(b) by {
                if start.contains(b) {
                    assert(parents0.contains_key(b));
                } else {
                    assert(one_hop(hops, start, b));
                    let a = choose|a: Seq<char>| start.contains(a) && #[trigger] hops(a, b);
                    assert(parents0.contains_key(a));
                    if models(frontier@).contains(a) {
                        let k = choose|k: int|
                            0 <= k < models(frontier@).len() && models(frontier@)[k] == a;
                        assert(may_go(view, direction, constraints@, frontier@[k]@, b));
                    } else {
                        assert(hops(a, b));
                        assert(parents0.contains_key(b));
                    }
                }
            }
            lemma_reach_grows(hops, root, depth as nat, (depth + 1) as nat);
            assert forall|b: Seq<char>| self.parents@.dom().contains(b) implies full.contains(b) by {
                assert(self.parents@.contains_key(b));
                if parents0.contains_key(b) {
                    assert(start.contains(b));
                }
            }
            assert(self.parents@.dom() =~= full);
            assert forall|a: Seq<char>, b: Seq<char>| #[trigger]
                hops(a, b) && self.parents@.contains_key(a) && !models(self.frontier@).contains(
                    a,
                ) implies self.parents@.contains_key(b) by {
                assert(start.contains(a));
                lemma_reach_hop(hops, root, depth as nat, a, b);
                assert(full.contains(b));
            }
            assert forall|k: int| 0 <= k < self.frontier.len() implies self.parents@.contains_key(
                (#[trigger] self.frontier@[k])@,
            ) && self.parents@[self.frontier@[k]@].depth == depth + 1 by {
                let b = self.frontier@[k]@;
                assert(models(self.frontier@)[k] == b);
                assert(models(self.frontier@).contains(b));
                assert(self.parents@.contains_key(b));
                assert(!parents0.contains_key(b));
            }
        }
        None
    }
}

// ---------------------------------------------------------------------------------------------
// The search from both ends
// ---------------------------------------------------------------------------------------------

/// What a search for a path comes to.
#[derive(Debug, PartialEq, Eq)]
pub enum PathOutcome {
    /// The two searches met: this is the path.
    Found(GraphPath),
    /// The two searches went as far as they may and did not meet.
    Absent,
    /// Time was up, or the searches had found as many nodes as they may.
    Stopped,
}

/// The model of what a search for a path comes to.
pub enum OutcomeModel {
    Found(PathModel),
    Absent,
    Stopped,
}

impl View for PathOutcome {
    type V = OutcomeModel;

    open spec fn view(&self) -> OutcomeModel {
        match self {
            PathOutcome::Found(path) => OutcomeModel::Found(path@),
            PathOutcome::Absent => OutcomeModel::Absent,
            PathOutcome::Stopped => OutcomeModel::Stopped,
        }
    }
}

/// The model of two searches for each other.
pub struct SearchModel {
    pub source: Seq<char>,
    pub target: Seq<char>,
    pub direction: EdgeDirection,
    pub forward: SideModel,
    pub backward: SideModel,
    pub depth: u8,
}

impl SearchModel {
    /// Two searches that have each found their own end.
    pub open spec fn start(source: Seq<char>, target: Seq<char>, direction: EdgeDirection) -> Self {
        SearchModel {
            source,
            target,
            direction,
            forward: side_start(source),
            backward: side_start(target),
            depth: 0,
        }
    }

    /// Whether both searches found something last.
    pub open spec fn goes_on(self) -> bool {
        self.forward.frontier.len() > 0 && self.backward.frontier.len() > 0
    }

    /// The search from the start takes its steps, and, if it meets no node that the other one has
    /// found, the search from the end takes its own. With it comes the node where they meet.
    pub open spec fn stepped<G: GraphView>(self, view: &G, constraints: ConstraintsModel) -> (
        Self,
        Option<Seq<char>>,
    ) {
        let ahead = expanded(
            self.forward,
            view,
            self.direction,
            constraints,
            self.depth,
            self.backward.parents.dom(),
        );
        let behind = expanded(
            self.backward,
            view,
            reversed(self.direction),
            constraints,
            self.depth,
            ahead.0.parents.dom(),
        );
        if ahead.1 is Some {
            (SearchModel { forward: ahead.0, ..self }, ahead.1)
        } else if behind.1 is Some {
            (SearchModel { forward: ahead.0, backward: behind.0, ..self }, behind.1)
        } else {
            (
                SearchModel {
                    forward: ahead.0,
                    backward: behind.0,
                    depth: (self.depth + 1) as u8,
                    ..self
                },
                None,
            )
        }
    }

    /// The path through a node that both searches have found.
    pub open spec fn path_by(self, meet: Seq<char>) -> PathModel {
        let edges = joined_edges(self.forward.parents, self.backward.parents, meet);
        PathModel {
            node_ids: joined_nodes(self.forward.parents, self.backward.parents, meet),
            edge_ids: edges,
            hop_count: edges.len() as usize,
        }
    }

    /// What the next round comes to while there is time; nothing if the searches are to go on.
    pub open spec fn decided<G: GraphView>(self, view: &G, runtime: RuntimeModel) -> Option<
        OutcomeModel,
    > {
        if !self.goes_on() {
            Some(OutcomeModel::Absent)
        } else if self.forward.parents.dom().len() + self.backward.parents.dom().len()
            >= runtime.limit {
            Some(OutcomeModel::Stopped)
        } else if self.depth == runtime.max_depth {
            Some(OutcomeModel::Absent)
        } else {
            match self.stepped(view, runtime.constraints) {
                (after, Some(meet)) => Some(OutcomeModel::Found(after.path_by(meet))),
                (_, None) => None,
            }
        }
    }

    /// The searches after a number of rounds in which they did not meet.
    pub open spec fn after<G: GraphView>(
        self,
        view: &G,
        constraints: ConstraintsModel,
        rounds: nat,
    ) -> Self
        decreases rounds,
    {
        if rounds == 0 {
            self
        } else {
            self.after(view, constraints, (rounds - 1) as nat).stepped(view, constraints).0
        }
    }

    /// Whether the searches, unless time is up before, come to an outcome after a number of
    /// rounds.
    pub open spec fn comes_to<G: GraphView>(
        self,
        view: &G,
        runtime: RuntimeModel,
        outcome: OutcomeModel,
        rounds: nat,
    ) -> bool {
        &&& self.goes_through(view, runtime, rounds)
        &&& self.after(view, runtime.constraints, rounds).decided(view, runtime) == Some(outcome)
    }

    /// Whether the searches, unless time is up before, go through a number of rounds.
    pub open spec fn goes_through<G: GraphView>(
        self,
        view: &G,
        runtime: RuntimeModel,
        rounds: nat,
    ) -> bool {
        forall|n: nat|
            n < rounds ==> (#[trigger] self.after(view, runtime.constraints, n)).decided(
                view,
                runtime,
            ) is None
    }
}

impl View for PathSearch {
    type V = SearchModel;

    open spec fn view(&self) -> SearchModel {
        SearchModel {
            source: self.source@,
            target: self.target@,
            direction: self.direction,
            forward: self.forward@,
            backward: self.backward@,
            depth: self.depth,
        }
    }
}

/// Two searches for each other, one from each end.
pub struct PathSearch {
    pub source: NodeId,
    pub target: NodeId,
    pub direction: EdgeDirection,
    pub forward: SearchSide,
    pub backward: SearchSide,
    pub depth: u8,
}

impl PathSearch {
    /// What can be reached from the start in the given number of hops.
    pub open spec fn ahead<G: GraphView>(
        self,
        view: &G,
        constraints: ConstraintsModel,
        depth: nat,
    ) -> Set<Seq<char>> {
        reach(steps(view, self.direction, constraints), self.source@, depth)
    }

    /// What can be reached from the end, against the direction, in the given number of hops.
    pub open spec fn behind<G: GraphView>(
        self,
        view: &G,
        constraints: ConstraintsModel,
        depth: nat,
    ) -> Set<Seq<char>> {
        reach(steps(view, reversed(self.direction), constraints), self.target@, depth)
    }

    /// Whether both searches have found exactly what their depth reaches, and have not met.
    pub open spec fn in_order<G: GraphView>(self, view: &G, constraints: ConstraintsModel) -> bool {
        &&& self.forward.complete(
            view,
            self.direction,
            constraints,
            self.source@,
            self.depth,
        )
        &&& self.backward.complete(
            view,
            reversed(self.direction),
            constraints,
            self.target@,
            self.depth,
        )
        &&& self.forward.parents@.dom().disjoint(self.backward.parents@.dom())
    }

    /// Whether both searches found something last.
    pub open spec fn alive(self) -> bool {
        self.forward.frontier.len() > 0 && self.backward.frontier.len() > 0
    }

    /// How many nodes the searches have found.
    pub open spec fn found<G: GraphView>(self, view: &G, constraints: ConstraintsModel) -> nat {
        self.ahead(view, constraints, self.depth as nat).len() + self.behind(
            view,
            constraints,
            self.depth as nat,
        ).len()
    }

    /// Whether the two searches meet in their next round.
    pub open spec fn will_meet<G: GraphView>(self, view: &G, constraints: ConstraintsModel) -> bool {
        let next = (self.depth + 1) as nat;
        !(self.ahead(view, constraints, next).disjoint(self.behind(view, constraints, next)))
    }

    /// Two searches that have each found their own end.
    pub fn begin<G: GraphView>(
        view: &G,
        constraints: &TraversalConstraints,
        source: &NodeId,
        target: &NodeId,
        direction: EdgeDirection,
    ) -> (r: Self)
        requires
            source@ != target@,
        ensures
            r.in_order(view, constraints@),
            r.source@ == source@,
            r.target@ == target@,
            r.direction == direction,
            r.depth == 0,
            r.alive(),
            r@ == SearchModel::start(source@, target@, direction),
    {
        let forward: SearchSide = SearchSide::begin(view, direction, constraints, source);
        let backward: SearchSide = SearchSide::begin(
            view,
            reverse_direction(direction),
            constraints,
            target,
        );
        PathSearch {
            source: source.clone(),
            target: target.clone(),
            direction,
            forward,
            backward,
            depth: 0,
        }
    }

    /// The path through a node that both searches have found.
    fn path_through<G: GraphView>(
        &self,
        view: &G,
        constraints: &TraversalConstraints,
        meet: &NodeId,
    ) -> (r: PathOutcome)
        requires
            linked(self.forward.parents@, view, self.direction, constraints@, self.source@),
            linked(
                self.backward.parents@,
                view,
                reversed(self.direction),
                constraints@,
                self.target@,
            ),
            self.forward.parents@.contains_key(meet@),
            self.backward.parents@.contains_key(meet@),
        ensures
            r matches PathOutcome::Found(path) && is_route(
                view,
                self.direction,
                constraints@,
                path@,
                self.source@,
                self.target@,
            ) && path.hop_count == self.forward.parents@[meet@].depth
                + self.backward.parents@[meet@].depth && path@ == self@.path_by(meet@),
    {
        proof {
            let nodes = joined_nodes(self.forward.parents@, self.backward.parents@, meet@);
            let edges = joined_edges(self.forward.parents@, self.backward.parents@, meet@);
            lemma_trail(
                self.forward.parents@,
                view,
                self.direction,
                constraints@,
                self.source@,
                meet@,
            );
            lemma_trail(
                self.backward.parents@,
                view,
                reversed(self.direction),
                constraints@,
                self.target@,
                meet@,
            );
            lemma_joined_is_route(
                self.forward.parents@,
                self.backward.parents@,
                view,
                self.direction,
                constraints@,
                self.source@,
                self.target@,
                meet@,
                PathModel { node_ids: nodes, edge_ids: edges, hop_count: edges.len() as usize },
            );
        }
        match reconstruct_path(
            &self.source,
            &self.target,
            meet,
            &self.forward.parents,
            &self.backward.parents,
        ) {
            Some(path) => PathOutcome::Found(path),
            None => PathOutcome::Absent,
        }
    }

    /// One round: each search takes the steps from the nodes that it found last. Nothing comes
    /// back if the search is to go on.
    pub fn round<G: GraphView>(
        &mut self,
        view: &G,
        runtime: &TraversalRuntime,
        time_is_up: bool,
    ) -> (r: Option<PathOutcome>)
        requires
            old(self).in_order(view, runtime.constraints@),
            old(self).depth <= runtime.max_depth,
        ensures
            final(self).source == old(self).source,
            final(self).target == old(self).target,
            final(self).direction == old(self).direction,
            crate::graph::optional_view(r) == (if time_is_up && old(self)@.goes_on() {
                Some(OutcomeModel::Stopped)
            } else {
                old(self)@.decided(view, runtime@)
            }),
            r is None ==> final(self)@ == old(self)@.stepped(view, runtime.constraints@).0,
            r == Some(PathOutcome::Stopped) <==> old(self).alive() && (time_is_up || old(self).found(view, runtime.constraints@) >= runtime.limit),
            r == Some(PathOutcome::Absent) <==> !old(self).alive() || (r
                != Some(PathOutcome::Stopped) && old(self).depth == runtime.max_depth),
            r is Some && r->0 is Found <==> old(self).alive() && !(time_is_up || old(self).found(
                view,
                runtime.constraints@,
            ) >= runtime.limit) && old(self).depth < runtime.max_depth && old(self).will_meet(
                view,
                runtime.constraints@,
            ),
            r matches Some(PathOutcome::Found(path)) ==> {
                &&& is_route(
                    view,
                    old(self).direction,
                    runtime.constraints@,
                    path@,
                    old(self).source@,
                    old(self).target@,
                )
                &&& none_shorter(
                    view,
                    old(self).direction,
                    runtime.constraints@,
                    old(self).source@,
                    old(self).target@,
                    path.hop_count as nat,
                )
                &&& 0 < path.hop_count <= 2 * old(self).depth + 2
            },
            r is None ==> final(self).in_order(view, runtime.constraints@) && final(self).depth
                == old(self).depth + 1,
    {
        let ghost constraints = runtime.constraints@;
        let ghost before = *self;
        let forward_count: usize = self.forward.parents.len();
        let backward_count: usize = self.backward.parents.len();
        if self.forward.frontier.len() == 0 || self.backward.frontier.len() == 0 {
            return Some(PathOutcome::Absent);
        }
        if time_is_up {
            return Some(PathOutcome::Stopped);
        }
        if forward_count >= runtime.limit || backward_count >= runtime.limit - forward_count {
            return Some(PathOutcome::Stopped);
        }
        if self.depth == runtime.max_depth {
            return Some(PathOutcome::Absent);
        }
        let depth: u8 = self.depth;
        let ghost source = self.source@;
        let ghost target = self.target@;
        proof {
            let next = (depth + 1) as nat;
            lemma_reach_grows(steps(view, self.direction, constraints), source, depth as nat, next);
            lemma_reach_grows(
                steps(view, reversed(self.direction), constraints),
                target,
                depth as nat,
                next,
            );
        }
        let ahead: Option<NodeId> = self.forward.expand(
            view,
            self.direction,
            &runtime.constraints,
            Ghost(source),
            depth,
            &self.backward.parents,
        );
        match ahead {
            Some(meet) => {
                proof {
                    let back = before.behind(view, constraints, depth as nat);
                    assert(back.contains(meet@));
                    assert(before.behind(view, constraints, (depth + 1) as nat).contains(meet@));
                    let n = self.forward.parents@[meet@].depth
                        + self.backward.parents@[meet@].depth;
                    assert(n <= 2 * depth + 1);
                    lemma_halves_disjoint(
                        view,
                        self.direction,
                        constraints,
                        source,
                        target,
                        depth as nat,
                        depth as nat,
                        n as nat,
                    );
                }
                return Some(self.path_through(view, &runtime.constraints, &meet));
            },
            None => {},
        }
        proof {
            assert(self.backward.parents@.dom().disjoint(self.forward.parents@.dom()));
        }
        let behind: Option<NodeId> = self.backward.expand(
            view,
            reverse_direction(self.direction),
            &runtime.constraints,
            Ghost(target),
            depth,
            &self.forward.parents,
        );
        match behind {
            Some(meet) => {
                proof {
                    assert(before.ahead(view, constraints, (depth + 1) as nat).contains(meet@));
                    assert(before.behind(view, constraints, (depth + 1) as nat).contains(meet@));
                    let n = self.forward.parents@[meet@].depth
                        + self.backward.parents@[meet@].depth;
                    assert(n <= 2 * depth + 2);
                    lemma_halves_disjoint(
                        view,
                        self.direction,
                        constraints,
                        source,
                        target,
                        (depth + 1) as nat,
                        depth as nat,
                        n as nat,
                    );
                }
                return Some(self.path_through(view, &runtime.constraints, &meet));
            },
            None => {},
        }
        self.depth = depth + 1;
        None
    }
}

/// Searches that have not met in some numbers of hops have not met in fewer.
proof fn lemma_halves_disjoint<G: GraphView>(
    view: &G,
    direction: EdgeDirection,
    constraints: ConstraintsModel,
    source: Seq<char>,
    target: Seq<char>,
    m: nat,
    n: nat,
    count: nat,
)
    requires
        reach(steps(view, direction, constraints), source, m).disjoint(
            reach(steps(view, reversed(direction), constraints), target, n),
        ),
        count <= m + n + 1,
        n <= m <= n + 1,
    ensures
        none_shorter(view, direction, constraints, source, target, count),
{
    if count > 0 {
        lemma_reach_grows(steps(view, direction, constraints), source, count / 2, m);
        lemma_reach_grows(
            steps(view, reversed(direction), constraints),
            target,
            ((count - 1) / 2) as nat,
            n,
        );
    }
}

/// Whether two searches, one from each end, have found fewer nodes than the limit together after
/// the given number of hops.
pub open spec fn within_limit<G: GraphView>(
    view: &G,
    direction: EdgeDirection,
    constraints: ConstraintsModel,
    source: Seq<char>,
    target: Seq<char>,
    limit: usize,
    depth: nat,
) -> bool {
    reach(steps(view, direction, constraints), source, depth).len() + reach(
        steps(view, reversed(direction), constraints),
        target,
        depth,
    ).len() < limit
}

/// Whether two searches, one from each end, have found as many nodes as they may together after a
/// number of hops that they may take, and have not met.
pub open spec fn too_many_found<G: GraphView>(
    view: &G,
    direction: EdgeDirection,
    runtime: RuntimeModel,
    source: Seq<char>,
    target: Seq<char>,
    depth: nat,
) -> bool {
    let ahead = reach(steps(view, direction, runtime.constraints), source, depth);
    let behind = reach(steps(view, reversed(direction), runtime.constraints), target, depth);
    &&& depth <= runtime.max_depth
    &&& ahead.disjoint(behind)
    &&& ahead.len() + behind.len() >= runtime.limit
}

/// Seeks a path from both ends: the outcome is the one that the searches come to, round by round,
/// unless time is up in a round before it.
///
/// Whether time is up depends on the clock, except that a search without any time is stopped at
/// once. A search is stopped only if the clock shows that its time is up, or if as many nodes have
/// been found as may be.
#[verifier::spinoff_prover]
#[verifier::rlimit(40)]
pub fn find_path<G: GraphView>(
    view: &G,
    source_node_id: &NodeId,
    target_node_id: &NodeId,
    direction: EdgeDirection,
    runtime: &TraversalRuntime,
) -> (r: PathOutcome)
    ensures
        !view.has_node(source_node_id@) || !view.has_node(target_node_id@) ==> r is Absent,
        view.has_node(source_node_id@) && view.has_node(target_node_id@) && source_node_id@
            == target_node_id@ ==> (r matches PathOutcome::Found(path) && path@ == (PathModel {
            node_ids: seq![source_node_id@],
            edge_ids: Seq::empty(),
            hop_count: 0,
        })),
        r matches PathOutcome::Found(path) ==> is_route(
            view,
            direction,
            runtime.constraints@,
            path@,
            source_node_id@,
            target_node_id@,
        ) && none_shorter(
            view,
            direction,
            runtime.constraints@,
            source_node_id@,
            target_node_id@,
            path.hop_count as nat,
        ) && path.hop_count <= 2 * runtime.max_depth,
        r matches PathOutcome::Found(path) ==> forall|depth: nat|
            2 * depth < path.hop_count ==> #[trigger] within_limit(
                view,
                direction,
                runtime.constraints@,
                source_node_id@,
                target_node_id@,
                runtime.limit,
                depth,
            ),
        view.has_node(source_node_id@) && view.has_node(target_node_id@) && source_node_id@
            != target_node_id@ ==> {
            let start = SearchModel::start(source_node_id@, target_node_id@, direction);
            &&& r !is Stopped ==> exists|rounds: nat| #[trigger]
                start.comes_to(view, runtime@, r@, rounds)
            &&& r is Stopped ==> exists|rounds: nat|
                #![trigger start.goes_through(view, runtime@, rounds)]
                start.goes_through(view, runtime@, rounds) && start.after(
                    view,
                    runtime.constraints@,
                    rounds,
                ).goes_on()
            &&& runtime.timeout_ms == 0 || runtime.limit <= 2 ==> r is Stopped
            &&& r is Stopped ==> ran_out(runtime.timeout_ms) || ((exists|rounds: nat| #[trigger]
                start.comes_to(view, runtime@, r@, rounds)) && exists|depth: nat| #[trigger]
                too_many_found(
                    view,
                    direction,
                    runtime@,
                    source_node_id@,
                    target_node_id@,
                    depth,
                ))
            &&& r is Found ==> was_in_time(runtime.timeout_ms)
        },
        r is Absent && view.has_node(source_node_id@) && view.has_node(target_node_id@) ==> exists|
            depth: nat,
        | #[trigger]
            never_meet(
                view,
                direction,
                runtime.constraints@,
                source_node_id@,
                target_node_id@,
                runtime.max_depth as nat,
                depth,
            ),
{
    if !view.contains_node(source_node_id) || !view.contains_node(target_node_id) {
        return PathOutcome::Absent;
    }
    if same_key(source_node_id, target_node_id) {
        let mut node_ids: Vec<NodeId> = Vec::new();
        node_ids.push(source_node_id.clone());
        let edge_ids: Vec<EdgeId> = Vec::new();
        let path: GraphPath = GraphPath { node_ids, edge_ids, hop_count: 0 };
        proof {
            assert(path@.node_ids =~= seq![source_node_id@]);
            assert(path@.edge_ids =~= Seq::<Seq<char>>::empty());
            assert(hops_fit(view, direction, runtime.constraints@, path@, 0));
        }
        return PathOutcome::Found(path);
    }
    let deadline: Deadline = Deadline::after(runtime.timeout_ms);
    let mut search: PathSearch = PathSearch::begin(
        view,
        &runtime.constraints,
        source_node_id,
        target_node_id,
        direction,
    );
    let ghost start = search@;
    loop
        invariant
            deadline.timeout() == runtime.timeout_ms,
            start == SearchModel::start(source_node_id@, target_node_id@, direction),
            search@ == start.after(view, runtime.constraints@, search.depth as nat),
            start.goes_through(view, runtime@, search.depth as nat),
            runtime.timeout_ms == 0 || runtime.limit <= 2 ==> search.depth == 0,
            forall|depth: nat|
                depth < search.depth ==> #[trigger] within_limit(
                    view,
                    direction,
                    runtime.constraints@,
                    source_node_id@,
                    target_node_id@,
                    runtime.limit,
                    depth,
                ),
            search.in_order(view, runtime.constraints@),
            search.source@ == source_node_id@,
            search.target@ == target_node_id@,
            search.direction == direction,
            search.depth <= runtime.max_depth,
            source_node_id@ != target_node_id@,
            view.has_node(source_node_id@),
            view.has_node(target_node_id@),
        decreases runtime.max_depth - search.depth,
    {
        let time_is_up: bool = deadline.passed();
        let ghost before = search;
        proof {
            if search.depth == 0 {
                lemma_two_at_first(search, view, runtime.constraints@);
            }
        }
        let outcome: Option<PathOutcome> = search.round(view, runtime, time_is_up);
        match outcome {
            Some(result) => {
                proof {
                    let rounds = before.depth as nat;
                    assert(start.after(view, runtime.constraints@, rounds) == before@);
                    if result is Stopped {
                        assert(start.goes_through(view, runtime@, rounds));
                        if !time_is_up {
                            assert(start.comes_to(view, runtime@, result@, rounds));
                            lemma_too_many(before, view, runtime@);
                        }
                    } else {
                        assert(start.comes_to(view, runtime@, result@, rounds));
                    }
                    if result is Absent {
                        lemma_absent(before, view, runtime.constraints@, runtime.max_depth);
                    }
                }
                return result;
            },
            None => {
                proof {
                    let rounds = before.depth as nat;
                    assert(search@ == start.after(view, runtime.constraints@, rounds + 1));
                    assert(before@.decided(view, runtime@) is None);
                }
            },
        }
    }
}

/// Two searches that have only found their own ends have found two nodes.
proof fn lemma_two_at_first<G: GraphView>(
    search: PathSearch,
    view: &G,
    constraints: ConstraintsModel,
)
    requires
        search.depth == 0,
    ensures
        search.found(view, constraints) == 2,
{
    assert(search.ahead(view, constraints, 0) == Set::empty().insert(search.source@));
    assert(search.behind(view, constraints, 0) == Set::empty().insert(search.target@));
}

proof fn lemma_too_many<G: GraphView>(search: PathSearch, view: &G, runtime: RuntimeModel)
    requires
        search.in_order(view, runtime.constraints),
        search.depth <= runtime.max_depth,
        search.found(view, runtime.constraints) >= runtime.limit,
    ensures
        too_many_found(
            view,
            search.direction,
            runtime,
            search.source@,
            search.target@,
            search.depth as nat,
        ),
{
}

proof fn lemma_absent<G: GraphView>(
    search: PathSearch,
    view: &G,
    constraints: ConstraintsModel,
    max_depth: u8,
)
    requires
        search.in_order(view, constraints),
        search.depth <= max_depth,
        !search.alive() || search.depth == max_depth,
    ensures
        never_meet(
            view,
            search.direction,
            constraints,
            search.source@,
            search.target@,
            max_depth as nat,
            search.depth as nat,
        ),
{
    let ahead = search.ahead(view, constraints, search.depth as nat);
    let behind = search.behind(view, constraints, search.depth as nat);
    let hops = steps(view, search.direction, constraints);
    let back = steps(view, reversed(search.direction), constraints);
    if search.forward.frontier.len() == 0 {
        assert forall|a: Seq<char>, b: Seq<char>| ahead.contains(a) && #[trigger] hops(
            a,
            b,
        ) implies ahead.contains(b) by {
            assert(search.forward.parents@.contains_key(a));
            assert(!models(search.forward.frontier@).contains(a));
            assert(search.forward.parents@.contains_key(b));
        }
    }
    if search.backward.frontier.len() == 0 {
        assert forall|a: Seq<char>, b: Seq<char>| behind.contains(a) && #[trigger] back(
            a,
            b,
        ) implies behind.contains(b) by {
            assert(search.backward.parents@.contains_key(a));
            assert(!models(search.backward.frontier@).contains(a));
            assert(search.backward.parents@.contains_key(b));
        }
    }
}

/// Whether a search may give an answer: none where an end is missing, the empty path where both
/// ends are the same node, and otherwise none, or the path that the two searches come to. It is a
/// route than which they know no shorter one, and they have found fewer nodes than the limit until
/// they meet. Between two nodes that are there, no path is an answer only if the searches cannot
/// meet, if they have found as many nodes as they may, or if the clock shows that time is up.
pub open spec fn path_allowed<G: GraphView>(
    view: &G,
    source: Seq<char>,
    target: Seq<char>,
    direction: EdgeDirection,
    runtime: RuntimeModel,
    path: Option<PathModel>,
) -> bool {
    &&& !view.has_node(source) || !view.has_node(target) ==> path is None
    &&& view.has_node(source) && view.has_node(target) && source == target ==> path == Some(
        PathModel { node_ids: seq![source], edge_ids: Seq::empty(), hop_count: 0 },
    )
    &&& path matches Some(found) ==> is_route(
        view,
        direction,
        runtime.constraints,
        found,
        source,
        target,
    ) && none_shorter(
        view,
        direction,
        runtime.constraints,
        source,
        target,
        found.hop_count as nat,
    ) && found.hop_count <= 2 * runtime.max_depth && (forall|depth: nat|
        2 * depth < found.hop_count ==> #[trigger] within_limit(
            view,
            direction,
            runtime.constraints,
            source,
            target,
            runtime.limit,
            depth,
        )) && (source != target ==> exists|rounds: nat| #[trigger]
        SearchModel::start(source, target, direction).comes_to(
            view,
            runtime,
            OutcomeModel::Found(found),
            rounds,
        ))
    &&& source != target && (runtime.limit <= 2 || runtime.timeout_ms == 0) ==> path is None
    &&& source != target && path is Some ==> was_in_time(runtime.timeout_ms)
    &&& view.has_node(source) && view.has_node(target) && path is None ==> {
        ||| ran_out(runtime.timeout_ms)
        ||| exists|depth: nat| #[trigger]
            never_meet(
                view,
                direction,
                runtime.constraints,
                source,
                target,
                runtime.max_depth as nat,
                depth,
            )
        ||| exists|depth: nat| #[trigger]
            too_many_found(view, direction, runtime, source, target, depth)
    }
}

/// A path between two nodes, sought from both ends. That none is found may be because the clock
/// showed that time was up.
pub fn shortest_path<G: GraphView>(
    view: &G,
    source_node_id: &NodeId,
    target_node_id: &NodeId,
    direction: EdgeDirection,
    runtime: &TraversalRuntime,
) -> (r: Option<GraphPath>)
    ensures
        path_allowed(
            view,
            source_node_id@,
            target_node_id@,
            direction,
            runtime@,
            crate::graph::optional_view(r),
        ),
{
    match find_path(view, source_node_id, target_node_id, direction, runtime) {
        PathOutcome::Found(path) => Some(path),
        PathOutcome::Absent => None,
        PathOutcome::Stopped => None,
    }
}

// ---------------------------------------------------------------------------------------------
// Laws
// ---------------------------------------------------------------------------------------------

/// There is one outcome that two searches come to, however many rounds it takes: which of several
/// paths with as many hops is found is decided by the order of the steps alone.
pub proof fn law_one_outcome<G: GraphView>(
    start: SearchModel,
    view: &G,
    runtime: RuntimeModel,
    a: OutcomeModel,
    m: nat,
    b: OutcomeModel,
    n: nat,
)
    requires
        start.comes_to(view, runtime, a, m),
        start.comes_to(view, runtime, b, n),
    ensures
        a == b,
        m == n,
{
    if m < n {
        assert(start.after(view, runtime.constraints, m).decided(view, runtime) is None);
    }
    if n < m {
        assert(start.after(view, runtime.constraints, n).decided(view, runtime) is None);
    }
}

/// Whether every edge stands with its two ends: it is listed for a node exactly when it points
/// away from it, towards it, or either, and the graph has both its ends.
pub open spec fn edges_in_place<G: GraphView>(view: &G) -> bool {
    &&& forall|node: Seq<char>, direction: EdgeDirection, id: Seq<char>|
        #![trigger view.incident_ids(node, direction, None).contains(id)]
        view.incident_ids(node, direction, None).contains(id) <==> (view.edge_at(id) matches Some(
            edge,
        ) && crate::graph::edge_fits(edge, node, direction, None))
    &&& forall|id: Seq<char>|
        (#[trigger] view.edge_at(id)) matches Some(edge) ==> view.node_at(edge.source) is Some
            && view.node_at(edge.target) is Some
}

/// Whether some listed edge offers a step.
proof fn lemma_step_by_edge<G: GraphView>(
    view: &G,
    node: Seq<char>,
    direction: EdgeDirection,
    constraints: ConstraintsModel,
    ids: Seq<Seq<char>>,
    to: Seq<char>,
)
    ensures
        (exists|i: int|
            0 <= i < crate::traverse::expansions_by(view, node, direction, constraints, ids).len()
                && (#[trigger] crate::traverse::expansions_by(
                view,
                node,
                direction,
                constraints,
                ids,
            )[i]).neighbor == to) <==> (exists|id: Seq<char>|
            ids.contains(id) && offers(view, node, direction, constraints, id, to)),
    decreases ids.len(),
{
    let all = crate::traverse::expansions_by(view, node, direction, constraints, ids);
    if ids.len() > 0 {
        let short = ids.drop_last();
        let before = crate::traverse::expansions_by(view, node, direction, constraints, short);
        lemma_step_by_edge(view, node, direction, constraints, short, to);
        let last = ids.last();
        assert(ids.contains(last));
        if exists|i: int| 0 <= i < all.len() && (#[trigger] all[i]).neighbor == to {
            let i = choose|i: int| 0 <= i < all.len() && (#[trigger] all[i]).neighbor == to;
            if i < before.len() {
                assert(before[i].neighbor == to);
                let id = choose|id: Seq<char>|
                    short.contains(id) && offers(view, node, direction, constraints, id, to);
                let k = choose|k: int| 0 <= k < short.len() && short[k] == id;
                assert(ids[k] == id);
                assert(ids.contains(id));
            } else {
                assert(offers(view, node, direction, constraints, last, to));
            }
        }
        if exists|id: Seq<char>|
            ids.contains(id) && offers(view, node, direction, constraints, id, to) {
            let id = choose|id: Seq<char>|
                ids.contains(id) && offers(view, node, direction, constraints, id, to);
            if id == last {
                assert(all[all.len() - 1].neighbor == to);
            } else {
                let k = choose|k: int| 0 <= k < ids.len() && ids[k] == id;
                assert(short[k] == id);
                assert(short.contains(id));
                let i = choose|i: int|
                    0 <= i < before.len() && (#[trigger] before[i]).neighbor == to;
                assert(all[i].neighbor == to);
            }
        }
    }
}

/// Whether an edge offers a step from a node to another one.
pub open spec fn offers<G: GraphView>(
    view: &G,
    node: Seq<char>,
    direction: EdgeDirection,
    constraints: ConstraintsModel,
    id: Seq<char>,
    to: Seq<char>,
) -> bool {
    crate::traverse::expansion(view, node, direction, constraints, id) matches Some(step)
        && step.neighbor == to
}

/// Where every edge stands with its two ends and no label is asked for, a step against a
/// direction is a step in it turned around.
pub proof fn law_steps_turn_around<G: GraphView>(
    view: &G,
    direction: EdgeDirection,
    constraints: ConstraintsModel,
)
    requires
        edges_in_place(view),
        constraints.node_labels.len() == 0,
    ensures
        turned(
            steps(view, direction, constraints),
            steps(view, reversed(direction), constraints),
        ),
{
    let hops = steps(view, direction, constraints);
    let back = steps(view, reversed(direction), constraints);
    assert forall|a: Seq<char>, b: Seq<char>| #[trigger] hops(a, b) <==> back(b, a) by {
        if hops(a, b) {
            lemma_turns(view, direction, constraints, a, b);
        }
        if back(b, a) {
            lemma_turns(view, reversed(direction), constraints, b, a);
        }
    }
}

proof fn lemma_turns<G: GraphView>(
    view: &G,
    direction: EdgeDirection,
    constraints: ConstraintsModel,
    a: Seq<char>,
    b: Seq<char>,
)
    requires
        edges_in_place(view),
        constraints.node_labels.len() == 0,
        may_go(view, direction, constraints, a, b),
    ensures
        may_go(view, reversed(direction), constraints, b, a),
{
    let ids = view.incident_ids(a, direction, None);
    let back_ids = view.incident_ids(b, reversed(direction), None);
    lemma_step_by_edge(view, a, direction, constraints, ids, b);
    lemma_step_by_edge(view, b, reversed(direction), constraints, back_ids, a);
    let id = choose|id: Seq<char>| ids.contains(id) && offers(view, a, direction, constraints, id, b);
    let edge = view.edge_at(id)->0;
    assert(crate::graph::edge_fits(edge, a, direction, None));
    assert(crate::graph::edge_fits(edge, b, reversed(direction), None));
    assert(back_ids.contains(id));
    assert(offers(view, b, reversed(direction), constraints, id, a));
    let all = expansions(view, b, reversed(direction), constraints);
    let i = choose|i: int| 0 <= i < all.len() && (#[trigger] all[i]).neighbor == a;
    assert(expansions(view, b, reversed(direction), constraints)[i].neighbor == a);
}

/// Where steps can be turned around, no path that is found is longer than it has to be: its end
/// cannot be reached from its start in fewer hops.
pub proof fn law_found_path_is_shortest<G: GraphView>(
    view: &G,
    direction: EdgeDirection,
    constraints: ConstraintsModel,
    source: Seq<char>,
    target: Seq<char>,
    hop_count: nat,
)
    requires
        turned(
            steps(view, direction, constraints),
            steps(view, reversed(direction), constraints),
        ),
        none_shorter(view, direction, constraints, source, target, hop_count),
    ensures
        forall|count: nat|
            count < hop_count ==> !(#[trigger] reach(
                steps(view, direction, constraints),
                source,
                count,
            ).contains(target)),
{
    let hops = steps(view, direction, constraints);
    let back = steps(view, reversed(direction), constraints);
    assert forall|count: nat| count < hop_count implies !(#[trigger] reach(
        hops,
        source,
        count,
    ).contains(target)) by {
        let m = hop_count / 2;
        let n = ((hop_count - 1) / 2) as nat;
        assert(m + n == hop_count - 1);
        lemma_apart(hops, back, source, m, target, n);
        lemma_reach_grows(hops, source, count, m + n);
    }
}

/// Where steps can be turned around, a route has as many hops as its end can be reached in.
pub proof fn law_route_reaches<G: GraphView>(
    view: &G,
    direction: EdgeDirection,
    constraints: ConstraintsModel,
    path: PathModel,
    source: Seq<char>,
    target: Seq<char>,
)
    requires
        turned(
            steps(view, direction, constraints),
            steps(view, reversed(direction), constraints),
        ),
        is_route(view, direction, constraints, path, source, target),
    ensures
        reach(steps(view, direction, constraints), source, path.hop_count as nat).contains(target),
{
    lemma_route_reaches(view, direction, constraints, path, source, target, path.edge_ids.len());
}

proof fn lemma_route_reaches<G: GraphView>(
    view: &G,
    direction: EdgeDirection,
    constraints: ConstraintsModel,
    path: PathModel,
    source: Seq<char>,
    target: Seq<char>,
    count: nat,
)
    requires
        turned(
            steps(view, direction, constraints),
            steps(view, reversed(direction), constraints),
        ),
        is_route(view, direction, constraints, path, source, target),
        count <= path.edge_ids.len(),
    ensures
        reach(steps(view, direction, constraints), source, count).contains(
            path.node_ids[count as int],
        ),
    decreases count,
{
    let hops = steps(view, direction, constraints);
    let back = steps(view, reversed(direction), constraints);
    if count > 0 {
        lemma_route_reaches(
            view,
            direction,
            constraints,
            path,
            source,
            target,
            (count - 1) as nat,
        );
        let k = count - 1;
        let a = path.node_ids[k];
        let b = path.node_ids[k + 1];
        let split = choose|split: int| #[trigger]
            hops_fit(view, direction, constraints, path, split);
        let edge_id = path.edge_ids[k];
        if k < split {
            assert(may_take(view, direction, constraints, a, b, edge_id));
            assert(may_go(view, direction, constraints, a, b));
        } else {
            assert(may_take(view, reversed(direction), constraints, b, a, edge_id));
            assert(may_go(view, reversed(direction), constraints, b, a));
            assert(back(b, a));
        }
        assert(hops(a, b));
        lemma_reach_hop(hops, source, (count - 1) as nat, a, b);
    }
}

/// Where steps can be turned around and two searches never meet, the end cannot be reached from
/// the start in as many hops as both searches may take together.
pub proof fn law_absent_path<G: GraphView>(
    view: &G,
    direction: EdgeDirection,
    constraints: ConstraintsModel,
    source: Seq<char>,
    target: Seq<char>,
    max_depth: nat,
    depth: nat,
)
    requires
        turned(
            steps(view, direction, constraints),
            steps(view, reversed(direction), constraints),
        ),
        never_meet(view, direction, constraints, source, target, max_depth, depth),
    ensures
        !reach(steps(view, direction, constraints), source, 2 * max_depth).contains(target),
{
    let hops = steps(view, direction, constraints);
    let back = steps(view, reversed(direction), constraints);
    let ahead = reach(hops, source, depth);
    let behind = reach(back, target, depth);
    lemma_reach_grows(hops, source, 0, depth);
    lemma_reach_grows(back, target, 0, depth);
    if depth == max_depth {
        lemma_apart(hops, back, source, depth, target, depth);
    } else if closed_under(hops, ahead) {
        lemma_reach_closed(hops, source, depth, 2 * max_depth);
        assert(behind.contains(target));
    } else {
        lemma_reach_closed(back, target, depth, 2 * max_depth);
        if reach(hops, source, 2 * max_depth).contains(target) {
            lemma_reach_back(hops, back, source, 2 * max_depth, target);
            assert(behind.contains(source));
            assert(ahead.contains(source));
        }
    }
}

} // verus!
