//! How far nodes are from a node.
use vstd::prelude::*;

use crate::common::{EdgeId, NodeId};
use crate::graph::GraphView;
use crate::index::EdgeDirection;
use crate::ordered::{models, OrderedMap};
use crate::reach::{lemma_push_contains, one_hop, reach};
use crate::text;
use crate::traverse::{far_end, neighbor_of};

verus! {

/// The greatest distance that is looked at.
pub const MAX_DISTANCE: u8 = 3;

/// Whether the edge of an id leads from a node to another one, whichever way it points.
pub open spec fn edge_joins<G: GraphView>(
    view: &G,
    edge_id: Seq<char>,
    from: Seq<char>,
    to: Seq<char>,
) -> bool {
    view.edge_at(edge_id) matches Some(edge) && far_end(edge, from, EdgeDirection::Both) == to
}

/// Whether an edge of the given type, or any edge, joins two nodes. Nothing is asked of the node
/// it leads to: the graph need not have it.
pub open spec fn joined<G: GraphView>(
    view: &G,
    edge_type: Option<Seq<char>>,
    from: Seq<char>,
    to: Seq<char>,
) -> bool {
    exists|i: int|
        0 <= i < view.incident_ids(from, EdgeDirection::Both, edge_type).len() && edge_joins(
            view,
            #[trigger] view.incident_ids(from, EdgeDirection::Both, edge_type)[i],
            from,
            to,
        )
}

/// What is joined, as a relation between nodes.
pub open spec fn ties<G: GraphView>(view: &G, edge_type: Option<Seq<char>>) -> spec_fn(
    Seq<char>,
    Seq<char>,
) -> bool {
    |a: Seq<char>, b: Seq<char>| joined(view, edge_type, a, b)
}

/// The least number of hops, up to the given one, in which a node can be reached.
pub open spec fn least_hops(
    hops: spec_fn(Seq<char>, Seq<char>) -> bool,
    start: Seq<char>,
    node: Seq<char>,
    most: nat,
) -> nat
    decreases most,
{
    if most == 0 || !reach(hops, start, (most - 1) as nat).contains(node) {
        most
    } else {
        least_hops(hops, start, node, (most - 1) as nat)
    }
}

/// The nodes within the greatest distance of a node, with their distances; none if the graph does
/// not have the node.
pub open spec fn distances<G: GraphView>(
    view: &G,
    start: Seq<char>,
    edge_type: Option<Seq<char>>,
) -> Map<Seq<char>, u8> {
    let hops = ties(view, edge_type);
    Map::new(
        |id: Seq<char>|
            view.has_node(start) && reach(hops, start, MAX_DISTANCE as nat).contains(id),
        |id: Seq<char>| least_hops(hops, start, id, MAX_DISTANCE as nat) as u8,
    )
}

/// Whether a list holds what another one held and the keys that a map has gained.
spec fn lists_gained(
    list: Seq<Seq<char>>,
    before: Seq<Seq<char>>,
    known: Map<Seq<char>, u8>,
    known_before: Map<Seq<char>, u8>,
) -> bool {
    forall|b: Seq<char>| #[trigger]
        list.contains(b) <==> before.contains(b) || (known.contains_key(b)
            && !known_before.contains_key(b))
}

/// Puts down the nodes that edges of a node lead to and that have no distance yet.
fn note_neighbors<G: GraphView>(
    view: &G,
    node_id: &NodeId,
    edge_type: Option<&str>,
    distance: u8,
    known: &mut OrderedMap<NodeId, u8>,
    next: &mut Vec<NodeId>,
)
    ensures
        forall|b: Seq<char>| #[trigger]
            final(known)@.contains_key(b) <==> old(known)@.contains_key(b) || joined(
                view,
                text::optional_text(edge_type),
                node_id@,
                b,
            ),
        forall|b: Seq<char>| #[trigger]
            final(known)@.contains_key(b) ==> final(known)@[b] == if old(known)@.contains_key(b) {
                old(known)@[b]
            } else {
                distance
            },
        lists_gained(models(final(next)@), models(old(next)@), final(known)@, old(known)@),
{
    let ids: Vec<EdgeId> = view.edge_ids_for_iter(node_id, EdgeDirection::Both, edge_type);
    let ghost want = view.incident_ids(
        node_id@,
        EdgeDirection::Both,
        text::optional_text(edge_type),
    );
    let ghost known0 = known@;
    let ghost next0 = models(next@);
    let mut i: usize = 0;
    while i < ids.len()
        invariant
            i <= ids.len(),
            models(ids@) == want,
            forall|b: Seq<char>| #[trigger]
                known@.contains_key(b) <==> known0.contains_key(b) || (exists|k: int|
                    0 <= k < i && edge_joins(view, #[trigger] want[k], node_id@, b)),
            forall|b: Seq<char>| #[trigger]
                known@.contains_key(b) ==> known@[b] == if known0.contains_key(b) {
                    known0[b]
                } else {
                    distance
                },
            lists_gained(models(next@), next0, known@, known0),
        decreases ids.len() - i,
    {
        assert(want[i as int] == ids@[i as int]@);
        let ghost known1 = known@;
        let ghost next1 = next@;
        match view.get_edge(&ids[i]) {
            Some(edge) => {
                let neighbor: NodeId = neighbor_of(&edge, node_id, EdgeDirection::Both);
                let ghost to = neighbor@;
                assert(edge_joins(view, want[i as int], node_id@, to));
                if !known.contains_key(&neighbor) {
                    known.insert(neighbor.clone(), distance);
                    next.push(neighbor);
                    proof {
                        assert(models(next@) =~= models(next1).push(to));
                        assert forall|b: Seq<char>| #[trigger]
                            models(next@).contains(b) <==> next0.contains(b) || (
                            known@.contains_key(b) && !known0.contains_key(b)) by {
                            lemma_push_contains(models(next1), to, b);
                            assert(models(next1).contains(b) <==> next0.contains(b) || (
                            known1.contains_key(b) && !known0.contains_key(b)));
                        }
                    }
                }
                proof {
                    assert forall|b: Seq<char>| #[trigger]
                        known@.contains_key(b) <==> known0.contains_key(b) || (exists|k: int|
                            0 <= k < i + 1 && edge_joins(
                                view,
                                #[trigger] want[k],
                                node_id@,
                                b,
                            )) by {
                    }
                }
            },
            None => {
                proof {
                    assert forall|b: Seq<char>| !edge_joins(view, want[i as int], node_id@, b) by {}
                }
            },
        }
        i = i + 1;
    }
    proof {
        assert forall|b: Seq<char>| #[trigger]
            known@.contains_key(b) <==> known0.contains_key(b) || joined(
                view,
                text::optional_text(edge_type),
                node_id@,
                b,
            ) by {}
    }
}

/// The nodes within the greatest distance of a node, with their distances.
pub fn graph_distances<G: GraphView>(
    view: &G,
    start_node_id: &NodeId,
    edge_type: Option<&str>,
) -> (r: OrderedMap<NodeId, u8>)
    ensures
        r@ == distances(view, start_node_id@, text::optional_text(edge_type)),
{
    let ghost start = start_node_id@;
    let ghost hops = ties(view, text::optional_text(edge_type));
    let mut known: OrderedMap<NodeId, u8> = OrderedMap::new();
    if !view.contains_node(start_node_id) {
        proof {
            assert(known@ =~= distances(view, start, text::optional_text(edge_type)));
        }
        return known;
    }
    known.insert(start_node_id.clone(), 0);
    let mut frontier: Vec<NodeId> = Vec::new();
    frontier.push(start_node_id.clone());
    let mut depth: u8 = 0;
    proof {
        assert(models(frontier@) =~= seq![start]);
        assert(models(frontier@)[0] == start);
    }
    while depth < MAX_DISTANCE
        invariant
            depth <= MAX_DISTANCE,
            start == start_node_id@,
            hops == ties(view, text::optional_text(edge_type)),
            forall|b: Seq<char>| #[trigger]
                known@.contains_key(b) <==> reach(hops, start, depth as nat).contains(b),
            forall|b: Seq<char>| #[trigger]
                known@.contains_key(b) ==> known@[b] == least_hops(hops, start, b, depth as nat),
            forall|b: Seq<char>| #[trigger]
                models(frontier@).contains(b) <==> known@.contains_key(b) && known@[b] == depth,
            forall|b: Seq<char>| #[trigger] known@.contains_key(b) ==> known@[b] <= depth,
            forall|a: Seq<char>, b: Seq<char>| #[trigger]
                hops(a, b) && known@.contains_key(a) && known@[a] < depth ==> known@.contains_key(
                    b,
                ),
        decreases MAX_DISTANCE - depth,
    {
        let ghost base = known@;
        let mut next: Vec<NodeId> = Vec::new();
        let mut i: usize = 0;
        proof {
            assert(models(next@).len() == 0);
        }
        while i < frontier.len()
            invariant
                i <= frontier.len(),
                depth < MAX_DISTANCE,
                hops == ties(view, text::optional_text(edge_type)),
                forall|b: Seq<char>| #[trigger]
                    known@.contains_key(b) <==> base.contains_key(b) || (exists|k: int|
                        0 <= k < i && hops(#[trigger] frontier@[k]@, b)),
                forall|b: Seq<char>| #[trigger]
                    known@.contains_key(b) ==> known@[b] == if base.contains_key(b) {
                        base[b]
                    } else {
                        (depth + 1) as u8
                    },
                lists_gained(models(next@), Seq::empty(), known@, base),
            decreases frontier.len() - i,
        {
            let ghost known1 = known@;
            let ghost next1 = next@;
            note_neighbors(view, &frontier[i], edge_type, depth + 1, &mut known, &mut next);
            proof {
                assert forall|b: Seq<char>| #[trigger]
                    known@.contains_key(b) <==> base.contains_key(b) || (exists|k: int|
                        0 <= k < i + 1 && hops(#[trigger] frontier@[k]@, b)) by {
                    assert(hops(frontier@[i as int]@, b) <==> joined(
                        view,
                        text::optional_text(edge_type),
                        frontier@[i as int]@,
                        b,
                    ));
                }
                assert forall|b: Seq<char>| #[trigger] known@.contains_key(b) implies known@[b]
                    == if base.contains_key(b) {
                    base[b]
                } else {
                    (depth + 1) as u8
                } by {
                }
                assert forall|b: Seq<char>| #[trigger]
                    models(next@).contains(b) <==> Seq::<Seq<char>>::empty().contains(b) || (
                    known@.contains_key(b) && !base.contains_key(b)) by {
                    assert(models(next1).contains(b) <==> Seq::<Seq<char>>::empty().contains(b) || (
                    known1.contains_key(b) && !base.contains_key(b)));
                    if known1.contains_key(b) {
                        assert(known@.contains_key(b));
                    }
                    if base.contains_key(b) {
                        assert(known1.contains_key(b));
                    }
                }
            }
            i = i + 1;
        }
        proof {
            let near = reach(hops, start, depth as nat);
            let far = reach(hops, start, (depth + 1) as nat);
            assert forall|b: Seq<char>| #[trigger] known@.contains_key(b) <==> far.contains(b) by {
                assert(base.contains_key(b) <==> near.contains(b));
                if known@.contains_key(b) && !base.contains_key(b) {
                    let k = choose|k: int|
                        0 <= k < frontier.len() && hops(#[trigger] frontier@[k]@, b);
                    assert(models(frontier@)[k] == frontier@[k]@);
                    assert(models(frontier@).contains(frontier@[k]@));
                    assert(base.contains_key(frontier@[k]@));
                    assert(one_hop(hops, near, b));
                }
                if far.contains(b) && !near.contains(b) {
                    assert(one_hop(hops, near, b));
                    let a = choose|a: Seq<char>| near.contains(a) && #[trigger] hops(a, b);
                    assert(base.contains_key(a));
                    if base[a] < depth {
                        assert(hops(a, b));
                    }
                    assert(models(frontier@).contains(a));
                    let k = choose|k: int|
                        0 <= k < models(frontier@).len() && models(frontier@)[k] == a;
                    assert(hops(frontier@[k]@, b));
                }
            }
            assert forall|a: Seq<char>, b: Seq<char>| #[trigger]
                hops(a, b) && known@.contains_key(a) && known@[a] < depth
                    + 1 implies known@.contains_key(b) by {
                assert(base.contains_key(a));
                if base[a] == depth {
                    assert(models(frontier@).contains(a));
                    let k = choose|k: int|
                        0 <= k < models(frontier@).len() && models(frontier@)[k] == a;
                    assert(hops(frontier@[k]@, b));
                } else {
                    assert(base.contains_key(b));
                }
            }
            assert forall|b: Seq<char>| #[trigger] known@.contains_key(b) implies known@[b]
                == least_hops(hops, start, b, (depth + 1) as nat) by {
                assert(base.contains_key(b) <==> near.contains(b));
            }
        }
        proof {
            assert forall|b: Seq<char>| #[trigger]
                models(next@).contains(b) <==> known@.contains_key(b) && known@[b] == depth + 1 by {
                assert(!Seq::<Seq<char>>::empty().contains(b));
                if known@.contains_key(b) && base.contains_key(b) {
                    assert(base[b] <= depth);
                }
            }
        }
        frontier = next;
        depth = depth + 1;
    }
    proof {
        assert(known@ =~= distances(view, start, text::optional_text(edge_type)));
    }
    known
}

} // verus!
