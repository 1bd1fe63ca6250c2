//! What consolidation does with memories, told by the memories themselves.
use vstd::prelude::*;
use vstd::string::*;

use crate::memory::{
    archiving, consolidation, demotion, group_key, group_keys, group_of, least_id, merge_event,
    merge_events, other_ids, touched, upkeep_events, ConsolidationAction, EventModel, GroupKey,
};
use crate::ordered::{lemma_finite_sorted, sorted_keys};
use crate::records::{EdgeModel, NodeModel, PropertyModel};
use crate::replies::{lemma_passing, lemma_push_holds};
use crate::text;

verus! {

/// Whether something is to be done with a node as the target.
pub open spec fn is_to_be(
    events: Seq<EventModel>,
    action: ConsolidationAction,
    id: Seq<char>,
) -> bool {
    exists|k: int|
        0 <= k < events.len() && (#[trigger] events[k]).action == action
            && events[k].target_node_id == id
}

/// Whether a node of an id has no edge at either end.
pub open spec fn stands_alone(
    nodes: Seq<NodeModel>,
    edges: Seq<EdgeModel>,
    id: Seq<char>,
) -> bool {
    &&& exists|i: int| 0 <= i < nodes.len() && (#[trigger] nodes[i]).id == id
    &&& forall|j: int|
        0 <= j < edges.len() ==> (#[trigger] edges[j]).source != id && edges[j].target != id
}

/// Whether a node of an id has a time more than thirty days ago.
pub open spec fn is_stale(nodes: Seq<NodeModel>, now: i64, id: Seq<char>) -> bool {
    exists|i: int|
        0 <= i < nodes.len() && (#[trigger] nodes[i]).id == id && (nodes[i].timestamp() matches Some(
            time,
        ) && now - time > 30 * 24 * 60 * 60 * 1000)
}

proof fn lemma_upkeep(nodes: Seq<NodeModel>, edges: Seq<EdgeModel>, now: i64, e: EventModel)
    ensures
        upkeep_events(nodes, edges, now).contains(e) <==> exists|i: int|
            0 <= i < nodes.len() && {
                ||| e == demotion(#[trigger] nodes[i]) && !touched(edges, nodes[i].id)
                ||| e == archiving(nodes[i]) && (nodes[i].timestamp() matches Some(time) && now
                    - time > 30 * 24 * 60 * 60 * 1000)
            },
    decreases nodes.len(),
{
    if nodes.len() > 0 {
        let short = nodes.drop_last();
        let node = nodes.last();
        lemma_upkeep(short, edges, now, e);
        let before = upkeep_events(short, edges, now);
        let with_demotion = if touched(edges, node.id) {
            before
        } else {
            before.push(demotion(node))
        };
        lemma_push_holds(before, demotion(node), e);
        lemma_push_holds(with_demotion, archiving(node), e);
        let holds = |n: NodeModel|
            {
                ||| e == demotion(n) && !touched(edges, n.id)
                ||| e == archiving(n) && (n.timestamp() matches Some(time) && now - time > 30 * 24
                    * 60 * 60 * 1000)
            };
        assert(nodes[nodes.len() - 1] == node);
        if before.contains(e) {
            let i = choose|i: int| 0 <= i < short.len() && holds(#[trigger] short[i]);
            assert(holds(nodes[i]));
        }
        if exists|i: int| 0 <= i < nodes.len() && holds(#[trigger] nodes[i]) {
            let i = choose|i: int| 0 <= i < nodes.len() && holds(#[trigger] nodes[i]);
            if i < short.len() {
                assert(holds(short[i]));
            }
        }
        assert(upkeep_events(nodes, edges, now).contains(e) <==> exists|i: int|
            0 <= i < nodes.len() && holds(#[trigger] nodes[i]));
    }
}

proof fn lemma_merges(
    nodes: Seq<NodeModel>,
    keys: Seq<(Seq<char>, Seq<char>)>,
    e: EventModel,
)
    ensures
        merge_events(nodes, keys).contains(e) <==> exists|i: int|
            0 <= i < keys.len() && merge_event(nodes, #[trigger] keys[i]) == Some(e),
    decreases keys.len(),
{
    if keys.len() > 0 {
        let short = keys.drop_last();
        lemma_merges(nodes, short, e);
        let before = merge_events(nodes, short);
        if merge_event(nodes, keys.last()) is Some {
            lemma_push_holds(before, merge_event(nodes, keys.last())->0, e);
        }
        assert(keys[keys.len() - 1] == keys.last());
        if before.contains(e) {
            let i = choose|i: int|
                0 <= i < short.len() && merge_event(nodes, #[trigger] short[i]) == Some(e);
            assert(merge_event(nodes, keys[i]) == Some(e));
        }
        if exists|i: int| 0 <= i < keys.len() && merge_event(nodes, #[trigger] keys[i]) == Some(e) {
            let i = choose|i: int|
                0 <= i < keys.len() && merge_event(nodes, #[trigger] keys[i]) == Some(e);
            if i < short.len() {
                assert(merge_event(nodes, short[i]) == Some(e));
            }
        }
    }
}

proof fn lemma_in_consolidation(
    nodes: Seq<NodeModel>,
    edges: Seq<EdgeModel>,
    now: i64,
    e: EventModel,
)
    ensures
        consolidation(nodes, edges, now).contains(e) <==> upkeep_events(nodes, edges, now).contains(
            e,
        ) || merge_events(nodes, sorted_keys::<GroupKey>(group_keys(nodes))).contains(e),
{
    let merges = merge_events(nodes, sorted_keys::<GroupKey>(group_keys(nodes)));
    let rest = upkeep_events(nodes, edges, now);
    let all = consolidation(nodes, edges, now);
    if all.contains(e) {
        let k = choose|k: int| 0 <= k < all.len() && all[k] == e;
        if k < merges.len() {
            assert(merges[k] == e);
        } else {
            assert(rest[k - merges.len()] == e);
        }
    }
    if merges.contains(e) {
        let k = choose|k: int| 0 <= k < merges.len() && merges[k] == e;
        assert(all[k] == e);
    }
    if rest.contains(e) {
        let k = choose|k: int| 0 <= k < rest.len() && rest[k] == e;
        assert(all[merges.len() + k] == e);
    }
}

/// A memory is demoted exactly if it has no edge at either end, and archived exactly if it has a
/// time more than thirty days ago.
pub proof fn law_lone_and_stale_memories(
    nodes: Seq<NodeModel>,
    edges: Seq<EdgeModel>,
    now: i64,
    id: Seq<char>,
)
    ensures
        is_to_be(consolidation(nodes, edges, now), ConsolidationAction::Demote, id)
            <==> stands_alone(nodes, edges, id),
        is_to_be(consolidation(nodes, edges, now), ConsolidationAction::Archive, id) <==> is_stale(
            nodes,
            now,
            id,
        ),
{
    let events = consolidation(nodes, edges, now);
    let demote = ConsolidationAction::Demote;
    let archive = ConsolidationAction::Archive;
    let keys = sorted_keys::<GroupKey>(group_keys(nodes));
    assert forall|k: int|
        0 <= k < events.len() && (#[trigger] events[k]).action != ConsolidationAction::Merge implies (
    exists|i: int|
        0 <= i < nodes.len() && {
            ||| events[k] == demotion(#[trigger] nodes[i]) && !touched(edges, nodes[i].id)
            ||| events[k] == archiving(nodes[i]) && (nodes[i].timestamp() matches Some(time) && now
                - time > 30 * 24 * 60 * 60 * 1000)
        }) by {
        let e = events[k];
        assert(events.contains(e));
        lemma_in_consolidation(nodes, edges, now, e);
        lemma_upkeep(nodes, edges, now, e);
        lemma_merges(nodes, keys, e);
    }
    if is_to_be(events, demote, id) {
        let k = choose|k: int|
            0 <= k < events.len() && (#[trigger] events[k]).action == demote
                && events[k].target_node_id == id;
        assert(!touched(edges, id));
        assert forall|j: int| 0 <= j < edges.len() implies (#[trigger] edges[j]).source != id
            && edges[j].target != id by {}
    }
    if stands_alone(nodes, edges, id) {
        let i = choose|i: int| 0 <= i < nodes.len() && (#[trigger] nodes[i]).id == id;
        let e = demotion(nodes[i]);
        assert(!touched(edges, nodes[i].id));
        lemma_upkeep(nodes, edges, now, e);
        lemma_in_consolidation(nodes, edges, now, e);
        let k = choose|k: int| 0 <= k < events.len() && events[k] == e;
        assert(events[k].target_node_id == id);
    }
    if is_to_be(events, archive, id) {
        let k = choose|k: int|
            0 <= k < events.len() && (#[trigger] events[k]).action == archive
                && events[k].target_node_id == id;
    }
    if is_stale(nodes, now, id) {
        let i = choose|i: int|
            0 <= i < nodes.len() && (#[trigger] nodes[i]).id == id && (
            nodes[i].timestamp() matches Some(time) && now - time > 30 * 24 * 60 * 60 * 1000);
        let e = archiving(nodes[i]);
        lemma_upkeep(nodes, edges, now, e);
        lemma_in_consolidation(nodes, edges, now, e);
        let k = choose|k: int| 0 <= k < events.len() && events[k] == e;
        assert(events[k].target_node_id == id);
    }
}

// ---------------------------------------------------------------------------------------------
// Merges
// ---------------------------------------------------------------------------------------------

/// Whether a node is of a type and has a unique key.
pub open spec fn is_called(node: NodeModel, node_type: Seq<char>, unique_key: Seq<char>) -> bool {
    &&& node.node_type == node_type
    &&& node.properties.contains_key("unique_key"@)
    &&& node.properties["unique_key"@] == PropertyModel::String(unique_key)
}

/// Whether an event concerns a node: as its target or among the others.
pub open spec fn concerns(event: EventModel, id: Seq<char>) -> bool {
    event.target_node_id == id || event.related_node_ids.contains(id)
}

/// Whether a node of an id is of a type and has a unique key.
pub open spec fn one_called(
    nodes: Seq<NodeModel>,
    node_type: Seq<char>,
    unique_key: Seq<char>,
    id: Seq<char>,
) -> bool {
    exists|i: int|
        0 <= i < nodes.len() && (#[trigger] nodes[i]).id == id && is_called(
            nodes[i],
            node_type,
            unique_key,
        )
}

/// Whether an event concerns exactly the nodes of a type and a unique key.
pub open spec fn concerns_those_called(
    event: EventModel,
    nodes: Seq<NodeModel>,
    node_type: Seq<char>,
    unique_key: Seq<char>,
) -> bool {
    forall|id: Seq<char>| #[trigger]
        concerns(event, id) <==> one_called(nodes, node_type, unique_key, id)
}

proof fn lemma_least(group: Seq<NodeModel>)
    requires
        group.len() > 0,
    ensures
        exists|i: int| 0 <= i < group.len() && (#[trigger] group[i]).id == least_id(group),
        forall|i: int|
            0 <= i < group.len() ==> (#[trigger] group[i]).id == least_id(group)
                || text::text_less(least_id(group), group[i].id),
    decreases group.len(),
{
    if group.len() == 1 {
        assert(group[0].id == least_id(group));
    } else {
        let short = group.drop_last();
        lemma_least(short);
        let before = least_id(short);
        let last = group.last().id;
        assert(group[group.len() - 1].id == last);
        text::lemma_text_less_total(before, last);
        let k = choose|k: int| 0 <= k < short.len() && (#[trigger] short[k]).id == before;
        assert(group[k].id == before);
        assert forall|i: int| 0 <= i < group.len() implies (#[trigger] group[i]).id == least_id(
            group,
        ) || text::text_less(least_id(group), group[i].id) by {
            if i < short.len() {
                assert(short[i] == group[i]);
                if text::text_less(last, before) && short[i].id != before {
                    text::lemma_text_less_transitive(last, before, short[i].id);
                }
            }
        }
    }
}

proof fn lemma_others(group: Seq<NodeModel>, id: Seq<char>, b: Seq<char>)
    ensures
        other_ids(group, id).contains(b) <==> b != id && exists|i: int|
            0 <= i < group.len() && (#[trigger] group[i]).id == b,
    decreases group.len(),
{
    if group.len() > 0 {
        let short = group.drop_last();
        lemma_others(short, id, b);
        lemma_push_holds(other_ids(short, id), group.last().id, b);
        assert(group[group.len() - 1] == group.last());
        if exists|i: int| 0 <= i < short.len() && (#[trigger] short[i]).id == b {
            let i = choose|i: int| 0 <= i < short.len() && (#[trigger] short[i]).id == b;
            assert(group[i].id == b);
        }
        if exists|i: int| 0 <= i < group.len() && (#[trigger] group[i]).id == b {
            let i = choose|i: int| 0 <= i < group.len() && (#[trigger] group[i]).id == b;
            if i < short.len() {
                assert(short[i].id == b);
            }
        }
    }
}

proof fn lemma_group(nodes: Seq<NodeModel>, key: (Seq<char>, Seq<char>), id: Seq<char>)
    ensures
        (exists|i: int|
            0 <= i < group_of(nodes, key).len() && (#[trigger] group_of(nodes, key)[i]).id == id)
            <==> one_called(nodes, key.0, key.1, id),
{
    let group = group_of(nodes, key);
    let test = |node: NodeModel| group_key(node) == Some(key);
    if exists|i: int| 0 <= i < group.len() && (#[trigger] group[i]).id == id {
        let i = choose|i: int| 0 <= i < group.len() && (#[trigger] group[i]).id == id;
        lemma_passing(nodes, test, group[i]);
        assert(group.contains(group[i]));
        let j = choose|j: int| 0 <= j < nodes.len() && nodes[j] == group[i];
        assert(nodes[j].id == id);
    }
    if one_called(nodes, key.0, key.1, id) {
        let i = choose|i: int|
            0 <= i < nodes.len() && (#[trigger] nodes[i]).id == id && is_called(
                nodes[i],
                key.0,
                key.1,
            );
        assert(nodes.contains(nodes[i]));
        lemma_passing(nodes, test, nodes[i]);
        let j = choose|j: int| 0 <= j < group.len() && group[j] == nodes[i];
        assert(group[j].id == id);
    }
}

proof fn lemma_merge(nodes: Seq<NodeModel>, key: (Seq<char>, Seq<char>), e: EventModel)
    requires
        merge_event(nodes, key) == Some(e),
    ensures
        e.action == ConsolidationAction::Merge,
        forall|id: Seq<char>| #[trigger]
            concerns(e, id) <==> one_called(nodes, key.0, key.1, id),
        e.related_node_ids.len() > 0,
        forall|id: Seq<char>| #[trigger]
            e.related_node_ids.contains(id) ==> text::text_less(e.target_node_id, id),
{
    let group = group_of(nodes, key);
    let primary = least_id(group);
    lemma_least(group);
    assert forall|id: Seq<char>| #[trigger] concerns(e, id) <==> one_called(
        nodes,
        key.0,
        key.1,
        id,
    ) by {
        lemma_others(group, primary, id);
        lemma_group(nodes, key, id);
    }
    assert forall|id: Seq<char>| #[trigger] e.related_node_ids.contains(id) implies text::text_less(
        e.target_node_id,
        id,
    ) by {
        lemma_others(group, primary, id);
        let i = choose|i: int| 0 <= i < group.len() && (#[trigger] group[i]).id == id;
        assert(group[i].id == id);
    }
}

/// There are finitely many keys of nodes.
proof fn lemma_keys_finite(nodes: Seq<NodeModel>)
    ensures
        group_keys(nodes).finite(),
    decreases nodes.len(),
{
    let keys = group_keys(nodes);
    if nodes.len() == 0 {
        assert(keys =~= Set::<(Seq<char>, Seq<char>)>::empty());
    } else {
        let short = nodes.drop_last();
        lemma_keys_finite(short);
        let last = group_key(nodes.last());
        let more = if last is Some {
            group_keys(short).insert(last->0)
        } else {
            group_keys(short)
        };
        assert forall|key: (Seq<char>, Seq<char>)| #[trigger] keys.contains(key) implies more.contains(
            key,
        ) by {
            let i = choose|i: int|
                0 <= i < nodes.len() && #[trigger] group_key(nodes[i]) == Some(key);
            if i < short.len() {
                assert(group_key(short[i]) == Some(key));
            }
        }
        vstd::set_lib::lemma_set_subset_finite(more, keys);
    }
}

/// Every merge concerns exactly the nodes of one type and one unique key, of which there are several,
/// and goes into the one with the least id.
pub proof fn law_merges_are_of_duplicates(
    nodes: Seq<NodeModel>,
    edges: Seq<EdgeModel>,
    now: i64,
    k: int,
)
    requires
        0 <= k < consolidation(nodes, edges, now).len(),
        consolidation(nodes, edges, now)[k].action == ConsolidationAction::Merge,
    ensures
        ({
            let event = consolidation(nodes, edges, now)[k];
            &&& event.related_node_ids.len() > 0
            &&& forall|id: Seq<char>| #[trigger]
                event.related_node_ids.contains(id) ==> text::text_less(event.target_node_id, id)
            &&& exists|node_type: Seq<char>, unique_key: Seq<char>| #[trigger]
                concerns_those_called(event, nodes, node_type, unique_key)
        }),
{
    let e = consolidation(nodes, edges, now)[k];
    let keys = sorted_keys::<GroupKey>(group_keys(nodes));
    assert(consolidation(nodes, edges, now).contains(e));
    lemma_in_consolidation(nodes, edges, now, e);
    lemma_upkeep(nodes, edges, now, e);
    lemma_merges(nodes, keys, e);
    let i = choose|i: int|
        0 <= i < keys.len() && merge_event(nodes, #[trigger] keys[i]) == Some(e);
    lemma_merge(nodes, keys[i], e);
    let node_type = keys[i].0;
    let unique_key = keys[i].1;
    assert(concerns_those_called(e, nodes, node_type, unique_key));
}

/// Two nodes of the same type and with the same unique key are merged, into one of them or into a
/// third.
pub proof fn law_duplicates_are_merged(
    nodes: Seq<NodeModel>,
    edges: Seq<EdgeModel>,
    now: i64,
    i: int,
    j: int,
    node_type: Seq<char>,
    unique_key: Seq<char>,
) -> (k: int)
    requires
        0 <= i < nodes.len(),
        0 <= j < nodes.len(),
        nodes[i].id != nodes[j].id,
        is_called(nodes[i], node_type, unique_key),
        is_called(nodes[j], node_type, unique_key),
    ensures
        0 <= k < consolidation(nodes, edges, now).len(),
        consolidation(nodes, edges, now)[k].action == ConsolidationAction::Merge,
        concerns(consolidation(nodes, edges, now)[k], nodes[i].id),
        concerns(consolidation(nodes, edges, now)[k], nodes[j].id),
{
    let key = (node_type, unique_key);
    let keys = sorted_keys::<GroupKey>(group_keys(nodes));
    lemma_keys_finite(nodes);
    lemma_finite_sorted::<GroupKey>(group_keys(nodes));
    assert(group_key(nodes[i]) == Some(key));
    assert(group_keys(nodes).contains(key));
    assert(keys.contains(key));
    let g = choose|g: int| 0 <= g < keys.len() && keys[g] == key;
    let group = group_of(nodes, key);
    let a = nodes[i].id;
    let b = nodes[j].id;
    assert(one_called(nodes, node_type, unique_key, a));
    assert(one_called(nodes, node_type, unique_key, b));
    lemma_group(nodes, key, a);
    lemma_group(nodes, key, b);
    let x = choose|x: int| 0 <= x < group.len() && (#[trigger] group[x]).id == a;
    let y = choose|y: int| 0 <= y < group.len() && (#[trigger] group[y]).id == b;
    assert(x != y);
    let primary = least_id(group);
    lemma_others(group, primary, a);
    lemma_others(group, primary, b);
    assert(other_ids(group, primary).len() > 0) by {
        if primary == a {
            assert(other_ids(group, primary).contains(b));
        } else {
            assert(other_ids(group, primary).contains(a));
        }
    }
    let e = merge_event(nodes, key)->0;
    lemma_merge(nodes, key, e);
    assert(merge_event(nodes, keys[g]) == Some(e));
    lemma_merges(nodes, keys, e);
    lemma_in_consolidation(nodes, edges, now, e);
    let all = consolidation(nodes, edges, now);
    assert(concerns(e, a));
    assert(concerns(e, b));
    choose|k: int| 0 <= k < all.len() && all[k] == e
}

} // verus!
