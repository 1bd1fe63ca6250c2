//! What an index says is what the records say.
use vstd::prelude::*;

use crate::index::{bucket_with, bucket_without, time_key, EdgeDirection, IndexModel, VectorModel};
use crate::ordered::{with_unique, without};
use crate::records::{EdgeModel, NodeModel};
use crate::vectors::{bucket, candidates_with, spaces_with, spaces_without, VectorIndexConfig};

verus! {

/// Nodes by their ids.
pub type Nodes = Map<Seq<char>, NodeModel>;

/// Edges by their ids.
pub type Edges = Map<Seq<char>, EdgeModel>;

/// Whether every node stands under its own id.
pub open spec fn nodes_keyed(nodes: Nodes) -> bool {
    forall|id: Seq<char>| #[trigger] nodes.contains_key(id) ==> nodes[id].id == id
}

/// Whether every edge stands under its own id.
pub open spec fn edges_keyed(edges: Edges) -> bool {
    forall|id: Seq<char>| #[trigger] edges.contains_key(id) ==> edges[id].id == id
}

/// Whether the list under a key holds an item.
pub open spec fn filed_under<K>(
    buckets: Map<K, Seq<Seq<char>>>,
    key: K,
    item: Seq<char>,
) -> bool {
    bucket(buckets, key).contains(item)
}

/// Whether lists hold exactly what belongs under their keys, everything once, and no list is
/// empty.
pub open spec fn filed<K>(
    buckets: Map<K, Seq<Seq<char>>>,
    belongs: spec_fn(K, Seq<char>) -> bool,
) -> bool {
    &&& forall|key: K, item: Seq<char>| #[trigger]
        filed_under(buckets, key, item) <==> belongs(key, item)
    &&& forall|key: K| #[trigger]
        buckets.contains_key(key) ==> buckets[key].len() > 0 && buckets[key].no_duplicates()
}

/// Whether an edge leaves a node.
pub open spec fn leaves(edges: Edges) -> spec_fn(Seq<char>, Seq<char>) -> bool {
    |node: Seq<char>, id: Seq<char>| edges.contains_key(id) && edges[id].source == node
}

/// Whether an edge enters a node.
pub open spec fn enters(edges: Edges) -> spec_fn(Seq<char>, Seq<char>) -> bool {
    |node: Seq<char>, id: Seq<char>| edges.contains_key(id) && edges[id].target == node
}

/// Whether a node is of a type.
pub open spec fn is_of_type(nodes: Nodes) -> spec_fn(Seq<char>, Seq<char>) -> bool {
    |node_type: Seq<char>, id: Seq<char>|
        nodes.contains_key(id) && nodes[id].node_type == node_type
}

/// Whether a node is of a time.
pub open spec fn is_of_time(nodes: Nodes) -> spec_fn(i64, Seq<char>) -> bool {
    |time: i64, id: Seq<char>| nodes.contains_key(id) && time_key(nodes[id]) == Some(time)
}

/// Whether a node has a vector of a name.
pub open spec fn has_vector(nodes: Nodes) -> spec_fn(Seq<char>, Seq<char>) -> bool {
    |name: Seq<char>, id: Seq<char>|
        nodes.contains_key(id) && nodes[id].vectors.contains_key(name)
}

/// Whether every unique key leads to a node that has it.
pub open spec fn keys_lead_home(keys: Map<Seq<char>, Seq<char>>, nodes: Nodes) -> bool {
    forall|key: Seq<char>| #[trigger]
        keys.contains_key(key) ==> nodes.contains_key(keys[key]) && nodes[keys[key]].unique_key()
            == Some(key)
}

/// Whether every unique key of a node leads to it. No two nodes then have the same key.
pub open spec fn keys_found(keys: Map<Seq<char>, Seq<char>>, nodes: Nodes) -> bool {
    forall|id: Seq<char>| #[trigger]
        nodes.contains_key(id) ==> (nodes[id].unique_key() matches Some(key) ==> keys.contains_key(
            key,
        ) && keys[key] == id)
}

/// Whether a node has a unique key.
pub open spec fn has_key(nodes: Nodes, id: Seq<char>, key: Seq<char>) -> bool {
    nodes.contains_key(id) && nodes[id].unique_key() == Some(key)
}

/// Whether no two nodes have the same unique key.
pub open spec fn keys_unshared(nodes: Nodes) -> bool {
    forall|a: Seq<char>, b: Seq<char>, key: Seq<char>|
        #[trigger] has_key(nodes, a, key) && #[trigger] has_key(nodes, b, key) ==> a == b
}

/// Whether an index says of nodes and edges what they say themselves. Of vectors this is asked
/// where they are compared one by one.
pub open spec fn faithful(index: IndexModel, nodes: Nodes, edges: Edges) -> bool {
    &&& nodes_keyed(nodes)
    &&& edges_keyed(edges)
    &&& index.node_ids == nodes.dom()
    &&& keys_lead_home(index.unique_keys, nodes)
    &&& filed(index.adjacency, leaves(edges))
    &&& filed(index.reverse_adjacency, enters(edges))
    &&& filed(index.labels, is_of_type(nodes))
    &&& filed(index.times, is_of_time(nodes))
    &&& index.vectors is Exact ==> filed(index.vectors.candidates(), has_vector(nodes))
}

// ---------------------------------------------------------------------------------------------
// Lists
// ---------------------------------------------------------------------------------------------

proof fn lemma_with_unique(list: Seq<Seq<char>>, item: Seq<char>)
    requires
        list.no_duplicates(),
    ensures
        with_unique(list, item).no_duplicates(),
        with_unique(list, item).len() > 0,
        forall|b: Seq<char>| #[trigger]
            with_unique(list, item).contains(b) <==> list.contains(b) || b == item,
{
    let next = with_unique(list, item);
    assert forall|b: Seq<char>| #[trigger] next.contains(b) <==> list.contains(b) || b == item by {
        crate::reach::lemma_push_contains(list, item, b);
    }
    if list.contains(item) {
        let k = choose|k: int| 0 <= k < list.len() && list[k] == item;
        assert(list.len() > 0);
    } else {
        assert forall|i: int, j: int| 0 <= i < next.len() && 0 <= j < next.len() && i
            != j implies next[i] != next[j] by {
            if i == list.len() {
                assert(list.contains(list[j]));
            } else if j == list.len() {
                assert(list.contains(list[i]));
            }
        }
    }
}

proof fn lemma_without(list: Seq<Seq<char>>, item: Seq<char>)
    requires
        list.no_duplicates(),
    ensures
        without(list, item).no_duplicates(),
        forall|b: Seq<char>| #[trigger]
            without(list, item).contains(b) <==> list.contains(b) && b != item,
    decreases list.len(),
{
    reveal(Seq::filter);
    let next = without(list, item);
    if list.len() > 0 {
        let short = list.drop_last();
        assert forall|i: int, j: int| 0 <= i < short.len() && 0 <= j < short.len() && i
            != j implies short[i] != short[j] by {
            assert(short[i] == list[i]);
            assert(short[j] == list[j]);
        }
        lemma_without(short, item);
        let before = without(short, item);
        let last = list.last();
        assert(!short.contains(last)) by {
            if short.contains(last) {
                let k = choose|k: int| 0 <= k < short.len() && short[k] == last;
                assert(list[k] == list[list.len() - 1]);
            }
        }
        assert(list =~= short.push(last));
        assert forall|b: Seq<char>| #[trigger] next.contains(b) <==> list.contains(b) && b
            != item by {
            crate::reach::lemma_push_contains(short, last, b);
            crate::reach::lemma_push_contains(before, last, b);
            assert(before.contains(b) <==> short.contains(b) && b != item);
        }
        if last != item {
            assert(next == before.push(last));
            assert(!before.contains(last));
            assert forall|i: int, j: int| 0 <= i < next.len() && 0 <= j < next.len() && i
                != j implies next[i] != next[j] by {
                if i == before.len() {
                    assert(before.contains(before[j]));
                } else if j == before.len() {
                    assert(before.contains(before[i]));
                }
            }
        }
    }
}

proof fn lemma_bucket_unique<K>(buckets: Map<K, Seq<Seq<char>>>, key: K)
    requires
        forall|k: K| #[trigger] buckets.contains_key(k) ==> buckets[k].no_duplicates(),
    ensures
        bucket(buckets, key).no_duplicates(),
{
}

/// One more item under a key.
proof fn lemma_filed_with<K>(
    buckets: Map<K, Seq<Seq<char>>>,
    belongs: spec_fn(K, Seq<char>) -> bool,
    key: K,
    item: Seq<char>,
    after: spec_fn(K, Seq<char>) -> bool,
)
    requires
        filed(buckets, belongs),
        forall|k: K, i: Seq<char>| #[trigger]
            after(k, i) <==> belongs(k, i) || (k == key && i == item),
    ensures
        filed(bucket_with(buckets, key, item), after),
{
    let next = bucket_with(buckets, key, item);
    lemma_bucket_unique(buckets, key);
    lemma_with_unique(bucket(buckets, key), item);
    assert forall|k: K, i: Seq<char>| #[trigger] filed_under(next, k, i) <==> after(k, i) by {
        assert(filed_under(buckets, k, i) <==> belongs(k, i));
        if k == key {
            assert(bucket(next, k) == with_unique(bucket(buckets, key), item));
        } else {
            assert(bucket(next, k) == bucket(buckets, k));
        }
    }
}

/// One item less under a key.
proof fn lemma_filed_without<K>(
    buckets: Map<K, Seq<Seq<char>>>,
    belongs: spec_fn(K, Seq<char>) -> bool,
    key: K,
    item: Seq<char>,
    after: spec_fn(K, Seq<char>) -> bool,
)
    requires
        filed(buckets, belongs),
        forall|k: K, i: Seq<char>| #[trigger]
            after(k, i) <==> belongs(k, i) && !(k == key && i == item),
    ensures
        filed(bucket_without(buckets, key, item), after),
{
    let next = bucket_without(buckets, key, item);
    lemma_bucket_unique(buckets, key);
    lemma_without(bucket(buckets, key), item);
    assert forall|k: K, i: Seq<char>| #[trigger] filed_under(next, k, i) <==> after(k, i) by {
        assert(filed_under(buckets, k, i) <==> belongs(k, i));
        if k == key {
            if buckets.contains_key(key) {
                let left = without(buckets[key], item);
                if left.len() == 0 {
                    assert(!left.contains(i));
                }
                assert(bucket(next, k).contains(i) <==> left.contains(i));
            }
        } else {
            assert(bucket(next, k) == bucket(buckets, k));
        }
    }
}

/// Lists stay in order where what belongs is the same by another name.
proof fn lemma_filed_same<K>(
    buckets: Map<K, Seq<Seq<char>>>,
    belongs: spec_fn(K, Seq<char>) -> bool,
    after: spec_fn(K, Seq<char>) -> bool,
)
    requires
        filed(buckets, belongs),
        forall|k: K, i: Seq<char>| #[trigger] after(k, i) <==> belongs(k, i),
    ensures
        filed(buckets, after),
{
    assert forall|k: K, i: Seq<char>| #[trigger] filed_under(buckets, k, i) <==> after(k, i) by {
        assert(filed_under(buckets, k, i) <==> belongs(k, i));
    }
}

proof fn lemma_candidates_with(spaces: Map<Seq<char>, Seq<Seq<char>>>, nodes: Nodes, node: NodeModel)
    requires
        filed(spaces, has_vector(nodes)),
    ensures
        filed(spaces_with(spaces, node), has_vector(nodes.insert(node.id, node))),
{
    let next = spaces_with(spaces, node);
    let after = has_vector(nodes.insert(node.id, node));
    let belongs = has_vector(nodes);
    assert forall|name: Seq<char>, i: Seq<char>| #[trigger] filed_under(next, name, i) <==> after(
        name,
        i,
    ) by {
        lemma_bucket_unique(spaces, name);
        lemma_with_unique(bucket(spaces, name), node.id);
        lemma_without(bucket(spaces, name), node.id);
        assert(filed_under(spaces, name, i) <==> belongs(name, i));
        let list = candidates_with(spaces, node, name);
        if list.len() == 0 {
            assert(!list.contains(i));
        }
        assert(bucket(next, name).contains(i) <==> list.contains(i));
    }
    assert forall|name: Seq<char>| #[trigger] next.contains_key(name) implies next[name].len() > 0
        && next[name].no_duplicates() by {
        lemma_bucket_unique(spaces, name);
        lemma_with_unique(bucket(spaces, name), node.id);
        lemma_without(bucket(spaces, name), node.id);
    }
}

proof fn lemma_candidates_without(
    spaces: Map<Seq<char>, Seq<Seq<char>>>,
    nodes: Nodes,
    id: Seq<char>,
)
    requires
        filed(spaces, has_vector(nodes)),
    ensures
        filed(spaces_without(spaces, id), has_vector(nodes.remove(id))),
{
    let next = spaces_without(spaces, id);
    let after = has_vector(nodes.remove(id));
    let belongs = has_vector(nodes);
    assert forall|name: Seq<char>, i: Seq<char>| #[trigger] filed_under(next, name, i) <==> after(
        name,
        i,
    ) by {
        lemma_bucket_unique(spaces, name);
        lemma_without(bucket(spaces, name), id);
        assert(filed_under(spaces, name, i) <==> belongs(name, i));
        let list = without(bucket(spaces, name), id);
        if list.len() == 0 {
            assert(!list.contains(i));
        }
        assert(bucket(next, name).contains(i) <==> list.contains(i));
    }
    assert forall|name: Seq<char>| #[trigger] next.contains_key(name) implies next[name].len() > 0
        && next[name].no_duplicates() by {
        lemma_bucket_unique(spaces, name);
        lemma_without(bucket(spaces, name), id);
    }
}

// ---------------------------------------------------------------------------------------------
// Laws
// ---------------------------------------------------------------------------------------------

/// An index without records says what no records say.
pub proof fn law_empty_index_is_faithful(vectors: VectorModel)
    requires
        vectors is Exact ==> vectors.candidates() == Map::<Seq<char>, Seq<Seq<char>>>::empty(),
    ensures
        faithful(IndexModel::empty(vectors), Map::empty(), Map::empty()),
{
    let index = IndexModel::empty(vectors);
    assert(index.node_ids =~= Nodes::empty().dom());
}

/// To write a node of a new id keeps an index faithful. Where every key leads to its node and no
/// node has the new one's key, every key still does.
pub proof fn law_written_node_is_found(
    index: IndexModel,
    nodes: Nodes,
    edges: Edges,
    node: NodeModel,
    refused: Set<Seq<char>>,
)
    requires
        faithful(index, nodes, edges),
        !nodes.contains_key(node.id),
    ensures
        faithful(index.with_node(node, refused), nodes.insert(node.id, node), edges),
        keys_found(index.unique_keys, nodes) && keys_unshared(nodes.insert(node.id, node))
            ==> keys_found(
            index.with_node(node, refused).unique_keys,
            nodes.insert(node.id, node),
        ),
{
    let next = index.with_node(node, refused);
    let after = nodes.insert(node.id, node);
    assert(next.node_ids =~= after.dom());
    lemma_filed_with(
        index.labels,
        is_of_type(nodes),
        node.node_type,
        node.id,
        is_of_type(after),
    );
    match time_key(node) {
        Some(time) => {
            lemma_filed_with(index.times, is_of_time(nodes), time, node.id, is_of_time(after));
        },
        None => {
            lemma_filed_same(index.times, is_of_time(nodes), is_of_time(after));
        },
    }
    if index.vectors is Exact {
        lemma_candidates_with(index.vectors.candidates(), nodes, node);
    }
    assert forall|key: Seq<char>| #[trigger] next.unique_keys.contains_key(key) implies
        after.contains_key(next.unique_keys[key]) && after[next.unique_keys[key]].unique_key()
        == Some(key) by {
        if node.unique_key() != Some(key) {
            assert(index.unique_keys.contains_key(key));
        }
    }
    if keys_found(index.unique_keys, nodes) && keys_unshared(after) {
        assert forall|id: Seq<char>| #[trigger] after.contains_key(id) implies (
        after[id].unique_key() matches Some(key) ==> next.unique_keys.contains_key(key)
            && next.unique_keys[key] == id) by {
            if id != node.id {
                assert(nodes.contains_key(id));
                if after[id].unique_key() is Some {
                    let key = after[id].unique_key()->0;
                    assert(has_key(after, id, key));
                    if node.unique_key() == Some(key) {
                        assert(has_key(after, node.id, key));
                    }
                }
            }
        }
    }
}

/// To delete a node as it stands keeps an index faithful. Where every key leads to its node, every
/// key still does.
pub proof fn law_deleted_node_is_gone(
    index: IndexModel,
    nodes: Nodes,
    edges: Edges,
    node: NodeModel,
)
    requires
        faithful(index, nodes, edges),
        nodes.contains_key(node.id),
        nodes[node.id] == node,
    ensures
        faithful(index.without_node(node), nodes.remove(node.id), edges),
        keys_found(index.unique_keys, nodes) ==> keys_found(
            index.without_node(node).unique_keys,
            nodes.remove(node.id),
        ),
{
    let next = index.without_node(node);
    let after = nodes.remove(node.id);
    assert(next.node_ids =~= after.dom());
    lemma_filed_without(
        index.labels,
        is_of_type(nodes),
        node.node_type,
        node.id,
        is_of_type(after),
    );
    match time_key(node) {
        Some(time) => {
            lemma_filed_without(index.times, is_of_time(nodes), time, node.id, is_of_time(after));
        },
        None => {
            lemma_filed_same(index.times, is_of_time(nodes), is_of_time(after));
        },
    }
    if index.vectors is Exact {
        lemma_candidates_without(index.vectors.candidates(), nodes, node.id);
    }
    assert forall|key: Seq<char>| #[trigger] next.unique_keys.contains_key(key) implies
        after.contains_key(next.unique_keys[key]) && after[next.unique_keys[key]].unique_key()
        == Some(key) by {
        assert(index.unique_keys.contains_key(key));
        assert(next.unique_keys[key] == index.unique_keys[key]);
    }
    if keys_found(index.unique_keys, nodes) {
        assert forall|id: Seq<char>| #[trigger] after.contains_key(id) implies (
        after[id].unique_key() matches Some(key) ==> next.unique_keys.contains_key(key)
            && next.unique_keys[key] == id) by {
            assert(nodes.contains_key(id));
        }
    }
}

/// To write an edge of a new id keeps an index faithful.
pub proof fn law_written_edge_is_found(
    index: IndexModel,
    nodes: Nodes,
    edges: Edges,
    edge: EdgeModel,
)
    requires
        faithful(index, nodes, edges),
        !edges.contains_key(edge.id),
    ensures
        faithful(index.with_edge(edge), nodes, edges.insert(edge.id, edge)),
{
    let after = edges.insert(edge.id, edge);
    lemma_filed_with(index.adjacency, leaves(edges), edge.source, edge.id, leaves(after));
    lemma_filed_with(index.reverse_adjacency, enters(edges), edge.target, edge.id, enters(after));
}

/// To delete an edge as it stands keeps an index faithful.
pub proof fn law_deleted_edge_is_gone(
    index: IndexModel,
    nodes: Nodes,
    edges: Edges,
    edge: EdgeModel,
)
    requires
        faithful(index, nodes, edges),
        edges.contains_key(edge.id),
        edges[edge.id] == edge,
    ensures
        faithful(index.without_edge(edge), nodes, edges.remove(edge.id)),
{
    let after = edges.remove(edge.id);
    lemma_filed_without(index.adjacency, leaves(edges), edge.source, edge.id, leaves(after));
    lemma_filed_without(
        index.reverse_adjacency,
        enters(edges),
        edge.target,
        edge.id,
        enters(after),
    );
}

/// Nodes by their ids, later ones in the place of earlier ones.
pub open spec fn node_records(list: Seq<NodeModel>) -> Nodes
    decreases list.len(),
{
    if list.len() == 0 {
        Map::empty()
    } else {
        node_records(list.drop_last()).insert(list.last().id, list.last())
    }
}

/// Edges by their ids, later ones in the place of earlier ones.
pub open spec fn edge_records(list: Seq<EdgeModel>) -> Edges
    decreases list.len(),
{
    if list.len() == 0 {
        Map::empty()
    } else {
        edge_records(list.drop_last()).insert(list.last().id, list.last())
    }
}

proof fn lemma_node_records(list: Seq<NodeModel>)
    ensures
        forall|id: Seq<char>| #[trigger]
            node_records(list).contains_key(id) ==> exists|i: int|
                0 <= i < list.len() && (#[trigger] list[i]).id == id,
    decreases list.len(),
{
    if list.len() > 0 {
        let short = list.drop_last();
        lemma_node_records(short);
        assert forall|id: Seq<char>| #[trigger] node_records(list).contains_key(id) implies exists|
            i: int,
        |
            0 <= i < list.len() && (#[trigger] list[i]).id == id by {
            if id == list.last().id {
                assert(list[list.len() - 1].id == id);
            } else {
                assert(node_records(short).contains_key(id));
                let i = choose|i: int| 0 <= i < short.len() && (#[trigger] short[i]).id == id;
                assert(list[i].id == id);
            }
        }
    }
}

proof fn lemma_edge_records(list: Seq<EdgeModel>)
    ensures
        forall|id: Seq<char>| #[trigger]
            edge_records(list).contains_key(id) ==> exists|i: int|
                0 <= i < list.len() && (#[trigger] list[i]).id == id,
    decreases list.len(),
{
    if list.len() > 0 {
        let short = list.drop_last();
        lemma_edge_records(short);
        assert forall|id: Seq<char>| #[trigger] edge_records(list).contains_key(id) implies exists|
            i: int,
        |
            0 <= i < list.len() && (#[trigger] list[i]).id == id by {
            if id == list.last().id {
                assert(list[list.len() - 1].id == id);
            } else {
                assert(edge_records(short).contains_key(id));
                let i = choose|i: int| 0 <= i < short.len() && (#[trigger] short[i]).id == id;
                assert(list[i].id == id);
            }
        }
    }
}

/// Where no key is shared once a node of a new id has come, none was before.
pub proof fn lemma_unshared_before(nodes: Nodes, node: NodeModel)
    requires
        keys_unshared(nodes.insert(node.id, node)),
        !nodes.contains_key(node.id),
    ensures
        keys_unshared(nodes),
{
    let after = nodes.insert(node.id, node);
    assert forall|a: Seq<char>, b: Seq<char>, key: Seq<char>| #[trigger]
        has_key(nodes, a, key) && #[trigger] has_key(nodes, b, key) implies a == b by {
        assert(has_key(after, a, key));
        assert(has_key(after, b, key));
    }
}

proof fn lemma_nodes_written(index: IndexModel, list: Seq<NodeModel>)
    requires
        faithful(index, Map::empty(), Map::empty()),
        forall|i: int, j: int|
            0 <= i < j < list.len() ==> (#[trigger] list[i]).id != (#[trigger] list[j]).id,
    ensures
        faithful(index.with_nodes(list), node_records(list), Map::empty()),
        keys_unshared(node_records(list)) ==> keys_found(
            index.with_nodes(list).unique_keys,
            node_records(list),
        ),
    decreases list.len(),
{
    if list.len() > 0 {
        let short = list.drop_last();
        assert forall|i: int, j: int| 0 <= i < j < short.len() implies (#[trigger] short[i]).id != (
        #[trigger] short[j]).id by {
            assert(short[i] == list[i]);
            assert(short[j] == list[j]);
        }
        lemma_nodes_written(index, short);
        lemma_node_records(short);
        let node = list[list.len() - 1];
        if node_records(short).contains_key(node.id) {
            let i = choose|i: int| 0 <= i < short.len() && (#[trigger] short[i]).id == node.id;
            assert(list[i].id == node.id);
        }
        law_written_node_is_found(
            index.with_nodes(short),
            node_records(short),
            Map::empty(),
            node,
            Set::empty(),
        );
        if keys_unshared(node_records(list)) {
            lemma_unshared_before(node_records(short), node);
        }
    }
}

proof fn lemma_edges_written(index: IndexModel, nodes: Nodes, list: Seq<EdgeModel>)
    requires
        faithful(index, nodes, Map::empty()),
        forall|i: int, j: int|
            0 <= i < j < list.len() ==> (#[trigger] list[i]).id != (#[trigger] list[j]).id,
    ensures
        faithful(index.with_edges(list), nodes, edge_records(list)),
        index.with_edges(list).unique_keys == index.unique_keys,
    decreases list.len(),
{
    if list.len() > 0 {
        let short = list.drop_last();
        assert forall|i: int, j: int| 0 <= i < j < short.len() implies (#[trigger] short[i]).id != (
        #[trigger] short[j]).id by {
            assert(short[i] == list[i]);
            assert(short[j] == list[j]);
        }
        lemma_edges_written(index, nodes, short);
        lemma_edge_records(short);
        let edge = list[list.len() - 1];
        if edge_records(short).contains_key(edge.id) {
            let i = choose|i: int| 0 <= i < short.len() && (#[trigger] short[i]).id == edge.id;
            assert(list[i].id == edge.id);
        }
        law_written_edge_is_found(index.with_edges(short), nodes, edge_records(short), edge);
    }
}

/// An index that is built from records, no two of which have the same id, says what they say. Where
/// no two nodes have the same unique key, every key leads to its node.
pub proof fn law_rebuilt_index_is_faithful(
    nodes: Seq<NodeModel>,
    edges: Seq<EdgeModel>,
    config: VectorIndexConfig,
)
    requires
        forall|i: int, j: int|
            0 <= i < j < nodes.len() ==> (#[trigger] nodes[i]).id != (#[trigger] nodes[j]).id,
        forall|i: int, j: int|
            0 <= i < j < edges.len() ==> (#[trigger] edges[i]).id != (#[trigger] edges[j]).id,
    ensures
        faithful(
            IndexModel::rebuilt(nodes, edges, config),
            node_records(nodes),
            edge_records(edges),
        ),
        keys_unshared(node_records(nodes)) ==> keys_found(
            IndexModel::rebuilt(nodes, edges, config).unique_keys,
            node_records(nodes),
        ),
{
    let start = IndexModel::empty(VectorModel::initial(config, nodes));
    law_empty_index_is_faithful(start.vectors);
    lemma_nodes_written(start, nodes);
    lemma_edges_written(start.with_nodes(nodes), node_records(nodes), edges);
}

/// Two indexes that are faithful to the same records file the same under every key, and, where both
/// compare vectors one by one, the same candidates. Where every unique key leads to its node in
/// both, the keys lead to the same nodes, and keys that no node has lead nowhere. The indexes then
/// differ at most in the order of their lists and in how vectors are searched.
pub proof fn law_faithful_indexes_agree(
    a: IndexModel,
    b: IndexModel,
    nodes: Nodes,
    edges: Edges,
)
    requires
        faithful(a, nodes, edges),
        faithful(b, nodes, edges),
    ensures
        a.node_ids == b.node_ids,
        forall|n: Seq<char>, id: Seq<char>| #[trigger]
            filed_under(a.adjacency, n, id) <==> filed_under(b.adjacency, n, id),
        forall|n: Seq<char>, id: Seq<char>| #[trigger]
            filed_under(a.reverse_adjacency, n, id) <==> filed_under(b.reverse_adjacency, n, id),
        forall|t: Seq<char>, id: Seq<char>| #[trigger]
            filed_under(a.labels, t, id) <==> filed_under(b.labels, t, id),
        forall|t: i64, id: Seq<char>| #[trigger]
            filed_under(a.times, t, id) <==> filed_under(b.times, t, id),
        a.vectors is Exact && b.vectors is Exact ==> forall|name: Seq<char>, id: Seq<char>|
         #[trigger]
            filed_under(a.vectors.candidates(), name, id) <==> filed_under(
                b.vectors.candidates(),
                name,
                id,
            ),
        keys_found(a.unique_keys, nodes) && keys_found(b.unique_keys, nodes) ==> a.unique_keys
            == b.unique_keys,
{
    if keys_found(a.unique_keys, nodes) && keys_found(b.unique_keys, nodes) {
        lemma_same_keys(a.unique_keys, b.unique_keys, nodes);
        lemma_same_keys(b.unique_keys, a.unique_keys, nodes);
        assert(a.unique_keys =~= b.unique_keys);
    }
    if a.vectors is Exact && b.vectors is Exact {
        assert forall|name: Seq<char>, id: Seq<char>| #[trigger]
            filed_under(a.vectors.candidates(), name, id) <==> filed_under(
                b.vectors.candidates(),
                name,
                id,
            ) by {
            assert(filed_under(a.vectors.candidates(), name, id) <==> has_vector(nodes)(name, id));
            assert(filed_under(b.vectors.candidates(), name, id) <==> has_vector(nodes)(name, id));
        }
    }
    assert forall|n: Seq<char>, id: Seq<char>| #[trigger]
        filed_under(a.adjacency, n, id) <==> filed_under(b.adjacency, n, id) by {
        assert(filed_under(a.adjacency, n, id) <==> leaves(edges)(n, id));
        assert(filed_under(b.adjacency, n, id) <==> leaves(edges)(n, id));
    }
    assert forall|n: Seq<char>, id: Seq<char>| #[trigger]
        filed_under(a.reverse_adjacency, n, id) <==> filed_under(b.reverse_adjacency, n, id) by {
        assert(filed_under(a.reverse_adjacency, n, id) <==> enters(edges)(n, id));
        assert(filed_under(b.reverse_adjacency, n, id) <==> enters(edges)(n, id));
    }
    assert forall|t: Seq<char>, id: Seq<char>| #[trigger]
        filed_under(a.labels, t, id) <==> filed_under(b.labels, t, id) by {
        assert(filed_under(a.labels, t, id) <==> is_of_type(nodes)(t, id));
        assert(filed_under(b.labels, t, id) <==> is_of_type(nodes)(t, id));
    }
    assert forall|t: i64, id: Seq<char>| #[trigger]
        filed_under(a.times, t, id) <==> filed_under(b.times, t, id) by {
        assert(filed_under(a.times, t, id) <==> is_of_time(nodes)(t, id));
        assert(filed_under(b.times, t, id) <==> is_of_time(nodes)(t, id));
    }
}

proof fn lemma_same_keys(
    a: Map<Seq<char>, Seq<char>>,
    b: Map<Seq<char>, Seq<char>>,
    nodes: Nodes,
)
    requires
        keys_lead_home(a, nodes),
        keys_found(b, nodes),
    ensures
        forall|key: Seq<char>| #[trigger]
            a.contains_key(key) ==> b.contains_key(key) && a[key] == b[key],
{
    assert forall|key: Seq<char>| #[trigger] a.contains_key(key) implies b.contains_key(key)
        && a[key] == b[key] by {
        assert(nodes.contains_key(a[key]));
    }
}

// ---------------------------------------------------------------------------------------------
// Writing a node and deleting it again
// ---------------------------------------------------------------------------------------------

/// Whether no list is empty.
pub open spec fn none_empty<K>(buckets: Map<K, Seq<Seq<char>>>) -> bool {
    forall|key: K| #[trigger] buckets.contains_key(key) ==> buckets[key].len() > 0
}

/// Whether an index has no empty list of nodes.
pub open spec fn tidy(index: IndexModel) -> bool {
    &&& none_empty(index.labels)
    &&& none_empty(index.times)
    &&& index.vectors is Exact ==> none_empty(index.vectors.candidates())
}

/// Whether an index has neither the id of a node nor its unique key, and files the id neither under
/// the node's type or time nor under the name of any vector.
pub open spec fn unmentioned(index: IndexModel, node: NodeModel) -> bool {
    &&& !index.node_ids.contains(node.id)
    &&& node.unique_key() matches Some(key) ==> !index.unique_keys.contains_key(key)
    &&& !filed_under(index.labels, node.node_type, node.id)
    &&& time_key(node) matches Some(time) ==> !filed_under(index.times, time, node.id)
    &&& forall|key: Seq<char>|
        !#[trigger] filed_under(index.vectors.candidates(), key, node.id)
}

proof fn lemma_without_absent(list: Seq<Seq<char>>, item: Seq<char>)
    requires
        !list.contains(item),
    ensures
        without(list, item) == list,
        without(list.push(item), item) == list,
    decreases list.len(),
{
    reveal(Seq::filter);
    let test = |x: Seq<char>| x != item;
    if list.len() > 0 {
        let short = list.drop_last();
        if short.contains(item) {
            let k = choose|k: int| 0 <= k < short.len() && short[k] == item;
            assert(list[k] == item);
        }
        lemma_without_absent(short, item);
        assert(list[list.len() - 1] != item);
        assert(list =~= short.push(list.last()));
    } else {
        assert(list.filter(test) =~= list);
    }
    assert(list.push(item).drop_last() =~= list);
}

proof fn lemma_bucket_round_trip<K>(buckets: Map<K, Seq<Seq<char>>>, key: K, item: Seq<char>)
    requires
        none_empty(buckets),
        !filed_under(buckets, key, item),
    ensures
        bucket_without(bucket_with(buckets, key, item), key, item) == buckets,
{
    lemma_without_absent(bucket(buckets, key), item);
    assert(bucket_without(bucket_with(buckets, key, item), key, item) =~= buckets);
}

/// To write a node of which an index has neither the id nor the unique key, and then to delete it,
/// leaves the index as it was: no empty list stays behind, and nothing else is lost or moved. The
/// id must not have been left behind under the node's type or time or under the name of a vector.
/// This is said where vectors are compared one by one.
pub proof fn law_written_and_deleted_again(
    index: IndexModel,
    node: NodeModel,
    refused: Set<Seq<char>>,
)
    requires
        tidy(index),
        unmentioned(index, node),
        index.vectors is Exact,
    ensures
        index.with_node(node, refused).without_node(node) == index,
{
    let once = index.with_node(node, refused);
    let back = once.without_node(node);
    assert(back.node_ids =~= index.node_ids);
    match node.unique_key() {
        Some(key) => {
            assert(once.unique_keys.remove(key) =~= index.unique_keys);
        },
        None => {},
    }
    lemma_bucket_round_trip(index.labels, node.node_type, node.id);
    match time_key(node) {
        Some(time) => {
            lemma_bucket_round_trip(index.times, time, node.id);
        },
        None => {},
    }
    let spaces = index.vectors.candidates();
    let held = spaces_with(spaces, node);
    let again = spaces_without(held, node.id);
    assert forall|name: Seq<char>| without(bucket(held, name), node.id) == #[trigger] bucket(
        spaces,
        name,
    ) by {
        assert(!filed_under(spaces, name, node.id));
        let list = candidates_with(spaces, node, name);
        lemma_without_absent(bucket(spaces, name), node.id);
        lemma_without_absent(Seq::empty(), node.id);
        assert(bucket(held, name) =~= list);
    }
    assert forall|name: Seq<char>| #[trigger] again.contains_key(name) <==> spaces.contains_key(
        name,
    ) by {
        assert(without(bucket(held, name), node.id) == bucket(spaces, name));
    }
    assert forall|name: Seq<char>| #[trigger] again.contains_key(name) implies again[name]
        == spaces[name] by {
        assert(without(bucket(held, name), node.id) == bucket(spaces, name));
    }
    assert(again =~= spaces);
}

/// However nodes are written into an index and deleted from it, one without empty lists stays so.
pub proof fn law_indexes_stay_tidy(index: IndexModel, node: NodeModel, refused: Set<Seq<char>>)
    requires
        tidy(index),
    ensures
        tidy(index.with_node(node, refused)),
        tidy(index.without_node(node)),
{
}

/// A faithful index has no empty list, and has nothing of a node that the graph does not have, but
/// perhaps its unique key.
pub proof fn law_faithful_indexes_are_tidy(
    index: IndexModel,
    nodes: Nodes,
    edges: Edges,
    node: NodeModel,
)
    requires
        faithful(index, nodes, edges),
        !nodes.contains_key(node.id),
        index.vectors is Exact,
        node.unique_key() matches Some(key) ==> !index.unique_keys.contains_key(key),
    ensures
        tidy(index),
        unmentioned(index, node),
{
    assert(filed_under(index.labels, node.node_type, node.id) <==> is_of_type(nodes)(
        node.node_type,
        node.id,
    ));
    match time_key(node) {
        Some(time) => {
            assert(filed_under(index.times, time, node.id) <==> is_of_time(nodes)(time, node.id));
        },
        None => {},
    }
    assert forall|key: Seq<char>|
        !#[trigger] filed_under(index.vectors.candidates(), key, node.id) by {
        assert(filed_under(index.vectors.candidates(), key, node.id) <==> has_vector(nodes)(
            key,
            node.id,
        ));
    }
}

/// The edges that a faithful index lists for a node are exactly those that fit its direction.
pub proof fn law_listed_edges_fit(
    index: IndexModel,
    nodes: Nodes,
    edges: Edges,
    node: Seq<char>,
    direction: EdgeDirection,
    id: Seq<char>,
)
    requires
        faithful(index, nodes, edges),
    ensures
        index.edges_of(node, direction).contains(id) <==> edges.contains_key(id)
            && crate::graph::edge_fits(edges[id], node, direction, None),
{
    let out = bucket(index.adjacency, node);
    let back = bucket(index.reverse_adjacency, node);
    assert(filed_under(index.adjacency, node, id) <==> leaves(edges)(node, id));
    assert(filed_under(index.reverse_adjacency, node, id) <==> enters(edges)(node, id));
    let all = index.edges_of(node, direction);
    let first = if direction == EdgeDirection::Incoming {
        Seq::empty()
    } else {
        out
    };
    let second = if direction == EdgeDirection::Outgoing {
        Seq::empty()
    } else {
        back
    };
    if all.contains(id) {
        let k = choose|k: int| 0 <= k < all.len() && all[k] == id;
        if k < first.len() {
            assert(first[k] == id);
        } else {
            assert(second[k - first.len()] == id);
        }
    }
    if first.contains(id) {
        let k = choose|k: int| 0 <= k < first.len() && first[k] == id;
        assert(all[k] == id);
    }
    if second.contains(id) {
        let k = choose|k: int| 0 <= k < second.len() && second[k] == id;
        assert(all[first.len() + k] == id);
    }
}

} // verus!
