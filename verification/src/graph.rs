//! Snapshots of the graph, mutations of it, and the views that queries run on.
use im::OrdMap;
use vstd::prelude::*;
use vstd::string::*;

use crate::common::{EdgeId, NodeId};
use crate::index::{
    edge_type_matches, optional_models, EdgeDirection, EdgeRecordLookup, GraphIndex, IndexModel,
};
use crate::ordered::{
    lists_sorted, models, sorted_keys, OrderedMap, OrderedSet, Replicate,
};
use crate::records::{EdgeModel, EdgeRecord, NodeModel, NodeRecord};
use crate::text;
use crate::vectors::bucket;

verus! {

// ---------------------------------------------------------------------------------------------
// Persistent maps of records
// ---------------------------------------------------------------------------------------------

/// `im::OrdMap`, the persistent ordered map of the `im` crate.
#[verifier::external_type_specification]
#[verifier::external_body]
#[verifier::reject_recursive_types(K)]
#[verifier::reject_recursive_types(V)]
pub struct ExOrdMap<K, V>(im::OrdMap<K, V>);

/// What a persistent map of nodes holds: the node of each identifier.
pub uninterp spec fn node_map(map: im::OrdMap<String, NodeRecord>) -> Map<Seq<char>, NodeModel>;

/// What a persistent map of edges holds: the edge of each identifier.
pub uninterp spec fn edge_map(map: im::OrdMap<String, EdgeRecord>) -> Map<Seq<char>, EdgeModel>;

/// `im::OrdMap::new` makes a map without keys.
#[verifier::external_body]
pub(crate) fn new_node_map() -> (r: OrdMap<String, NodeRecord>)
    ensures
        forall|id: Seq<char>| !(#[trigger] node_map(r).contains_key(id)),
{
    OrdMap::new()
}

/// `im::OrdMap::new` makes a map without keys.
#[verifier::external_body]
pub(crate) fn new_edge_map() -> (r: OrdMap<String, EdgeRecord>)
    ensures
        forall|id: Seq<char>| !(#[trigger] edge_map(r).contains_key(id)),
{
    OrdMap::new()
}

/// `im::OrdMap::get` finds the value of a key, if the map has the key.
#[verifier::external_body]
pub(crate) fn find_node<'a>(map: &'a OrdMap<String, NodeRecord>, id: &str) -> (r: Option<
    &'a NodeRecord,
>)
    ensures
        match r {
            Some(node) => node_map(*map).contains_key(id@) && node@ == node_map(*map)[id@],
            None => !node_map(*map).contains_key(id@),
        },
{
    map.get(id)
}

/// `im::OrdMap::get` finds the value of a key, if the map has the key.
#[verifier::external_body]
pub(crate) fn find_edge<'a>(map: &'a OrdMap<String, EdgeRecord>, id: &str) -> (r: Option<
    &'a EdgeRecord,
>)
    ensures
        match r {
            Some(edge) => edge_map(*map).contains_key(id@) && edge@ == edge_map(*map)[id@],
            None => !edge_map(*map).contains_key(id@),
        },
{
    map.get(id)
}

/// `im::OrdMap::insert` sets the value of a key and leaves the other keys alone.
#[verifier::external_body]
pub(crate) fn put_node(map: &mut OrdMap<String, NodeRecord>, id: String, node: NodeRecord)
    ensures
        node_map(*final(map)) == node_map(*old(map)).insert(id@, node@),
{
    map.insert(id, node);
}

/// `im::OrdMap::insert` sets the value of a key and leaves the other keys alone.
#[verifier::external_body]
pub(crate) fn put_edge(map: &mut OrdMap<String, EdgeRecord>, id: String, edge: EdgeRecord)
    ensures
        edge_map(*final(map)) == edge_map(*old(map)).insert(id@, edge@),
{
    map.insert(id, edge);
}

/// `im::OrdMap::remove` takes a key out and leaves the other keys alone.
#[verifier::external_body]
pub(crate) fn drop_node(map: &mut OrdMap<String, NodeRecord>, id: &str)
    ensures
        node_map(*final(map)) == node_map(*old(map)).remove(id@),
{
    map.remove(id);
}

/// `im::OrdMap::remove` takes a key out and leaves the other keys alone.
#[verifier::external_body]
pub(crate) fn drop_edge(map: &mut OrdMap<String, EdgeRecord>, id: &str)
    ensures
        edge_map(*final(map)) == edge_map(*old(map)).remove(id@),
{
    map.remove(id);
}

/// `im::OrdMap::keys` hands out every key once, in the order of the keys, which for strings is the
/// order of their bytes.
#[verifier::external_body]
pub(crate) fn node_keys(map: &OrdMap<String, NodeRecord>) -> (r: Vec<String>)
    ensures
        lists_sorted::<String>(models(r@), node_map(*map).dom()),
{
    map.keys().cloned().collect()
}

/// `im::OrdMap::keys` hands out every key once, in the order of the keys, which for strings is the
/// order of their bytes.
#[verifier::external_body]
pub(crate) fn edge_keys(map: &OrdMap<String, EdgeRecord>) -> (r: Vec<String>)
    ensures
        lists_sorted::<String>(models(r@), edge_map(*map).dom()),
{
    map.keys().cloned().collect()
}

/// `im::OrdMap::clone` makes a map that holds the same.
#[verifier::external_body]
pub(crate) fn share_nodes(map: &OrdMap<String, NodeRecord>) -> (r: OrdMap<String, NodeRecord>)
    ensures
        node_map(r) == node_map(*map),
{
    map.clone()
}

/// `im::OrdMap::clone` makes a map that holds the same.
#[verifier::external_body]
pub(crate) fn share_edges(map: &OrdMap<String, EdgeRecord>) -> (r: OrdMap<String, EdgeRecord>)
    ensures
        edge_map(r) == edge_map(*map),
{
    map.clone()
}

impl EdgeRecordLookup for OrdMap<String, EdgeRecord> {
    open spec fn edge_at(&self, id: Seq<char>) -> Option<EdgeModel> {
        if edge_map(*self).contains_key(id) {
            Some(edge_map(*self)[id])
        } else {
            None
        }
    }

    fn get_edge(&self, edge_id: &EdgeId) -> (r: Option<&EdgeRecord>) {
        find_edge(self, edge_id.as_str())
    }
}

// ---------------------------------------------------------------------------------------------
// Snapshots and mutations
// ---------------------------------------------------------------------------------------------

/// The records of the graph at one moment, with the index over them.
#[derive(Debug)]
pub struct GraphSnapshot {
    pub nodes: OrdMap<String, NodeRecord>,
    pub edges: OrdMap<String, EdgeRecord>,
    pub indexes: GraphIndex,
}

/// The model of a snapshot.
pub struct SnapshotModel {
    pub nodes: Map<Seq<char>, NodeModel>,
    pub edges: Map<Seq<char>, EdgeModel>,
    pub indexes: IndexModel,
}

impl View for GraphSnapshot {
    type V = SnapshotModel;

    open spec fn view(&self) -> SnapshotModel {
        SnapshotModel {
            nodes: node_map(self.nodes),
            edges: edge_map(self.edges),
            indexes: self.indexes@,
        }
    }
}

impl Replicate for GraphSnapshot {
    fn replicate(&self) -> (r: Self) {
        GraphSnapshot {
            nodes: share_nodes(&self.nodes),
            edges: share_edges(&self.edges),
            indexes: self.indexes.replicate(),
        }
    }
}

/// Records to take out of a graph and to put in.
#[derive(Debug, PartialEq, Eq)]
pub struct GraphMutation {
    pub removed_node_ids: OrderedSet<NodeId>,
    pub removed_edge_ids: OrderedSet<EdgeId>,
    pub added_nodes: OrderedMap<NodeId, NodeRecord>,
    pub added_edges: OrderedMap<EdgeId, EdgeRecord>,
}

/// The model of a mutation.
pub struct MutationModel {
    pub removed_node_ids: Set<Seq<char>>,
    pub removed_edge_ids: Set<Seq<char>>,
    pub added_nodes: Map<Seq<char>, NodeModel>,
    pub added_edges: Map<Seq<char>, EdgeModel>,
}

impl View for GraphMutation {
    type V = MutationModel;

    open spec fn view(&self) -> MutationModel {
        MutationModel {
            removed_node_ids: self.removed_node_ids@,
            removed_edge_ids: self.removed_edge_ids@,
            added_nodes: self.added_nodes@,
            added_edges: self.added_edges@,
        }
    }
}

impl Default for GraphMutation {
    fn default() -> (r: GraphMutation)
        ensures
            r@ == (MutationModel {
                removed_node_ids: Set::empty(),
                removed_edge_ids: Set::empty(),
                added_nodes: Map::empty(),
                added_edges: Map::empty(),
            }),
    {
        GraphMutation {
            removed_node_ids: OrderedSet::new(),
            removed_edge_ids: OrderedSet::new(),
            added_nodes: OrderedMap::new(),
            added_edges: OrderedMap::new(),
        }
    }
}

// ---------------------------------------------------------------------------------------------
// Views
// ---------------------------------------------------------------------------------------------

/// A request for the nodes to compare with a query vector. `hits` is what a search graph found,
/// if one was searched and the search did not fail.
pub struct SemanticCandidateQuery<'a> {
    pub query_dimension: usize,
    pub vector_name: &'a str,
    pub node_type: Option<&'a str>,
    pub limit: usize,
    pub top_k_override: Option<usize>,
    pub hits: &'a Option<Vec<NodeId>>,
}

/// The model of a request for the nodes to compare with a query vector.
pub struct SemanticModel {
    pub query_dimension: nat,
    pub vector_name: Seq<char>,
    pub node_type: Option<Seq<char>>,
    pub limit: usize,
    pub top_k_override: Option<usize>,
    pub hits: Option<Seq<Seq<char>>>,
}

impl<'a> SemanticCandidateQuery<'a> {
    /// The model of the request.
    pub open spec fn model(self) -> SemanticModel {
        SemanticModel {
            query_dimension: self.query_dimension as nat,
            vector_name: self.vector_name@,
            node_type: text::optional_text(self.node_type),
            limit: self.limit,
            top_k_override: self.top_k_override,
            hits: optional_models(*self.hits),
        }
    }
}

/// The model of an optional value.
pub open spec fn optional_view<T: View>(value: Option<T>) -> Option<T::V> {
    match value {
        Some(v) => Some(v@),
        None => None,
    }
}

/// A graph that queries can run on.
pub trait GraphView {
    /// The node of an identifier.
    spec fn node_at(&self, id: Seq<char>) -> Option<NodeModel>;

    /// The edge of an identifier.
    spec fn edge_at(&self, id: Seq<char>) -> Option<EdgeModel>;

    /// Whether an identifier names a node.
    spec fn has_node(&self, id: Seq<char>) -> bool;

    /// The node that a unique key leads to.
    spec fn unique_key_at(&self, key: Seq<char>) -> Option<Seq<char>>;

    /// The nodes of a type.
    spec fn typed_ids(&self, node_type: Seq<char>) -> Seq<Seq<char>>;

    /// The edges of a node in a direction, of a type if one is given.
    spec fn incident_ids(
        &self,
        node: Seq<char>,
        direction: EdgeDirection,
        edge_type: Option<Seq<char>>,
    ) -> Seq<Seq<char>>;

    /// The nodes of a span of time.
    spec fn time_ids(&self, from: i64, to: i64) -> Seq<Seq<char>>;

    /// The nodes with a vector of a name.
    spec fn vector_ids(&self, name: Seq<char>) -> Seq<Seq<char>>;

    /// The nodes to compare with a query vector.
    spec fn semantic_ids(&self, query: SemanticModel) -> Seq<Seq<char>>;

    /// All nodes.
    spec fn all_nodes(&self) -> Seq<NodeModel>;

    /// The node of an identifier.
    fn get_node(&self, node_id: &NodeId) -> (r: Option<NodeRecord>)
        ensures
            optional_view(r) == self.node_at(node_id@),
    ;

    /// The edge of an identifier.
    fn get_edge(&self, edge_id: &EdgeId) -> (r: Option<EdgeRecord>)
        ensures
            optional_view(r) == self.edge_at(edge_id@),
    ;

    /// Whether an identifier names a node.
    fn contains_node(&self, node_id: &NodeId) -> (r: bool)
        ensures
            r == self.has_node(node_id@),
    ;

    /// The node that a unique key leads to.
    fn lookup_unique_key(&self, unique_key: &str) -> (r: Option<NodeId>)
        ensures
            optional_view(r) == self.unique_key_at(unique_key@),
    ;

    /// The nodes of a type.
    fn node_ids_by_type(&self, node_type: &str) -> (r: Vec<NodeId>)
        ensures
            models(r@) == self.typed_ids(node_type@),
    ;

    /// The edges of a node in a direction, of a type if one is given.
    fn edge_ids_for_iter(
        &self,
        node_id: &NodeId,
        direction: EdgeDirection,
        edge_type: Option<&str>,
    ) -> (r: Vec<EdgeId>)
        ensures
            models(r@) == self.incident_ids(node_id@, direction, text::optional_text(edge_type)),
    ;

    /// The nodes of a span of time.
    fn node_ids_in_time_range_iter(&self, from_epoch_ms: i64, to_epoch_ms: i64) -> (r: Vec<NodeId>)
        requires
            from_epoch_ms <= to_epoch_ms,
        ensures
            models(r@) == self.time_ids(from_epoch_ms, to_epoch_ms),
    ;

    /// The nodes with a vector of a name.
    fn vector_candidate_ids_iter(&self, vector_name: &str) -> (r: Vec<NodeId>)
        ensures
            models(r@) == self.vector_ids(vector_name@),
    ;

    /// The nodes to compare with a query vector.
    fn semantic_candidate_ids_iter(&self, query: &SemanticCandidateQuery<'_>) -> (r: Vec<NodeId>)
        ensures
            models(r@) == self.semantic_ids(query.model()),
    ;

    /// All nodes.
    fn all_nodes_iter(&self) -> (r: Vec<NodeRecord>)
        ensures
            models(r@) == self.all_nodes(),
    ;
}

impl SnapshotModel {
    /// The node of an identifier.
    pub open spec fn node(self, id: Seq<char>) -> Option<NodeModel> {
        if self.nodes.contains_key(id) {
            Some(self.nodes[id])
        } else {
            None
        }
    }

    /// The edge of an identifier.
    pub open spec fn edge(self, id: Seq<char>) -> Option<EdgeModel> {
        if self.edges.contains_key(id) {
            Some(self.edges[id])
        } else {
            None
        }
    }
}

impl GraphView for GraphSnapshot {
    open spec fn node_at(&self, id: Seq<char>) -> Option<NodeModel> {
        self@.node(id)
    }

    open spec fn edge_at(&self, id: Seq<char>) -> Option<EdgeModel> {
        self@.edge(id)
    }

    open spec fn has_node(&self, id: Seq<char>) -> bool {
        self@.indexes.node_ids.contains(id)
    }

    open spec fn unique_key_at(&self, key: Seq<char>) -> Option<Seq<char>> {
        if self@.indexes.unique_keys.contains_key(key) {
            Some(self@.indexes.unique_keys[key])
        } else {
            None
        }
    }

    open spec fn typed_ids(&self, node_type: Seq<char>) -> Seq<Seq<char>> {
        bucket(self@.indexes.labels, node_type)
    }

    open spec fn incident_ids(
        &self,
        node: Seq<char>,
        direction: EdgeDirection,
        edge_type: Option<Seq<char>>,
    ) -> Seq<Seq<char>> {
        self@.indexes.edges_of(node, direction).filter(
            |id: Seq<char>| edge_type_matches(self@.edge(id), edge_type),
        )
    }

    open spec fn time_ids(&self, from: i64, to: i64) -> Seq<Seq<char>> {
        self@.indexes.ids_in_range(from, to)
    }

    open spec fn vector_ids(&self, name: Seq<char>) -> Seq<Seq<char>> {
        bucket(self@.indexes.vectors.candidates(), name)
    }

    open spec fn semantic_ids(&self, query: SemanticModel) -> Seq<Seq<char>> {
        self@.indexes.semantic_candidates(
            query.query_dimension,
            query.vector_name,
            query.node_type,
            query.limit,
            query.top_k_override,
            query.hits,
        )
    }

    open spec fn all_nodes(&self) -> Seq<NodeModel> {
        let ids = sorted_keys::<String>(self@.nodes.dom());
        Seq::new(ids.len(), |i: int| self@.nodes[ids[i]])
    }

    fn get_node(&self, node_id: &NodeId) -> (r: Option<NodeRecord>) {
        match find_node(&self.nodes, node_id.as_str()) {
            Some(node) => Some(node.clone()),
            None => None,
        }
    }

    fn get_edge(&self, edge_id: &EdgeId) -> (r: Option<EdgeRecord>) {
        match find_edge(&self.edges, edge_id.as_str()) {
            Some(edge) => Some(edge.clone()),
            None => None,
        }
    }

    fn contains_node(&self, node_id: &NodeId) -> (r: bool) {
        self.indexes.contains_node(node_id)
    }

    fn lookup_unique_key(&self, unique_key: &str) -> (r: Option<NodeId>) {
        match self.indexes.lookup_unique_key(unique_key) {
            Some(id) => Some(id.clone()),
            None => None,
        }
    }

    fn node_ids_by_type(&self, node_type: &str) -> (r: Vec<NodeId>) {
        self.indexes.node_ids_by_type(node_type)
    }

    fn edge_ids_for_iter(
        &self,
        node_id: &NodeId,
        direction: EdgeDirection,
        edge_type: Option<&str>,
    ) -> (r: Vec<EdgeId>) {
        let ids: Vec<EdgeId> = self.indexes.edge_ids_for_iter(
            node_id,
            direction,
            &self.edges,
            edge_type,
        );
        proof {
            let p = |id: Seq<char>|
                edge_type_matches(self.edges.edge_at(id), text::optional_text(edge_type));
            let q = |id: Seq<char>|
                edge_type_matches(self@.edge(id), text::optional_text(edge_type));
            assert(p =~= q);
        }
        ids
    }

    fn node_ids_in_time_range_iter(&self, from_epoch_ms: i64, to_epoch_ms: i64) -> (r: Vec<NodeId>) {
        self.indexes.node_ids_in_time_range_iter(from_epoch_ms, to_epoch_ms)
    }

    fn vector_candidate_ids_iter(&self, vector_name: &str) -> (r: Vec<NodeId>) {
        self.indexes.vector_candidate_ids_iter(vector_name)
    }

    fn semantic_candidate_ids_iter(&self, query: &SemanticCandidateQuery<'_>) -> (r: Vec<NodeId>) {
        self.indexes.semantic_candidate_ids(
            query.query_dimension,
            query.vector_name,
            query.node_type,
            query.limit,
            query.top_k_override,
            query.hits,
        )
    }

    fn all_nodes_iter(&self) -> (r: Vec<NodeRecord>) {
        let keys: Vec<String> = node_keys(&self.nodes);
        let ghost ids = sorted_keys::<String>(self@.nodes.dom());
        proof {
            crate::ordered::lemma_is_sorted_keys::<String>(models(keys@), self@.nodes.dom());
        }
        let mut out: Vec<NodeRecord> = Vec::new();
        let mut i: usize = 0;
        while i < keys.len()
            invariant
                i <= keys.len(),
                models(keys@) == ids,
                ids == sorted_keys::<String>(self@.nodes.dom()),
                lists_sorted::<String>(ids, self@.nodes.dom()),
                out.len() == i,
                forall|k: int| 0 <= k < i ==> (#[trigger] out@[k])@ == self@.nodes[ids[k]],
            decreases keys.len() - i,
        {
            proof {
                assert(ids[i as int] == keys@[i as int]@);
                assert(ids.contains(ids[i as int]));
                assert(self@.nodes.contains_key(ids[i as int]));
            }
            match find_node(&self.nodes, keys[i].as_str()) {
                Some(node) => {
                    out.push(node.clone());
                },
                None => {},
            }
            i = i + 1;
        }
        proof {
            assert(models(out@) =~= self.all_nodes());
        }
        out
    }
}

// ---------------------------------------------------------------------------------------------
// A snapshot with a mutation over it
// ---------------------------------------------------------------------------------------------

/// A snapshot as it would be with a mutation applied.
pub struct OverlayGraphView<'a> {
    pub base: &'a GraphSnapshot,
    pub mutation: &'a GraphMutation,
}

/// A test on nodes.
pub enum NodeTest<'a> {
    /// The node is of a type.
    Type(&'a str),
    /// The node has a time in a span.
    Time(i64, i64),
    /// The node has a vector of a name.
    Vector(&'a str),
}

/// Whether a time lies in a span.
pub open spec fn time_within(time: Option<int>, from: i64, to: i64) -> bool {
    match time {
        Some(t) => from <= t <= to,
        None => false,
    }
}

impl<'a> NodeTest<'a> {
    /// Whether a node passes.
    pub open spec fn admits(self, node: NodeModel) -> bool {
        match self {
            NodeTest::Type(t) => node.node_type == t@,
            NodeTest::Time(from, to) => time_within(node.timestamp(), from, to),
            NodeTest::Vector(name) => node.vectors.contains_key(name@),
        }
    }

    /// Whether a node passes.
    fn passes(&self, node: &NodeRecord) -> (r: bool)
        ensures
            r == self.admits(node@),
    {
        match self {
            NodeTest::Type(t) => text::same_text(node.node_type.as_str(), t),
            NodeTest::Time(from, to) => within_required_time_range(node, *from, *to),
            NodeTest::Vector(name) => node.vector(name).is_some(),
        }
    }
}

/// Whether a node has a time from `from_epoch_ms` to `to_epoch_ms`.
pub fn within_required_time_range(node: &NodeRecord, from_epoch_ms: i64, to_epoch_ms: i64) -> (r:
    bool)
    ensures
        r == time_within(node@.timestamp(), from_epoch_ms, to_epoch_ms),
{
    match node.timestamp_ms() {
        Some(timestamp) => timestamp >= from_epoch_ms && timestamp <= to_epoch_ms,
        None => false,
    }
}

/// Whether an edge is one of a node in a direction, of a type if one is given.
pub open spec fn edge_fits(
    edge: EdgeModel,
    node: Seq<char>,
    direction: EdgeDirection,
    edge_type: Option<Seq<char>>,
) -> bool {
    &&& match direction {
        EdgeDirection::Outgoing => edge.source == node,
        EdgeDirection::Incoming => edge.target == node,
        EdgeDirection::Both => edge.source == node || edge.target == node,
    }
    &&& edge_type_matches(Some(edge), edge_type)
}

/// Whether an edge is one of a node in a direction, of a type if one is given.
pub fn edge_matches(
    edge: &EdgeRecord,
    node_id: &NodeId,
    direction: EdgeDirection,
    edge_type: Option<&str>,
) -> (r: bool)
    ensures
        r == edge_fits(edge@, node_id@, direction, text::optional_text(edge_type)),
{
    let from_here: bool = crate::ordered::same_key(&edge.source, node_id);
    let to_here: bool = crate::ordered::same_key(&edge.target, node_id);
    let direction_matches: bool = match direction {
        EdgeDirection::Outgoing => from_here,
        EdgeDirection::Incoming => to_here,
        EdgeDirection::Both => from_here || to_here,
    };
    let type_matches: bool = match edge_type {
        Some(expected) => text::same_text(edge.edge_type.as_str(), expected),
        None => true,
    };
    direction_matches && type_matches
}

/// The identifier of the first of the listed nodes with a unique key.
pub open spec fn first_with_key(
    nodes: Map<Seq<char>, NodeModel>,
    ids: Seq<Seq<char>>,
    key: Seq<char>,
) -> Option<Seq<char>>
    decreases ids.len(),
{
    if ids.len() == 0 {
        None
    } else if nodes[ids[0]].unique_key() == Some(key) {
        Some(nodes[ids[0]].id)
    } else {
        first_with_key(nodes, ids.drop_first(), key)
    }
}

impl<'a> OverlayGraphView<'a> {
    /// The base as it would be with the mutation applied.
    pub fn new(base: &'a GraphSnapshot, mutation: &'a GraphMutation) -> (r: Self)
        ensures
            r.base == base,
            r.mutation == mutation,
    {
        OverlayGraphView { base, mutation }
    }

    /// The node of an identifier: an added one first, then one of the base that is not removed.
    pub open spec fn node(self, id: Seq<char>) -> Option<NodeModel> {
        if self.mutation@.added_nodes.contains_key(id) {
            Some(self.mutation@.added_nodes[id])
        } else if self.mutation@.removed_node_ids.contains(id) {
            None
        } else {
            self.base@.node(id)
        }
    }

    /// The edge of an identifier: an added one first, then one of the base that is not removed.
    pub open spec fn edge(self, id: Seq<char>) -> Option<EdgeModel> {
        if self.mutation@.added_edges.contains_key(id) {
            Some(self.mutation@.added_edges[id])
        } else if self.mutation@.removed_edge_ids.contains(id) {
            None
        } else {
            self.base@.edge(id)
        }
    }

    /// The nodes that pass a test: those of the base's list that still do, and the added ones.
    pub open spec fn passing(self, base_ids: Seq<Seq<char>>, test: NodeTest<'a>) -> Set<Seq<char>> {
        Set::new(
            |id: Seq<char>|
                (base_ids.contains(id) && self.node(id) is Some && test.admits(self.node(id)->0))
                    || (exists|k: Seq<char>|
                    self.mutation@.added_nodes.contains_key(k)
                        && #[trigger] self.mutation@.added_nodes[k].id == id && test.admits(
                        self.mutation@.added_nodes[k],
                    )),
        )
    }

    /// The edges of a node: those of the base's list that still are, and the added ones.
    pub open spec fn fitting(
        self,
        base_ids: Seq<Seq<char>>,
        node: Seq<char>,
        direction: EdgeDirection,
        edge_type: Option<Seq<char>>,
    ) -> Set<Seq<char>> {
        Set::new(
            |id: Seq<char>|
                (base_ids.contains(id) && self.edge(id) is Some && edge_fits(
                    self.edge(id)->0,
                    node,
                    direction,
                    edge_type,
                )) || (exists|k: Seq<char>|
                    self.mutation@.added_edges.contains_key(k)
                        && #[trigger] self.mutation@.added_edges[k].id == id && edge_fits(
                        self.mutation@.added_edges[k],
                        node,
                        direction,
                        edge_type,
                    )),
        )
    }

    /// The identifiers of the nodes of the overlay.
    pub open spec fn present(self) -> Set<Seq<char>> {
        Set::new(
            |id: Seq<char>|
                (self.base@.nodes.contains_key(id) && !self.mutation@.removed_node_ids.contains(id))
                    || self.mutation@.added_nodes.contains_key(id),
        )
    }

    /// The nodes that pass a test, in ascending order.
    fn collect_passing(&self, base_ids: &Vec<NodeId>, test: &NodeTest<'a>) -> (r: Vec<NodeId>)
        ensures
            models(r@) == sorted_keys::<NodeId>(self.passing(models(base_ids@), *test)),
    {
        let ghost goal = self.passing(models(base_ids@), *test);
        let ghost listed = models(base_ids@);
        let mut found: OrderedSet<NodeId> = OrderedSet::new();
        let mut i: usize = 0;
        while i < base_ids.len()
            invariant
                i <= base_ids.len(),
                listed == models(base_ids@),
                forall|id: Seq<char>| #[trigger] found@.contains(id) <==> ((exists|k: int|
                    0 <= k < i && listed[k] == id) && self.node(id) is Some && test.admits(
                    self.node(id)->0,
                )),
            decreases base_ids.len() - i,
        {
            let ghost before = found@;
            let ghost key = base_ids@[i as int]@;
            proof {
                assert(listed[i as int] == key);
            }
            let keep: bool = match self.get_node(&base_ids[i]) {
                Some(node) => test.passes(&node),
                None => false,
            };
            if keep {
                let _new: bool = found.insert(base_ids[i].clone());
            }
            proof {
                assert forall|id: Seq<char>| #[trigger] found@.contains(id) <==> ((exists|k: int|
                    0 <= k < i + 1 && listed[k] == id) && self.node(id) is Some && test.admits(
                    self.node(id)->0,
                )) by {
                    if id != key {
                        assert(found@.contains(id) == before.contains(id));
                        if exists|k: int| 0 <= k < i + 1 && listed[k] == id {
                            let k = choose|k: int| 0 <= k < i + 1 && listed[k] == id;
                            assert(k < i);
                        }
                    }
                }
            }
            i = i + 1;
        }
        let ghost kept = found@;
        let n: usize = self.mutation.added_nodes.len();
        let ghost keys = self.mutation.added_nodes.keys();
        let ghost added = self.mutation.added_nodes@;
        let mut j: usize = 0;
        while j < n
            invariant
                keys == self.mutation.added_nodes.keys(),
                added == self.mutation.added_nodes@,
                n == keys.len(),
                j <= n,
                forall|id: Seq<char>| #[trigger] found@.contains(id) <==> (kept.contains(id) || (
                exists|k: int|
                    0 <= k < j && added[#[trigger] keys[k]].id == id && test.admits(added[keys[k]]))),
            decreases n - j,
        {
            let ghost before = found@;
            let node: &NodeRecord = self.mutation.added_nodes.value_at(j);
            let fits: bool = test.passes(node);
            if fits {
                let _new: bool = found.insert(node.id.clone());
            }
            proof {
                assert(node@ == added[keys[j as int]]);
                assert forall|id: Seq<char>| #[trigger] found@.contains(id) <==> (kept.contains(id)
                    || (exists|k: int|
                    0 <= k < j + 1 && added[#[trigger] keys[k]].id == id && test.admits(
                        added[keys[k]],
                    ))) by {
                    if found@.contains(id) && !before.contains(id) {
                        assert(added[keys[j as int]].id == id);
                    }
                    if exists|k: int|
                        0 <= k < j + 1 && added[#[trigger] keys[k]].id == id && test.admits(
                            added[keys[k]],
                        ) {
                        let k = choose|k: int|
                            0 <= k < j + 1 && added[#[trigger] keys[k]].id == id && test.admits(
                                added[keys[k]],
                            );
                        if k < j {
                            assert(before.contains(id));
                        }
                    }
                }
            }
            j = j + 1;
        }
        proof {
            assert forall|id: Seq<char>| found@.contains(id) <==> goal.contains(id) by {
                if goal.contains(id) {
                    if exists|k: Seq<char>|
                        added.contains_key(k) && #[trigger] added[k].id == id && test.admits(added[k]) {
                        let k = choose|k: Seq<char>|
                            added.contains_key(k) && #[trigger] added[k].id == id && test.admits(
                                added[k],
                            );
                        assert(keys.contains(k));
                        let l = choose|l: int| 0 <= l < keys.len() && keys[l] == k;
                        assert(added[keys[l]].id == id);
                    }
                }
                if found@.contains(id) && !kept.contains(id) {
                    let k = choose|k: int|
                        0 <= k < j && added[#[trigger] keys[k]].id == id && test.admits(
                            added[keys[k]],
                        );
                    assert(keys.contains(keys[k]));
                    assert(added.contains_key(keys[k]));
                }
            }
            assert(found@ =~= goal);
        }
        found.to_list()
    }
}

impl<'a> GraphView for OverlayGraphView<'a> {
    open spec fn node_at(&self, id: Seq<char>) -> Option<NodeModel> {
        self.node(id)
    }

    open spec fn edge_at(&self, id: Seq<char>) -> Option<EdgeModel> {
        self.edge(id)
    }

    open spec fn has_node(&self, id: Seq<char>) -> bool {
        self.node(id) is Some
    }

    open spec fn unique_key_at(&self, key: Seq<char>) -> Option<Seq<char>> {
        match first_with_key(
            self.mutation@.added_nodes,
            sorted_keys::<NodeId>(self.mutation@.added_nodes.dom()),
            key,
        ) {
            Some(id) => Some(id),
            None => match self.base.unique_key_at(key) {
                Some(id) => if self.node(id) is Some && self.node(id)->0.unique_key() == Some(key) {
                    Some(id)
                } else {
                    None
                },
                None => None,
            },
        }
    }

    open spec fn typed_ids(&self, node_type: Seq<char>) -> Seq<Seq<char>> {
        sorted_keys::<NodeId>(
            Set::new(
                |id: Seq<char>|
                    (self.base.typed_ids(node_type).contains(id) && self.node(id) is Some
                        && self.node(id)->0.node_type == node_type) || (exists|k: Seq<char>|
                        self.mutation@.added_nodes.contains_key(k)
                            && #[trigger] self.mutation@.added_nodes[k].id == id
                            && self.mutation@.added_nodes[k].node_type == node_type),
            ),
        )
    }

    open spec fn incident_ids(
        &self,
        node: Seq<char>,
        direction: EdgeDirection,
        edge_type: Option<Seq<char>>,
    ) -> Seq<Seq<char>> {
        sorted_keys::<EdgeId>(
            self.fitting(
                self.base.incident_ids(node, direction, edge_type),
                node,
                direction,
                edge_type,
            ),
        )
    }

    open spec fn time_ids(&self, from: i64, to: i64) -> Seq<Seq<char>> {
        sorted_keys::<NodeId>(self.passing(self.base.time_ids(from, to), NodeTest::Time(from, to)))
    }

    open spec fn vector_ids(&self, name: Seq<char>) -> Seq<Seq<char>> {
        sorted_keys::<NodeId>(
            Set::new(
                |id: Seq<char>|
                    (self.base.vector_ids(name).contains(id) && self.node(id) is Some
                        && self.node(id)->0.vectors.contains_key(name)) || (exists|k: Seq<char>|
                        self.mutation@.added_nodes.contains_key(k)
                            && #[trigger] self.mutation@.added_nodes[k].id == id
                            && self.mutation@.added_nodes[k].vectors.contains_key(name)),
            ),
        )
    }

    open spec fn semantic_ids(&self, query: SemanticModel) -> Seq<Seq<char>> {
        match query.node_type {
            Some(t) => self.typed_ids(t).filter(
                |id: Seq<char>|
                    self.node(id) is Some && self.node(id)->0.vectors.contains_key(
                        query.vector_name,
                    ),
            ),
            None => self.vector_ids(query.vector_name),
        }
    }

    open spec fn all_nodes(&self) -> Seq<NodeModel> {
        let ids = sorted_keys::<NodeId>(self.present());
        Seq::new(ids.len(), |i: int| self.node(ids[i])->0)
    }

    fn get_node(&self, node_id: &NodeId) -> (r: Option<NodeRecord>) {
        match self.mutation.added_nodes.get(node_id) {
            Some(node) => {
                return Some(node.clone());
            },
            None => {},
        }
        if self.mutation.removed_node_ids.contains(node_id) {
            return None;
        }
        self.base.get_node(node_id)
    }

    fn get_edge(&self, edge_id: &EdgeId) -> (r: Option<EdgeRecord>) {
        match self.mutation.added_edges.get(edge_id) {
            Some(edge) => {
                return Some(edge.clone());
            },
            None => {},
        }
        if self.mutation.removed_edge_ids.contains(edge_id) {
            return None;
        }
        self.base.get_edge(edge_id)
    }

    fn contains_node(&self, node_id: &NodeId) -> (r: bool) {
        self.get_node(node_id).is_some()
    }

    fn lookup_unique_key(&self, unique_key: &str) -> (r: Option<NodeId>) {
        let n: usize = self.mutation.added_nodes.len();
        let ghost ids = self.mutation.added_nodes.keys();
        let ghost added = self.mutation.added_nodes@;
        let mut i: usize = 0;
        proof {
            assert(ids.skip(0) =~= ids);
        }
        while i < n
            invariant
                ids == self.mutation.added_nodes.keys(),
                added == self.mutation.added_nodes@,
                n == ids.len(),
                i <= n,
                first_with_key(added, ids, unique_key@) == first_with_key(
                    added,
                    ids.skip(i as int),
                    unique_key@,
                ),
            decreases n - i,
        {
            let node: &NodeRecord = self.mutation.added_nodes.value_at(i);
            let own: bool = text::same_optional_text(node.unique_key(), Some(unique_key));
            proof {
                assert(ids.skip(i as int)[0] == ids[i as int]);
                assert(ids.skip(i as int).drop_first() =~= ids.skip(i + 1));
            }
            if own {
                return Some(node.id.clone());
            }
            i = i + 1;
        }
        match self.base.lookup_unique_key(unique_key) {
            Some(id) => match self.get_node(&id) {
                Some(node) => {
                    if text::same_optional_text(node.unique_key(), Some(unique_key)) {
                        Some(id)
                    } else {
                        None
                    }
                },
                None => None,
            },
            None => None,
        }
    }

    fn node_ids_by_type(&self, node_type: &str) -> (r: Vec<NodeId>) {
        let base_ids: Vec<NodeId> = self.base.node_ids_by_type(node_type);
        let test: NodeTest<'_> = NodeTest::Type(node_type);
        let ids: Vec<NodeId> = OverlayGraphView::new(self.base, self.mutation).collect_passing(
            &base_ids,
            &test,
        );
        proof {
            let a = self.passing(models(base_ids@), test);
            let b = Set::new(
                |id: Seq<char>|
                    (self.base.typed_ids(node_type@).contains(id) && self.node(id) is Some
                        && self.node(id)->0.node_type == node_type@) || (exists|k: Seq<char>|
                        self.mutation@.added_nodes.contains_key(k)
                            && #[trigger] self.mutation@.added_nodes[k].id == id
                            && self.mutation@.added_nodes[k].node_type == node_type@),
            );
            assert forall|id: Seq<char>| a.contains(id) <==> b.contains(id) by {
                if exists|k: Seq<char>|
                    self.mutation@.added_nodes.contains_key(k)
                        && #[trigger] self.mutation@.added_nodes[k].id == id
                        && self.mutation@.added_nodes[k].node_type == node_type@ {
                    let k = choose|k: Seq<char>|
                        self.mutation@.added_nodes.contains_key(k)
                            && #[trigger] self.mutation@.added_nodes[k].id == id
                            && self.mutation@.added_nodes[k].node_type == node_type@;
                    assert(test.admits(self.mutation@.added_nodes[k]));
                }
                if exists|k: Seq<char>|
                    self.mutation@.added_nodes.contains_key(k)
                        && #[trigger] self.mutation@.added_nodes[k].id == id && test.admits(
                        self.mutation@.added_nodes[k],
                    ) {
                    let k = choose|k: Seq<char>|
                        self.mutation@.added_nodes.contains_key(k)
                            && #[trigger] self.mutation@.added_nodes[k].id == id && test.admits(
                            self.mutation@.added_nodes[k],
                        );
                    assert(self.mutation@.added_nodes[k].node_type == node_type@);
                }
            }
            assert(a =~= b);
        }
        ids
    }

    fn edge_ids_for_iter(
        &self,
        node_id: &NodeId,
        direction: EdgeDirection,
        edge_type: Option<&str>,
    ) -> (r: Vec<EdgeId>) {
        let base_ids: Vec<EdgeId> = self.base.edge_ids_for_iter(node_id, direction, edge_type);
        let ghost kind = text::optional_text(edge_type);
        let ghost listed = models(base_ids@);
        let ghost goal = self.fitting(listed, node_id@, direction, kind);
        let mut found: OrderedSet<EdgeId> = OrderedSet::new();
        let mut i: usize = 0;
        while i < base_ids.len()
            invariant
                i <= base_ids.len(),
                listed == models(base_ids@),
                kind == text::optional_text(edge_type),
                forall|id: Seq<char>| #[trigger] found@.contains(id) <==> ((exists|k: int|
                    0 <= k < i && listed[k] == id) && self.edge(id) is Some && edge_fits(
                    self.edge(id)->0,
                    node_id@,
                    direction,
                    kind,
                )),
            decreases base_ids.len() - i,
        {
            let ghost before = found@;
            let ghost key = base_ids@[i as int]@;
            proof {
                assert(listed[i as int] == key);
            }
            let keep: bool = match self.get_edge(&base_ids[i]) {
                Some(edge) => edge_matches(&edge, node_id, direction, edge_type),
                None => false,
            };
            if keep {
                let _new: bool = found.insert(base_ids[i].clone());
            }
            proof {
                assert forall|id: Seq<char>| #[trigger] found@.contains(id) <==> ((exists|k: int|
                    0 <= k < i + 1 && listed[k] == id) && self.edge(id) is Some && edge_fits(
                    self.edge(id)->0,
                    node_id@,
                    direction,
                    kind,
                )) by {
                    if id != key {
                        assert(found@.contains(id) == before.contains(id));
                        if exists|k: int| 0 <= k < i + 1 && listed[k] == id {
                            let k = choose|k: int| 0 <= k < i + 1 && listed[k] == id;
                            assert(k < i);
                        }
                    }
                }
            }
            i = i + 1;
        }
        let ghost kept = found@;
        let n: usize = self.mutation.added_edges.len();
        let ghost keys = self.mutation.added_edges.keys();
        let ghost added = self.mutation.added_edges@;
        let mut j: usize = 0;
        while j < n
            invariant
                keys == self.mutation.added_edges.keys(),
                added == self.mutation.added_edges@,
                n == keys.len(),
                j <= n,
                kind == text::optional_text(edge_type),
                forall|id: Seq<char>| #[trigger] found@.contains(id) <==> (kept.contains(id) || (
                exists|k: int|
                    0 <= k < j && added[#[trigger] keys[k]].id == id && edge_fits(
                        added[keys[k]],
                        node_id@,
                        direction,
                        kind,
                    ))),
            decreases n - j,
        {
            let ghost before = found@;
            let edge: &EdgeRecord = self.mutation.added_edges.value_at(j);
            let fits: bool = edge_matches(edge, node_id, direction, edge_type);
            if fits {
                let _new: bool = found.insert(edge.id.clone());
            }
            proof {
                assert(edge@ == added[keys[j as int]]);
                assert forall|id: Seq<char>| #[trigger] found@.contains(id) <==> (kept.contains(id)
                    || (exists|k: int|
                    0 <= k < j + 1 && added[#[trigger] keys[k]].id == id && edge_fits(
                        added[keys[k]],
                        node_id@,
                        direction,
                        kind,
                    ))) by {
                    if found@.contains(id) && !before.contains(id) {
                        assert(added[keys[j as int]].id == id);
                    }
                    if exists|k: int|
                        0 <= k < j + 1 && added[#[trigger] keys[k]].id == id && edge_fits(
                            added[keys[k]],
                            node_id@,
                            direction,
                            kind,
                        ) {
                        let k = choose|k: int|
                            0 <= k < j + 1 && added[#[trigger] keys[k]].id == id && edge_fits(
                                added[keys[k]],
                                node_id@,
                                direction,
                                kind,
                            );
                        if k < j {
                            assert(before.contains(id));
                        }
                    }
                }
            }
            j = j + 1;
        }
        proof {
            assert forall|id: Seq<char>| found@.contains(id) <==> goal.contains(id) by {
                if goal.contains(id) {
                    if exists|k: Seq<char>|
                        added.contains_key(k) && #[trigger] added[k].id == id && edge_fits(
                            added[k],
                            node_id@,
                            direction,
                            kind,
                        ) {
                        let k = choose|k: Seq<char>|
                            added.contains_key(k) && #[trigger] added[k].id == id && edge_fits(
                                added[k],
                                node_id@,
                                direction,
                                kind,
                            );
                        assert(keys.contains(k));
                        let l = choose|l: int| 0 <= l < keys.len() && keys[l] == k;
                        assert(added[keys[l]].id == id);
                    }
                }
                if found@.contains(id) && !kept.contains(id) {
                    let k = choose|k: int|
                        0 <= k < j && added[#[trigger] keys[k]].id == id && edge_fits(
                            added[keys[k]],
                            node_id@,
                            direction,
                            kind,
                        );
                    assert(keys.contains(keys[k]));
                    assert(added.contains_key(keys[k]));
                }
            }
            assert(found@ =~= goal);
        }
        found.to_list()
    }

    fn node_ids_in_time_range_iter(&self, from_epoch_ms: i64, to_epoch_ms: i64) -> (r: Vec<NodeId>) {
        let base_ids: Vec<NodeId> = self.base.node_ids_in_time_range_iter(
            from_epoch_ms,
            to_epoch_ms,
        );
        self.collect_passing(&base_ids, &NodeTest::Time(from_epoch_ms, to_epoch_ms))
    }

    fn vector_candidate_ids_iter(&self, vector_name: &str) -> (r: Vec<NodeId>) {
        let base_ids: Vec<NodeId> = self.base.vector_candidate_ids_iter(vector_name);
        let test: NodeTest<'_> = NodeTest::Vector(vector_name);
        let ids: Vec<NodeId> = OverlayGraphView::new(self.base, self.mutation).collect_passing(
            &base_ids,
            &test,
        );
        proof {
            let a = self.passing(models(base_ids@), test);
            let b = Set::new(
                |id: Seq<char>|
                    (self.base.vector_ids(vector_name@).contains(id) && self.node(id) is Some
                        && self.node(id)->0.vectors.contains_key(vector_name@)) || (exists|
                        k: Seq<char>,
                    |
                        self.mutation@.added_nodes.contains_key(k)
                            && #[trigger] self.mutation@.added_nodes[k].id == id
                            && self.mutation@.added_nodes[k].vectors.contains_key(vector_name@)),
            );
            assert forall|id: Seq<char>| a.contains(id) <==> b.contains(id) by {
                if exists|k: Seq<char>|
                    self.mutation@.added_nodes.contains_key(k)
                        && #[trigger] self.mutation@.added_nodes[k].id == id
                        && self.mutation@.added_nodes[k].vectors.contains_key(vector_name@) {
                    let k = choose|k: Seq<char>|
                        self.mutation@.added_nodes.contains_key(k)
                            && #[trigger] self.mutation@.added_nodes[k].id == id
                            && self.mutation@.added_nodes[k].vectors.contains_key(vector_name@);
                    assert(test.admits(self.mutation@.added_nodes[k]));
                }
                if exists|k: Seq<char>|
                    self.mutation@.added_nodes.contains_key(k)
                        && #[trigger] self.mutation@.added_nodes[k].id == id && test.admits(
                        self.mutation@.added_nodes[k],
                    ) {
                    let k = choose|k: Seq<char>|
                        self.mutation@.added_nodes.contains_key(k)
                            && #[trigger] self.mutation@.added_nodes[k].id == id && test.admits(
                            self.mutation@.added_nodes[k],
                        );
                    assert(self.mutation@.added_nodes[k].vectors.contains_key(vector_name@));
                }
            }
            assert(a =~= b);
        }
        ids
    }

    fn semantic_candidate_ids_iter(&self, query: &SemanticCandidateQuery<'_>) -> (r: Vec<NodeId>) {
        match query.node_type {
            Some(node_type) => {
                let all: Vec<NodeId> = self.node_ids_by_type(node_type);
                let ghost want = models(all@);
                let ghost p = |id: Seq<char>|
                    self.node(id) is Some && self.node(id)->0.vectors.contains_key(
                        query.model().vector_name,
                    );
                let mut out: Vec<NodeId> = Vec::new();
                let mut i: usize = 0;
                proof {
                    reveal(Seq::filter);
                    assert(want.take(0).filter(p) =~= Seq::empty());
                    assert(models(out@) =~= Seq::empty());
                }
                while i < all.len()
                    invariant
                        i <= all.len(),
                        want == models(all@),
                        models(out@) == want.take(i as int).filter(p),
                        p == (|id: Seq<char>|
                            self.node(id) is Some && self.node(id)->0.vectors.contains_key(
                                query.model().vector_name,
                            )),
                    decreases all.len() - i,
                {
                    let has: bool = match self.get_node(&all[i]) {
                        Some(node) => node.vector(query.vector_name).is_some(),
                        None => false,
                    };
                    let ghost held = out@;
                    proof {
                        crate::ordered::lemma_filter_step(want, p, i as int);
                        assert(want[i as int] == all@[i as int]@);
                    }
                    if has {
                        out.push(all[i].clone());
                        proof {
                            assert(models(out@) =~= models(held).push(want[i as int]));
                        }
                    }
                    i = i + 1;
                }
                proof {
                    assert(want.take(i as int) =~= want);
                }
                out
            },
            None => self.vector_candidate_ids_iter(query.vector_name),
        }
    }

    fn all_nodes_iter(&self) -> (r: Vec<NodeRecord>) {
        let keys: Vec<String> = node_keys(&self.base.nodes);
        let ghost listed = models(keys@);
        let mut found: OrderedSet<NodeId> = OrderedSet::new();
        let mut i: usize = 0;
        while i < keys.len()
            invariant
                i <= keys.len(),
                listed == models(keys@),
                forall|id: Seq<char>| #[trigger] found@.contains(id) <==> ((exists|k: int|
                    0 <= k < i && listed[k] == id) && !self.mutation@.removed_node_ids.contains(id)),
            decreases keys.len() - i,
        {
            let ghost before = found@;
            let ghost key = keys@[i as int]@;
            proof {
                assert(listed[i as int] == key);
            }
            let id: NodeId = NodeId::from_stored(keys[i].clone());
            if !self.mutation.removed_node_ids.contains(&id) {
                let _new: bool = found.insert(id);
            }
            proof {
                assert forall|id: Seq<char>| #[trigger] found@.contains(id) <==> ((exists|k: int|
                    0 <= k < i + 1 && listed[k] == id)
                    && !self.mutation@.removed_node_ids.contains(id)) by {
                    if id != key {
                        assert(found@.contains(id) == before.contains(id));
                        if exists|k: int| 0 <= k < i + 1 && listed[k] == id {
                            let k = choose|k: int| 0 <= k < i + 1 && listed[k] == id;
                            assert(k < i);
                        }
                    }
                }
            }
            i = i + 1;
        }
        let ghost kept = found@;
        let n: usize = self.mutation.added_nodes.len();
        let ghost added = self.mutation.added_nodes.keys();
        let mut j: usize = 0;
        while j < n
            invariant
                added == self.mutation.added_nodes.keys(),
                n == added.len(),
                j <= n,
                forall|id: Seq<char>| #[trigger] found@.contains(id) <==> (kept.contains(id) || (
                exists|k: int| 0 <= k < j && added[k] == id)),
            decreases n - j,
        {
            let ghost before = found@;
            let ghost key = added[j as int];
            let _new: bool = found.insert(self.mutation.added_nodes.key_at(j).clone());
            proof {
                assert forall|id: Seq<char>| #[trigger] found@.contains(id) <==> (kept.contains(id)
                    || (exists|k: int| 0 <= k < j + 1 && added[k] == id)) by {
                    if id != key {
                        assert(found@.contains(id) == before.contains(id));
                        if exists|k: int| 0 <= k < j + 1 && added[k] == id {
                            let k = choose|k: int| 0 <= k < j + 1 && added[k] == id;
                            assert(k < j);
                        }
                    } else {
                        assert(added[j as int] == id);
                    }
                }
            }
            j = j + 1;
        }
        proof {
            assert forall|id: Seq<char>| found@.contains(id) <==> self.present().contains(id) by {
                assert(self.base@.nodes.contains_key(id) <==> listed.contains(id));
                assert(self.mutation@.added_nodes.contains_key(id) <==> added.contains(id));
            }
            assert(found@ =~= self.present());
        }
        let ids: Vec<NodeId> = found.to_list();
        let ghost order = sorted_keys::<NodeId>(self.present());
        let mut out: Vec<NodeRecord> = Vec::new();
        let mut m: usize = 0;
        while m < ids.len()
            invariant
                m <= ids.len(),
                models(ids@) == order,
                lists_sorted::<NodeId>(order, self.present()),
                out.len() == m,
                forall|k: int| 0 <= k < m ==> (#[trigger] out@[k])@ == self.node(order[k])->0,
            decreases ids.len() - m,
        {
            proof {
                assert(order[m as int] == ids@[m as int]@);
                assert(order.contains(order[m as int]));
                assert(self.present().contains(order[m as int]));
            }
            match self.get_node(&ids[m]) {
                Some(node) => {
                    out.push(node);
                },
                None => {},
            }
            m = m + 1;
        }
        proof {
            assert(models(out@) =~= self.all_nodes());
        }
        out
    }
}

} // verus!
