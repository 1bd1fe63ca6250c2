//! The graph index: which nodes and edges a query has to look at.
use vstd::prelude::*;
use vstd::string::*;

use crate::common::{join3, EdgeId, NodeId};
use crate::ordered::{
    models, replicate_items, sorted_keys, with_unique, without, ItemList, OrderedMap, OrderedSet,
    Replicate,
};
use crate::records::{EdgeModel, EdgeRecord, NodeModel, NodeRecord};
use crate::text;
use crate::vectors::{
    are_initial_spaces, bucket, candidate_total, default_vector_index, hnsw_spaces_with, hnsw_spaces_without, room_for,
    spaces_with, spaces_without, Buckets, ExactVectorIndex, HnswModel, HnswVectorIndex, SpaceModel,
    Spaces, VectorIndexBackendConfig, VectorIndexConfig,
};

verus! {

// ---------------------------------------------------------------------------------------------
// The catalog
// ---------------------------------------------------------------------------------------------

/// The indexes of the database.
#[derive(Debug, Clone, Copy, PartialEq, Eq, Structural)]
pub enum IndexName {
    NodeId,
    UniqueKey,
    Adjacency,
    ReverseAdjacency,
    LabelType,
    Temporal,
    Vector,
}

/// What is known of an index.
#[derive(Debug, Clone, Copy, PartialEq, Eq, Structural)]
pub struct IndexDescriptor {
    pub name: IndexName,
    pub persisted: bool,
    pub rebuildable: bool,
}

/// The list of indexes.
#[derive(Debug, PartialEq, Eq)]
pub struct IndexCatalog {
    indexes: Vec<IndexDescriptor>,
}

/// An index that can be rebuilt from the records.
pub open spec fn rebuildable(name: IndexName, persisted: bool) -> IndexDescriptor {
    IndexDescriptor { name, persisted, rebuildable: true }
}

impl View for IndexCatalog {
    type V = Seq<IndexDescriptor>;

    closed spec fn view(&self) -> Seq<IndexDescriptor> {
        self.indexes@
    }
}

impl IndexCatalog {
    /// The indexes of the first version.
    pub fn v1_defaults() -> (r: Self)
        ensures
            r@ == seq![
                rebuildable(IndexName::NodeId, true),
                rebuildable(IndexName::UniqueKey, true),
                rebuildable(IndexName::Adjacency, true),
                rebuildable(IndexName::ReverseAdjacency, true),
                rebuildable(IndexName::LabelType, true),
                rebuildable(IndexName::Temporal, false),
                rebuildable(IndexName::Vector, false),
            ],
    {
        let mut indexes: Vec<IndexDescriptor> = Vec::new();
        indexes.push(IndexDescriptor { name: IndexName::NodeId, persisted: true, rebuildable: true });
        indexes.push(
            IndexDescriptor { name: IndexName::UniqueKey, persisted: true, rebuildable: true },
        );
        indexes.push(
            IndexDescriptor { name: IndexName::Adjacency, persisted: true, rebuildable: true },
        );
        indexes.push(
            IndexDescriptor {
                name: IndexName::ReverseAdjacency,
                persisted: true,
                rebuildable: true,
            },
        );
        indexes.push(
            IndexDescriptor { name: IndexName::LabelType, persisted: true, rebuildable: true },
        );
        indexes.push(
            IndexDescriptor { name: IndexName::Temporal, persisted: false, rebuildable: true },
        );
        indexes.push(
            IndexDescriptor { name: IndexName::Vector, persisted: false, rebuildable: true },
        );
        IndexCatalog { indexes }
    }

    /// All indexes.
    pub fn all(&self) -> (r: &[IndexDescriptor])
        ensures
            r@ == self@,
    {
        self.indexes.as_slice()
    }
}

/// Which edges of a node are meant.
#[derive(Debug, Clone, Copy, PartialEq, Eq, Structural)]
pub enum EdgeDirection {
    Outgoing,
    Incoming,
    Both,
}

// ---------------------------------------------------------------------------------------------
// The vector part
// ---------------------------------------------------------------------------------------------

/// The vector part of the index.
#[derive(Debug, PartialEq, Eq)]
pub enum VectorIndexState {
    Exact(ExactVectorIndex),
    Hnsw(HnswVectorIndex),
}

/// The model of the vector part.
pub enum VectorModel {
    Exact(Buckets),
    Hnsw(HnswModel),
}

impl View for VectorIndexState {
    type V = VectorModel;

    open spec fn view(&self) -> VectorModel {
        match self {
            VectorIndexState::Exact(index) => VectorModel::Exact(index@),
            VectorIndexState::Hnsw(index) => VectorModel::Hnsw(index@),
        }
    }
}

impl Replicate for VectorIndexState {
    fn replicate(&self) -> (r: Self) {
        match self {
            VectorIndexState::Exact(index) => VectorIndexState::Exact(
                ExactVectorIndex { candidate_ids_by_name: index.candidate_ids_by_name.replicate() },
            ),
            VectorIndexState::Hnsw(index) => VectorIndexState::Hnsw(index.replicate()),
        }
    }
}

/// The spaces of a list of nodes, before any of them is written.
pub open spec fn initial_spaces(nodes: Seq<NodeModel>) -> Spaces {
    choose|spaces: Spaces| are_initial_spaces(spaces, nodes)
}

/// There is only one set of initial spaces.
pub proof fn lemma_initial_spaces(spaces: Spaces, nodes: Seq<NodeModel>)
    requires
        are_initial_spaces(spaces, nodes),
    ensures
        initial_spaces(nodes) == spaces,
{
    let other = initial_spaces(nodes);
    assert(are_initial_spaces(other, nodes));
    assert forall|name: Seq<char>| #[trigger] spaces.contains_key(name) implies other.contains_key(name)
        && spaces[name] == other[name] by {
        assert(other.contains_key(name));
        match (spaces[name].dimension, other[name].dimension) {
            (Some(a), Some(b)) => {
                let i = choose|i: int|
                    0 <= i < nodes.len() && (#[trigger] nodes[i]).vectors.contains_key(name)
                        && nodes[i].vectors[name].len() == a as nat;
                assert(nodes[i].vectors[name].len() == b as nat);
            },
            (Some(a), None) => {
                assert(crate::vectors::has_vector_of(nodes, name, a as nat));
                assert(crate::vectors::vectors_share(nodes, name, a as nat));
            },
            (None, Some(b)) => {
                assert(crate::vectors::has_vector_of(nodes, name, b as nat));
                assert(crate::vectors::vectors_share(nodes, name, b as nat));
            },
            (None, None) => {},
        }
    }
    assert forall|name: Seq<char>| #[trigger] other.contains_key(name) implies spaces.contains_key(
        name,
    ) by {
        assert(crate::vectors::named_candidates(nodes, name).len() > 0);
    }
    assert(spaces =~= other);
}

impl VectorModel {
    /// The vector part of an index with a configuration, before its nodes are written.
    pub open spec fn initial(config: VectorIndexConfig, nodes: Seq<NodeModel>) -> VectorModel {
        match config.backend {
            VectorIndexBackendConfig::Exact => VectorModel::Exact(Map::empty()),
            VectorIndexBackendConfig::Hnsw => VectorModel::Hnsw(
                HnswModel {
                    spaces: initial_spaces(nodes),
                    max_nodes: room_for(nodes.len()) as usize,
                    semantic_top_k: config.semantic_top_k,
                    exact_fallback_threshold: config.exact_fallback_threshold,
                    m: config.hnsw_m,
                    ef_construction: config.hnsw_ef_construction,
                    ef_search: config.hnsw_ef_search,
                },
            ),
        }
    }

    /// The vector part once a node is written; `refused` names the spaces whose graph refused it.
    pub open spec fn with_node(self, node: NodeModel, refused: Set<Seq<char>>) -> VectorModel {
        match self {
            VectorModel::Exact(spaces) => VectorModel::Exact(spaces_with(spaces, node)),
            VectorModel::Hnsw(index) => VectorModel::Hnsw(
                HnswModel { spaces: hnsw_spaces_with(index.spaces, node, refused), ..index },
            ),
        }
    }

    /// The vector part once a node is deleted.
    pub open spec fn without_node(self, id: Seq<char>) -> VectorModel {
        match self {
            VectorModel::Exact(spaces) => VectorModel::Exact(spaces_without(spaces, id)),
            VectorModel::Hnsw(index) => VectorModel::Hnsw(
                HnswModel { spaces: hnsw_spaces_without(index.spaces, id), ..index },
            ),
        }
    }

    /// The vector part once a search graph stands beside a space, or does so no more.
    pub open spec fn with_search_graph(self, name: Seq<char>, present: bool) -> VectorModel {
        match self {
            VectorModel::Exact(spaces) => self,
            VectorModel::Hnsw(index) => VectorModel::Hnsw(
                HnswModel {
                    spaces: if index.spaces.contains_key(name) {
                        index.spaces.insert(
                            name,
                            SpaceModel { runtime: present, ..index.spaces[name] },
                        )
                    } else {
                        index.spaces
                    },
                    ..index
                },
            ),
        }
    }

    /// The candidate lists by vector name.
    pub open spec fn candidates(self) -> Buckets {
        match self {
            VectorModel::Exact(spaces) => spaces,
            VectorModel::Hnsw(index) => index.candidates(),
        }
    }

    /// How many hits a graph search is asked for, if a graph is to be searched.
    pub open spec fn search_limit(
        self,
        query_dimension: nat,
        name: Seq<char>,
        limit: usize,
        top_k_override: Option<usize>,
    ) -> Option<nat> {
        match self {
            VectorModel::Exact(_) => None,
            VectorModel::Hnsw(index) => index.search_limit(
                query_dimension,
                name,
                limit,
                top_k_override,
            ),
        }
    }

    /// The name of the backend.
    pub open spec fn backend_name(self) -> Seq<char> {
        match self {
            VectorModel::Exact(_) => "exact"@,
            VectorModel::Hnsw(_) => "hnsw"@,
        }
    }

    /// Whether every space can answer a query.
    pub open spec fn ready(self) -> bool {
        match self {
            VectorModel::Exact(_) => true,
            VectorModel::Hnsw(index) => index.ready(),
        }
    }

    /// The lengths of the vectors of the spaces that keep one.
    pub open spec fn dimensions(self) -> Map<Seq<char>, usize> {
        match self {
            VectorModel::Exact(_) => Map::empty(),
            VectorModel::Hnsw(index) => index.dimensions(),
        }
    }
}

impl VectorIndexState {
    /// The vector part of an index with a configuration, before its nodes are written.
    pub fn from_config(config: &VectorIndexConfig, nodes: &[NodeRecord]) -> (r: Self)
        ensures
            r@ == VectorModel::initial(*config, models(nodes@)),
    {
        match config.backend {
            VectorIndexBackendConfig::Exact => VectorIndexState::Exact(ExactVectorIndex::new()),
            VectorIndexBackendConfig::Hnsw => {
                let index: HnswVectorIndex = HnswVectorIndex::build(nodes, config);
                proof {
                    lemma_initial_spaces(index@.spaces, models(nodes@));
                }
                VectorIndexState::Hnsw(index)
            },
        }
    }

    /// Writes a node; `refused` names the spaces whose graph refused its vector.
    pub fn upsert_node(&mut self, node: &NodeRecord, refused: &OrderedSet<String>)
        ensures
            final(self)@ == old(self)@.with_node(node@, refused@),
    {
        match self {
            VectorIndexState::Exact(index) => index.upsert_node(node),
            VectorIndexState::Hnsw(index) => index.upsert_node(node, refused),
        }
    }

    /// Deletes a node.
    pub fn delete_node(&mut self, node: &NodeRecord)
        ensures
            final(self)@ == old(self)@.without_node(node@.id),
    {
        match self {
            VectorIndexState::Exact(index) => index.delete_node(node),
            VectorIndexState::Hnsw(index) => index.delete_node(node),
        }
    }

    /// The candidates of a vector name.
    pub fn candidate_ids_iter(&self, vector_name: &str) -> (r: Vec<NodeId>)
        ensures
            models(r@) == bucket(self@.candidates(), vector_name@),
    {
        match self {
            VectorIndexState::Exact(index) => index.candidate_ids_iter(vector_name),
            VectorIndexState::Hnsw(index) => index.candidate_ids_iter(vector_name),
        }
    }

    /// The number of candidates over all names.
    pub fn len(&self) -> (r: usize)
        requires
            candidate_total(self@.candidates()) <= usize::MAX,
        ensures
            r == candidate_total(self@.candidates()),
    {
        match self {
            VectorIndexState::Exact(index) => index.len(),
            VectorIndexState::Hnsw(index) => index.len(),
        }
    }

    /// The number of names with candidates.
    pub fn space_count(&self) -> (r: usize)
        ensures
            r == self@.candidates().dom().len(),
    {
        match self {
            VectorIndexState::Exact(index) => index.space_count(),
            VectorIndexState::Hnsw(index) => {
                proof {
                    assert(index@.candidates().dom() =~= index@.spaces.dom());
                }
                index.space_count()
            },
        }
    }

    /// How many hits a graph search is to be asked for, if a graph is to be searched.
    pub fn search_limit(
        &self,
        query_dimension: usize,
        vector_name: &str,
        limit: usize,
        top_k_override: Option<usize>,
    ) -> (r: Option<usize>)
        ensures
            match r {
                Some(n) => self@.search_limit(
                    query_dimension as nat,
                    vector_name@,
                    limit,
                    top_k_override,
                ) == Some(n as nat),
                None => self@.search_limit(
                    query_dimension as nat,
                    vector_name@,
                    limit,
                    top_k_override,
                ) is None,
            },
    {
        match self {
            VectorIndexState::Exact(_) => None,
            VectorIndexState::Hnsw(index) => index.search_limit(
                query_dimension,
                vector_name,
                limit,
                top_k_override,
            ),
        }
    }

    /// The name of the backend.
    pub fn backend_name(&self) -> (r: &'static str)
        ensures
            r@ == self@.backend_name(),
    {
        match self {
            VectorIndexState::Exact(_) => "exact",
            VectorIndexState::Hnsw(_) => "hnsw",
        }
    }

    /// Whether every space can answer a query.
    pub fn runtime_ready(&self) -> (r: bool)
        ensures
            r == self@.ready(),
    {
        match self {
            VectorIndexState::Exact(_) => true,
            VectorIndexState::Hnsw(index) => index.runtime_ready(),
        }
    }

    /// The lengths of the vectors of the spaces that keep one.
    pub fn dimensions(&self) -> (r: OrderedMap<String, usize>)
        ensures
            r@ == self@.dimensions(),
    {
        match self {
            VectorIndexState::Exact(_) => OrderedMap::new(),
            VectorIndexState::Hnsw(index) => index.dimensions(),
        }
    }
}

// ---------------------------------------------------------------------------------------------
// Buckets
// ---------------------------------------------------------------------------------------------

/// The lists once an item is put under a key.
pub open spec fn bucket_with<K, A>(buckets: Map<K, Seq<A>>, key: K, item: A) -> Map<K, Seq<A>> {
    buckets.insert(key, with_unique(bucket(buckets, key), item))
}

/// The lists once an item is taken from under a key. A key left without items is dropped.
pub open spec fn bucket_without<K, A>(buckets: Map<K, Seq<A>>, key: K, item: A) -> Map<K, Seq<A>> {
    if !buckets.contains_key(key) {
        buckets
    } else if without(buckets[key], item).len() == 0 {
        buckets.remove(key)
    } else {
        buckets.insert(key, without(buckets[key], item))
    }
}

/// Puts an item under a key, unless it is there already.
pub fn push_unique<K: crate::ordered::OrderedKey + Replicate, T: crate::ordered::OrderedKey>(
    index: &mut OrderedMap<K, ItemList<T>>,
    key: &K,
    item: T,
)
    ensures
        final(index)@ == bucket_with(old(index)@, key@, item@),
{
    let mut list: ItemList<T> = match index.remove(key) {
        Some(list) => list,
        None => ItemList::new(),
    };
    list.push_unique(item);
    index.insert(key.replicate(), list);
    proof {
        assert(index@ =~= bucket_with(old(index)@, key@, item@));
    }
}

/// Takes an item from under a key, and the key with it if nothing else is there.
pub fn remove_from_bucket<K: crate::ordered::OrderedKey + Replicate, T: crate::ordered::OrderedKey>(
    index: &mut OrderedMap<K, ItemList<T>>,
    key: &K,
    item: &T,
)
    ensures
        final(index)@ == bucket_without(old(index)@, key@, item@),
{
    match index.remove(key) {
        Some(mut list) => {
            list.remove_all(item);
            proof {
                assert(list@.len() == list.items.len());
            }
            if list.items.len() > 0 {
                index.insert(key.replicate(), list);
            }
            proof {
                assert(index@ =~= bucket_without(old(index)@, key@, item@));
            }
        },
        None => {},
    }
}

/// A way to look edges up.
pub trait EdgeRecordLookup {
    /// The edge of an identifier.
    spec fn edge_at(&self, id: Seq<char>) -> Option<EdgeModel>;

    /// The edge of an identifier.
    fn get_edge(&self, edge_id: &EdgeId) -> (r: Option<&EdgeRecord>)
        ensures
            match r {
                Some(edge) => self.edge_at(edge_id@) == Some(edge@),
                None => self.edge_at(edge_id@) is None,
            },
    ;
}

impl EdgeRecordLookup for OrderedMap<EdgeId, EdgeRecord> {
    open spec fn edge_at(&self, id: Seq<char>) -> Option<EdgeModel> {
        if self@.contains_key(id) {
            Some(self@[id])
        } else {
            None
        }
    }

    fn get_edge(&self, edge_id: &EdgeId) -> (r: Option<&EdgeRecord>) {
        self.get(edge_id)
    }
}

// ---------------------------------------------------------------------------------------------
// The index
// ---------------------------------------------------------------------------------------------

/// The graph index.
#[derive(Debug, PartialEq, Eq)]
pub struct GraphIndex {
    pub node_ids: OrderedSet<NodeId>,
    pub unique_key_index: OrderedMap<String, NodeId>,
    pub adjacency_index: OrderedMap<NodeId, ItemList<EdgeId>>,
    pub reverse_adjacency_index: OrderedMap<NodeId, ItemList<EdgeId>>,
    pub label_type_index: OrderedMap<String, ItemList<NodeId>>,
    pub temporal_index: OrderedMap<i64, ItemList<NodeId>>,
    pub vector_index: VectorIndexState,
}

/// The model of the graph index.
pub struct IndexModel {
    pub node_ids: Set<Seq<char>>,
    pub unique_keys: Map<Seq<char>, Seq<char>>,
    pub adjacency: Buckets,
    pub reverse_adjacency: Buckets,
    pub labels: Buckets,
    pub times: Map<i64, Seq<Seq<char>>>,
    pub vectors: VectorModel,
}

impl View for GraphIndex {
    type V = IndexModel;

    open spec fn view(&self) -> IndexModel {
        IndexModel {
            node_ids: self.node_ids@,
            unique_keys: self.unique_key_index@,
            adjacency: self.adjacency_index@,
            reverse_adjacency: self.reverse_adjacency_index@,
            labels: self.label_type_index@,
            times: self.temporal_index@,
            vectors: self.vector_index@,
        }
    }
}

impl Replicate for GraphIndex {
    fn replicate(&self) -> (r: Self) {
        GraphIndex {
            node_ids: self.node_ids.replicate(),
            unique_key_index: self.unique_key_index.replicate(),
            adjacency_index: self.adjacency_index.replicate(),
            reverse_adjacency_index: self.reverse_adjacency_index.replicate(),
            label_type_index: self.label_type_index.replicate(),
            temporal_index: self.temporal_index.replicate(),
            vector_index: self.vector_index.replicate(),
        }
    }
}

impl Clone for GraphIndex {
    fn clone(&self) -> (r: GraphIndex)
        ensures
            r@ == self@,
    {
        self.replicate()
    }
}

/// The time of a node as a key of the temporal index.
pub open spec fn time_key(node: NodeModel) -> Option<i64> {
    match node.timestamp() {
        Some(t) => Some(t as i64),
        None => None,
    }
}

impl IndexModel {
    /// An index without records.
    pub open spec fn empty(vectors: VectorModel) -> IndexModel {
        IndexModel {
            node_ids: Set::empty(),
            unique_keys: Map::empty(),
            adjacency: Map::empty(),
            reverse_adjacency: Map::empty(),
            labels: Map::empty(),
            times: Map::empty(),
            vectors,
        }
    }

    /// The index once a node is written.
    pub open spec fn with_node(self, node: NodeModel, refused: Set<Seq<char>>) -> IndexModel {
        IndexModel {
            node_ids: self.node_ids.insert(node.id),
            unique_keys: match node.unique_key() {
                Some(key) => self.unique_keys.insert(key, node.id),
                None => self.unique_keys,
            },
            adjacency: self.adjacency,
            reverse_adjacency: self.reverse_adjacency,
            labels: bucket_with(self.labels, node.node_type, node.id),
            times: match time_key(node) {
                Some(t) => bucket_with(self.times, t, node.id),
                None => self.times,
            },
            vectors: self.vectors.with_node(node, refused),
        }
    }

    /// The index once a node is deleted. Its unique key goes only if it still leads to it.
    pub open spec fn without_node(self, node: NodeModel) -> IndexModel {
        IndexModel {
            node_ids: self.node_ids.remove(node.id),
            unique_keys: match node.unique_key() {
                Some(key) => if self.unique_keys.contains_key(key) && self.unique_keys[key]
                    == node.id {
                    self.unique_keys.remove(key)
                } else {
                    self.unique_keys
                },
                None => self.unique_keys,
            },
            adjacency: self.adjacency,
            reverse_adjacency: self.reverse_adjacency,
            labels: bucket_without(self.labels, node.node_type, node.id),
            times: match time_key(node) {
                Some(t) => bucket_without(self.times, t, node.id),
                None => self.times,
            },
            vectors: self.vectors.without_node(node.id),
        }
    }

    /// The index once an edge is written.
    pub open spec fn with_edge(self, edge: EdgeModel) -> IndexModel {
        IndexModel {
            adjacency: bucket_with(self.adjacency, edge.source, edge.id),
            reverse_adjacency: bucket_with(self.reverse_adjacency, edge.target, edge.id),
            ..self
        }
    }

    /// The index once an edge is deleted.
    pub open spec fn without_edge(self, edge: EdgeModel) -> IndexModel {
        IndexModel {
            adjacency: bucket_without(self.adjacency, edge.source, edge.id),
            reverse_adjacency: bucket_without(self.reverse_adjacency, edge.target, edge.id),
            ..self
        }
    }

    /// The index once nodes are written one after the other, with no graph refusing a vector.
    pub open spec fn with_nodes(self, nodes: Seq<NodeModel>) -> IndexModel
        decreases nodes.len(),
    {
        if nodes.len() == 0 {
            self
        } else {
            self.with_nodes(nodes.drop_last()).with_node(nodes.last(), Set::empty())
        }
    }

    /// The index once edges are written one after the other.
    pub open spec fn with_edges(self, edges: Seq<EdgeModel>) -> IndexModel
        decreases edges.len(),
    {
        if edges.len() == 0 {
            self
        } else {
            self.with_edges(edges.drop_last()).with_edge(edges.last())
        }
    }

    /// The index of a list of nodes and a list of edges.
    pub open spec fn rebuilt(
        nodes: Seq<NodeModel>,
        edges: Seq<EdgeModel>,
        config: VectorIndexConfig,
    ) -> IndexModel {
        IndexModel::empty(VectorModel::initial(config, nodes)).with_nodes(nodes).with_edges(edges)
    }

    /// The edges of a node in a direction: the outgoing ones, then the incoming ones.
    pub open spec fn edges_of(self, node: Seq<char>, direction: EdgeDirection) -> Seq<Seq<char>> {
        let outgoing = if direction == EdgeDirection::Incoming {
            Seq::empty()
        } else {
            bucket(self.adjacency, node)
        };
        let incoming = if direction == EdgeDirection::Outgoing {
            Seq::empty()
        } else {
            bucket(self.reverse_adjacency, node)
        };
        outgoing + incoming
    }

    /// The nodes of the times from `from` to `to`, by ascending time, among the given times.
    pub open spec fn ids_at_times(self, times: Seq<i64>, from: i64, to: i64) -> Seq<Seq<char>>
        decreases times.len(),
    {
        if times.len() == 0 {
            Seq::empty()
        } else {
            let before = self.ids_at_times(times.drop_last(), from, to);
            let t = times.last();
            if from <= t <= to {
                before + bucket(self.times, t)
            } else {
                before
            }
        }
    }

    /// The nodes of the times from `from` to `to`, by ascending time.
    pub open spec fn ids_in_range(self, from: i64, to: i64) -> Seq<Seq<char>> {
        self.ids_at_times(sorted_keys::<i64>(self.times.dom()), from, to)
    }

    /// Whether a node may answer a query for a node type. A type that no node has admits all.
    pub open spec fn type_allows(self, node_type: Option<Seq<char>>, id: Seq<char>) -> bool {
        match node_type {
            Some(t) => !self.labels.contains_key(t) || self.labels[t].contains(id),
            None => true,
        }
    }

    /// The nodes to compare with a query vector: what the graph search found, where a graph is
    /// to be searched and found something, and else every candidate that the type admits.
    pub open spec fn semantic_candidates(
        self,
        query_dimension: nat,
        name: Seq<char>,
        node_type: Option<Seq<char>>,
        limit: usize,
        top_k_override: Option<usize>,
        hits: Option<Seq<Seq<char>>>,
    ) -> Seq<Seq<char>> {
        if limit == 0 {
            Seq::empty()
        } else if self.vectors.search_limit(query_dimension, name, limit, top_k_override) is Some
            && hits is Some {
            hits->0
        } else {
            bucket(self.vectors.candidates(), name).filter(
                |id: Seq<char>| self.type_allows(node_type, id),
            )
        }
    }
}

/// Whether an edge has the type asked for, if one is.
pub open spec fn edge_type_matches(edge: Option<EdgeModel>, edge_type: Option<Seq<char>>) -> bool {
    match edge_type {
        Some(t) => match edge {
            Some(e) => e.edge_type == t,
            None => false,
        },
        None => true,
    }
}

/// The models of the items of an optional list.
pub open spec fn optional_models(list: Option<Vec<NodeId>>) -> Option<Seq<Seq<char>>> {
    match list {
        Some(l) => Some(models(l@)),
        None => None,
    }
}

/// What is reported of an index.
#[derive(Debug, PartialEq, Eq)]
pub struct IndexSnapshot {
    pub format_version: u16,
    pub node_count: usize,
    pub unique_key_count: usize,
    pub adjacency_key_count: usize,
    pub reverse_adjacency_key_count: usize,
    pub label_bucket_count: usize,
    pub temporal_bucket_count: usize,
    pub vector_space_count: usize,
    pub vector_candidate_count: usize,
    pub vector_backend: String,
    pub vector_runtime_ready: bool,
    pub vector_dimensions: OrderedMap<String, usize>,
}

impl Default for GraphIndex {
    fn default() -> (r: GraphIndex)
        ensures
            r@ == IndexModel::empty(VectorModel::Exact(Map::empty())),
    {
        GraphIndex::empty(VectorIndexState::Exact(ExactVectorIndex::new()))
    }
}

impl GraphIndex {
    /// An index without records.
    pub fn empty(vector_index: VectorIndexState) -> (r: Self)
        ensures
            r@ == IndexModel::empty(vector_index@),
    {
        GraphIndex {
            node_ids: OrderedSet::new(),
            unique_key_index: OrderedMap::new(),
            adjacency_index: OrderedMap::new(),
            reverse_adjacency_index: OrderedMap::new(),
            label_type_index: OrderedMap::new(),
            temporal_index: OrderedMap::new(),
            vector_index,
        }
    }

    /// The index of the given records with the default vector settings.
    pub fn rebuild(nodes: &[NodeRecord], edges: &[EdgeRecord]) -> (r: Self)
        ensures
            r@ == IndexModel::rebuilt(models(nodes@), models(edges@), default_vector_index()),
    {
        let config: VectorIndexConfig = VectorIndexConfig::default();
        GraphIndex::rebuild_with_config(nodes, edges, &config)
    }

    /// The index of the given records. No search graph stands beside its vector spaces yet.
    pub fn rebuild_with_config(
        nodes: &[NodeRecord],
        edges: &[EdgeRecord],
        config: &VectorIndexConfig,
    ) -> (r: Self)
        ensures
            r@ == IndexModel::rebuilt(models(nodes@), models(edges@), *config),
    {
        let mut index: GraphIndex = GraphIndex::empty(VectorIndexState::from_config(config, nodes));
        let ghost start = index@;
        let ghost all = models(nodes@);
        let ghost every = models(edges@);
        let mut i: usize = 0;
        proof {
            assert(all.take(0).len() == 0);
        }
        while i < nodes.len()
            invariant
                i <= nodes.len(),
                all == models(nodes@),
                index@ == start.with_nodes(all.take(i as int)),
            decreases nodes.len() - i,
        {
            proof {
                assert(all.take(i + 1).drop_last() =~= all.take(i as int));
                assert(all.take(i + 1).last() == nodes@[i as int]@);
            }
            index.upsert_node(&nodes[i]);
            i = i + 1;
        }
        proof {
            assert(all.take(i as int) =~= all);
            assert(every.take(0).len() == 0);
        }
        let ghost middle = index@;
        let mut j: usize = 0;
        while j < edges.len()
            invariant
                j <= edges.len(),
                every == models(edges@),
                index@ == middle.with_edges(every.take(j as int)),
            decreases edges.len() - j,
        {
            proof {
                assert(every.take(j + 1).drop_last() =~= every.take(j as int));
                assert(every.take(j + 1).last() == edges@[j as int]@);
            }
            index.upsert_edge(&edges[j]);
            j = j + 1;
        }
        proof {
            assert(every.take(j as int) =~= every);
        }
        index
    }

    /// Notes whether a search graph now stands beside the space of a name.
    pub fn set_search_graph(&mut self, vector_name: &str, present: bool)
        ensures
            final(self)@ == (IndexModel {
                vectors: old(self)@.vectors.with_search_graph(vector_name@, present),
                ..old(self)@
            }),
    {
        match &mut self.vector_index {
            VectorIndexState::Exact(_) => {},
            VectorIndexState::Hnsw(index) => index.set_runtime(vector_name, present),
        }
    }

    /// Writes a node, with no search graph refusing its vectors.
    pub fn upsert_node(&mut self, node: &NodeRecord)
        ensures
            final(self)@ == old(self)@.with_node(node@, Set::empty()),
    {
        let refused: OrderedSet<String> = OrderedSet::new();
        self.upsert_node_with_refusals(node, &refused);
    }

    /// Writes a node; `refused` names the vector spaces whose search graph refused its vector.
    pub fn upsert_node_with_refusals(&mut self, node: &NodeRecord, refused: &OrderedSet<String>)
        ensures
            final(self)@ == old(self)@.with_node(node@, refused@),
    {
        let _new: bool = self.node_ids.insert(node.id.clone());
        push_unique(&mut self.label_type_index, &node.node_type, node.id.clone());
        match node.timestamp_ms() {
            Some(timestamp_ms) => {
                push_unique(&mut self.temporal_index, &timestamp_ms, node.id.clone());
            },
            None => {},
        }
        self.vector_index.upsert_node(node, refused);
        match node.unique_key() {
            Some(unique_key) => {
                self.unique_key_index.insert(unique_key.to_owned(), node.id.clone());
            },
            None => {},
        }
    }

    /// Deletes a node.
    pub fn delete_node(&mut self, node: &NodeRecord)
        ensures
            final(self)@ == old(self)@.without_node(node@),
    {
        let _was: bool = self.node_ids.remove(&node.id);
        remove_from_bucket(&mut self.label_type_index, &node.node_type, &node.id);
        match node.timestamp_ms() {
            Some(timestamp_ms) => {
                remove_from_bucket(&mut self.temporal_index, &timestamp_ms, &node.id);
            },
            None => {},
        }
        self.vector_index.delete_node(node);
        match node.unique_key() {
            Some(unique_key) => {
                let own: bool = match self.unique_key_index.get_text(unique_key) {
                    Some(id) => crate::ordered::same_key(id, &node.id),
                    None => false,
                };
                if own {
                    let _gone: Option<NodeId> = self.unique_key_index.remove(
                        &unique_key.to_owned(),
                    );
                }
            },
            None => {},
        }
    }

    /// Writes an edge.
    pub fn upsert_edge(&mut self, edge: &EdgeRecord)
        ensures
            final(self)@ == old(self)@.with_edge(edge@),
    {
        push_unique(&mut self.adjacency_index, &edge.source, edge.id.clone());
        push_unique(&mut self.reverse_adjacency_index, &edge.target, edge.id.clone());
    }

    /// Deletes an edge.
    pub fn delete_edge(&mut self, edge: &EdgeRecord)
        ensures
            final(self)@ == old(self)@.without_edge(edge@),
    {
        remove_from_bucket(&mut self.adjacency_index, &edge.source, &edge.id);
        remove_from_bucket(&mut self.reverse_adjacency_index, &edge.target, &edge.id);
    }

    /// Whether a node is in the index.
    pub fn contains_node(&self, node_id: &NodeId) -> (r: bool)
        ensures
            r == self@.node_ids.contains(node_id@),
    {
        self.node_ids.contains(node_id)
    }

    /// The node that a unique key leads to.
    pub fn lookup_unique_key(&self, unique_key: &str) -> (r: Option<&NodeId>)
        ensures
            match r {
                Some(id) => self@.unique_keys.contains_key(unique_key@) && id@
                    == self@.unique_keys[unique_key@],
                None => !self@.unique_keys.contains_key(unique_key@),
            },
    {
        self.unique_key_index.get_text(unique_key)
    }

    /// The nodes of a type.
    pub fn node_ids_by_type(&self, node_type: &str) -> (r: Vec<NodeId>)
        ensures
            models(r@) == bucket(self@.labels, node_type@),
    {
        match self.label_type_index.get_text(node_type) {
            Some(list) => replicate_items(&list.items),
            None => {
                let none: Vec<NodeId> = Vec::new();
                proof {
                    assert(models(none@) =~= Seq::empty());
                }
                none
            },
        }
    }

    /// The edges of a node in a direction, of a type if one is given.
    pub fn edge_ids_for<E: EdgeRecordLookup>(
        &self,
        node_id: &NodeId,
        direction: EdgeDirection,
        edges: &E,
        edge_type: Option<&str>,
    ) -> (r: Vec<EdgeId>)
        ensures
            models(r@) == self@.edges_of(node_id@, direction).filter(
                |id: Seq<char>| edge_type_matches(edges.edge_at(id), text::optional_text(edge_type)),
            ),
    {
        self.edge_ids_for_iter(node_id, direction, edges, edge_type)
    }

    /// The edges of a node in a direction, of a type if one is given: first the outgoing ones,
    /// then the incoming ones, each in the order in which they were written.
    pub fn edge_ids_for_iter<E: EdgeRecordLookup>(
        &self,
        node_id: &NodeId,
        direction: EdgeDirection,
        edges: &E,
        edge_type: Option<&str>,
    ) -> (r: Vec<EdgeId>)
        ensures
            models(r@) == self@.edges_of(node_id@, direction).filter(
                |id: Seq<char>| edge_type_matches(edges.edge_at(id), text::optional_text(edge_type)),
            ),
    {
        let mut all: Vec<EdgeId> = Vec::new();
        proof {
            assert(models(all@) =~= Seq::empty());
        }
        if direction != EdgeDirection::Incoming {
            match self.adjacency_index.get(node_id) {
                Some(list) => {
                    all = replicate_items(&list.items);
                },
                None => {},
            }
        }
        let ghost outgoing = models(all@);
        if direction != EdgeDirection::Outgoing {
            match self.reverse_adjacency_index.get(node_id) {
                Some(list) => {
                    let mut more: Vec<EdgeId> = replicate_items(&list.items);
                    let ghost held = all@;
                    let ghost extra = more@;
                    all.append(&mut more);
                    proof {
                        assert(models(all@) =~= models(held) + models(extra));
                    }
                },
                None => {
                    proof {
                        assert(outgoing + Seq::empty() =~= outgoing);
                    }
                },
            }
        }
        let ghost want = self@.edges_of(node_id@, direction);
        proof {
            assert(models(all@) =~= want);
        }
        let ghost p = |id: Seq<char>|
            edge_type_matches(edges.edge_at(id), text::optional_text(edge_type));
        let mut out: Vec<EdgeId> = Vec::new();
        let mut i: usize = 0;
        proof {
            reveal(Seq::filter);
            assert(want.take(0).filter(p) =~= Seq::empty());
            assert(models(out@) =~= Seq::empty());
        }
        while i < all.len()
            invariant
                i <= all.len(),
                models(all@) == want,
                models(out@) == want.take(i as int).filter(p),
                p == (|id: Seq<char>|
                    edge_type_matches(edges.edge_at(id), text::optional_text(edge_type))),
            decreases all.len() - i,
        {
            let matches: bool = match edge_type {
                Some(value) => match edges.get_edge(&all[i]) {
                    Some(edge) => text::same_text(edge.edge_type.as_str(), value),
                    None => false,
                },
                None => true,
            };
            let ghost held = out@;
            proof {
                crate::ordered::lemma_filter_step(want, p, i as int);
                assert(want[i as int] == all@[i as int]@);
            }
            if matches {
                out.push(all[i].clone());
                proof {
                    assert(models(out@) =~= models(held).push(want[i as int]));
                }
            }
            i = i + 1;
        }
        proof {
            assert(want.take(i as int) =~= want);
        }
        out
    }

    /// The nodes of the times from `from_epoch_ms` to `to_epoch_ms`.
    pub fn node_ids_in_time_range(&self, from_epoch_ms: i64, to_epoch_ms: i64) -> (r: Vec<NodeId>)
        requires
            from_epoch_ms <= to_epoch_ms,
        ensures
            models(r@) == self@.ids_in_range(from_epoch_ms, to_epoch_ms),
    {
        self.node_ids_in_time_range_iter(from_epoch_ms, to_epoch_ms)
    }

    /// The nodes of the times from `from_epoch_ms` to `to_epoch_ms`, by ascending time.
    pub fn node_ids_in_time_range_iter(&self, from_epoch_ms: i64, to_epoch_ms: i64) -> (r: Vec<NodeId>)
        requires
            from_epoch_ms <= to_epoch_ms,
        ensures
            models(r@) == self@.ids_in_range(from_epoch_ms, to_epoch_ms),
    {
        let mut out: Vec<NodeId> = Vec::new();
        let n: usize = self.temporal_index.len();
        let ghost times = self.temporal_index.keys();
        let mut i: usize = 0;
        proof {
            assert(times.take(0).len() == 0);
            assert(models(out@) =~= Seq::empty());
        }
        while i < n
            invariant
                times == self.temporal_index.keys(),
                n == times.len(),
                i <= n,
                models(out@) == self@.ids_at_times(times.take(i as int), from_epoch_ms, to_epoch_ms),
            decreases n - i,
        {
            let t: i64 = *self.temporal_index.key_at(i);
            proof {
                assert(times.take(i + 1).drop_last() =~= times.take(i as int));
                assert(times.take(i + 1).last() == t);
            }
            if from_epoch_ms <= t && t <= to_epoch_ms {
                let list: &ItemList<NodeId> = self.temporal_index.value_at(i);
                let mut more: Vec<NodeId> = replicate_items(&list.items);
                let ghost held = out@;
                let ghost extra = more@;
                out.append(&mut more);
                proof {
                    assert(models(out@) =~= models(held) + models(extra));
                }
            }
            i = i + 1;
        }
        proof {
            assert(times.take(n as int) =~= times);
        }
        out
    }

    /// The nodes with a vector of a name.
    pub fn vector_candidate_ids_iter(&self, vector_name: &str) -> (r: Vec<NodeId>)
        ensures
            models(r@) == bucket(self@.vectors.candidates(), vector_name@),
    {
        self.vector_index.candidate_ids_iter(vector_name)
    }

    /// The nodes to compare with a query vector: see [`IndexModel::semantic_candidates`]. `hits`
    /// is what the graph search found, if one was made and did not fail.
    pub fn semantic_candidate_ids(
        &self,
        query_dimension: usize,
        vector_name: &str,
        node_type: Option<&str>,
        limit: usize,
        top_k_override: Option<usize>,
        hits: &Option<Vec<NodeId>>,
    ) -> (r: Vec<NodeId>)
        ensures
            models(r@) == self@.semantic_candidates(
                query_dimension as nat,
                vector_name@,
                text::optional_text(node_type),
                limit,
                top_k_override,
                optional_models(*hits),
            ),
    {
        if limit == 0 {
            let none: Vec<NodeId> = Vec::new();
            proof {
                assert(models(none@) =~= Seq::empty());
            }
            return none;
        }
        let searched: bool = self.vector_index.search_limit(
            query_dimension,
            vector_name,
            limit,
            top_k_override,
        ).is_some();
        if searched {
            match hits {
                Some(found) => {
                    return replicate_items(found);
                },
                None => {},
            }
        }
        let all: Vec<NodeId> = self.vector_index.candidate_ids_iter(vector_name);
        let allowed: Option<&ItemList<NodeId>> = match node_type {
            Some(t) => self.label_type_index.get_text(t),
            None => None,
        };
        let ghost kind = text::optional_text(node_type);
        let ghost want = models(all@);
        let ghost p = |id: Seq<char>| self@.type_allows(kind, id);
        let mut out: Vec<NodeId> = Vec::new();
        let mut i: usize = 0;
        proof {
            reveal(Seq::filter);
            assert(want.take(0).filter(p) =~= Seq::empty());
            assert(models(out@) =~= Seq::empty());
        }
        while i < all.len()
            invariant
                i <= all.len(),
                want == models(all@),
                models(out@) == want.take(i as int).filter(p),
                p == (|id: Seq<char>| self@.type_allows(kind, id)),
                match allowed {
                    Some(list) => kind is Some && self@.labels.contains_key(kind->0) && list@
                        == self@.labels[kind->0],
                    None => kind is None || !self@.labels.contains_key(kind->0),
                },
            decreases all.len() - i,
        {
            let fits: bool = match allowed {
                Some(list) => list.contains(&all[i]),
                None => true,
            };
            let ghost held = out@;
            proof {
                crate::ordered::lemma_filter_step(want, p, i as int);
                assert(want[i as int] == all@[i as int]@);
            }
            if fits {
                out.push(all[i].clone());
                proof {
                    assert(models(out@) =~= models(held).push(want[i as int]));
                }
            }
            i = i + 1;
        }
        proof {
            assert(want.take(i as int) =~= want);
            assert(p =~= (|id: Seq<char>| self@.type_allows(kind, id)));
        }
        out
    }

    /// What is reported of the index.
    pub fn snapshot(&self) -> (r: IndexSnapshot)
        requires
            candidate_total(self@.vectors.candidates()) <= usize::MAX,
        ensures
            r.format_version == 1,
            r.node_count == self@.node_ids.len(),
            r.unique_key_count == self@.unique_keys.dom().len(),
            r.adjacency_key_count == self@.adjacency.dom().len(),
            r.reverse_adjacency_key_count == self@.reverse_adjacency.dom().len(),
            r.label_bucket_count == self@.labels.dom().len(),
            r.temporal_bucket_count == self@.times.dom().len(),
            r.vector_space_count == self@.vectors.candidates().dom().len(),
            r.vector_candidate_count == candidate_total(self@.vectors.candidates()),
            r.vector_backend@ == self@.vectors.backend_name(),
            r.vector_runtime_ready == self@.vectors.ready(),
            r.vector_dimensions@ == self@.vectors.dimensions(),
    {
        IndexSnapshot {
            format_version: 1,
            node_count: self.node_ids.len(),
            unique_key_count: self.unique_key_index.len(),
            adjacency_key_count: self.adjacency_index.len(),
            reverse_adjacency_key_count: self.reverse_adjacency_index.len(),
            label_bucket_count: self.label_type_index.len(),
            temporal_bucket_count: self.temporal_index.len(),
            vector_space_count: self.vector_index.space_count(),
            vector_candidate_count: self.vector_index.len(),
            vector_backend: self.vector_index.backend_name().to_owned(),
            vector_runtime_ready: self.vector_index.runtime_ready(),
            vector_dimensions: self.vector_index.dimensions(),
        }
    }
}

// ---------------------------------------------------------------------------------------------
// The files of a written vector index
// ---------------------------------------------------------------------------------------------

/// A character as it stands in a file name.
pub open spec fn sanitized_char(c: char) -> char {
    if text::is_ascii_alphanumeric(c) || c == '-' || c == '_' {
        c
    } else {
        '_'
    }
}

/// A vector name as it stands in a file name: other characters than ASCII letters, digits, `-`
/// and `_` become `_`, and the empty name becomes `default`.
pub open spec fn sanitized(name: Seq<char>) -> Seq<char> {
    if name.len() == 0 {
        "default"@
    } else {
        Seq::new(name.len(), |i: int| sanitized_char(name[i]))
    }
}

/// A vector name as it stands in a file name.
pub fn sanitize_vector_name(vector_name: &str) -> (r: String)
    ensures
        r@ == sanitized(vector_name@),
{
    let chars: Vec<char> = text::chars_of(vector_name);
    if chars.len() == 0 {
        return "default".to_owned();
    }
    let mut out: String = String::new();
    let mut i: usize = 0;
    while i < chars.len()
        invariant
            i <= chars.len(),
            out@.len() == i,
            forall|k: int| 0 <= k < i ==> out@[k] == sanitized_char(chars@[k]),
        decreases chars.len() - i,
    {
        let c: char = chars[i];
        if text::ascii_alphanumeric(c) || c == '-' || c == '_' {
            out.push(c);
        } else {
            out.push('_');
        }
        i = i + 1;
    }
    proof {
        assert(out@ =~= sanitized(vector_name@));
    }
    out
}

/// The name of the file of one vector space: the base name with the vector name put before its
/// ending.
pub open spec fn sidecar_name(
    file_name: Seq<char>,
    vector_name: Seq<char>,
    suffix: Seq<char>,
) -> Seq<char> {
    text::without_suffix(file_name, suffix) + "."@ + sanitized(vector_name) + suffix
}

/// The name of the file of one vector space.
pub fn vector_space_sidecar_name(file_name: &str, vector_name: &str, suffix: &str) -> (r: String)
    ensures
        r@ == sidecar_name(file_name@, vector_name@, suffix@),
{
    let prefix: String = text::strip_suffix_or_all(file_name, suffix);
    let name: String = sanitize_vector_name(vector_name);
    let mut out: String = join3(prefix.as_str(), ".", name.as_str());
    out.append(suffix);
    out
}

/// Whether a string begins with another.
pub open spec fn starts_with(s: Seq<char>, prefix: Seq<char>) -> bool {
    prefix.len() <= s.len() && s.subrange(0, prefix.len() as int) == prefix
}

/// Whether a string ends with another.
pub open spec fn ends_with(s: Seq<char>, suffix: Seq<char>) -> bool {
    suffix.len() <= s.len() && s.subrange(s.len() - suffix.len(), s.len() as int) == suffix
}

/// Whether a file belongs to the written index with the given base name: it is the base file, or
/// its name begins like it and has the same ending.
pub open spec fn is_sidecar(file_name: Seq<char>, suffix: Seq<char>, name: Seq<char>) -> bool {
    name == file_name || (starts_with(name, text::without_suffix(file_name, suffix) + "."@)
        && ends_with(name, suffix))
}

/// Whether the characters of `part` stand in `chars` from position `at` on.
fn stands_at(chars: &Vec<char>, part: &Vec<char>, at: usize) -> (r: bool)
    requires
        at + part.len() <= chars.len(),
    ensures
        r == (chars@.subrange(at as int, at + part.len()) == part@),
{
    let mut i: usize = 0;
    while i < part.len()
        invariant
            at + part.len() <= chars.len(),
            i <= part.len(),
            forall|k: int| 0 <= k < i ==> chars@[at + k] == part@[k],
        decreases part.len() - i,
    {
        if chars[at + i] != part[i] {
            proof {
                assert(chars@.subrange(at as int, at + part.len())[i as int] != part@[i as int]);
            }
            return false;
        }
        i = i + 1;
    }
    proof {
        assert(chars@.subrange(at as int, at + part.len()) =~= part@);
    }
    true
}

/// Whether a file belongs to the written index with the given base name.
pub fn is_matching_sidecar(file_name: &str, suffix: &str, name: &str) -> (r: bool)
    ensures
        r == is_sidecar(file_name@, suffix@, name@),
{
    if text::same_text(name, file_name) {
        return true;
    }
    let mut prefix: String = text::strip_suffix_or_all(file_name, suffix);
    prefix.append(".");
    let chars: Vec<char> = text::chars_of(name);
    let head: Vec<char> = text::chars_of(prefix.as_str());
    let tail: Vec<char> = text::chars_of(suffix);
    if head.len() > chars.len() || tail.len() > chars.len() {
        return false;
    }
    stands_at(&chars, &head, 0) && stands_at(&chars, &tail, chars.len() - tail.len())
}

} // verus!
