//! Which nodes can answer a vector query: the candidate lists of the named vector spaces.
//!
//! A space of the approximate backend also keeps whether a search graph stands beside it. The
//! graph itself computes with floating-point numbers and lives outside the library: the functions
//! here say when one is to be built, searched, changed, written or dropped, and take what came of
//! it as an argument.
use vstd::prelude::*;
use vstd::string::*;

use crate::common::NodeId;
use crate::ordered::{
    lists_sorted, sorted_keys, with_unique, without, ItemList, OrderedMap, OrderedSet, Replicate,
};
use crate::records::{NodeModel, NodeRecord};
use crate::text;

verus! {

/// Lists of node identifiers by name.
pub type Buckets = Map<Seq<char>, Seq<Seq<char>>>;

/// The list of a name; a name without a list has the empty one.
pub open spec fn bucket<K, A>(buckets: Map<K, Seq<A>>, key: K) -> Seq<A> {
    if buckets.contains_key(key) {
        buckets[key]
    } else {
        Seq::empty()
    }
}

/// Which backend answers vector queries.
#[derive(Debug, Clone, Copy, PartialEq, Eq, Structural)]
pub enum VectorIndexBackendConfig {
    Exact,
    Hnsw,
}

/// How vectors are indexed.
#[derive(Debug, Clone, Copy, PartialEq, Eq, Structural)]
pub struct VectorIndexConfig {
    pub backend: VectorIndexBackendConfig,
    pub exact_fallback_threshold: usize,
    pub semantic_top_k: usize,
    pub hnsw_m: usize,
    pub hnsw_ef_construction: usize,
    pub hnsw_ef_search: usize,
}

/// The vector settings where none are given.
pub open spec fn default_vector_index() -> VectorIndexConfig {
    VectorIndexConfig {
        backend: VectorIndexBackendConfig::Hnsw,
        exact_fallback_threshold: 1_000,
        semantic_top_k: 100,
        hnsw_m: 16,
        hnsw_ef_construction: 200,
        hnsw_ef_search: 64,
    }
}

impl Default for VectorIndexConfig {
    fn default() -> (r: VectorIndexConfig)
        ensures
            r == default_vector_index(),
    {
        VectorIndexConfig {
            backend: VectorIndexBackendConfig::Hnsw,
            exact_fallback_threshold: 1_000,
            semantic_top_k: 100,
            hnsw_m: 16,
            hnsw_ef_construction: 200,
            hnsw_ef_search: 64,
        }
    }
}

// ---------------------------------------------------------------------------------------------
// The exact backend
// ---------------------------------------------------------------------------------------------

/// Candidate lists by vector name, without search graphs.
#[derive(Debug, PartialEq, Eq)]
pub struct ExactVectorIndex {
    pub candidate_ids_by_name: OrderedMap<String, ItemList<NodeId>>,
}

impl View for ExactVectorIndex {
    type V = Buckets;

    open spec fn view(&self) -> Buckets {
        self.candidate_ids_by_name@
    }
}

/// The candidates of a name once a node is written: the node is among them exactly if it has a
/// vector of that name.
pub open spec fn candidates_with(spaces: Buckets, node: NodeModel, name: Seq<char>) -> Seq<
    Seq<char>,
> {
    if node.vectors.contains_key(name) {
        with_unique(bucket(spaces, name), node.id)
    } else {
        without(bucket(spaces, name), node.id)
    }
}

/// The candidate lists once a node is written. Names without a candidate have no list.
pub open spec fn spaces_with(spaces: Buckets, node: NodeModel) -> Buckets {
    Map::new(
        |name: Seq<char>| candidates_with(spaces, node, name).len() > 0,
        |name: Seq<char>| candidates_with(spaces, node, name),
    )
}

/// The candidate lists once a node is deleted.
pub open spec fn spaces_without(spaces: Buckets, id: Seq<char>) -> Buckets {
    Map::new(
        |name: Seq<char>| without(bucket(spaces, name), id).len() > 0,
        |name: Seq<char>| without(bucket(spaces, name), id),
    )
}

/// The sum of the lengths of the lists under the first `n` names.
pub open spec fn total_len(spaces: Buckets, names: Seq<Seq<char>>, n: nat) -> nat
    decreases n,
{
    if n == 0 {
        0
    } else {
        total_len(spaces, names, (n - 1) as nat) + bucket(spaces, names[n - 1]).len()
    }
}

/// The number of candidates over all names.
pub open spec fn candidate_total(spaces: Buckets) -> nat {
    let names = sorted_keys::<String>(spaces.dom());
    total_len(spaces, names, names.len())
}

pub proof fn lemma_without_empty<A>(item: A)
    ensures
        without(Seq::<A>::empty(), item) == Seq::<A>::empty(),
{
    reveal(Seq::filter);
}

pub proof fn lemma_total_len_monotonic(spaces: Buckets, names: Seq<Seq<char>>, i: nat, n: nat)
    requires
        i <= n,
    ensures
        total_len(spaces, names, i) <= total_len(spaces, names, n),
    decreases n,
{
    if i < n {
        lemma_total_len_monotonic(spaces, names, i, (n - 1) as nat);
    }
}

impl ExactVectorIndex {
    /// An index without candidates.
    pub fn new() -> (r: Self)
        ensures
            r@ == Buckets::empty(),
    {
        ExactVectorIndex { candidate_ids_by_name: OrderedMap::new() }
    }

    /// Writes a node: it becomes a candidate of the names of its vectors, and of no other.
    pub fn upsert_node(&mut self, node: &NodeRecord)
        ensures
            final(self)@ == spaces_with(old(self)@, node@),
    {
        let ghost start = self@;
        let mut out: OrderedMap<String, ItemList<NodeId>> = OrderedMap::new();
        let n: usize = self.candidate_ids_by_name.len();
        let ghost names = self.candidate_ids_by_name.keys();
        let mut i: usize = 0;
        while i < n
            invariant
                start == self@,
                names == self.candidate_ids_by_name.keys(),
                n == names.len(),
                i <= n,
                lists_sorted::<String>(names, start.dom()),
                forall|k: Seq<char>| #[trigger] out@.contains_key(k) <==> ((exists|j: int|
                    0 <= j < i && names[j] == k) && candidates_with(start, node@, k).len() > 0),
                forall|k: Seq<char>| #[trigger] out@.contains_key(k) ==> out@[k] == candidates_with(
                    start,
                    node@,
                    k,
                ),
            decreases n - i,
        {
            let name: String = self.candidate_ids_by_name.key_at(i).clone();
            let mut list: ItemList<NodeId> = self.candidate_ids_by_name.value_at(i).replicate();
            if node.vectors.get(&name).is_some() {
                list.push_unique(node.id.clone());
            } else {
                list.remove_all(&node.id);
            }
            let ghost before = out@;
            let ghost key = name@;
            proof {
                assert(list@ == candidates_with(start, node@, key));
                assert(names[i as int] == key);
            }
            if list.items.len() > 0 {
                out.insert(name, list);
            }
            proof {
                assert forall|k: Seq<char>| #[trigger] out@.contains_key(k) <==> ((exists|j: int|
                    0 <= j < i + 1 && names[j] == k) && candidates_with(start, node@, k).len()
                    > 0) by {
                    if k != key {
                        assert(out@.contains_key(k) == before.contains_key(k));
                        if exists|j: int| 0 <= j < i + 1 && names[j] == k {
                            let j = choose|j: int| 0 <= j < i + 1 && names[j] == k;
                            assert(j < i);
                        }
                    }
                }
            }
            i = i + 1;
        }
        let m: usize = node.vectors.len();
        let ghost named = node.vectors.keys();
        let mut j: usize = 0;
        let ghost kept = out@;
        while j < m
            invariant
                start == self@,
                named == node.vectors.keys(),
                m == named.len(),
                j <= m,
                lists_sorted::<String>(named, node@.vectors.dom()),
                forall|k: Seq<char>| #[trigger] out@.contains_key(k) <==> (kept.contains_key(k) || ((
                exists|l: int| 0 <= l < j && named[l] == k) && !start.contains_key(k))),
                forall|k: Seq<char>| #[trigger] kept.contains_key(k) <==> (start.contains_key(k)
                    && candidates_with(start, node@, k).len() > 0),
                forall|k: Seq<char>| #[trigger] out@.contains_key(k) ==> out@[k] == candidates_with(
                    start,
                    node@,
                    k,
                ),
            decreases m - j,
        {
            let name: String = node.vectors.key_at(j).clone();
            let ghost before = out@;
            let ghost key = name@;
            proof {
                assert(named[j as int] == key);
            }
            if !self.candidate_ids_by_name.contains_key(&name) {
                let mut list: ItemList<NodeId> = ItemList::new();
                list.push_unique(node.id.clone());
                proof {
                    assert(list@ == candidates_with(start, node@, key));
                }
                out.insert(name, list);
            }
            proof {
                assert forall|k: Seq<char>| #[trigger] out@.contains_key(k) <==> (kept.contains_key(
                    k,
                ) || ((exists|l: int| 0 <= l < j + 1 && named[l] == k) && !start.contains_key(k))) by {
                    if k != key {
                        assert(out@.contains_key(k) == before.contains_key(k));
                        if exists|l: int| 0 <= l < j + 1 && named[l] == k {
                            let l = choose|l: int| 0 <= l < j + 1 && named[l] == k;
                            assert(l < j);
                        }
                    } else {
                        assert(kept.contains_key(k) ==> start.contains_key(k));
                    }
                }
            }
            j = j + 1;
        }
        proof {
            let goal = spaces_with(start, node@);
            assert forall|k: Seq<char>| goal.contains_key(k) <==> #[trigger] out@.contains_key(k) by {
                lemma_without_empty(node@.id);
                if goal.contains_key(k) && !start.contains_key(k) {
                    assert(node@.vectors.contains_key(k));
                    assert(named.contains(k));
                    let l = choose|l: int| 0 <= l < named.len() && named[l] == k;
                }
                if out@.contains_key(k) && !kept.contains_key(k) {
                    let l = choose|l: int| 0 <= l < j && named[l] == k;
                    assert(named.contains(k));
                    assert(with_unique(bucket(start, k), node@.id).contains(node@.id)) by {
                        let list = bucket(start, k);
                        if !list.contains(node@.id) {
                            assert(list.push(node@.id)[list.len() as int] == node@.id);
                        }
                    }
                }
            }
            assert(goal =~= out@);
        }
        self.candidate_ids_by_name = out;
    }

    /// Deletes a node: it is no longer a candidate of any name.
    pub fn delete_node(&mut self, node: &NodeRecord)
        ensures
            final(self)@ == spaces_without(old(self)@, node@.id),
    {
        let ghost start = self@;
        let mut out: OrderedMap<String, ItemList<NodeId>> = OrderedMap::new();
        let n: usize = self.candidate_ids_by_name.len();
        let ghost names = self.candidate_ids_by_name.keys();
        let mut i: usize = 0;
        while i < n
            invariant
                start == self@,
                names == self.candidate_ids_by_name.keys(),
                n == names.len(),
                i <= n,
                lists_sorted::<String>(names, start.dom()),
                forall|k: Seq<char>| #[trigger] out@.contains_key(k) <==> ((exists|j: int|
                    0 <= j < i && names[j] == k) && without(bucket(start, k), node@.id).len() > 0),
                forall|k: Seq<char>| #[trigger] out@.contains_key(k) ==> out@[k] == without(
                    bucket(start, k),
                    node@.id,
                ),
            decreases n - i,
        {
            let name: String = self.candidate_ids_by_name.key_at(i).clone();
            let mut list: ItemList<NodeId> = self.candidate_ids_by_name.value_at(i).replicate();
            list.remove_all(&node.id);
            let ghost before = out@;
            let ghost key = name@;
            proof {
                assert(names[i as int] == key);
            }
            if list.items.len() > 0 {
                out.insert(name, list);
            }
            proof {
                assert forall|k: Seq<char>| #[trigger] out@.contains_key(k) <==> ((exists|j: int|
                    0 <= j < i + 1 && names[j] == k) && without(bucket(start, k), node@.id).len()
                    > 0) by {
                    if k != key {
                        assert(out@.contains_key(k) == before.contains_key(k));
                        if exists|j: int| 0 <= j < i + 1 && names[j] == k {
                            let j = choose|j: int| 0 <= j < i + 1 && names[j] == k;
                            assert(j < i);
                        }
                    }
                }
            }
            i = i + 1;
        }
        proof {
            let goal = spaces_without(start, node@.id);
            assert forall|k: Seq<char>| goal.contains_key(k) <==> #[trigger] out@.contains_key(k) by {
                lemma_without_empty(node@.id);
                if goal.contains_key(k) {
                    assert(start.contains_key(k));
                    assert(names.contains(k));
                }
            }
            assert(goal =~= out@);
        }
        self.candidate_ids_by_name = out;
    }

    /// The candidates of a name.
    pub fn candidate_ids_iter(&self, vector_name: &str) -> (r: Vec<NodeId>)
        ensures
            crate::ordered::models(r@) == bucket(self@, vector_name@),
    {
        match self.candidate_ids_by_name.get_text(vector_name) {
            Some(list) => crate::ordered::replicate_items(&list.items),
            None => {
                let none: Vec<NodeId> = Vec::new();
                proof {
                    assert(crate::ordered::models(none@) =~= Seq::empty());
                }
                none
            },
        }
    }

    /// The number of candidates over all names.
    pub fn len(&self) -> (r: usize)
        requires
            candidate_total(self@) <= usize::MAX,
        ensures
            r == candidate_total(self@),
    {
        let n: usize = self.candidate_ids_by_name.len();
        let mut i: usize = 0;
        let mut total: usize = 0;
        while i < n
            invariant
                n == self.candidate_ids_by_name.keys().len(),
                i <= n,
                total == total_len(self@, self.candidate_ids_by_name.keys(), i as nat),
                candidate_total(self@) <= usize::MAX,
            decreases n - i,
        {
            let list: &ItemList<NodeId> = self.candidate_ids_by_name.value_at(i);
            proof {
                lemma_total_len_monotonic(
                    self@,
                    self.candidate_ids_by_name.keys(),
                    (i + 1) as nat,
                    n as nat,
                );
                assert(list@.len() == list.items.len());
            }
            total = total + list.items.len();
            i = i + 1;
        }
        total
    }

    /// The number of names with candidates.
    pub fn space_count(&self) -> (r: usize)
        ensures
            r == self@.dom().len(),
    {
        self.candidate_ids_by_name.len()
    }
}

// ---------------------------------------------------------------------------------------------
// The approximate backend
// ---------------------------------------------------------------------------------------------

/// One named vector space: its candidates, the length of its vectors where they share one, and
/// whether a search graph stands beside it.
#[derive(Debug, PartialEq, Eq)]
pub struct HnswVectorSpace {
    pub candidate_ids: ItemList<NodeId>,
    pub dimension: Option<usize>,
    pub runtime: bool,
}

/// The model of a vector space.
pub struct SpaceModel {
    pub candidate_ids: Seq<Seq<char>>,
    pub dimension: Option<usize>,
    pub runtime: bool,
}

impl View for HnswVectorSpace {
    type V = SpaceModel;

    open spec fn view(&self) -> SpaceModel {
        SpaceModel {
            candidate_ids: self.candidate_ids@,
            dimension: self.dimension,
            runtime: self.runtime,
        }
    }
}

impl Replicate for HnswVectorSpace {
    fn replicate(&self) -> (r: Self) {
        HnswVectorSpace {
            candidate_ids: self.candidate_ids.replicate(),
            dimension: self.dimension,
            runtime: self.runtime,
        }
    }
}

impl SpaceModel {
    /// A space without candidates and without a graph.
    pub open spec fn fresh(dimension: Option<usize>) -> SpaceModel {
        SpaceModel { candidate_ids: Seq::empty(), dimension, runtime: false }
    }

    /// The space once a node is deleted.
    pub open spec fn without_node(self, id: Seq<char>) -> SpaceModel {
        SpaceModel { candidate_ids: without(self.candidate_ids, id), ..self }
    }

    /// The space once a node is written. A node whose vector has the length of the space becomes
    /// a candidate, and the graph goes if it refused the vector. The first vector of a space
    /// without a length sets it. A vector of another length takes the node, and the graph, out. A
    /// node without a vector of that name is taken out.
    pub open spec fn with_node(self, name: Seq<char>, node: NodeModel, refused: bool) -> SpaceModel {
        if !node.vectors.contains_key(name) {
            self.without_node(node.id)
        } else {
            let len = node.vectors[name].len();
            match self.dimension {
                Some(d) => if len == d {
                    SpaceModel {
                        candidate_ids: with_unique(self.candidate_ids, node.id),
                        dimension: self.dimension,
                        runtime: self.runtime && !refused,
                    }
                } else {
                    SpaceModel {
                        candidate_ids: without(self.candidate_ids, node.id),
                        dimension: self.dimension,
                        runtime: false,
                    }
                },
                None => SpaceModel {
                    candidate_ids: with_unique(self.candidate_ids, node.id),
                    dimension: Some(len as usize),
                    runtime: false,
                },
            }
        }
    }
}

impl HnswVectorSpace {
    /// A space without candidates and without a graph.
    pub fn new(dimension: Option<usize>) -> (r: Self)
        ensures
            r@ == SpaceModel::fresh(dimension),
    {
        HnswVectorSpace { candidate_ids: ItemList::new(), dimension, runtime: false }
    }

    /// Writes a node into the space; `refused` says that the graph refused its vector.
    pub fn upsert_node(&mut self, vector_name: &str, node: &NodeRecord, refused: bool)
        ensures
            final(self)@ == old(self)@.with_node(vector_name@, node@, refused),
    {
        match node.vector(vector_name) {
            Some(vector) => {
                let len: usize = vector.len();
                match self.dimension {
                    Some(dimension) => {
                        if len == dimension {
                            self.candidate_ids.push_unique(node.id.clone());
                            if refused {
                                self.runtime = false;
                            }
                        } else {
                            self.candidate_ids.remove_all(&node.id);
                            self.runtime = false;
                        }
                    },
                    None => {
                        self.dimension = Some(len);
                        self.candidate_ids.push_unique(node.id.clone());
                        self.runtime = false;
                    },
                }
            },
            None => {
                self.delete_node(node);
            },
        }
    }

    /// Deletes a node from the space.
    pub fn delete_node(&mut self, node: &NodeRecord)
        ensures
            final(self)@ == old(self)@.without_node(node@.id),
    {
        self.candidate_ids.remove_all(&node.id);
    }
}

/// Vector spaces by name.
pub type Spaces = Map<Seq<char>, SpaceModel>;

/// Named vector spaces and the settings of their search graphs.
#[derive(Debug, PartialEq, Eq)]
pub struct HnswVectorIndex {
    pub spaces: OrderedMap<String, HnswVectorSpace>,
    pub max_nodes: usize,
    pub semantic_top_k: usize,
    pub exact_fallback_threshold: usize,
    pub m: usize,
    pub ef_construction: usize,
    pub ef_search: usize,
}

/// The model of the approximate backend.
pub struct HnswModel {
    pub spaces: Spaces,
    pub max_nodes: usize,
    pub semantic_top_k: usize,
    pub exact_fallback_threshold: usize,
    pub m: usize,
    pub ef_construction: usize,
    pub ef_search: usize,
}

impl View for HnswVectorIndex {
    type V = HnswModel;

    open spec fn view(&self) -> HnswModel {
        HnswModel {
            spaces: self.spaces@,
            max_nodes: self.max_nodes,
            semantic_top_k: self.semantic_top_k,
            exact_fallback_threshold: self.exact_fallback_threshold,
            m: self.m,
            ef_construction: self.ef_construction,
            ef_search: self.ef_search,
        }
    }
}

impl Replicate for HnswVectorIndex {
    fn replicate(&self) -> (r: Self) {
        HnswVectorIndex {
            spaces: self.spaces.replicate(),
            max_nodes: self.max_nodes,
            semantic_top_k: self.semantic_top_k,
            exact_fallback_threshold: self.exact_fallback_threshold,
            m: self.m,
            ef_construction: self.ef_construction,
            ef_search: self.ef_search,
        }
    }
}

/// The space of a name once a node is written; a name that is new gets a space of the length of
/// the node's vector.
pub open spec fn space_after(
    spaces: Spaces,
    node: NodeModel,
    refused: Set<Seq<char>>,
    name: Seq<char>,
) -> SpaceModel {
    if spaces.contains_key(name) {
        spaces[name].with_node(name, node, refused.contains(name))
    } else if node.vectors.contains_key(name) {
        SpaceModel::fresh(Some(node.vectors[name].len() as usize)).with_node(
            name,
            node,
            refused.contains(name),
        )
    } else {
        SpaceModel::fresh(None)
    }
}

/// The spaces once a node is written. Spaces without a candidate are dropped.
pub open spec fn hnsw_spaces_with(
    spaces: Spaces,
    node: NodeModel,
    refused: Set<Seq<char>>,
) -> Spaces {
    Map::new(
        |name: Seq<char>| space_after(spaces, node, refused, name).candidate_ids.len() > 0,
        |name: Seq<char>| space_after(spaces, node, refused, name),
    )
}

/// The spaces once a node is deleted. Spaces without a candidate are dropped.
pub open spec fn hnsw_spaces_without(spaces: Spaces, id: Seq<char>) -> Spaces {
    Map::new(
        |name: Seq<char>|
            spaces.contains_key(name) && spaces[name].without_node(id).candidate_ids.len() > 0,
        |name: Seq<char>| spaces[name].without_node(id),
    )
}

/// The identifiers of the nodes with a vector of a name, each once, in the order of the nodes.
pub open spec fn named_candidates(nodes: Seq<NodeModel>, name: Seq<char>) -> Seq<Seq<char>>
    decreases nodes.len(),
{
    if nodes.len() == 0 {
        Seq::empty()
    } else if nodes.last().vectors.contains_key(name) {
        with_unique(named_candidates(nodes.drop_last(), name), nodes.last().id)
    } else {
        named_candidates(nodes.drop_last(), name)
    }
}

/// Whether some node has a vector of a name with a given length.
pub open spec fn has_vector_of(nodes: Seq<NodeModel>, name: Seq<char>, len: nat) -> bool {
    exists|i: int|
        0 <= i < nodes.len() && (#[trigger] nodes[i]).vectors.contains_key(name)
            && nodes[i].vectors[name].len() == len
}

/// Whether every vector of a name has a given length.
pub open spec fn vectors_share(nodes: Seq<NodeModel>, name: Seq<char>, len: nat) -> bool {
    forall|i: int|
        0 <= i < nodes.len() && (#[trigger] nodes[i]).vectors.contains_key(name)
            ==> nodes[i].vectors[name].len() == len
}

/// The length that all the vectors of a name share, if they do.
pub open spec fn is_shared_dimension(
    nodes: Seq<NodeModel>,
    name: Seq<char>,
    dimension: Option<usize>,
) -> bool {
    match dimension {
        Some(d) => has_vector_of(nodes, name, d as nat) && vectors_share(nodes, name, d as nat),
        None => forall|len: nat|
            has_vector_of(nodes, name, len) ==> !#[trigger] vectors_share(nodes, name, len),
    }
}

/// The spaces of a list of nodes, before any of them is written: one for each name of a vector,
/// with the nodes that have it and the length they share, and without a graph.
pub open spec fn are_initial_spaces(spaces: Spaces, nodes: Seq<NodeModel>) -> bool {
    &&& forall|name: Seq<char>| #[trigger]
        spaces.contains_key(name) <==> named_candidates(nodes, name).len() > 0
    &&& forall|name: Seq<char>| #[trigger]
        spaces.contains_key(name) ==> {
            &&& spaces[name].candidate_ids == named_candidates(nodes, name)
            &&& is_shared_dimension(nodes, name, spaces[name].dimension)
            &&& !spaces[name].runtime
        }
}

proof fn lemma_named_candidates_nonempty(nodes: Seq<NodeModel>, name: Seq<char>)
    ensures
        named_candidates(nodes, name).len() > 0 <==> exists|i: int|
            0 <= i < nodes.len() && (#[trigger] nodes[i]).vectors.contains_key(name),
    decreases nodes.len(),
{
    if nodes.len() > 0 {
        let rest = nodes.drop_last();
        lemma_named_candidates_nonempty(rest, name);
        let list = named_candidates(rest, name);
        if nodes.last().vectors.contains_key(name) {
            assert(nodes[nodes.len() - 1].vectors.contains_key(name));
            if list.contains(nodes.last().id) {
                assert(list.len() > 0);
            }
        } else {
            if list.len() > 0 {
                let i = choose|i: int|
                    0 <= i < rest.len() && (#[trigger] rest[i]).vectors.contains_key(name);
                assert(nodes[i].vectors.contains_key(name));
            }
            if exists|i: int| 0 <= i < nodes.len() && (#[trigger] nodes[i]).vectors.contains_key(name) {
                let i = choose|i: int|
                    0 <= i < nodes.len() && (#[trigger] nodes[i]).vectors.contains_key(name);
                assert(rest[i].vectors.contains_key(name));
            }
        }
    }
}

/// The candidates of a name among the nodes, and the length their vectors share.
fn space_of_name(nodes: &[NodeRecord], name: &str) -> (r: HnswVectorSpace)
    ensures
        r@.candidate_ids == named_candidates(crate::ordered::models(nodes@), name@),
        is_shared_dimension(crate::ordered::models(nodes@), name@, r@.dimension),
        !r@.runtime,
{
    let ghost all = crate::ordered::models(nodes@);
    let mut list: ItemList<NodeId> = ItemList::new();
    let mut dimension: Option<usize> = None;
    let mut mixed: bool = false;
    let mut i: usize = 0;
    proof {
        assert(all.take(0).len() == 0);
    }
    while i < nodes.len()
        invariant
            all == crate::ordered::models(nodes@),
            i <= nodes.len(),
            all.len() == nodes.len(),
            list@ == named_candidates(all.take(i as int), name@),
            !mixed ==> match dimension {
                Some(d) => has_vector_of(all.take(i as int), name@, d as nat) && vectors_share(
                    all.take(i as int),
                    name@,
                    d as nat,
                ),
                None => forall|k: int|
                    0 <= k < i ==> !(#[trigger] all.take(i as int)[k]).vectors.contains_key(name@),
            },
            mixed ==> exists|a: int, b: int|
                0 <= a < i && 0 <= b < i && (#[trigger] all[a]).vectors.contains_key(name@) && (
                #[trigger] all[b]).vectors.contains_key(name@) && all[a].vectors[name@].len()
                    != all[b].vectors[name@].len(),
        decreases nodes.len() - i,
    {
        let ghost prefix = all.take(i as int);
        let ghost next = all.take(i + 1);
        proof {
            assert(next.drop_last() =~= prefix);
            assert(next.last() == nodes@[i as int]@);
            assert(all[i as int] == nodes@[i as int]@);
        }
        match nodes[i].vector(name) {
            Some(vector) => {
                let len: usize = vector.len();
                list.push_unique(nodes[i].id.clone());
                match dimension {
                    Some(d) => {
                        if d != len && !mixed {
                            proof {
                                let a = choose|a: int|
                                    0 <= a < prefix.len() && (
                                    #[trigger] prefix[a]).vectors.contains_key(name@)
                                        && prefix[a].vectors[name@].len() == d as nat;
                                assert(all[a] == prefix[a]);
                                assert(all[a].vectors[name@].len() != all[i as int].vectors[name@].len());
                            }
                            mixed = true;
                        } else if !mixed {
                            proof {
                                assert(next[i as int].vectors[name@].len() == d as nat);
                                assert(has_vector_of(next, name@, d as nat));
                                assert forall|k: int|
                                    0 <= k < next.len() && (
                                    #[trigger] next[k]).vectors.contains_key(
                                        name@,
                                    ) implies next[k].vectors[name@].len() == d as nat by {
                                    if k < i {
                                        assert(prefix[k] == next[k]);
                                    }
                                }
                            }
                        }
                    },
                    None => {
                        if !mixed {
                            dimension = Some(len);
                            proof {
                                assert(next[i as int].vectors[name@].len() == len as nat);
                                assert(has_vector_of(next, name@, len as nat));
                                assert forall|k: int|
                                    0 <= k < next.len() && (
                                    #[trigger] next[k]).vectors.contains_key(
                                        name@,
                                    ) implies next[k].vectors[name@].len() == len as nat by {
                                    if k < i {
                                        assert(prefix[k] == next[k]);
                                    }
                                }
                            }
                        }
                    },
                }
            },
            None => {
                proof {
                    if !mixed {
                        match dimension {
                            Some(d) => {
                                let a = choose|a: int|
                                    0 <= a < prefix.len() && (
                                    #[trigger] prefix[a]).vectors.contains_key(name@)
                                        && prefix[a].vectors[name@].len() == d as nat;
                                assert(next[a] == prefix[a]);
                                assert forall|k: int|
                                    0 <= k < next.len() && (
                                    #[trigger] next[k]).vectors.contains_key(
                                        name@,
                                    ) implies next[k].vectors[name@].len() == d as nat by {
                                    assert(prefix[k] == next[k]);
                                }
                            },
                            None => {
                                assert forall|k: int| 0 <= k < i + 1 implies !(
                                #[trigger] next[k]).vectors.contains_key(name@) by {
                                    if k < i {
                                        assert(prefix[k] == next[k]);
                                    }
                                }
                            },
                        }
                    }
                }
            },
        }
        i = i + 1;
    }
    proof {
        assert(all.take(i as int) =~= all);
        if mixed {
            let (a, b) = choose|a: int, b: int|
                0 <= a < i && 0 <= b < i && (#[trigger] all[a]).vectors.contains_key(name@) && (
                #[trigger] all[b]).vectors.contains_key(name@) && all[a].vectors[name@].len()
                    != all[b].vectors[name@].len();
            assert forall|len: nat| has_vector_of(all, name@, len) implies !#[trigger] vectors_share(
                all,
                name@,
                len,
            ) by {
                if vectors_share(all, name@, len) {
                    assert(all[a].vectors[name@].len() == len);
                    assert(all[b].vectors[name@].len() == len);
                }
            }
        } else if dimension is None {
            assert forall|len: nat| has_vector_of(all, name@, len) implies !#[trigger] vectors_share(
                all,
                name@,
                len,
            ) by {
                let k = choose|k: int|
                    0 <= k < all.len() && (#[trigger] all[k]).vectors.contains_key(name@)
                        && all[k].vectors[name@].len() == len;
                assert(!all.take(i as int)[k].vectors.contains_key(name@));
            }
        }
    }
    HnswVectorSpace {
        candidate_ids: list,
        dimension: if mixed { None } else { dimension },
        runtime: false,
    }
}

/// The names of the vectors of the nodes.
fn vector_names(nodes: &[NodeRecord]) -> (r: OrderedSet<String>)
    ensures
        forall|name: Seq<char>| #[trigger]
            r@.contains(name) <==> exists|i: int|
                0 <= i < nodes.len() && (#[trigger] nodes@[i])@.vectors.contains_key(name),
{
    let mut names: OrderedSet<String> = OrderedSet::new();
    let mut i: usize = 0;
    while i < nodes.len()
        invariant
            i <= nodes.len(),
            forall|name: Seq<char>| #[trigger]
                names@.contains(name) <==> exists|k: int|
                    0 <= k < i && (#[trigger] nodes@[k])@.vectors.contains_key(name),
        decreases nodes.len() - i,
    {
        let node: &NodeRecord = &nodes[i];
        let m: usize = node.vectors.len();
        let ghost own = node.vectors.keys();
        let ghost before = names@;
        let mut j: usize = 0;
        while j < m
            invariant
                own == node.vectors.keys(),
                m == own.len(),
                j <= m,
                forall|name: Seq<char>| #[trigger]
                    names@.contains(name) <==> (before.contains(name) || exists|l: int|
                        0 <= l < j && own[l] == name),
            decreases m - j,
        {
            let name: String = node.vectors.key_at(j).clone();
            let ghost held = names@;
            let ghost key = name@;
            let _new: bool = names.insert(name);
            proof {
                assert forall|n: Seq<char>| #[trigger]
                    names@.contains(n) <==> (before.contains(n) || exists|l: int|
                        0 <= l < j + 1 && own[l] == n) by {
                    if n != key {
                        assert(names@.contains(n) == held.contains(n));
                        if exists|l: int| 0 <= l < j + 1 && own[l] == n {
                            let l = choose|l: int| 0 <= l < j + 1 && own[l] == n;
                            assert(l < j);
                        }
                    } else {
                        assert(own[j as int] == n);
                    }
                }
            }
            j = j + 1;
        }
        proof {
            assert forall|name: Seq<char>| #[trigger]
                names@.contains(name) <==> exists|k: int|
                    0 <= k < i + 1 && (#[trigger] nodes@[k])@.vectors.contains_key(name) by {
                if names@.contains(name) {
                    if before.contains(name) {
                    } else {
                        let l = choose|l: int| 0 <= l < j && own[l] == name;
                        assert(own.contains(name));
                        assert(nodes@[i as int]@.vectors.contains_key(name));
                    }
                }
                if exists|k: int|
                    0 <= k < i + 1 && (#[trigger] nodes@[k])@.vectors.contains_key(name) {
                    let k = choose|k: int|
                        0 <= k < i + 1 && (#[trigger] nodes@[k])@.vectors.contains_key(name);
                    if k == i {
                        assert(own.contains(name));
                    } else {
                        assert(before.contains(name));
                    }
                }
            }
        }
        i = i + 1;
    }
    names
}

/// The spaces of a list of nodes: see [`are_initial_spaces`].
pub fn hnsw_spaces_from_nodes(nodes: &[NodeRecord]) -> (r: OrderedMap<String, HnswVectorSpace>)
    ensures
        are_initial_spaces(r@, crate::ordered::models(nodes@)),
{
    let ghost all = crate::ordered::models(nodes@);
    let names: OrderedSet<String> = vector_names(nodes);
    let mut out: OrderedMap<String, HnswVectorSpace> = OrderedMap::new();
    let n: usize = names.len();
    let ghost listed = names.list();
    let mut i: usize = 0;
    while i < n
        invariant
            all == crate::ordered::models(nodes@),
            listed == names.list(),
            n == listed.len(),
            i <= n,
            forall|name: Seq<char>| #[trigger]
                out@.contains_key(name) <==> exists|l: int| 0 <= l < i && listed[l] == name,
            forall|name: Seq<char>| #[trigger]
                out@.contains_key(name) ==> {
                    &&& out@[name].candidate_ids == named_candidates(all, name)
                    &&& is_shared_dimension(all, name, out@[name].dimension)
                    &&& !out@[name].runtime
                },
        decreases n - i,
    {
        let name: String = names.at(i).clone();
        let ghost key = name@;
        let ghost before = out@;
        let space: HnswVectorSpace = space_of_name(nodes, name.as_str());
        out.insert(name, space);
        proof {
            assert forall|k: Seq<char>| #[trigger]
                out@.contains_key(k) <==> exists|l: int| 0 <= l < i + 1 && listed[l] == k by {
                if k != key {
                    assert(out@.contains_key(k) == before.contains_key(k));
                    if exists|l: int| 0 <= l < i + 1 && listed[l] == k {
                        let l = choose|l: int| 0 <= l < i + 1 && listed[l] == k;
                        assert(l < i);
                    }
                } else {
                    assert(listed[i as int] == k);
                }
            }
        }
        i = i + 1;
    }
    proof {
        assert forall|name: Seq<char>| #[trigger]
            out@.contains_key(name) <==> named_candidates(all, name).len() > 0 by {
            lemma_named_candidates_nonempty(all, name);
            if out@.contains_key(name) {
                let l = choose|l: int| 0 <= l < i && listed[l] == name;
                assert(listed.contains(name));
                assert(names@.contains(name));
                let k = choose|k: int|
                    0 <= k < nodes.len() && (#[trigger] nodes@[k])@.vectors.contains_key(name);
                assert(all[k].vectors.contains_key(name));
            }
            if named_candidates(all, name).len() > 0 {
                let k = choose|k: int|
                    0 <= k < all.len() && (#[trigger] all[k]).vectors.contains_key(name);
                assert(nodes@[k]@.vectors.contains_key(name));
                assert(names@.contains(name));
                assert(listed.contains(name));
            }
        }
    }
    out
}

/// One vector space in the description of a written index.
#[derive(Debug, PartialEq, Eq)]
pub struct PersistedVectorSpaceManifest {
    pub vector_name: String,
    pub vector_candidate_count: usize,
    pub dimension: usize,
}

/// The model of one vector space in the description of a written index.
pub struct SpaceManifestModel {
    pub vector_name: Seq<char>,
    pub vector_candidate_count: usize,
    pub dimension: usize,
}

impl View for PersistedVectorSpaceManifest {
    type V = SpaceManifestModel;

    open spec fn view(&self) -> SpaceManifestModel {
        SpaceManifestModel {
            vector_name: self.vector_name@,
            vector_candidate_count: self.vector_candidate_count,
            dimension: self.dimension,
        }
    }
}

/// The description of a written index.
#[derive(Debug, PartialEq, Eq)]
pub struct PersistedVectorIndexManifest {
    pub format_version: u16,
    pub backend: String,
    pub last_applied_lsn: Option<u64>,
    pub max_nodes: usize,
    pub semantic_top_k: usize,
    pub exact_fallback_threshold: usize,
    pub hnsw_m: usize,
    pub hnsw_ef_construction: usize,
    pub hnsw_ef_search: usize,
    pub vector_spaces: Vec<PersistedVectorSpaceManifest>,
}

impl HnswModel {
    /// The spaces that are written: those with a graph and a length, in the order of their names.
    pub open spec fn written_spaces(self, names: Seq<Seq<char>>) -> Seq<SpaceManifestModel>
        decreases names.len(),
    {
        if names.len() == 0 {
            Seq::empty()
        } else {
            let before = self.written_spaces(names.drop_last());
            let space = self.spaces[names.last()];
            match space.dimension {
                Some(d) => if space.runtime {
                    before.push(
                        SpaceManifestModel {
                            vector_name: names.last(),
                            vector_candidate_count: space.candidate_ids.len() as usize,
                            dimension: d,
                        },
                    )
                } else {
                    before
                },
                None => before,
            }
        }
    }

    /// Whether a description fits this index: the same settings and log position, and for each
    /// space of the description one here with that length and that many candidates.
    pub open spec fn fits(
        self,
        manifest: PersistedVectorIndexManifest,
        expected_last_applied_lsn: Option<u64>,
    ) -> bool {
        &&& manifest.format_version == 1
        &&& manifest.backend@ == "hnsw"@
        &&& manifest.last_applied_lsn == expected_last_applied_lsn
        &&& manifest.max_nodes == self.max_nodes
        &&& manifest.semantic_top_k == self.semantic_top_k
        &&& manifest.exact_fallback_threshold == self.exact_fallback_threshold
        &&& manifest.hnsw_m == self.m
        &&& manifest.hnsw_ef_construction == self.ef_construction
        &&& manifest.hnsw_ef_search == self.ef_search
        &&& manifest.vector_spaces.len() == self.spaces.dom().len()
        &&& forall|i: int|
            0 <= i < manifest.vector_spaces.len() ==> self.has_space(
                (#[trigger] manifest.vector_spaces@[i])@,
            )
    }

    /// Whether a described space is one of this index.
    pub open spec fn has_space(self, described: SpaceManifestModel) -> bool {
        &&& self.spaces.contains_key(described.vector_name)
        &&& self.spaces[described.vector_name].dimension == Some(described.dimension)
        &&& self.spaces[described.vector_name].candidate_ids.len()
            == described.vector_candidate_count
    }

    /// How many hits a graph search is asked for, if the graph of a name is to be searched at
    /// all: the space must have a graph, more candidates than the exact fallback takes, and the
    /// length of the query vector.
    pub open spec fn search_limit(
        self,
        query_dimension: nat,
        name: Seq<char>,
        limit: usize,
        top_k_override: Option<usize>,
    ) -> Option<nat> {
        if self.spaces.contains_key(name) && self.spaces[name].runtime && limit != 0
            && self.spaces[name].candidate_ids.len() > self.exact_fallback_threshold
            && self.spaces[name].dimension is Some && self.spaces[name].dimension->0
            == query_dimension {
            let wanted = match top_k_override {
                Some(k) => k,
                None => self.semantic_top_k,
            };
            let most = if limit > wanted {
                limit
            } else {
                wanted
            };
            let candidates = self.spaces[name].candidate_ids.len();
            Some(
                if most as nat <= candidates {
                    most as nat
                } else {
                    candidates
                },
            )
        } else {
            None
        }
    }

    /// Whether a graph is to be built for a name: the space has none yet, has a length other than
    /// zero and more candidates than the exact fallback takes, and no node has a vector of that
    /// name with another length.
    pub open spec fn wants_runtime(self, name: Seq<char>, nodes: Seq<NodeModel>) -> bool {
        &&& self.spaces.contains_key(name)
        &&& !self.spaces[name].runtime
        &&& self.spaces[name].dimension is Some
        &&& self.spaces[name].dimension->0 != 0
        &&& self.spaces[name].candidate_ids.len() > self.exact_fallback_threshold
        &&& vectors_share(nodes, name, self.spaces[name].dimension->0 as nat)
    }

    /// Whether every space can answer a query: it has a graph, or so few candidates that none is
    /// needed.
    pub open spec fn ready(self) -> bool {
        forall|name: Seq<char>| #[trigger]
            self.spaces.contains_key(name) ==> self.spaces[name].runtime
                || self.spaces[name].candidate_ids.len() <= self.exact_fallback_threshold
    }

    /// The lengths of the vectors of the spaces that have one.
    pub open spec fn dimensions(self) -> Map<Seq<char>, usize> {
        Map::new(
            |name: Seq<char>| self.spaces.contains_key(name) && self.spaces[name].dimension is Some,
            |name: Seq<char>| self.spaces[name].dimension->0,
        )
    }

    /// The candidate lists of the spaces.
    pub open spec fn candidates(self) -> Buckets {
        Map::new(
            |name: Seq<char>| self.spaces.contains_key(name),
            |name: Seq<char>| self.spaces[name].candidate_ids,
        )
    }
}

/// How many nodes a graph is made for: the given ones and room for more.
pub open spec fn room_for(nodes: nat) -> nat {
    if nodes + 1_024 <= usize::MAX {
        nodes + 1_024
    } else {
        usize::MAX as nat
    }
}

impl HnswVectorIndex {
    /// The spaces of the nodes with the settings of the configuration, without graphs.
    pub fn build(nodes: &[NodeRecord], config: &VectorIndexConfig) -> (r: Self)
        ensures
            are_initial_spaces(r@.spaces, crate::ordered::models(nodes@)),
            r@.max_nodes == room_for(nodes@.len()),
            r@.semantic_top_k == config.semantic_top_k,
            r@.exact_fallback_threshold == config.exact_fallback_threshold,
            r@.m == config.hnsw_m,
            r@.ef_construction == config.hnsw_ef_construction,
            r@.ef_search == config.hnsw_ef_search,
    {
        let room: usize = nodes.len().saturating_add(1_024);
        HnswVectorIndex {
            spaces: hnsw_spaces_from_nodes(nodes),
            max_nodes: room,
            semantic_top_k: config.semantic_top_k,
            exact_fallback_threshold: config.exact_fallback_threshold,
            m: config.hnsw_m,
            ef_construction: config.hnsw_ef_construction,
            ef_search: config.hnsw_ef_search,
        }
    }

    /// Writes a node into the spaces; `refused` names the spaces whose graph refused its vector.
    pub fn upsert_node(&mut self, node: &NodeRecord, refused: &OrderedSet<String>)
        ensures
            final(self)@ == (HnswModel {
                spaces: hnsw_spaces_with(old(self)@.spaces, node@, refused@),
                ..old(self)@
            }),
    {
        let ghost start = self.spaces@;
        let ghost goal = hnsw_spaces_with(start, node@, refused@);
        let mut out: OrderedMap<String, HnswVectorSpace> = OrderedMap::new();
        let n: usize = self.spaces.len();
        let ghost names = self.spaces.keys();
        let mut i: usize = 0;
        while i < n
            invariant
                start == self.spaces@,
                names == self.spaces.keys(),
                n == names.len(),
                i <= n,
                lists_sorted::<String>(names, start.dom()),
                forall|k: Seq<char>| #[trigger] out@.contains_key(k) <==> ((exists|j: int|
                    0 <= j < i && names[j] == k) && space_after(
                    start,
                    node@,
                    refused@,
                    k,
                ).candidate_ids.len() > 0),
                forall|k: Seq<char>| #[trigger] out@.contains_key(k) ==> out@[k] == space_after(
                    start,
                    node@,
                    refused@,
                    k,
                ),
            decreases n - i,
        {
            let name: String = self.spaces.key_at(i).clone();
            let mut space: HnswVectorSpace = self.spaces.value_at(i).replicate();
            let refusal: bool = refused.contains(&name);
            space.upsert_node(name.as_str(), node, refusal);
            let ghost before = out@;
            let ghost key = name@;
            proof {
                assert(names[i as int] == key);
                assert(space@ == space_after(start, node@, refused@, key));
                assert(space@.candidate_ids.len() == space.candidate_ids.items.len());
            }
            if space.candidate_ids.items.len() > 0 {
                out.insert(name, space);
            }
            proof {
                assert forall|k: Seq<char>| #[trigger] out@.contains_key(k) <==> ((exists|j: int|
                    0 <= j < i + 1 && names[j] == k) && space_after(
                    start,
                    node@,
                    refused@,
                    k,
                ).candidate_ids.len() > 0) by {
                    if k != key {
                        assert(out@.contains_key(k) == before.contains_key(k));
                        if exists|j: int| 0 <= j < i + 1 && names[j] == k {
                            let j = choose|j: int| 0 <= j < i + 1 && names[j] == k;
                            assert(j < i);
                        }
                    }
                }
            }
            i = i + 1;
        }
        let m: usize = node.vectors.len();
        let ghost named = node.vectors.keys();
        let ghost kept = out@;
        let mut j: usize = 0;
        proof {
            assert forall|k: Seq<char>| #[trigger] kept.contains_key(k) <==> (start.contains_key(k)
                && space_after(start, node@, refused@, k).candidate_ids.len() > 0) by {
                if start.contains_key(k) {
                    assert(names.contains(k));
                }
                if kept.contains_key(k) {
                    let l = choose|l: int| 0 <= l < i && names[l] == k;
                    assert(names.contains(k));
                }
            }
        }
        while j < m
            invariant
                start == self.spaces@,
                named == node.vectors.keys(),
                m == named.len(),
                j <= m,
                lists_sorted::<String>(named, node@.vectors.dom()),
                forall|k: Seq<char>| #[trigger] out@.contains_key(k) <==> (kept.contains_key(k) || ((
                exists|l: int| 0 <= l < j && named[l] == k) && !start.contains_key(k))),
                forall|k: Seq<char>| #[trigger] kept.contains_key(k) <==> (start.contains_key(k)
                    && space_after(start, node@, refused@, k).candidate_ids.len() > 0),
                forall|k: Seq<char>| #[trigger] out@.contains_key(k) ==> out@[k] == space_after(
                    start,
                    node@,
                    refused@,
                    k,
                ) && out@[k].candidate_ids.len() > 0,
            decreases m - j,
        {
            let name: String = node.vectors.key_at(j).clone();
            let len: usize = node.vectors.value_at(j).len();
            let ghost before = out@;
            let ghost key = name@;
            proof {
                assert(named[j as int] == key);
            }
            if !self.spaces.contains_key(&name) {
                let mut space: HnswVectorSpace = HnswVectorSpace::new(Some(len));
                let refusal: bool = refused.contains(&name);
                space.upsert_node(name.as_str(), node, refusal);
                proof {
                    assert(space@ == space_after(start, node@, refused@, key));
                }
                out.insert(name, space);
            }
            proof {
                assert forall|k: Seq<char>| #[trigger] out@.contains_key(k) <==> (kept.contains_key(
                    k,
                ) || ((exists|l: int| 0 <= l < j + 1 && named[l] == k) && !start.contains_key(k))) by {
                    if k != key {
                        assert(out@.contains_key(k) == before.contains_key(k));
                        if exists|l: int| 0 <= l < j + 1 && named[l] == k {
                            let l = choose|l: int| 0 <= l < j + 1 && named[l] == k;
                            assert(l < j);
                        }
                    } else {
                        assert(kept.contains_key(k) ==> start.contains_key(k));
                    }
                }
            }
            j = j + 1;
        }
        proof {
            assert forall|k: Seq<char>| goal.contains_key(k) <==> #[trigger] out@.contains_key(k) by {
                if goal.contains_key(k) && !start.contains_key(k) {
                    assert(node@.vectors.contains_key(k));
                    assert(named.contains(k));
                    let l = choose|l: int| 0 <= l < named.len() && named[l] == k;
                }
                if out@.contains_key(k) && !kept.contains_key(k) {
                    let l = choose|l: int| 0 <= l < j && named[l] == k;
                }
            }
            assert(goal =~= out@);
        }
        self.spaces = out;
    }

    /// Deletes a node from the spaces.
    pub fn delete_node(&mut self, node: &NodeRecord)
        ensures
            final(self)@ == (HnswModel {
                spaces: hnsw_spaces_without(old(self)@.spaces, node@.id),
                ..old(self)@
            }),
    {
        let ghost start = self.spaces@;
        let ghost goal = hnsw_spaces_without(start, node@.id);
        let mut out: OrderedMap<String, HnswVectorSpace> = OrderedMap::new();
        let n: usize = self.spaces.len();
        let ghost names = self.spaces.keys();
        let mut i: usize = 0;
        while i < n
            invariant
                start == self.spaces@,
                names == self.spaces.keys(),
                n == names.len(),
                i <= n,
                lists_sorted::<String>(names, start.dom()),
                forall|k: Seq<char>| #[trigger] out@.contains_key(k) <==> ((exists|j: int|
                    0 <= j < i && names[j] == k) && start[k].without_node(
                    node@.id,
                ).candidate_ids.len() > 0),
                forall|k: Seq<char>| #[trigger] out@.contains_key(k) ==> out@[k]
                    == start[k].without_node(node@.id),
            decreases n - i,
        {
            let name: String = self.spaces.key_at(i).clone();
            let mut space: HnswVectorSpace = self.spaces.value_at(i).replicate();
            space.delete_node(node);
            let ghost before = out@;
            let ghost key = name@;
            proof {
                assert(names[i as int] == key);
                assert(space@.candidate_ids.len() == space.candidate_ids.items.len());
            }
            if space.candidate_ids.items.len() > 0 {
                out.insert(name, space);
            }
            proof {
                assert forall|k: Seq<char>| #[trigger] out@.contains_key(k) <==> ((exists|j: int|
                    0 <= j < i + 1 && names[j] == k) && start[k].without_node(
                    node@.id,
                ).candidate_ids.len() > 0) by {
                    if k != key {
                        assert(out@.contains_key(k) == before.contains_key(k));
                        if exists|j: int| 0 <= j < i + 1 && names[j] == k {
                            let j = choose|j: int| 0 <= j < i + 1 && names[j] == k;
                            assert(j < i);
                        }
                    }
                }
            }
            i = i + 1;
        }
        proof {
            assert forall|k: Seq<char>| goal.contains_key(k) <==> #[trigger] out@.contains_key(k) by {
                if goal.contains_key(k) {
                    assert(names.contains(k));
                }
                if out@.contains_key(k) {
                    let l = choose|l: int| 0 <= l < i && names[l] == k;
                    assert(names.contains(k));
                }
            }
            assert(goal =~= out@);
        }
        self.spaces = out;
    }

    /// The candidates of a name.
    pub fn candidate_ids_iter(&self, vector_name: &str) -> (r: Vec<NodeId>)
        ensures
            crate::ordered::models(r@) == bucket(self@.candidates(), vector_name@),
    {
        match self.spaces.get_text(vector_name) {
            Some(space) => crate::ordered::replicate_items(&space.candidate_ids.items),
            None => {
                let none: Vec<NodeId> = Vec::new();
                proof {
                    assert(crate::ordered::models(none@) =~= Seq::empty());
                }
                none
            },
        }
    }

    /// The number of candidates over all spaces.
    pub fn len(&self) -> (r: usize)
        requires
            candidate_total(self@.candidates()) <= usize::MAX,
        ensures
            r == candidate_total(self@.candidates()),
    {
        let ghost lists = self@.candidates();
        let n: usize = self.spaces.len();
        let ghost names = self.spaces.keys();
        proof {
            assert(lists.dom() =~= self.spaces@.dom());
        }
        let mut i: usize = 0;
        let mut total: usize = 0;
        while i < n
            invariant
                lists == self@.candidates(),
                names == self.spaces.keys(),
                names == sorted_keys::<String>(lists.dom()),
                n == names.len(),
                i <= n,
                total == total_len(lists, names, i as nat),
                candidate_total(lists) <= usize::MAX,
            decreases n - i,
        {
            let space: &HnswVectorSpace = self.spaces.value_at(i);
            proof {
                lemma_total_len_monotonic(lists, names, (i + 1) as nat, n as nat);
                assert(space@.candidate_ids.len() == space.candidate_ids.items.len());
                assert(bucket(lists, names[i as int]) == space@.candidate_ids);
            }
            total = total + space.candidate_ids.items.len();
            i = i + 1;
        }
        total
    }

    /// The number of spaces.
    pub fn space_count(&self) -> (r: usize)
        ensures
            r == self@.spaces.dom().len(),
    {
        self.spaces.len()
    }

    /// How many hits a graph search is to be asked for, if the graph of a name is to be searched.
    pub fn search_limit(
        &self,
        query_dimension: usize,
        vector_name: &str,
        limit: usize,
        top_k_override: Option<usize>,
    ) -> (r: Option<usize>)
        ensures
            match r {
                Some(n) => self@.search_limit(
                    query_dimension as nat,
                    vector_name@,
                    limit,
                    top_k_override,
                ) == Some(n as nat),
                None => self@.search_limit(
                    query_dimension as nat,
                    vector_name@,
                    limit,
                    top_k_override,
                ) is None,
            },
    {
        match self.spaces.get_text(vector_name) {
            Some(space) => {
                proof {
                    assert(space@.candidate_ids.len() == space.candidate_ids.items.len());
                }
                let candidates: usize = space.candidate_ids.items.len();
                match space.dimension {
                    Some(dimension) => {
                        if !space.runtime || limit == 0 || candidates
                            <= self.exact_fallback_threshold || query_dimension != dimension {
                            return None;
                        }
                        let wanted: usize = match top_k_override {
                            Some(k) => k,
                            None => self.semantic_top_k,
                        };
                        let most: usize = if limit > wanted { limit } else { wanted };
                        Some(if most <= candidates { most } else { candidates })
                    },
                    None => None,
                }
            },
            None => None,
        }
    }

    /// Whether a graph is to be built for a name over the given nodes.
    pub fn wants_runtime(&self, vector_name: &str, nodes: &[NodeRecord]) -> (r: bool)
        ensures
            r == self@.wants_runtime(vector_name@, crate::ordered::models(nodes@)),
    {
        let ghost all = crate::ordered::models(nodes@);
        match self.spaces.get_text(vector_name) {
            Some(space) => {
                proof {
                    assert(space@.candidate_ids.len() == space.candidate_ids.items.len());
                }
                match space.dimension {
                    Some(dimension) => {
                        if space.runtime || dimension == 0 || space.candidate_ids.items.len()
                            <= self.exact_fallback_threshold {
                            return false;
                        }
                        let mut i: usize = 0;
                        while i < nodes.len()
                            invariant
                                i <= nodes.len(),
                                all == crate::ordered::models(nodes@),
                                forall|k: int|
                                    0 <= k < i && (#[trigger] all[k]).vectors.contains_key(
                                        vector_name@,
                                    ) ==> all[k].vectors[vector_name@].len() == dimension,
                                self.spaces@.contains_key(vector_name@),
                                space@ == self.spaces@[vector_name@],
                                space.dimension == Some(dimension),
                            decreases nodes.len() - i,
                        {
                            proof {
                                assert(all[i as int] == nodes@[i as int]@);
                            }
                            match nodes[i].vector(vector_name) {
                                Some(vector) => {
                                    if vector.len() != dimension {
                                        return false;
                                    }
                                },
                                None => {},
                            }
                            i = i + 1;
                        }
                        true
                    },
                    None => false,
                }
            },
            None => false,
        }
    }

    /// Notes whether a graph now stands beside the space of a name.
    pub fn set_runtime(&mut self, vector_name: &str, present: bool)
        ensures
            final(self)@ == (HnswModel {
                spaces: if old(self)@.spaces.contains_key(vector_name@) {
                    old(self)@.spaces.insert(
                        vector_name@,
                        SpaceModel { runtime: present, ..old(self)@.spaces[vector_name@] },
                    )
                } else {
                    old(self)@.spaces
                },
                ..old(self)@
            }),
    {
        let name: String = vector_name.to_owned();
        match self.spaces.remove(&name) {
            Some(mut space) => {
                space.runtime = present;
                let ghost start = old(self)@.spaces;
                self.spaces.insert(name, space);
                proof {
                    assert(self.spaces@ =~= start.insert(
                        vector_name@,
                        SpaceModel { runtime: present, ..start[vector_name@] },
                    ));
                }
            },
            None => {},
        }
    }

    /// The description under which the index is written, if any space is written at all.
    pub fn persisted_manifest(&self, last_applied_lsn: Option<u64>) -> (r: Option<
        PersistedVectorIndexManifest,
    >)
        ensures
            ({
                let written = self@.written_spaces(sorted_keys::<String>(self@.spaces.dom()));
                match r {
                    Some(manifest) => {
                        &&& written.len() > 0
                        &&& manifest.format_version == 1
                        &&& manifest.backend@ == "hnsw"@
                        &&& manifest.last_applied_lsn == last_applied_lsn
                        &&& manifest.max_nodes == self@.max_nodes
                        &&& manifest.semantic_top_k == self@.semantic_top_k
                        &&& manifest.exact_fallback_threshold == self@.exact_fallback_threshold
                        &&& manifest.hnsw_m == self@.m
                        &&& manifest.hnsw_ef_construction == self@.ef_construction
                        &&& manifest.hnsw_ef_search == self@.ef_search
                        &&& crate::ordered::models(manifest.vector_spaces@) == written
                    },
                    None => written.len() == 0,
                }
            }),
    {
        let n: usize = self.spaces.len();
        let ghost names = self.spaces.keys();
        let mut vector_spaces: Vec<PersistedVectorSpaceManifest> = Vec::new();
        let mut i: usize = 0;
        proof {
            assert(names.take(0).len() == 0);
            assert(crate::ordered::models(vector_spaces@) =~= Seq::empty());
        }
        while i < n
            invariant
                names == self.spaces.keys(),
                n == names.len(),
                i <= n,
                crate::ordered::models(vector_spaces@) == self@.written_spaces(names.take(i as int)),
            decreases n - i,
        {
            let name: &String = self.spaces.key_at(i);
            let space: &HnswVectorSpace = self.spaces.value_at(i);
            let ghost before = vector_spaces@;
            proof {
                let next = names.take(i + 1);
                assert(next.drop_last() =~= names.take(i as int));
                assert(next.last() == names[i as int]);
                assert(space@.candidate_ids.len() == space.candidate_ids.items.len());
            }
            match space.dimension {
                Some(dimension) => {
                    if space.runtime {
                        vector_spaces.push(
                            PersistedVectorSpaceManifest {
                                vector_name: name.clone(),
                                vector_candidate_count: space.candidate_ids.items.len(),
                                dimension,
                            },
                        );
                        proof {
                            assert(crate::ordered::models(vector_spaces@)
                                =~= crate::ordered::models(before).push(vector_spaces@.last()@));
                        }
                    }
                },
                None => {},
            }
            i = i + 1;
        }
        proof {
            assert(names.take(n as int) =~= names);
        }
        if vector_spaces.len() == 0 {
            return None;
        }
        Some(
            PersistedVectorIndexManifest {
                format_version: 1,
                backend: "hnsw".to_owned(),
                last_applied_lsn,
                max_nodes: self.max_nodes,
                semantic_top_k: self.semantic_top_k,
                exact_fallback_threshold: self.exact_fallback_threshold,
                hnsw_m: self.m,
                hnsw_ef_construction: self.ef_construction,
                hnsw_ef_search: self.ef_search,
                vector_spaces,
            },
        )
    }

    /// Whether a description fits this index: see [`HnswModel::fits`].
    pub fn matches_manifest(
        &self,
        manifest: &PersistedVectorIndexManifest,
        expected_last_applied_lsn: Option<u64>,
    ) -> (r: bool)
        ensures
            r == self@.fits(*manifest, expected_last_applied_lsn),
    {
        let same_lsn: bool = match (manifest.last_applied_lsn, expected_last_applied_lsn) {
            (Some(a), Some(b)) => a == b,
            (None, None) => true,
            _ => false,
        };
        if !(manifest.format_version == 1 && text::same_text(manifest.backend.as_str(), "hnsw")
            && same_lsn && manifest.max_nodes == self.max_nodes && manifest.semantic_top_k
            == self.semantic_top_k && manifest.exact_fallback_threshold
            == self.exact_fallback_threshold && manifest.hnsw_m == self.m
            && manifest.hnsw_ef_construction == self.ef_construction && manifest.hnsw_ef_search
            == self.ef_search && manifest.vector_spaces.len() == self.spaces.len()) {
            return false;
        }
        let mut i: usize = 0;
        while i < manifest.vector_spaces.len()
            invariant
                i <= manifest.vector_spaces.len(),
                forall|k: int|
                    0 <= k < i ==> self@.has_space((#[trigger] manifest.vector_spaces@[k])@),
            decreases manifest.vector_spaces.len() - i,
        {
            let described: &PersistedVectorSpaceManifest = &manifest.vector_spaces[i];
            let fits: bool = match self.spaces.get(&described.vector_name) {
                Some(space) => {
                    proof {
                        assert(space@.candidate_ids.len() == space.candidate_ids.items.len());
                    }
                    match space.dimension {
                        Some(dimension) => dimension == described.dimension
                            && described.vector_candidate_count == space.candidate_ids.items.len(),
                        None => false,
                    }
                },
                None => false,
            };
            if !fits {
                proof {
                    assert(!self@.has_space(manifest.vector_spaces@[i as int]@));
                }
                return false;
            }
            i = i + 1;
        }
        true
    }

    /// Whether every space can answer a query.
    pub fn runtime_ready(&self) -> (r: bool)
        ensures
            r == self@.ready(),
    {
        let n: usize = self.spaces.len();
        let ghost names = self.spaces.keys();
        let mut i: usize = 0;
        while i < n
            invariant
                names == self.spaces.keys(),
                n == names.len(),
                i <= n,
                lists_sorted::<String>(names, self.spaces@.dom()),
                forall|k: int|
                    0 <= k < i ==> self.spaces@[#[trigger] names[k]].runtime
                        || self.spaces@[names[k]].candidate_ids.len()
                        <= self.exact_fallback_threshold,
            decreases n - i,
        {
            let space: &HnswVectorSpace = self.spaces.value_at(i);
            proof {
                assert(space@.candidate_ids.len() == space.candidate_ids.items.len());
            }
            if !(space.runtime || space.candidate_ids.items.len() <= self.exact_fallback_threshold) {
                proof {
                    assert(self@.spaces.contains_key(names[i as int]));
                }
                return false;
            }
            i = i + 1;
        }
        proof {
            assert forall|name: Seq<char>| #[trigger]
                self@.spaces.contains_key(name) implies self@.spaces[name].runtime
                || self@.spaces[name].candidate_ids.len() <= self@.exact_fallback_threshold by {
                assert(names.contains(name));
            }
        }
        true
    }

    /// The lengths of the vectors of the spaces that have one.
    pub fn dimensions(&self) -> (r: OrderedMap<String, usize>)
        ensures
            r@ == self@.dimensions(),
    {
        let n: usize = self.spaces.len();
        let ghost names = self.spaces.keys();
        let mut out: OrderedMap<String, usize> = OrderedMap::new();
        let mut i: usize = 0;
        while i < n
            invariant
                names == self.spaces.keys(),
                n == names.len(),
                i <= n,
                lists_sorted::<String>(names, self.spaces@.dom()),
                forall|k: Seq<char>| #[trigger] out@.contains_key(k) <==> ((exists|j: int|
                    0 <= j < i && names[j] == k) && self.spaces@[k].dimension is Some),
                forall|k: Seq<char>| #[trigger] out@.contains_key(k) ==> Some(out@[k])
                    == self.spaces@[k].dimension,
            decreases n - i,
        {
            let name: String = self.spaces.key_at(i).clone();
            let ghost key = name@;
            let ghost before = out@;
            proof {
                assert(names[i as int] == key);
            }
            match self.spaces.value_at(i).dimension {
                Some(dimension) => {
                    out.insert(name, dimension);
                },
                None => {},
            }
            proof {
                assert forall|k: Seq<char>| #[trigger] out@.contains_key(k) <==> ((exists|j: int|
                    0 <= j < i + 1 && names[j] == k) && self.spaces@[k].dimension is Some) by {
                    if k != key {
                        assert(out@.contains_key(k) == before.contains_key(k));
                        if exists|j: int| 0 <= j < i + 1 && names[j] == k {
                            let j = choose|j: int| 0 <= j < i + 1 && names[j] == k;
                            assert(j < i);
                        }
                    }
                }
            }
            i = i + 1;
        }
        proof {
            assert forall|k: Seq<char>| self@.dimensions().contains_key(k) <==> #[trigger] out@.contains_key(
                k,
            ) by {
                if self.spaces@.contains_key(k) {
                    assert(names.contains(k));
                }
                if out@.contains_key(k) {
                    let j = choose|j: int| 0 <= j < i && names[j] == k;
                    assert(names.contains(k));
                }
            }
            assert(out@ =~= self@.dimensions());
        }
        out
    }
}

} // verus!
