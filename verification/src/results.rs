//! What queries give back.
use vstd::prelude::*;

use crate::common::{EdgeId, NodeId};
use crate::ordered::{models, replicate_items, Replicate};
use crate::plan::PlanKind;
use crate::records::{EdgeModel, EdgeRecord, NodeModel, NodeRecord};
use crate::text;

verus! {

/// The parts of a score, each as the bits of a single.
#[derive(Debug, Clone, Copy, PartialEq, Eq, Structural)]
pub struct ScoreBreakdown {
    pub structural: u32,
    pub semantic: u32,
    pub temporal: u32,
    pub importance: u32,
    pub confidence: u32,
}

/// A node with its score, which is held as the bits of a single.
#[derive(Debug, PartialEq, Eq)]
pub struct RankedNodeResult {
    pub node: NodeRecord,
    pub score: u32,
    pub breakdown: ScoreBreakdown,
}

/// The model of a node with its score.
pub struct RankedModel {
    pub node: NodeModel,
    pub score: u32,
    pub breakdown: ScoreBreakdown,
}

impl View for RankedNodeResult {
    type V = RankedModel;

    open spec fn view(&self) -> RankedModel {
        RankedModel { node: self.node@, score: self.score, breakdown: self.breakdown }
    }
}

impl Replicate for RankedNodeResult {
    fn replicate(&self) -> (r: Self) {
        RankedNodeResult {
            node: self.node.replicate(),
            score: self.score,
            breakdown: self.breakdown,
        }
    }
}

/// A path through the graph.
#[derive(Debug, PartialEq, Eq)]
pub struct GraphPath {
    pub node_ids: Vec<NodeId>,
    pub edge_ids: Vec<EdgeId>,
    pub hop_count: usize,
}

/// The model of a path.
pub struct PathModel {
    pub node_ids: Seq<Seq<char>>,
    pub edge_ids: Seq<Seq<char>>,
    pub hop_count: usize,
}

impl View for GraphPath {
    type V = PathModel;

    open spec fn view(&self) -> PathModel {
        PathModel {
            node_ids: models(self.node_ids@),
            edge_ids: models(self.edge_ids@),
            hop_count: self.hop_count,
        }
    }
}

/// One item of an answer.
#[derive(Debug, PartialEq, Eq)]
pub enum QueryExecutionItem {
    Node(NodeRecord),
    Edge(EdgeRecord),
    RankedResult(RankedNodeResult),
    Path(GraphPath),
}

/// The model of one item of an answer.
pub enum ItemModel {
    Node(NodeModel),
    Edge(EdgeModel),
    RankedResult(RankedModel),
    Path(PathModel),
}

impl View for QueryExecutionItem {
    type V = ItemModel;

    open spec fn view(&self) -> ItemModel {
        match self {
            QueryExecutionItem::Node(node) => ItemModel::Node(node@),
            QueryExecutionItem::Edge(edge) => ItemModel::Edge(edge@),
            QueryExecutionItem::RankedResult(result) => ItemModel::RankedResult(result@),
            QueryExecutionItem::Path(path) => ItemModel::Path(path@),
        }
    }
}

/// An answer, taken together.
#[derive(Debug, PartialEq, Eq)]
pub struct QueryResponse {
    pub plan_kind: PlanKind,
    pub nodes: Vec<NodeRecord>,
    pub edges: Vec<EdgeRecord>,
    pub ranked_results: Vec<RankedNodeResult>,
    pub path: Option<GraphPath>,
    pub retrieval_profile: Option<String>,
}

/// The model of an answer, taken together.
pub struct ResponseModel {
    pub plan_kind: PlanKind,
    pub nodes: Seq<NodeModel>,
    pub edges: Seq<EdgeModel>,
    pub ranked_results: Seq<RankedModel>,
    pub path: Option<PathModel>,
    pub retrieval_profile: Option<Seq<char>>,
}

impl View for QueryResponse {
    type V = ResponseModel;

    open spec fn view(&self) -> ResponseModel {
        ResponseModel {
            plan_kind: self.plan_kind,
            nodes: models(self.nodes@),
            edges: models(self.edges@),
            ranked_results: models(self.ranked_results@),
            path: crate::graph::optional_view(self.path),
            retrieval_profile: text::optional_string(self.retrieval_profile),
        }
    }
}

/// An answer, item by item.
#[derive(Debug, PartialEq, Eq)]
pub struct QueryExecution {
    pub plan_kind: PlanKind,
    pub retrieval_profile: Option<String>,
    pub items: Vec<QueryExecutionItem>,
}

/// The model of an answer, item by item.
pub struct ExecutionModel {
    pub plan_kind: PlanKind,
    pub retrieval_profile: Option<Seq<char>>,
    pub items: Seq<ItemModel>,
}

impl View for QueryExecution {
    type V = ExecutionModel;

    open spec fn view(&self) -> ExecutionModel {
        ExecutionModel {
            plan_kind: self.plan_kind,
            retrieval_profile: text::optional_string(self.retrieval_profile),
            items: models(self.items@),
        }
    }
}

/// Nodes as items.
pub open spec fn node_items(nodes: Seq<NodeModel>) -> Seq<ItemModel> {
    Seq::new(nodes.len(), |i: int| ItemModel::Node(nodes[i]))
}

/// Edges as items.
pub open spec fn edge_items(edges: Seq<EdgeModel>) -> Seq<ItemModel> {
    Seq::new(edges.len(), |i: int| ItemModel::Edge(edges[i]))
}

/// Ranked nodes as items.
pub open spec fn ranked_items(results: Seq<RankedModel>) -> Seq<ItemModel> {
    Seq::new(results.len(), |i: int| ItemModel::RankedResult(results[i]))
}

/// A path as an item.
pub open spec fn path_items(path: Option<PathModel>) -> Seq<ItemModel> {
    match path {
        Some(p) => seq![ItemModel::Path(p)],
        None => Seq::empty(),
    }
}

impl ResponseModel {
    /// The items of an answer: its ranked nodes, or its nodes where none is ranked, then its
    /// edges, then its path.
    pub open spec fn items(self) -> Seq<ItemModel> {
        (if self.ranked_results.len() == 0 {
            node_items(self.nodes)
        } else {
            ranked_items(self.ranked_results)
        }) + edge_items(self.edges) + path_items(self.path)
    }
}

/// The nodes among items; a ranked node counts as one.
pub open spec fn nodes_of(items: Seq<ItemModel>) -> Seq<NodeModel>
    decreases items.len(),
{
    if items.len() == 0 {
        Seq::empty()
    } else {
        let before = nodes_of(items.drop_last());
        match items.last() {
            ItemModel::Node(node) => before.push(node),
            ItemModel::RankedResult(result) => before.push(result.node),
            _ => before,
        }
    }
}

/// The edges among items.
pub open spec fn edges_of(items: Seq<ItemModel>) -> Seq<EdgeModel>
    decreases items.len(),
{
    if items.len() == 0 {
        Seq::empty()
    } else {
        let before = edges_of(items.drop_last());
        match items.last() {
            ItemModel::Edge(edge) => before.push(edge),
            _ => before,
        }
    }
}

/// The ranked nodes among items.
pub open spec fn ranked_of(items: Seq<ItemModel>) -> Seq<RankedModel>
    decreases items.len(),
{
    if items.len() == 0 {
        Seq::empty()
    } else {
        let before = ranked_of(items.drop_last());
        match items.last() {
            ItemModel::RankedResult(result) => before.push(result),
            _ => before,
        }
    }
}

/// The last path among items.
pub open spec fn path_of(items: Seq<ItemModel>) -> Option<PathModel>
    decreases items.len(),
{
    if items.len() == 0 {
        None
    } else {
        match items.last() {
            ItemModel::Path(path) => Some(path),
            _ => path_of(items.drop_last()),
        }
    }
}

impl ExecutionModel {
    /// The answer, taken together.
    pub open spec fn response(self) -> ResponseModel {
        ResponseModel {
            plan_kind: self.plan_kind,
            nodes: nodes_of(self.items),
            edges: edges_of(self.items),
            ranked_results: ranked_of(self.items),
            path: path_of(self.items),
            retrieval_profile: self.retrieval_profile,
        }
    }
}

/// Puts an item at the end of a list.
pub fn add_item(items: &mut Vec<QueryExecutionItem>, item: QueryExecutionItem)
    ensures
        models(final(items)@) == models(old(items)@).push(item@),
{
    let ghost held = items@;
    items.push(item);
    proof {
        assert(models(items@) =~= models(held).push(item@));
    }
}

/// Nodes as items.
pub fn nodes_as_items(nodes: Vec<NodeRecord>) -> (r: Vec<QueryExecutionItem>)
    ensures
        models(r@) == node_items(models(nodes@)),
{
    let mut out: Vec<QueryExecutionItem> = Vec::new();
    let mut i: usize = 0;
    while i < nodes.len()
        invariant
            i <= nodes.len(),
            out.len() == i,
            forall|k: int| 0 <= k < i ==> (#[trigger] out@[k])@ == ItemModel::Node(nodes@[k]@),
        decreases nodes.len() - i,
    {
        out.push(QueryExecutionItem::Node(nodes[i].replicate()));
        i = i + 1;
    }
    proof {
        assert(models(out@) =~= node_items(models(nodes@)));
    }
    out
}

impl QueryExecution {
    /// The items of an answer: see [`ResponseModel::items`].
    pub fn from_response(response: QueryResponse) -> (r: Self)
        ensures
            r@.plan_kind == response@.plan_kind,
            r@.retrieval_profile == response@.retrieval_profile,
            r@.items == response@.items(),
    {
        let ghost goal = response@.items();
        let mut items: Vec<QueryExecutionItem> = Vec::new();
        proof {
            assert(models(items@) =~= Seq::empty());
            assert(response@.ranked_results.len() == response.ranked_results.len());
        }
        if response.ranked_results.len() == 0 {
            items = nodes_as_items(response.nodes);
        } else {
            let mut i: usize = 0;
            while i < response.ranked_results.len()
                invariant
                    i <= response.ranked_results.len(),
                    items.len() == i,
                    forall|k: int|
                        0 <= k < i ==> (#[trigger] items@[k])@ == ItemModel::RankedResult(
                            response.ranked_results@[k]@,
                        ),
                decreases response.ranked_results.len() - i,
            {
                items.push(
                    QueryExecutionItem::RankedResult(response.ranked_results[i].replicate()),
                );
                i = i + 1;
            }
            proof {
                assert(models(items@) =~= ranked_items(models(response.ranked_results@)));
            }
        }
        let ghost first = models(items@);
        let mut j: usize = 0;
        while j < response.edges.len()
            invariant
                j <= response.edges.len(),
                items.len() == first.len() + j,
                forall|k: int| 0 <= k < first.len() ==> (#[trigger] items@[k])@ == first[k],
                forall|k: int|
                    0 <= k < j ==> (#[trigger] items@[first.len() + k])@ == ItemModel::Edge(
                        response.edges@[k]@,
                    ),
            decreases response.edges.len() - j,
        {
            items.push(QueryExecutionItem::Edge(response.edges[j].replicate()));
            j = j + 1;
        }
        let ghost second = edge_items(models(response.edges@));
        proof {
            assert forall|k: int| 0 <= k < (first + second).len() implies models(items@)[k] == (first
                + second)[k] by {
                if k >= first.len() {
                    let m = k - first.len();
                    assert(items@[first.len() + m]@ == ItemModel::Edge(response.edges@[m]@));
                }
            }
            assert(models(items@) =~= first + second);
        }
        match response.path {
            Some(path) => {
                add_item(&mut items, QueryExecutionItem::Path(path));
            },
            None => {},
        }
        proof {
            assert(models(items@) =~= goal);
        }
        QueryExecution {
            plan_kind: response.plan_kind,
            retrieval_profile: response.retrieval_profile,
            items,
        }
    }

    /// The items of the answer.
    pub fn into_items(self) -> (r: Vec<QueryExecutionItem>)
        ensures
            models(r@) == self@.items,
    {
        self.items
    }

    /// The answer, taken together: see [`ExecutionModel::response`].
    pub fn collect_response(self) -> (r: QueryResponse)
        ensures
            r@ == self@.response(),
    {
        let ghost all = self@.items;
        let mut nodes: Vec<NodeRecord> = Vec::new();
        let mut edges: Vec<EdgeRecord> = Vec::new();
        let mut ranked_results: Vec<RankedNodeResult> = Vec::new();
        let mut path: Option<GraphPath> = None;
        let mut i: usize = 0;
        proof {
            assert(all.take(0).len() == 0);
            assert(models(nodes@) =~= Seq::empty());
            assert(models(edges@) =~= Seq::empty());
            assert(models(ranked_results@) =~= Seq::empty());
        }
        while i < self.items.len()
            invariant
                i <= self.items.len(),
                all == models(self.items@),
                models(nodes@) == nodes_of(all.take(i as int)),
                models(edges@) == edges_of(all.take(i as int)),
                models(ranked_results@) == ranked_of(all.take(i as int)),
                crate::graph::optional_view(path) == path_of(all.take(i as int)),
            decreases self.items.len() - i,
        {
            proof {
                assert(all.take(i + 1).drop_last() =~= all.take(i as int));
                assert(all.take(i + 1).last() == self.items@[i as int]@);
            }
            let ghost n0 = nodes@;
            let ghost e0 = edges@;
            let ghost r0 = ranked_results@;
            match &self.items[i] {
                QueryExecutionItem::Node(node) => {
                    nodes.push(node.replicate());
                    proof {
                        assert(models(nodes@) =~= models(n0).push(node@));
                    }
                },
                QueryExecutionItem::Edge(edge) => {
                    edges.push(edge.replicate());
                    proof {
                        assert(models(edges@) =~= models(e0).push(edge@));
                    }
                },
                QueryExecutionItem::RankedResult(result) => {
                    nodes.push(result.node.replicate());
                    ranked_results.push(result.replicate());
                    proof {
                        assert(models(nodes@) =~= models(n0).push(result.node@));
                        assert(models(ranked_results@) =~= models(r0).push(result@));
                    }
                },
                QueryExecutionItem::Path(found) => {
                    path = Some(
                        GraphPath {
                            node_ids: replicate_items(&found.node_ids),
                            edge_ids: replicate_items(&found.edge_ids),
                            hop_count: found.hop_count,
                        },
                    );
                },
            }
            i = i + 1;
        }
        proof {
            assert(all.take(i as int) =~= all);
        }
        QueryResponse {
            plan_kind: self.plan_kind,
            nodes,
            edges,
            ranked_results,
            path,
            retrieval_profile: self.retrieval_profile,
        }
    }
}

pub proof fn lemma_prefix_items(head: Seq<ItemModel>, tail: Seq<ItemModel>)
    ensures
        nodes_of(head + tail) == nodes_of(head) + nodes_of(tail),
        edges_of(head + tail) == edges_of(head) + edges_of(tail),
        ranked_of(head + tail) == ranked_of(head) + ranked_of(tail),
        path_of(head + tail) == if path_of(tail) is Some {
            path_of(tail)
        } else {
            path_of(head)
        },
    decreases tail.len(),
{
    if tail.len() == 0 {
        assert(head + tail =~= head);
        assert(nodes_of(head) + nodes_of(tail) =~= nodes_of(head));
        assert(edges_of(head) + edges_of(tail) =~= edges_of(head));
        assert(ranked_of(head) + ranked_of(tail) =~= ranked_of(head));
    } else {
        let t = tail.drop_last();
        lemma_prefix_items(head, t);
        assert((head + tail).drop_last() =~= head + t);
        assert((head + tail).last() == tail.last());
        assert(nodes_of(head + tail) =~= nodes_of(head) + nodes_of(tail));
        assert(edges_of(head + tail) =~= edges_of(head) + edges_of(tail));
        assert(ranked_of(head + tail) =~= ranked_of(head) + ranked_of(tail));
    }
}

pub proof fn lemma_node_items(nodes: Seq<NodeModel>)
    ensures
        nodes_of(node_items(nodes)) == nodes,
        edges_of(node_items(nodes)).len() == 0,
        ranked_of(node_items(nodes)).len() == 0,
        path_of(node_items(nodes)) is None,
    decreases nodes.len(),
{
    if nodes.len() > 0 {
        let rest = nodes.drop_last();
        lemma_node_items(rest);
        assert(node_items(nodes).drop_last() =~= node_items(rest));
        assert(nodes =~= rest.push(nodes.last()));
    } else {
        assert(nodes_of(node_items(nodes)) =~= nodes);
    }
}

pub proof fn lemma_edge_items(edges: Seq<EdgeModel>)
    ensures
        edges_of(edge_items(edges)) == edges,
        nodes_of(edge_items(edges)).len() == 0,
        ranked_of(edge_items(edges)).len() == 0,
        path_of(edge_items(edges)) is None,
    decreases edges.len(),
{
    if edges.len() > 0 {
        let rest = edges.drop_last();
        lemma_edge_items(rest);
        assert(edge_items(edges).drop_last() =~= edge_items(rest));
        assert(edges =~= rest.push(edges.last()));
    } else {
        assert(edges_of(edge_items(edges)) =~= edges);
    }
}

/// The nodes of ranked results.
pub open spec fn ranked_nodes(results: Seq<RankedModel>) -> Seq<NodeModel> {
    Seq::new(results.len(), |i: int| results[i].node)
}

pub proof fn lemma_ranked_items(results: Seq<RankedModel>)
    ensures
        ranked_of(ranked_items(results)) == results,
        nodes_of(ranked_items(results)) == ranked_nodes(results),
        edges_of(ranked_items(results)).len() == 0,
        path_of(ranked_items(results)) is None,
    decreases results.len(),
{
    if results.len() > 0 {
        let rest = results.drop_last();
        lemma_ranked_items(rest);
        assert(ranked_items(results).drop_last() =~= ranked_items(rest));
        assert(results =~= rest.push(results.last()));
        assert(ranked_nodes(results) =~= ranked_nodes(rest).push(results.last().node));
    } else {
        assert(ranked_of(ranked_items(results)) =~= results);
        assert(nodes_of(ranked_items(results)) =~= ranked_nodes(results));
    }
}

/// An answer taken apart into items and put together again is the same answer, provided that its
/// nodes are those of its ranked results, where it has any.
pub proof fn law_response_round_trip(response: ResponseModel)
    requires
        response.ranked_results.len() > 0 ==> response.nodes == ranked_nodes(
            response.ranked_results,
        ),
    ensures
        (ExecutionModel {
            plan_kind: response.plan_kind,
            retrieval_profile: response.retrieval_profile,
            items: response.items(),
        }).response() == response,
{
    let head = if response.ranked_results.len() == 0 {
        node_items(response.nodes)
    } else {
        ranked_items(response.ranked_results)
    };
    let middle = edge_items(response.edges);
    let tail = path_items(response.path);
    lemma_node_items(response.nodes);
    lemma_ranked_items(response.ranked_results);
    lemma_edge_items(response.edges);
    lemma_prefix_items(head, middle);
    lemma_prefix_items(head + middle, tail);
    if response.path is Some {
        assert(tail.last() is Path);
        assert(nodes_of(tail.drop_last()).len() == 0);
        assert(edges_of(tail.drop_last()).len() == 0);
        assert(ranked_of(tail.drop_last()).len() == 0);
    }
    assert(nodes_of(tail).len() == 0);
    assert(edges_of(tail).len() == 0);
    assert(ranked_of(tail).len() == 0);
    assert(nodes_of(response.items()) =~= response.nodes);
    assert(edges_of(response.items()) =~= response.edges);
    assert(ranked_of(response.items()) =~= response.ranked_results);
}

} // verus!
