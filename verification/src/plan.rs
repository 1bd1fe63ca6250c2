//! Query requests and their plans.
use vstd::prelude::*;
use vstd::string::*;

use crate::common::{ErrorModel, NodeId, Result, Undr9Error};
use crate::filters::FilterExpression;
use crate::index::EdgeDirection;
use crate::ordered::models;
use crate::records::{PropertyModel, PropertyValue};
use crate::text;

verus! {

pub const DEFAULT_MAX_DEPTH: u8 = 5;

pub const DEFAULT_RESULT_LIMIT: usize = 100;

pub const DEFAULT_QUERY_TIMEOUT_MS: u64 = 5_000;

pub const MAX_RESULT_LIMIT: usize = 1_000;

pub const MAX_QUERY_TIMEOUT_MS: u64 = 30_000;

/// A query.
#[allow(inconsistent_fields)]
#[derive(Debug, PartialEq, Eq)]
pub enum QueryRequest {
    GetNodeById { node_id: NodeId },
    GetNodeByUniqueKey { unique_key: String },
    /// The nodes that meet a condition, of all or of those with a label.
    FilterNodes { label: Option<String>, filter: FilterExpression, limit: Option<usize> },
    ListNeighbors {
        node_id: NodeId,
        edge_type: Option<String>,
        direction: EdgeDirection,
        limit: Option<usize>,
    },
    Traverse {
        start_node_id: NodeId,
        edge_type: Option<String>,
        direction: EdgeDirection,
        max_hops: Option<u8>,
        limit: Option<usize>,
        timeout_ms: Option<u64>,
        constraints: Option<TraversalConstraints>,
    },
    ShortestPath {
        source_node_id: NodeId,
        target_node_id: NodeId,
        direction: EdgeDirection,
        max_depth: Option<u8>,
        limit: Option<usize>,
        timeout_ms: Option<u64>,
        constraints: Option<TraversalConstraints>,
    },
    SearchByLabel { label: String, limit: Option<usize> },
    TimeRange { field: String, from_epoch_ms: i64, to_epoch_ms: i64, limit: usize },
    VectorSearch {
        /// The bits of one single per component.
        query_vector: Vec<u32>,
        node_type: Option<String>,
        vector_name: Option<String>,
        limit: usize,
        top_k: Option<usize>,
    },
    RankedRetrieval {
        /// The bits of one single per component.
        query_vector: Option<Vec<u32>>,
        reference_node_id: Option<NodeId>,
        edge_type: Option<String>,
        from_epoch_ms: Option<i64>,
        to_epoch_ms: Option<i64>,
        vector_name: Option<String>,
        limit: usize,
        top_k: Option<usize>,
        now_epoch_ms: i64,
        retrieval_profile: Option<String>,
    },
}

/// Which edges and nodes a traversal may use. An empty list admits all.
#[derive(Debug, PartialEq, Eq)]
pub struct TraversalConstraints {
    pub edge_types: Vec<String>,
    pub node_labels: Vec<String>,
}

/// The model of traversal constraints.
pub struct ConstraintsModel {
    pub edge_types: Seq<Seq<char>>,
    pub node_labels: Seq<Seq<char>>,
}

impl View for TraversalConstraints {
    type V = ConstraintsModel;

    open spec fn view(&self) -> ConstraintsModel {
        ConstraintsModel {
            edge_types: text::texts(self.edge_types@),
            node_labels: text::texts(self.node_labels@),
        }
    }
}

impl ConstraintsModel {
    /// Constraints that admit everything.
    pub open spec fn none() -> ConstraintsModel {
        ConstraintsModel { edge_types: Seq::empty(), node_labels: Seq::empty() }
    }

    /// Whether an edge of a type may be used.
    pub open spec fn admits_edge_type(self, edge_type: Seq<char>) -> bool {
        self.edge_types.len() == 0 || self.edge_types.contains(edge_type)
    }

    /// Whether a node with a label may be entered.
    pub open spec fn admits_label(self, label: Seq<char>) -> bool {
        self.node_labels.len() == 0 || self.node_labels.contains(label)
    }
}

impl Default for TraversalConstraints {
    fn default() -> (r: TraversalConstraints)
        ensures
            r@ == ConstraintsModel::none(),
    {
        let none = TraversalConstraints { edge_types: Vec::new(), node_labels: Vec::new() };
        proof {
            assert(text::texts(none.edge_types@) =~= Seq::empty());
            assert(text::texts(none.node_labels@) =~= Seq::empty());
        }
        none
    }
}

impl Clone for TraversalConstraints {
    fn clone(&self) -> (r: TraversalConstraints)
        ensures
            r@ == self@,
    {
        TraversalConstraints {
            edge_types: text::copy_texts(&self.edge_types),
            node_labels: text::copy_texts(&self.node_labels),
        }
    }
}

/// The constraints of a request; where it has none, everything is admitted.
pub open spec fn constraints_model(constraints: Option<TraversalConstraints>) -> ConstraintsModel {
    match constraints {
        Some(c) => c@,
        None => ConstraintsModel::none(),
    }
}

/// A copy of constraints, if there are any.
pub fn copy_constraints(constraints: &Option<TraversalConstraints>) -> (r: Option<
    TraversalConstraints,
>)
    ensures
        constraints_model(r) == constraints_model(*constraints),
{
    match constraints {
        Some(c) => Some(c.clone()),
        None => None,
    }
}

/// How a query is answered.
#[derive(Debug, Clone, Copy, PartialEq, Eq, Structural)]
pub enum PlanKind {
    ExactLookup,
    Traversal,
    ShortestPath,
    NeighborLookup,
    LabelScan,
    TemporalRange,
    VectorSimilarity,
    RankedHybrid,
}

/// A plan.
#[derive(Debug, PartialEq, Eq)]
pub struct QueryPlan {
    pub kind: PlanKind,
    pub filters: Vec<QueryFilter>,
}

/// One setting of a plan.
#[derive(Debug, PartialEq, Eq)]
pub struct QueryFilter {
    pub field: String,
    pub value: PropertyValue,
}

/// The model of a plan.
pub struct PlanModel {
    pub kind: PlanKind,
    pub filters: Seq<FilterModel>,
}

/// The model of one setting of a plan.
pub struct FilterModel {
    pub field: Seq<char>,
    pub value: PropertyModel,
}

impl View for QueryFilter {
    type V = FilterModel;

    open spec fn view(&self) -> FilterModel {
        FilterModel { field: self.field@, value: self.value@ }
    }
}

impl View for QueryPlan {
    type V = PlanModel;

    open spec fn view(&self) -> PlanModel {
        PlanModel { kind: self.kind, filters: models(self.filters@) }
    }
}

/// A setting that is a number.
pub open spec fn number_filter(field: Seq<char>, value: int) -> FilterModel {
    FilterModel { field, value: PropertyModel::Integer(value as i64) }
}

/// A setting that is a string.
pub open spec fn text_filter(field: Seq<char>, value: Seq<char>) -> FilterModel {
    FilterModel { field, value: PropertyModel::String(value) }
}

/// The filter that sets a number.
fn number_setting(field: &str, value: i64) -> (r: QueryFilter)
    ensures
        r@ == number_filter(field@, value as int),
{
    QueryFilter { field: field.to_owned(), value: PropertyValue::Integer(value) }
}

/// The filter that sets a string.
fn text_setting(field: &str, value: &str) -> (r: QueryFilter)
    ensures
        r@ == text_filter(field@, value@),
{
    QueryFilter { field: field.to_owned(), value: PropertyValue::String(value.to_owned()) }
}

// ---------------------------------------------------------------------------------------------
// Limits
// ---------------------------------------------------------------------------------------------

/// What is wrong with a result limit.
pub open spec fn limit_error(limit: usize) -> Option<ErrorModel> {
    if limit == 0 {
        Some(ErrorModel::Validation("limit must be greater than zero"@))
    } else if limit > MAX_RESULT_LIMIT {
        Some(ErrorModel::Validation("limit must be less than or equal to 1000"@))
    } else {
        None
    }
}

/// What is wrong with a timeout.
pub open spec fn timeout_error(timeout_ms: u64) -> Option<ErrorModel> {
    if timeout_ms == 0 {
        Some(ErrorModel::Validation("timeout_ms must be greater than zero"@))
    } else if timeout_ms > MAX_QUERY_TIMEOUT_MS {
        Some(ErrorModel::Validation("timeout_ms must be less than or equal to 30000"@))
    } else {
        None
    }
}

/// The result limit of a request.
pub open spec fn limit_or_default(limit: Option<usize>) -> usize {
    match limit {
        Some(l) => l,
        None => DEFAULT_RESULT_LIMIT,
    }
}

/// The depth of a request.
pub open spec fn depth_or_default(depth: Option<u8>) -> u8 {
    match depth {
        Some(d) => d,
        None => DEFAULT_MAX_DEPTH,
    }
}

/// The timeout of a request.
pub open spec fn timeout_or_default(timeout_ms: Option<u64>) -> u64 {
    match timeout_ms {
        Some(t) => t,
        None => DEFAULT_QUERY_TIMEOUT_MS,
    }
}

/// What is wrong with the bounds of a traversal: first the depth, then the limit, then the
/// timeout.
pub open spec fn traversal_error(
    max_depth: Option<u8>,
    limit: Option<usize>,
    timeout_ms: Option<u64>,
) -> Option<ErrorModel> {
    if depth_or_default(max_depth) == 0 {
        Some(ErrorModel::Validation("max_depth must be greater than zero"@))
    } else if limit_error(limit_or_default(limit)) is Some {
        limit_error(limit_or_default(limit))
    } else {
        timeout_error(timeout_or_default(timeout_ms))
    }
}

/// The limit, if it is in order.
pub fn resolve_required_result_limit(limit: usize) -> (r: Result<usize>)
    ensures
        r is Ok <==> limit_error(limit) is None,
        r matches Ok(l) ==> l == limit,
        r matches Err(e) ==> limit_error(limit) == Some(e@),
{
    if limit == 0 {
        return Err(Undr9Error::Validation("limit must be greater than zero".to_owned()));
    }
    if limit > MAX_RESULT_LIMIT {
        return Err(Undr9Error::Validation("limit must be less than or equal to 1000".to_owned()));
    }
    Ok(limit)
}

/// The limit of a request, if it is in order.
pub fn resolve_result_limit(limit: Option<usize>) -> (r: Result<usize>)
    ensures
        r is Ok <==> limit_error(limit_or_default(limit)) is None,
        r matches Ok(l) ==> l == limit_or_default(limit),
        r matches Err(e) ==> limit_error(limit_or_default(limit)) == Some(e@),
{
    let wanted: usize = match limit {
        Some(l) => l,
        None => DEFAULT_RESULT_LIMIT,
    };
    resolve_required_result_limit(wanted)
}

/// The timeout, if it is in order.
pub fn resolve_timeout_ms(timeout_ms: u64) -> (r: Result<u64>)
    ensures
        r is Ok <==> timeout_error(timeout_ms) is None,
        r matches Ok(t) ==> t == timeout_ms,
        r matches Err(e) ==> timeout_error(timeout_ms) == Some(e@),
{
    if timeout_ms == 0 {
        return Err(Undr9Error::Validation("timeout_ms must be greater than zero".to_owned()));
    }
    if timeout_ms > MAX_QUERY_TIMEOUT_MS {
        return Err(
            Undr9Error::Validation("timeout_ms must be less than or equal to 30000".to_owned()),
        );
    }
    Ok(timeout_ms)
}

/// The bounds of a traversal.
#[derive(Debug, PartialEq, Eq)]
pub struct TraversalRuntime {
    pub max_depth: u8,
    pub limit: usize,
    pub timeout_ms: u64,
    pub constraints: TraversalConstraints,
}

/// The model of the bounds of a traversal.
pub struct RuntimeModel {
    pub max_depth: u8,
    pub limit: usize,
    pub timeout_ms: u64,
    pub constraints: ConstraintsModel,
}

impl View for TraversalRuntime {
    type V = RuntimeModel;

    open spec fn view(&self) -> RuntimeModel {
        RuntimeModel {
            max_depth: self.max_depth,
            limit: self.limit,
            timeout_ms: self.timeout_ms,
            constraints: self.constraints@,
        }
    }
}

/// The bounds that a request asks for.
pub open spec fn runtime_model(
    max_depth: Option<u8>,
    limit: Option<usize>,
    timeout_ms: Option<u64>,
    constraints: Option<TraversalConstraints>,
) -> RuntimeModel {
    RuntimeModel {
        max_depth: depth_or_default(max_depth),
        limit: limit_or_default(limit),
        timeout_ms: timeout_or_default(timeout_ms),
        constraints: constraints_model(constraints),
    }
}

/// The bounds of a traversal, if they are in order.
pub fn resolve_traversal_runtime(
    max_depth: Option<u8>,
    limit: Option<usize>,
    timeout_ms: Option<u64>,
    constraints: Option<TraversalConstraints>,
) -> (r: Result<TraversalRuntime>)
    ensures
        r is Ok <==> traversal_error(max_depth, limit, timeout_ms) is None,
        r matches Ok(runtime) ==> runtime@ == runtime_model(
            max_depth,
            limit,
            timeout_ms,
            constraints,
        ),
        r matches Err(e) ==> traversal_error(max_depth, limit, timeout_ms) == Some(e@),
{
    let depth: u8 = match max_depth {
        Some(d) => d,
        None => DEFAULT_MAX_DEPTH,
    };
    if depth == 0 {
        return Err(Undr9Error::Validation("max_depth must be greater than zero".to_owned()));
    }
    let bound: usize = match resolve_result_limit(limit) {
        Ok(l) => l,
        Err(error) => {
            return Err(error);
        },
    };
    let wanted: u64 = match timeout_ms {
        Some(t) => t,
        None => DEFAULT_QUERY_TIMEOUT_MS,
    };
    let timeout: u64 = match resolve_timeout_ms(wanted) {
        Ok(t) => t,
        Err(error) => {
            return Err(error);
        },
    };
    let admitted: TraversalConstraints = match constraints {
        Some(c) => c,
        None => TraversalConstraints::default(),
    };
    Ok(
        TraversalRuntime {
            max_depth: depth,
            limit: bound,
            timeout_ms: timeout,
            constraints: admitted,
        },
    )
}

/// Edge types with one more, unless it is among them.
pub open spec fn with_edge_type(types: Seq<Seq<char>>, edge_type: Option<Seq<char>>) -> Seq<
    Seq<char>,
> {
    match edge_type {
        Some(t) => crate::ordered::with_unique(types, t),
        None => types,
    }
}

impl RuntimeModel {
    /// The bounds with one more edge type admitted by name.
    pub open spec fn merged(self, edge_type: Option<Seq<char>>) -> RuntimeModel {
        RuntimeModel {
            constraints: ConstraintsModel {
                edge_types: with_edge_type(self.constraints.edge_types, edge_type),
                ..self.constraints
            },
            ..self
        }
    }
}

impl TraversalRuntime {
    /// The bounds with one more edge type admitted by name.
    pub fn merge_legacy_edge_type(self, edge_type: Option<String>) -> (r: Self)
        ensures
            r@ == self@.merged(text::optional_string(edge_type)),
    {
        let mut runtime: TraversalRuntime = self;
        match edge_type {
            Some(value) => {
                if !text::list_contains(&runtime.constraints.edge_types, value.as_str()) {
                    let ghost held = runtime.constraints.edge_types@;
                    runtime.constraints.edge_types.push(value);
                    proof {
                        assert(text::texts(runtime.constraints.edge_types@) =~= text::texts(
                            held,
                        ).push(value@));
                    }
                }
            },
            None => {},
        }
        runtime
    }
}

// ---------------------------------------------------------------------------------------------
// Plans
// ---------------------------------------------------------------------------------------------

/// The name of the vector space of a request.
pub open spec fn vector_space_name(name: Option<String>) -> Seq<char> {
    match name {
        Some(n) => n@,
        None => "default"@,
    }
}

/// The last filter of a vector query: the candidate budget, where one is given.
pub open spec fn top_k_filters(top_k: Option<usize>) -> Seq<FilterModel> {
    match top_k {
        Some(k) => seq![number_filter("top_k"@, k as int)],
        None => Seq::empty(),
    }
}

/// What is wrong with the bounds of a vector query.
pub open spec fn budget_error(limit: usize, top_k: Option<usize>) -> Option<ErrorModel> {
    if limit_error(limit) is Some {
        limit_error(limit)
    } else {
        match top_k {
            Some(k) => limit_error(k),
            None => None,
        }
    }
}

/// What is wrong with a request, if anything is.
pub open spec fn request_error(request: QueryRequest) -> Option<ErrorModel> {
    match request {
        QueryRequest::GetNodeById { .. } => None,
        QueryRequest::GetNodeByUniqueKey { .. } => None,
        QueryRequest::FilterNodes { limit, .. } => limit_error(limit_or_default(limit)),
        QueryRequest::ListNeighbors { limit, .. } => limit_error(limit_or_default(limit)),
        QueryRequest::Traverse { max_hops, limit, timeout_ms, .. } => traversal_error(
            max_hops,
            limit,
            timeout_ms,
        ),
        QueryRequest::ShortestPath { max_depth, limit, timeout_ms, .. } => traversal_error(
            max_depth,
            limit,
            timeout_ms,
        ),
        QueryRequest::SearchByLabel { limit, .. } => limit_error(limit_or_default(limit)),
        QueryRequest::TimeRange { from_epoch_ms, to_epoch_ms, limit, .. } => if from_epoch_ms
            > to_epoch_ms {
            Some(ErrorModel::Validation("time range start must be before end"@))
        } else {
            limit_error(limit)
        },
        QueryRequest::VectorSearch { query_vector, limit, top_k, .. } => if query_vector@.len()
            == 0 {
            Some(ErrorModel::Validation("query_vector must not be empty"@))
        } else {
            budget_error(limit, top_k)
        },
        QueryRequest::RankedRetrieval {
            query_vector,
            reference_node_id,
            from_epoch_ms,
            to_epoch_ms,
            limit,
            top_k,
            ..
        } => if query_vector is Some && query_vector->0@.len() == 0 {
            Some(ErrorModel::Validation("query_vector must not be empty"@))
        } else if from_epoch_ms is Some && to_epoch_ms is Some && from_epoch_ms->0
            > to_epoch_ms->0 {
            Some(
                ErrorModel::Validation("ranked retrieval time range start must be before end"@),
            )
        } else if query_vector is None && reference_node_id is None {
            Some(
                ErrorModel::Validation(
                    "ranked retrieval requires at least a query_vector or reference_node_id"@,
                ),
            )
        } else {
            budget_error(limit, top_k)
        },
    }
}

/// The plan of a request that is in order.
pub open spec fn planned(request: QueryRequest) -> PlanModel {
    match request {
        QueryRequest::GetNodeById { .. } => PlanModel {
            kind: PlanKind::ExactLookup,
            filters: Seq::empty(),
        },
        QueryRequest::GetNodeByUniqueKey { unique_key } => PlanModel {
            kind: PlanKind::ExactLookup,
            filters: seq![text_filter("unique_key"@, unique_key@)],
        },
        QueryRequest::FilterNodes { label, limit, .. } => PlanModel {
            kind: PlanKind::LabelScan,
            filters: (match label {
                Some(l) => seq![text_filter("label"@, l@)],
                None => Seq::empty(),
            }) + seq![number_filter("limit"@, limit_or_default(limit) as int)],
        },
        QueryRequest::ListNeighbors { limit, .. } => PlanModel {
            kind: PlanKind::NeighborLookup,
            filters: seq![number_filter("limit"@, limit_or_default(limit) as int)],
        },
        QueryRequest::Traverse { max_hops, limit, timeout_ms, .. } => PlanModel {
            kind: PlanKind::Traversal,
            filters: seq![
                number_filter("max_hops"@, depth_or_default(max_hops) as int),
                number_filter("limit"@, limit_or_default(limit) as int),
                number_filter("timeout_ms"@, timeout_or_default(timeout_ms) as int),
            ],
        },
        QueryRequest::ShortestPath { max_depth, limit, timeout_ms, .. } => PlanModel {
            kind: PlanKind::ShortestPath,
            filters: seq![
                number_filter("max_depth"@, depth_or_default(max_depth) as int),
                number_filter("limit"@, limit_or_default(limit) as int),
                number_filter("timeout_ms"@, timeout_or_default(timeout_ms) as int),
            ],
        },
        QueryRequest::SearchByLabel { label, limit } => PlanModel {
            kind: PlanKind::LabelScan,
            filters: seq![
                text_filter("label"@, label@),
                number_filter("limit"@, limit_or_default(limit) as int),
            ],
        },
        QueryRequest::TimeRange { field, from_epoch_ms, to_epoch_ms, limit } => PlanModel {
            kind: PlanKind::TemporalRange,
            filters: seq![
                text_filter("field"@, field@),
                number_filter("from_epoch_ms"@, from_epoch_ms as int),
                number_filter("to_epoch_ms"@, to_epoch_ms as int),
                number_filter("limit"@, limit as int),
            ],
        },
        QueryRequest::VectorSearch { query_vector, node_type, limit, top_k, .. } => PlanModel {
            kind: PlanKind::VectorSimilarity,
            filters: seq![number_filter("vector_dimensions"@, query_vector@.len() as int)]
                + (match node_type {
                Some(t) => seq![text_filter("node_type"@, t@)],
                None => Seq::empty(),
            }) + seq![number_filter("limit"@, limit as int)] + top_k_filters(top_k),
        },
        QueryRequest::RankedRetrieval { limit, top_k, .. } => PlanModel {
            kind: PlanKind::RankedHybrid,
            filters: seq![number_filter("limit"@, limit as int)] + top_k_filters(top_k),
        },
    }
}

/// Plans queries.
pub struct Planner;

/// Accepts a query vector that is not empty.
pub fn validate_query_vector(query_vector: &[u32]) -> (r: Result<()>)
    ensures
        r is Ok <==> query_vector@.len() > 0,
        r matches Err(e) ==> e@ == ErrorModel::Validation("query_vector must not be empty"@),
{
    if query_vector.len() == 0 {
        return Err(Undr9Error::Validation("query_vector must not be empty".to_owned()));
    }
    Ok(())
}

/// The bounds of a vector query, if they are in order.
fn resolve_budget(limit: usize, top_k: Option<usize>) -> (r: Result<()>)
    ensures
        r is Ok <==> budget_error(limit, top_k) is None,
        r matches Err(e) ==> budget_error(limit, top_k) == Some(e@),
{
    match resolve_required_result_limit(limit) {
        Ok(_) => {},
        Err(error) => {
            return Err(error);
        },
    }
    match top_k {
        Some(k) => match resolve_required_result_limit(k) {
            Ok(_) => Ok(()),
            Err(error) => Err(error),
        },
        None => Ok(()),
    }
}

/// Puts a filter at the end of a list.
fn add_filter(filters: &mut Vec<QueryFilter>, filter: QueryFilter)
    ensures
        models(final(filters)@) == models(old(filters)@).push(filter@),
{
    let ghost held = filters@;
    filters.push(filter);
    proof {
        assert(models(filters@) =~= models(held).push(filter@));
    }
}

impl Planner {
    /// The plan of a request, or what is wrong with it.
    pub fn plan(request: &QueryRequest) -> (r: Result<QueryPlan>)
        ensures
            r is Ok <==> request_error(*request) is None,
            r matches Ok(plan) ==> plan@ == planned(*request),
            r matches Err(e) ==> request_error(*request) == Some(e@),
    {
        let mut filters: Vec<QueryFilter> = Vec::new();
        proof {
            assert(models(filters@) =~= Seq::empty());
        }
        let kind: PlanKind = match request {
            QueryRequest::GetNodeById { .. } => PlanKind::ExactLookup,
            QueryRequest::GetNodeByUniqueKey { unique_key } => {
                add_filter(&mut filters, text_setting("unique_key", unique_key.as_str()));
                PlanKind::ExactLookup
            },
            QueryRequest::FilterNodes { label, limit, .. } => {
                let bound: usize = match resolve_result_limit(*limit) {
                    Ok(l) => l,
                    Err(error) => {
                        return Err(error);
                    },
                };
                match label {
                    Some(l) => {
                        add_filter(&mut filters, text_setting("label", l.as_str()));
                    },
                    None => {},
                }
                add_filter(&mut filters, number_setting("limit", bound as i64));
                PlanKind::LabelScan
            },
            QueryRequest::ListNeighbors { limit, .. } => {
                let bound: usize = match resolve_result_limit(*limit) {
                    Ok(l) => l,
                    Err(error) => {
                        return Err(error);
                    },
                };
                add_filter(&mut filters, number_setting("limit", bound as i64));
                PlanKind::NeighborLookup
            },
            QueryRequest::Traverse { max_hops, limit, timeout_ms, .. } => {
                let runtime: TraversalRuntime = match resolve_traversal_runtime(
                    *max_hops,
                    *limit,
                    *timeout_ms,
                    None,
                ) {
                    Ok(runtime) => runtime,
                    Err(error) => {
                        return Err(error);
                    },
                };
                add_filter(&mut filters, number_setting("max_hops", runtime.max_depth as i64));
                add_filter(&mut filters, number_setting("limit", runtime.limit as i64));
                add_filter(&mut filters, number_setting("timeout_ms", runtime.timeout_ms as i64));
                PlanKind::Traversal
            },
            QueryRequest::ShortestPath { max_depth, limit, timeout_ms, .. } => {
                let runtime: TraversalRuntime = match resolve_traversal_runtime(
                    *max_depth,
                    *limit,
                    *timeout_ms,
                    None,
                ) {
                    Ok(runtime) => runtime,
                    Err(error) => {
                        return Err(error);
                    },
                };
                add_filter(&mut filters, number_setting("max_depth", runtime.max_depth as i64));
                add_filter(&mut filters, number_setting("limit", runtime.limit as i64));
                add_filter(&mut filters, number_setting("timeout_ms", runtime.timeout_ms as i64));
                PlanKind::ShortestPath
            },
            QueryRequest::SearchByLabel { label, limit } => {
                let bound: usize = match resolve_result_limit(*limit) {
                    Ok(l) => l,
                    Err(error) => {
                        return Err(error);
                    },
                };
                add_filter(&mut filters, text_setting("label", label.as_str()));
                add_filter(&mut filters, number_setting("limit", bound as i64));
                PlanKind::LabelScan
            },
            QueryRequest::TimeRange { field, from_epoch_ms, to_epoch_ms, limit } => {
                if *from_epoch_ms > *to_epoch_ms {
                    return Err(
                        Undr9Error::Validation("time range start must be before end".to_owned()),
                    );
                }
                let bound: usize = match resolve_required_result_limit(*limit) {
                    Ok(l) => l,
                    Err(error) => {
                        return Err(error);
                    },
                };
                add_filter(&mut filters, text_setting("field", field.as_str()));
                add_filter(&mut filters, number_setting("from_epoch_ms", *from_epoch_ms));
                add_filter(&mut filters, number_setting("to_epoch_ms", *to_epoch_ms));
                add_filter(&mut filters, number_setting("limit", bound as i64));
                PlanKind::TemporalRange
            },
            QueryRequest::VectorSearch { query_vector, node_type, limit, top_k, .. } => {
                match validate_query_vector(query_vector.as_slice()) {
                    Ok(()) => {},
                    Err(error) => {
                        return Err(error);
                    },
                }
                match resolve_budget(*limit, *top_k) {
                    Ok(()) => {},
                    Err(error) => {
                        return Err(error);
                    },
                }
                add_filter(
                    &mut filters,
                    number_setting("vector_dimensions", query_vector.len() as i64),
                );
                match node_type {
                    Some(t) => {
                        add_filter(&mut filters, text_setting("node_type", t.as_str()));
                    },
                    None => {},
                }
                add_filter(&mut filters, number_setting("limit", *limit as i64));
                match top_k {
                    Some(k) => {
                        add_filter(&mut filters, number_setting("top_k", *k as i64));
                    },
                    None => {},
                }
                PlanKind::VectorSimilarity
            },
            QueryRequest::RankedRetrieval {
                query_vector,
                reference_node_id,
                from_epoch_ms,
                to_epoch_ms,
                limit,
                top_k,
                ..
            } => {
                match query_vector {
                    Some(vector) => match validate_query_vector(vector.as_slice()) {
                        Ok(()) => {},
                        Err(error) => {
                            return Err(error);
                        },
                    },
                    None => {},
                }
                match (from_epoch_ms, to_epoch_ms) {
                    (Some(from), Some(to)) => {
                        if *from > *to {
                            return Err(
                                Undr9Error::Validation(
                                    "ranked retrieval time range start must be before end".to_owned(),
                                ),
                            );
                        }
                    },
                    _ => {},
                }
                if query_vector.is_none() && reference_node_id.is_none() {
                    return Err(
                        Undr9Error::Validation(
                            "ranked retrieval requires at least a query_vector or reference_node_id".to_owned(),
                        ),
                    );
                }
                match resolve_budget(*limit, *top_k) {
                    Ok(()) => {},
                    Err(error) => {
                        return Err(error);
                    },
                }
                add_filter(&mut filters, number_setting("limit", *limit as i64));
                match top_k {
                    Some(k) => {
                        add_filter(&mut filters, number_setting("top_k", *k as i64));
                    },
                    None => {},
                }
                PlanKind::RankedHybrid
            },
        };
        let plan = QueryPlan { kind, filters };
        proof {
            assert(plan@.filters =~= planned(*request).filters);
        }
        Ok(plan)
    }
}

} // verus!
