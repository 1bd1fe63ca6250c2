//! What the service answers.
use std::result::Result as StdResult;
use vstd::prelude::*;
use vstd::string::*;
use vstd::utf8::*;

use crate::auth::{allows, holder, Action, ApiKeyAuthenticator, Authorizer, Principal};
use crate::common::{join2, join3, EdgeId, ErrorModel, NodeId, Undr9Error};
use crate::config::{AuthConfig, AuthModel, MaintenanceConfig};
use crate::ordered::models;
use crate::plan::{PlanKind, QueryRequest};
use crate::records::{EdgeRecord, NodeRecord};
use crate::results::{
    ItemModel, QueryExecution, QueryExecutionItem, QueryResponse, RankedNodeResult, ResponseModel,
};
use crate::text;

verus! {

/// How many items a query may answer with.
pub const MAX_QUERY_RESPONSE_ITEMS: usize = 1_024;

/// How many items a streamed query may answer with.
pub const MAX_STREAM_QUERY_ITEMS: usize = 2_048;

/// How many bytes a streamed query may answer with.
pub const MAX_STREAM_RESPONSE_BYTES: usize = 2_097_152;

// ---------------------------------------------------------------------------------------------
// Errors
// ---------------------------------------------------------------------------------------------

/// The body of an answer that tells of an error.
#[derive(Debug, PartialEq, Eq)]
pub struct ErrorResponse {
    pub code: &'static str,
    pub message: String,
    pub details: Vec<String>,
}

/// An answer that tells of an error.
#[derive(Debug, PartialEq, Eq)]
pub struct ApiError {
    pub status: u16,
    pub body: ErrorResponse,
}

/// The model of an answer that tells of an error.
pub struct ApiErrorModel {
    pub status: u16,
    pub code: Seq<char>,
    pub message: Seq<char>,
    pub details: Seq<Seq<char>>,
}

impl View for ApiError {
    type V = ApiErrorModel;

    open spec fn view(&self) -> ApiErrorModel {
        ApiErrorModel {
            status: self.status,
            code: self.body.code@,
            message: self.body.message@,
            details: models(self.body.details@),
        }
    }
}

/// An error without details.
pub open spec fn plain_error(status: u16, code: Seq<char>, message: Seq<char>) -> ApiErrorModel {
    ApiErrorModel { status, code, message, details: Seq::empty() }
}

/// How an error of the database is answered.
pub open spec fn answer_to(error: ErrorModel) -> ApiErrorModel {
    match error {
        ErrorModel::Validation(m) => plain_error(400, "validation_error"@, m),
        ErrorModel::Conflict(m) => plain_error(409, "conflict"@, m),
        ErrorModel::NotFound(m) => plain_error(404, "not_found"@, m),
        ErrorModel::Corruption(m) => plain_error(500, "corruption"@, m),
        ErrorModel::Io(m) => plain_error(500, "io_error"@, m),
        ErrorModel::Serialization(m) => plain_error(500, "serialization_error"@, m),
    }
}

impl ApiError {
    /// An error without details.
    pub fn new(status: u16, code: &'static str, message: String) -> (r: Self)
        ensures
            r@ == plain_error(status, code@, message@),
    {
        let error: ApiError = ApiError {
            status,
            body: ErrorResponse { code, message, details: Vec::new() },
        };
        proof {
            assert(error@.details =~= Seq::empty());
        }
        error
    }

    /// How an error of the database is answered.
    pub fn from_error(error: Undr9Error) -> (r: Self)
        ensures
            r@ == answer_to(error@),
    {
        match error {
            Undr9Error::Validation(message) => ApiError::new(400, "validation_error", message),
            Undr9Error::Conflict(message) => ApiError::new(409, "conflict", message),
            Undr9Error::NotFound(message) => ApiError::new(404, "not_found", message),
            Undr9Error::Corruption(message) => ApiError::new(500, "corruption", message),
            Undr9Error::Io(message) => ApiError::new(500, "io_error", message),
            Undr9Error::Serialization(message) => ApiError::new(
                500,
                "serialization_error",
                message,
            ),
        }
    }
}

/// What is answered where a node is not there.
pub fn node_not_found(node_id: &NodeId) -> (r: ApiError)
    ensures
        r@ == plain_error(404, "not_found"@, "node '"@ + node_id@ + "' was not found"@),
{
    ApiError::new(404, "not_found", join3("node '", node_id.as_str(), "' was not found"))
}

/// What is answered where an edge is not there.
pub fn edge_not_found(edge_id: &EdgeId) -> (r: ApiError)
    ensures
        r@ == plain_error(404, "not_found"@, "edge '"@ + edge_id@ + "' was not found"@),
{
    ApiError::new(404, "not_found", join3("edge '", edge_id.as_str(), "' was not found"))
}

/// What is answered where a request takes too long.
pub fn request_timeout(request_timeout_ms: u64) -> (r: ApiError)
    ensures
        r@ == plain_error(
            408,
            "request_timeout"@,
            "request exceeded server timeout of "@ + text::decimal(request_timeout_ms as nat)
                + "ms"@,
        ),
{
    let number: String = text::decimal_text(request_timeout_ms as u128);
    ApiError::new(
        408,
        "request_timeout",
        join3("request exceeded server timeout of ", number.as_str(), "ms"),
    )
}

/// What is answered where no metrics are shown.
pub fn metrics_disabled() -> (r: ApiError)
    ensures
        r@ == plain_error(404, "not_found"@, "metrics endpoint is disabled"@),
{
    ApiError::new(404, "not_found", "metrics endpoint is disabled".to_owned())
}

// ---------------------------------------------------------------------------------------------
// Health
// ---------------------------------------------------------------------------------------------

/// How the service is.
#[derive(Debug, PartialEq, Eq)]
pub struct HealthResponse {
    pub service: String,
    pub status: &'static str,
}

/// The answer of a service that runs.
pub fn health(service: &str) -> (r: HealthResponse)
    ensures
        r.service@ == service@,
        r.status@ == "ok"@,
{
    HealthResponse { service: service.to_owned(), status: "ok" }
}

/// The answer of a service that takes requests, or takes no more of them.
pub fn readiness(service: &str, ready: bool) -> (r: (u16, HealthResponse))
    ensures
        r.0 == (if ready {
            200u16
        } else {
            503u16
        }),
        r.1.service@ == service@,
        r.1.status@ == (if ready {
            "ready"@
        } else {
            "draining"@
        }),
{
    if ready {
        (200, HealthResponse { service: service.to_owned(), status: "ready" })
    } else {
        (503, HealthResponse { service: service.to_owned(), status: "draining" })
    }
}

// ---------------------------------------------------------------------------------------------
// Authorization
// ---------------------------------------------------------------------------------------------

/// What is answered to a request whose key does not tell who sends it.
pub open spec fn stranger_error(auth: AuthModel, api_key: Option<Seq<char>>) -> Option<
    ApiErrorModel,
> {
    if !auth.enabled {
        Some(
            plain_error(
                503,
                "auth_disabled"@,
                "authentication is disabled for this deployment; enable auth to serve requests"@,
            ),
        )
    } else {
        match api_key {
            None => Some(plain_error(401, "unauthorized"@, "missing x-api-key header"@)),
            Some(key) => if holder(auth, key) is None {
                Some(plain_error(401, "unauthorized"@, "invalid API key"@))
            } else {
                None
            },
        }
    }
}

/// What is answered to someone whose bucket of tokens is empty, or who may not act so.
pub open spec fn refusal(role: crate::auth::Role, has_token: bool, action: Action) -> Option<
    ApiErrorModel,
> {
    if !has_token {
        Some(plain_error(429, "rate_limited"@, "API key token bucket exhausted"@))
    } else if !allows(role, action) {
        Some(plain_error(403, "forbidden"@, "principal is not authorized for this action"@))
    } else {
        None
    }
}

/// What is answered to a request that is not let through. A token is asked of those only who are
/// known.
pub open spec fn authorization_error(
    auth: AuthModel,
    api_key: Option<Seq<char>>,
    has_token: bool,
    action: Action,
) -> Option<ApiErrorModel> {
    match stranger_error(auth, api_key) {
        Some(error) => Some(error),
        None => refusal(holder(auth, api_key->0)->0.role, has_token, action),
    }
}

/// Finds out who sends a request.
pub fn identify(auth: &AuthConfig, api_key: Option<&str>) -> (r: StdResult<Principal, ApiError>)
    ensures
        r is Ok <==> stranger_error(auth@, text::optional_text(api_key)) is None,
        r matches Ok(principal) ==> holder(auth@, api_key->0@) == Some(principal@),
        r matches Err(e) ==> stranger_error(auth@, text::optional_text(api_key)) == Some(e@),
{
    if !auth.enabled {
        return Err(
            ApiError::new(
                503,
                "auth_disabled",
                "authentication is disabled for this deployment; enable auth to serve requests".to_owned(),
            ),
        );
    }
    match api_key {
        None => Err(ApiError::new(401, "unauthorized", "missing x-api-key header".to_owned())),
        Some(key) => match ApiKeyAuthenticator::authenticate(auth, key) {
            Ok(principal) => Ok(principal),
            Err(_) => Err(ApiError::new(401, "unauthorized", "invalid API key".to_owned())),
        },
    }
}

/// Lets someone through who is known: if there is a token left for them, and they may act so.
pub fn let_through(principal: Principal, has_token: bool, action: Action) -> (r: StdResult<
    Principal,
    ApiError,
>)
    ensures
        r is Ok <==> refusal(principal.role, has_token, action) is None,
        r matches Ok(admitted) ==> admitted@ == principal@,
        r matches Err(e) ==> refusal(principal.role, has_token, action) == Some(e@),
{
    if !has_token {
        return Err(
            ApiError::new(429, "rate_limited", "API key token bucket exhausted".to_owned()),
        );
    }
    let name: String = principal.name.clone();
    let role: crate::auth::Role = principal.role;
    if !Authorizer::is_allowed(principal, action) {
        return Err(
            ApiError::new(
                403,
                "forbidden",
                "principal is not authorized for this action".to_owned(),
            ),
        );
    }
    Ok(Principal { name, role })
}

/// Lets a request through, or says why not.
pub fn authorize(
    auth: &AuthConfig,
    api_key: Option<&str>,
    has_token: bool,
    action: Action,
) -> (r: StdResult<Principal, ApiError>)
    ensures
        ({
            let error = authorization_error(
                auth@,
                text::optional_text(api_key),
                has_token,
                action,
            );
            &&& r is Ok <==> error is None
            &&& r matches Ok(principal) ==> holder(auth@, api_key->0@) == Some(principal@)
            &&& r matches Err(e) ==> error == Some(e@)
        }),
{
    match identify(auth, api_key) {
        Ok(principal) => let_through(principal, has_token, action),
        Err(error) => Err(error),
    }
}

/// Nobody is let through where authentication is disabled, without a key, or without a token; and
/// whoever is let through holds the key, in a role that may act so.
pub proof fn law_requests_fail_closed(
    auth: AuthModel,
    api_key: Option<Seq<char>>,
    has_token: bool,
    action: Action,
)
    ensures
        !auth.enabled || api_key is None || !has_token ==> authorization_error(
            auth,
            api_key,
            has_token,
            action,
        ) is Some,
        authorization_error(auth, api_key, has_token, action) is None ==> (holder(
            auth,
            api_key->0,
        ) matches Some(principal) && allows(principal.role, action)),
        authorization_error(auth, api_key, has_token, action) is None ==> authorization_error(
            auth,
            api_key,
            has_token,
            Action::Read,
        ) is None,
{
}

// ---------------------------------------------------------------------------------------------
// Ids in paths
// ---------------------------------------------------------------------------------------------

/// The id that a path names, if it is one.
pub fn path_node_id(id: &str) -> (r: StdResult<NodeId, ApiError>)
    ensures
        r is Ok <==> crate::common::is_identifier(id@),
        r matches Ok(node_id) ==> node_id@ == id@,
        r matches Err(e) ==> e@ == answer_to(crate::common::identifier_error("node"@, id@)),
{
    match NodeId::new(id) {
        Ok(node_id) => Ok(node_id),
        Err(error) => Err(ApiError::from_error(error)),
    }
}

/// The id that a path names, if it is one.
pub fn path_edge_id(id: &str) -> (r: StdResult<EdgeId, ApiError>)
    ensures
        r is Ok <==> crate::common::is_identifier(id@),
        r matches Ok(edge_id) ==> edge_id@ == id@,
        r matches Err(e) ==> e@ == answer_to(crate::common::identifier_error("edge"@, id@)),
{
    match EdgeId::new(id) {
        Ok(edge_id) => Ok(edge_id),
        Err(error) => Err(ApiError::from_error(error)),
    }
}

/// Accepts a node whose id is the one that the path names.
pub fn check_path_node(id: &str, node: &NodeRecord) -> (r: StdResult<(), ApiError>)
    ensures
        r is Ok <==> crate::common::is_identifier(id@) && id@ == node@.id,
        r matches Err(e) ==> e@ == if crate::common::is_identifier(id@) {
            plain_error(
                400,
                "validation_error"@,
                "path node id does not match request body id"@,
            )
        } else {
            answer_to(crate::common::identifier_error("node"@, id@))
        },
{
    match path_node_id(id) {
        Ok(node_id) => {
            if !text::same_text(node_id.as_str(), node.id.as_str()) {
                return Err(
                    ApiError::new(
                        400,
                        "validation_error",
                        "path node id does not match request body id".to_owned(),
                    ),
                );
            }
            Ok(())
        },
        Err(error) => Err(error),
    }
}

/// Accepts an edge whose id is the one that the path names.
pub fn check_path_edge(id: &str, edge: &EdgeRecord) -> (r: StdResult<(), ApiError>)
    ensures
        r is Ok <==> crate::common::is_identifier(id@) && id@ == edge@.id,
        r matches Err(e) ==> e@ == if crate::common::is_identifier(id@) {
            plain_error(
                400,
                "validation_error"@,
                "path edge id does not match request body id"@,
            )
        } else {
            answer_to(crate::common::identifier_error("edge"@, id@))
        },
{
    match path_edge_id(id) {
        Ok(edge_id) => {
            if !text::same_text(edge_id.as_str(), edge.id.as_str()) {
                return Err(
                    ApiError::new(
                        400,
                        "validation_error",
                        "path edge id does not match request body id".to_owned(),
                    ),
                );
            }
            Ok(())
        },
        Err(error) => Err(error),
    }
}

// ---------------------------------------------------------------------------------------------
// Budgets
// ---------------------------------------------------------------------------------------------

/// How many audit events are to be exported: as many as are asked for, or as many as may be.
pub fn audit_export_limit(requested: Option<usize>, configured_limit: usize) -> (r: StdResult<
    usize,
    ApiError,
>)
    ensures
        ({
            let limit = match requested {
                Some(n) => n,
                None => configured_limit,
            };
            &&& r is Ok <==> 1 <= limit <= configured_limit
            &&& r matches Ok(n) ==> n == limit
            &&& r matches Err(e) ==> e@ == plain_error(
                422,
                "invalid_audit_export_limit"@,
                "audit export limit must be between 1 and "@ + text::decimal(
                    configured_limit as nat,
                ),
            )
        }),
{
    let limit: usize = match requested {
        Some(n) => n,
        None => configured_limit,
    };
    if limit == 0 || limit > configured_limit {
        let number: String = text::decimal_text(configured_limit as u128);
        return Err(
            ApiError::new(
                422,
                "invalid_audit_export_limit",
                join2("audit export limit must be between 1 and ", number.as_str()),
            ),
        );
    }
    Ok(limit)
}

/// How many items an answer to a query holds: a path counts for its nodes and its edges.
pub open spec fn response_items(response: ResponseModel) -> nat {
    response.nodes.len() + response.edges.len() + response.ranked_results.len()
        + match response.path {
        Some(path) => path.node_ids.len() + path.edge_ids.len(),
        None => 0nat,
    }
}

/// Accepts an answer to a query that does not hold too many items.
pub fn enforce_query_response_budget(response: &QueryResponse) -> (r: StdResult<(), ApiError>)
    ensures
        r is Ok <==> response_items(response@) <= MAX_QUERY_RESPONSE_ITEMS,
        r matches Err(e) ==> e@ == plain_error(
            422,
            "query_result_too_large"@,
            "query response exceeded budget: "@ + text::decimal(response_items(response@))
                + " items > 1024"@,
        ),
{
    let of_path: u128 = match &response.path {
        Some(path) => path.node_ids.len() as u128 + path.edge_ids.len() as u128,
        None => 0,
    };
    let total: u128 = response.nodes.len() as u128 + response.edges.len() as u128
        + response.ranked_results.len() as u128 + of_path;
    proof {
        assert(total == response_items(response@));
    }
    if total > MAX_QUERY_RESPONSE_ITEMS as u128 {
        let number: String = text::decimal_text(total);
        return Err(
            ApiError::new(
                422,
                "query_result_too_large",
                join3("query response exceeded budget: ", number.as_str(), " items > 1024"),
            ),
        );
    }
    Ok(())
}

/// The name of the kind of a query.
pub open spec fn kind_name(request: QueryRequest) -> Seq<char> {
    match request {
        QueryRequest::GetNodeById { .. } => "get_node_by_id"@,
        QueryRequest::GetNodeByUniqueKey { .. } => "get_node_by_unique_key"@,
        QueryRequest::FilterNodes { .. } => "filter_nodes"@,
        QueryRequest::ListNeighbors { .. } => "list_neighbors"@,
        QueryRequest::Traverse { .. } => "traverse"@,
        QueryRequest::ShortestPath { .. } => "shortest_path"@,
        QueryRequest::SearchByLabel { .. } => "search_by_label"@,
        QueryRequest::TimeRange { .. } => "time_range"@,
        QueryRequest::VectorSearch { .. } => "vector_search"@,
        QueryRequest::RankedRetrieval { .. } => "ranked_retrieval"@,
    }
}

/// The name of the kind of a query.
pub fn query_request_kind(request: &QueryRequest) -> (r: &'static str)
    ensures
        r@ == kind_name(*request),
{
    match request {
        QueryRequest::GetNodeById { .. } => "get_node_by_id",
        QueryRequest::GetNodeByUniqueKey { .. } => "get_node_by_unique_key",
        QueryRequest::FilterNodes { .. } => "filter_nodes",
        QueryRequest::ListNeighbors { .. } => "list_neighbors",
        QueryRequest::Traverse { .. } => "traverse",
        QueryRequest::ShortestPath { .. } => "shortest_path",
        QueryRequest::SearchByLabel { .. } => "search_by_label",
        QueryRequest::TimeRange { .. } => "time_range",
        QueryRequest::VectorSearch { .. } => "vector_search",
        QueryRequest::RankedRetrieval { .. } => "ranked_retrieval",
    }
}

// ---------------------------------------------------------------------------------------------
// Trace ids
// ---------------------------------------------------------------------------------------------

/// Whether a character is a hexadecimal digit.
pub open spec fn is_hex_digit(c: char) -> bool {
    '0' <= c <= '9' || 'a' <= c <= 'f' || 'A' <= c <= 'F'
}

/// Whether a text is 32 hexadecimal digits.
pub open spec fn is_trace_id(s: Seq<char>) -> bool {
    s.len() == 32 && forall|i: int| 0 <= i < s.len() ==> is_hex_digit(#[trigger] s[i])
}

/// The trace id of a `traceparent` header: the second of its four parts, in small letters.
pub open spec fn trace_id_of(traceparent: Seq<char>) -> Option<Seq<char>> {
    let parts = text::split_pieces(traceparent, '-');
    if parts.len() == 4 && is_trace_id(parts[1]) {
        Some(text::lowercased(parts[1]))
    } else {
        None
    }
}

fn hex_digits(chars: &Vec<char>) -> (r: bool)
    ensures
        r == forall|i: int| 0 <= i < chars@.len() ==> is_hex_digit(#[trigger] chars@[i]),
{
    let mut i: usize = 0;
    while i < chars.len()
        invariant
            i <= chars.len(),
            forall|k: int| 0 <= k < i ==> is_hex_digit(#[trigger] chars@[k]),
        decreases chars.len() - i,
    {
        let c: char = chars[i];
        if !(('0' <= c && c <= '9') || ('a' <= c && c <= 'f') || ('A' <= c && c <= 'F')) {
            return false;
        }
        i = i + 1;
    }
    true
}

/// The trace id of a `traceparent` header, if it is one.
pub fn parse_traceparent_trace_id(traceparent: &str) -> (r: Option<String>)
    ensures
        text::optional_string(r) == trace_id_of(traceparent@),
{
    let parts: Vec<String> = text::split(traceparent, '-');
    if parts.len() != 4 {
        return None;
    }
    let chars: Vec<char> = text::chars_of(parts[1].as_str());
    proof {
        assert(text::split_pieces(traceparent@, '-')[1] == parts@[1]@);
    }
    if chars.len() == 32 && hex_digits(&chars) {
        Some(text::to_lower(parts[1].as_str()))
    } else {
        None
    }
}

/// A trace id made of the time and a running number, 16 hexadecimal digits each.
pub fn generate_trace_id(now_ms: u64, counter: u64) -> (r: String)
    ensures
        r@ == text::hexadecimal(now_ms as nat, 16) + text::hexadecimal(counter as nat, 16),
{
    let time: String = text::hexadecimal_text(now_ms as u128, 16);
    let number: String = text::hexadecimal_text(counter as u128, 16);
    join2(time.as_str(), number.as_str())
}

/// The trace id of a request: that of its header, or else a new one.
pub fn request_trace_id(traceparent: Option<&str>, now_ms: u64, counter: u64) -> (r: String)
    ensures
        r@ == match text::optional_text(traceparent) {
            Some(header) => match trace_id_of(header) {
                Some(id) => id,
                None => text::hexadecimal(now_ms as nat, 16) + text::hexadecimal(
                    counter as nat,
                    16,
                ),
            },
            None => text::hexadecimal(now_ms as nat, 16) + text::hexadecimal(counter as nat, 16),
        },
{
    match traceparent {
        Some(header) => match parse_traceparent_trace_id(header) {
            Some(id) => id,
            None => generate_trace_id(now_ms, counter),
        },
        None => generate_trace_id(now_ms, counter),
    }
}

// ---------------------------------------------------------------------------------------------
// Streams
// ---------------------------------------------------------------------------------------------

/// A line of a streamed answer.
#[derive(Debug, PartialEq, Eq)]
pub enum QueryStreamFrame {
    Meta { plan_kind: PlanKind, retrieval_profile: Option<String> },
    Node { node: NodeRecord },
    Edge { edge: EdgeRecord },
    RankedResult { result: RankedNodeResult },
    Path { path: crate::results::GraphPath },
    End { item_count: usize },
}

/// How many items an item of an answer counts for.
pub open spec fn counted_items(item: ItemModel) -> nat {
    match item {
        ItemModel::Path(path) => path.node_ids.len() + path.edge_ids.len(),
        _ => 1,
    }
}

/// How many items the items of an answer count for.
pub open spec fn counted_all(items: Seq<ItemModel>) -> nat
    decreases items.len(),
{
    if items.len() == 0 {
        0
    } else {
        counted_all(items.drop_last()) + counted_items(items.last())
    }
}

/// The lines of a streamed answer that have been written, and what they come to.
#[derive(Debug, PartialEq, Eq)]
pub struct StreamLines {
    lines: Vec<String>,
    total_bytes: usize,
    item_count: usize,
    ranked_scores: Vec<u32>,
}

/// The model of lines that have been written.
pub struct StreamModel {
    pub lines: Seq<Seq<char>>,
    pub total_bytes: nat,
    pub item_count: nat,
    pub ranked_scores: Seq<u32>,
}

impl View for StreamLines {
    type V = StreamModel;

    closed spec fn view(&self) -> StreamModel {
        StreamModel {
            lines: text::texts(self.lines@),
            total_bytes: self.total_bytes as nat,
            item_count: self.item_count as nat,
            ranked_scores: self.ranked_scores@,
        }
    }
}

/// What is answered where a stream has too many items.
pub open spec fn too_many_items(items: nat) -> ApiErrorModel {
    plain_error(
        422,
        "stream_query_result_too_large"@,
        "stream query response exceeded budget: "@ + text::decimal(items) + " items > 2048"@,
    )
}

/// What is answered where a stream has too many bytes.
pub open spec fn too_many_bytes(bytes: nat) -> ApiErrorModel {
    plain_error(
        422,
        "stream_query_body_too_large"@,
        "stream query body exceeded budget: "@ + text::decimal(bytes) + " bytes > 2097152"@,
    )
}

impl StreamLines {
    #[verifier::type_invariant]
    spec fn within_budget(self) -> bool {
        self.total_bytes <= MAX_STREAM_RESPONSE_BYTES && self.item_count <= MAX_STREAM_QUERY_ITEMS
    }

    /// No line has been written.
    pub fn new() -> (r: Self)
        ensures
            r@ == (StreamModel {
                lines: Seq::empty(),
                total_bytes: 0,
                item_count: 0,
                ranked_scores: Seq::empty(),
            }),
    {
        let lines: Vec<String> = Vec::new();
        proof {
            assert(text::texts(lines@) =~= Seq::empty());
        }
        StreamLines { lines, total_bytes: 0, item_count: 0, ranked_scores: Vec::new() }
    }

    /// The lines and the scores of ranked results.
    pub fn finish(self) -> (r: (Vec<String>, Vec<u32>))
        ensures
            text::texts(r.0@) == self@.lines,
            r.1@ == self@.ranked_scores,
    {
        (self.lines, self.ranked_scores)
    }

    /// How many items have been counted.
    pub fn item_count(&self) -> (r: usize)
        ensures
            r == self@.item_count,
            self@.item_count <= MAX_STREAM_QUERY_ITEMS,
            self@.total_bytes <= MAX_STREAM_RESPONSE_BYTES,
    {
        proof {
            use_type_invariant(self);
        }
        self.item_count
    }

    /// Counts an item, and takes note of its score if it has one, unless it is one too many.
    pub fn count_item(&mut self, item: &QueryExecutionItem) -> (r: StdResult<(), ApiError>)
        ensures
            ({
                let items = old(self)@.item_count + counted_items(item@);
                &&& r is Ok <==> items <= MAX_STREAM_QUERY_ITEMS
                &&& r is Ok ==> final(self)@ == (StreamModel {
                    item_count: items,
                    ranked_scores: match item@ {
                        ItemModel::RankedResult(result) => old(self)@.ranked_scores.push(
                            result.score,
                        ),
                        _ => old(self)@.ranked_scores,
                    },
                    ..old(self)@
                })
                &&& r matches Err(e) ==> final(self)@ == old(self)@ && e@ == too_many_items(items)
            }),
    {
        proof {
            use_type_invariant(&*self);
        }
        let counted: u128 = match item {
            QueryExecutionItem::Path(path) => path.node_ids.len() as u128
                + path.edge_ids.len() as u128,
            _ => 1,
        };
        let items: u128 = self.item_count as u128 + counted;
        if items > MAX_STREAM_QUERY_ITEMS as u128 {
            let number: String = text::decimal_text(items);
            return Err(
                ApiError::new(
                    422,
                    "stream_query_result_too_large",
                    join3(
                        "stream query response exceeded budget: ",
                        number.as_str(),
                        " items > 2048",
                    ),
                ),
            );
        }
        self.item_count = items as usize;
        match item {
            QueryExecutionItem::RankedResult(result) => {
                let mut scores: Vec<u32> = Vec::new();
                std::mem::swap(&mut scores, &mut self.ranked_scores);
                scores.push(result.score);
                self.ranked_scores = scores;
            },
            _ => {},
        }
        Ok(())
    }

    /// Writes a line, with a newline behind it, unless it makes the answer too long.
    pub fn push_line(&mut self, frame: &str) -> (r: StdResult<(), ApiError>)
        ensures
            ({
                let line = frame@ + "\n"@;
                let bytes = old(self)@.total_bytes + encode_utf8(line).len();
                &&& r is Ok <==> bytes <= MAX_STREAM_RESPONSE_BYTES
                &&& r is Ok ==> final(self)@ == (StreamModel {
                    lines: old(self)@.lines.push(line),
                    total_bytes: bytes,
                    ..old(self)@
                })
                &&& r matches Err(e) ==> final(self)@ == old(self)@ && e@ == too_many_bytes(bytes)
            }),
    {
        proof {
            use_type_invariant(&*self);
        }
        let line: String = join2(frame, "\n");
        let bytes: u128 = self.total_bytes as u128 + line.as_str().as_bytes().len() as u128;
        if bytes > MAX_STREAM_RESPONSE_BYTES as u128 {
            let number: String = text::decimal_text(bytes);
            return Err(
                ApiError::new(
                    422,
                    "stream_query_body_too_large",
                    join3(
                        "stream query body exceeded budget: ",
                        number.as_str(),
                        " bytes > 2097152",
                    ),
                ),
            );
        }
        self.total_bytes = bytes as usize;
        let mut lines: Vec<String> = Vec::new();
        let ghost before = self.lines@;
        std::mem::swap(&mut lines, &mut self.lines);
        let ghost text_of_line = line@;
        lines.push(line);
        proof {
            assert(text::texts(lines@) =~= text::texts(before).push(text_of_line));
        }
        self.lines = lines;
        Ok(())
    }
}

/// Lines with one more, unless it makes the answer too long.
pub open spec fn line_added(stream: StreamModel, frame: Seq<char>) -> StdResult<
    StreamModel,
    ApiErrorModel,
> {
    let line = frame + "\n"@;
    let bytes = stream.total_bytes + encode_utf8(line).len();
    if bytes <= MAX_STREAM_RESPONSE_BYTES {
        Ok(StreamModel { lines: stream.lines.push(line), total_bytes: bytes, ..stream })
    } else {
        Err(too_many_bytes(bytes))
    }
}

/// Lines with one more item counted, unless it is one too many.
pub open spec fn item_counted(stream: StreamModel, item: ItemModel) -> StdResult<
    StreamModel,
    ApiErrorModel,
> {
    let items = stream.item_count + counted_items(item);
    if items <= MAX_STREAM_QUERY_ITEMS {
        Ok(
            StreamModel {
                item_count: items,
                ranked_scores: match item {
                    ItemModel::RankedResult(result) => stream.ranked_scores.push(result.score),
                    _ => stream.ranked_scores,
                },
                ..stream
            },
        )
    } else {
        Err(too_many_items(items))
    }
}

/// Lines with those of items behind them, up to the first item or line that is too much.
pub open spec fn items_added(
    stream: StreamModel,
    items: Seq<ItemModel>,
    frames: Seq<Seq<char>>,
) -> StdResult<StreamModel, ApiErrorModel>
    decreases items.len(),
{
    if items.len() == 0 {
        Ok(stream)
    } else {
        match items_added(stream, items.drop_last(), frames.drop_last()) {
            Ok(before) => match item_counted(before, items.last()) {
                Ok(counted) => line_added(counted, frames.last()),
                Err(error) => Err(error),
            },
            Err(error) => Err(error),
        }
    }
}

proof fn lemma_stream_error_stays(
    stream: StreamModel,
    items: Seq<ItemModel>,
    frames: Seq<Seq<char>>,
    i: int,
)
    requires
        items.len() == frames.len(),
        0 <= i <= items.len(),
        items_added(stream, items.take(i), frames.take(i)) is Err,
    ensures
        items_added(stream, items, frames) == items_added(stream, items.take(i), frames.take(i)),
    decreases items.len(),
{
    if i == items.len() {
        assert(items.take(i) =~= items);
        assert(frames.take(i) =~= frames);
    } else {
        assert(items.drop_last().take(i) =~= items.take(i));
        assert(frames.drop_last().take(i) =~= frames.take(i));
        lemma_stream_error_stays(stream, items.drop_last(), frames.drop_last(), i);
    }
}

/// The items of a stream that is not too long count for what it says at its end, and every item has
/// its line.
pub proof fn law_streams_tell_how_many_items_they_hold(
    stream: StreamModel,
    items: Seq<ItemModel>,
    frames: Seq<Seq<char>>,
)
    requires
        items.len() == frames.len(),
    ensures
        items_added(stream, items, frames) matches Ok(end) ==> {
            &&& end.item_count == stream.item_count + counted_all(items)
            &&& end.lines.len() == stream.lines.len() + items.len()
        },
        items.len() > 0 && items_added(stream, items, frames) is Ok ==> items_added(
            stream,
            items,
            frames,
        )->Ok_0.item_count <= MAX_STREAM_QUERY_ITEMS,
    decreases items.len(),
{
    if items.len() > 0 {
        law_streams_tell_how_many_items_they_hold(
            stream,
            items.drop_last(),
            frames.drop_last(),
        );
    }
}

impl StreamLines {
    /// Writes the lines of items, up to the first item or line that is too much.
    pub fn push_items(self, items: &[QueryExecutionItem], frames: &[String]) -> (r: StdResult<
        StreamLines,
        ApiError,
    >)
        requires
            items@.len() == frames@.len(),
        ensures
            match items_added(self@, models(items@), models(frames@)) {
                Ok(end) => r is Ok && r->Ok_0@ == end,
                Err(error) => r is Err && r->Err_0@ == error,
            },
    {
        let ghost start = self@;
        let ghost all = models(items@);
        let ghost texts = models(frames@);
        let mut stream: StreamLines = self;
        let mut i: usize = 0;
        while i < items.len()
            invariant
                i <= items.len(),
                items@.len() == frames@.len(),
                all == models(items@),
                texts == models(frames@),
                start == self@,
                items_added(start, all.take(i as int), texts.take(i as int)) == Ok::<
                    StreamModel,
                    ApiErrorModel,
                >(stream@),
            decreases items.len() - i,
        {
            proof {
                assert(all.take(i + 1).drop_last() =~= all.take(i as int));
                assert(texts.take(i + 1).drop_last() =~= texts.take(i as int));
                assert(all.take(i + 1).last() == items@[i as int]@);
                assert(texts.take(i + 1).last() == frames@[i as int]@);
            }
            match stream.count_item(&items[i]) {
                Ok(_) => {},
                Err(error) => {
                    proof {
                        lemma_stream_error_stays(start, all, texts, i + 1);
                    }
                    return Err(error);
                },
            }
            match stream.push_line(frames[i].as_str()) {
                Ok(_) => {},
                Err(error) => {
                    proof {
                        lemma_stream_error_stays(start, all, texts, i + 1);
                    }
                    return Err(error);
                },
            }
            i = i + 1;
        }
        proof {
            assert(all.take(i as int) =~= all);
            assert(texts.take(i as int) =~= texts);
        }
        Ok(stream)
    }
}

/// The first line of a streamed answer.
pub fn first_frame(execution: &QueryExecution) -> (r: QueryStreamFrame)
    ensures
        r matches QueryStreamFrame::Meta { plan_kind, retrieval_profile } && plan_kind
            == execution.plan_kind && text::optional_string(retrieval_profile)
            == text::optional_string(execution.retrieval_profile),
{
    QueryStreamFrame::Meta {
        plan_kind: execution.plan_kind,
        retrieval_profile: text::copy_optional(&execution.retrieval_profile),
    }
}

/// The line of an item.
pub fn item_frame(item: QueryExecutionItem) -> (r: QueryStreamFrame)
    ensures
        match item {
            QueryExecutionItem::Node(node) => r == (QueryStreamFrame::Node { node }),
            QueryExecutionItem::Edge(edge) => r == (QueryStreamFrame::Edge { edge }),
            QueryExecutionItem::RankedResult(result) => r == (QueryStreamFrame::RankedResult {
                result,
            }),
            QueryExecutionItem::Path(path) => r == (QueryStreamFrame::Path { path }),
        },
{
    match item {
        QueryExecutionItem::Node(node) => QueryStreamFrame::Node { node },
        QueryExecutionItem::Edge(edge) => QueryStreamFrame::Edge { edge },
        QueryExecutionItem::RankedResult(result) => QueryStreamFrame::RankedResult { result },
        QueryExecutionItem::Path(path) => QueryStreamFrame::Path { path },
    }
}

/// The last line of a streamed answer.
pub fn last_frame(stream: &StreamLines) -> (r: QueryStreamFrame)
    ensures
        r matches QueryStreamFrame::End { item_count } && item_count == stream@.item_count,
{
    QueryStreamFrame::End { item_count: stream.item_count() }
}

// ---------------------------------------------------------------------------------------------
// Maintenance
// ---------------------------------------------------------------------------------------------

/// What came of a maintenance operation.
#[derive(Debug, PartialEq, Eq)]
pub struct MaintenanceResponse {
    pub status: &'static str,
    pub operation: &'static str,
    pub elapsed_ms: u64,
    pub detail: String,
}

/// How maintenance stands.
#[derive(Debug, PartialEq, Eq)]
pub struct MaintenanceStatusResponse {
    pub in_progress: bool,
    pub last_operation: Option<String>,
    pub last_outcome: Option<String>,
    pub detail: Option<String>,
    pub started_at_ms: Option<u128>,
    pub finished_at_ms: Option<u128>,
    pub elapsed_ms: Option<u64>,
    pub last_node_count: usize,
    pub last_edge_count: usize,
    pub max_node_count: usize,
    pub max_edge_count: usize,
}

/// The model of how maintenance stands.
pub struct MaintenanceModel {
    pub in_progress: bool,
    pub last_operation: Option<Seq<char>>,
    pub last_outcome: Option<Seq<char>>,
    pub detail: Option<Seq<char>>,
    pub started_at_ms: Option<u128>,
    pub finished_at_ms: Option<u128>,
    pub elapsed_ms: Option<u64>,
    pub last_node_count: usize,
    pub last_edge_count: usize,
    pub max_node_count: usize,
    pub max_edge_count: usize,
}

impl View for MaintenanceStatusResponse {
    type V = MaintenanceModel;

    open spec fn view(&self) -> MaintenanceModel {
        MaintenanceModel {
            in_progress: self.in_progress,
            last_operation: text::optional_string(self.last_operation),
            last_outcome: text::optional_string(self.last_outcome),
            detail: text::optional_string(self.detail),
            started_at_ms: self.started_at_ms,
            finished_at_ms: self.finished_at_ms,
            elapsed_ms: self.elapsed_ms,
            last_node_count: self.last_node_count,
            last_edge_count: self.last_edge_count,
            max_node_count: self.max_node_count,
            max_edge_count: self.max_edge_count,
        }
    }
}

/// Whether a graph is too large for maintenance.
pub open spec fn over_budget(config: MaintenanceConfig, nodes: usize, edges: usize) -> bool {
    nodes > config.max_node_count || edges > config.max_edge_count
}

/// What is answered where a graph is too large for an operation.
pub open spec fn budget_exceeded(
    config: MaintenanceConfig,
    operation: Seq<char>,
    nodes: usize,
    edges: usize,
) -> ApiErrorModel {
    plain_error(
        422,
        "maintenance_budget_exceeded"@,
        "operation '"@ + operation + "' exceeds maintenance budget: nodes="@ + text::decimal(
            nodes as nat,
        ) + "/"@ + text::decimal(config.max_node_count as nat) + " edges="@ + text::decimal(
            edges as nat,
        ) + "/"@ + text::decimal(config.max_edge_count as nat),
    )
}

/// What is noted where a graph is too large for an operation.
pub open spec fn budget_note(config: MaintenanceConfig, nodes: usize, edges: usize) -> Seq<char> {
    "maintenance budget exceeded: nodes="@ + text::decimal(nodes as nat) + " edges="@
        + text::decimal(edges as nat) + " budgets=("@ + text::decimal(config.max_node_count as nat)
        + ","@ + text::decimal(config.max_edge_count as nat) + ")"@
}

impl MaintenanceStatusResponse {
    /// No operation has been started.
    pub fn idle(config: &MaintenanceConfig) -> (r: Self)
        ensures
            r@ == (MaintenanceModel {
                in_progress: false,
                last_operation: None,
                last_outcome: None,
                detail: None,
                started_at_ms: None,
                finished_at_ms: None,
                elapsed_ms: None,
                last_node_count: 0,
                last_edge_count: 0,
                max_node_count: config.max_node_count,
                max_edge_count: config.max_edge_count,
            }),
    {
        MaintenanceStatusResponse {
            in_progress: false,
            last_operation: None,
            last_outcome: None,
            detail: None,
            started_at_ms: None,
            finished_at_ms: None,
            elapsed_ms: None,
            last_node_count: 0,
            last_edge_count: 0,
            max_node_count: config.max_node_count,
            max_edge_count: config.max_edge_count,
        }
    }

    /// Takes note that an operation has started.
    pub fn mark_maintenance_started(
        &mut self,
        config: &MaintenanceConfig,
        operation: &str,
        started_at_ms: u128,
        node_count: usize,
        edge_count: usize,
    )
        ensures
            final(self)@ == (MaintenanceModel {
                in_progress: true,
                last_operation: Some(operation@),
                last_outcome: None,
                detail: Some("maintenance operation in progress"@),
                started_at_ms: Some(started_at_ms),
                finished_at_ms: None,
                elapsed_ms: None,
                last_node_count: node_count,
                last_edge_count: edge_count,
                max_node_count: config.max_node_count,
                max_edge_count: config.max_edge_count,
            }),
    {
        self.in_progress = true;
        self.last_operation = Some(operation.to_owned());
        self.last_outcome = None;
        self.detail = Some("maintenance operation in progress".to_owned());
        self.started_at_ms = Some(started_at_ms);
        self.finished_at_ms = None;
        self.elapsed_ms = None;
        self.last_node_count = node_count;
        self.last_edge_count = edge_count;
        self.max_node_count = config.max_node_count;
        self.max_edge_count = config.max_edge_count;
    }

    /// Takes note of what came of an operation.
    pub fn mark_maintenance_finished(
        &mut self,
        config: &MaintenanceConfig,
        operation: &str,
        outcome: &str,
        detail: &str,
        started_at_ms: u128,
        elapsed_ms: u64,
        node_count: usize,
        edge_count: usize,
    )
        requires
            started_at_ms + elapsed_ms <= u128::MAX,
        ensures
            final(self)@ == (MaintenanceModel {
                in_progress: false,
                last_operation: Some(operation@),
                last_outcome: Some(outcome@),
                detail: Some(detail@),
                started_at_ms: Some(started_at_ms),
                finished_at_ms: Some((started_at_ms + elapsed_ms) as u128),
                elapsed_ms: Some(elapsed_ms),
                last_node_count: node_count,
                last_edge_count: edge_count,
                max_node_count: config.max_node_count,
                max_edge_count: config.max_edge_count,
            }),
    {
        self.in_progress = false;
        self.last_operation = Some(operation.to_owned());
        self.last_outcome = Some(outcome.to_owned());
        self.detail = Some(detail.to_owned());
        self.started_at_ms = Some(started_at_ms);
        self.finished_at_ms = Some(started_at_ms + elapsed_ms as u128);
        self.elapsed_ms = Some(elapsed_ms);
        self.last_node_count = node_count;
        self.last_edge_count = edge_count;
        self.max_node_count = config.max_node_count;
        self.max_edge_count = config.max_edge_count;
    }

    /// Accepts an operation on a graph that is not too large for it; of others, note is taken that
    /// they were rejected.
    pub fn enforce_maintenance_budget(
        &mut self,
        config: &MaintenanceConfig,
        operation: &str,
        now_ms: u128,
        node_count: usize,
        edge_count: usize,
    ) -> (r: StdResult<(), ApiError>)
        ensures
            r is Ok <==> !over_budget(*config, node_count, edge_count),
            r is Ok ==> final(self)@ == old(self)@,
            r matches Err(e) ==> e@ == budget_exceeded(
                *config,
                operation@,
                node_count,
                edge_count,
            ) && final(self)@ == (MaintenanceModel {
                in_progress: false,
                last_operation: Some(operation@),
                last_outcome: Some("rejected"@),
                detail: Some(budget_note(*config, node_count, edge_count)),
                started_at_ms: Some(now_ms),
                finished_at_ms: Some(now_ms),
                elapsed_ms: Some(0),
                last_node_count: node_count,
                last_edge_count: edge_count,
                max_node_count: config.max_node_count,
                max_edge_count: config.max_edge_count,
            }),
    {
        if node_count > config.max_node_count || edge_count > config.max_edge_count {
            let nodes: String = text::decimal_text(node_count as u128);
            let edges: String = text::decimal_text(edge_count as u128);
            let max_nodes: String = text::decimal_text(config.max_node_count as u128);
            let max_edges: String = text::decimal_text(config.max_edge_count as u128);
            let mut note: String = join3(
                "maintenance budget exceeded: nodes=",
                nodes.as_str(),
                " edges=",
            );
            note.append(edges.as_str());
            note.append(" budgets=(");
            note.append(max_nodes.as_str());
            note.append(",");
            note.append(max_edges.as_str());
            note.append(")");
            self.mark_maintenance_finished(
                config,
                operation,
                "rejected",
                note.as_str(),
                now_ms,
                0,
                node_count,
                edge_count,
            );
            let mut message: String = join3(
                "operation '",
                operation,
                "' exceeds maintenance budget: nodes=",
            );
            message.append(nodes.as_str());
            message.append("/");
            message.append(max_nodes.as_str());
            message.append(" edges=");
            message.append(edges.as_str());
            message.append("/");
            message.append(max_edges.as_str());
            return Err(ApiError::new(422, "maintenance_budget_exceeded", message));
        }
        Ok(())
    }
}

} // verus!
