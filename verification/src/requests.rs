//! Which requests are accepted, and what conditions on nodes mean.
use vstd::arithmetic::power2::pow2;
use vstd::prelude::*;
use vstd::string::*;

use crate::filters::{double_place, is_double, meets, FilterExpression};
use crate::memory::profile_error;
use crate::plan::{request_error, QueryRequest};
use crate::records::{NodeModel, PropertyModel, PropertyValue};
use crate::replies::asked_limit;
use crate::tours::{asked_depth, asked_time};

verus! {

// ---------------------------------------------------------------------------------------------
// Requests
// ---------------------------------------------------------------------------------------------

/// Whether a number of results may be asked for: from 1 to 1000.
pub open spec fn may_ask_for(count: int) -> bool {
    1 <= count <= 1000
}

/// Whether the bounds of a walk may be asked for: at least one hop, from 1 to 1000 results, and up
/// to thirty seconds.
pub open spec fn may_walk(
    max_depth: Option<u8>,
    limit: Option<usize>,
    timeout_ms: Option<u64>,
) -> bool {
    asked_depth(max_depth) >= 1 && may_ask_for(asked_limit(limit)) && 1 <= asked_time(timeout_ms)
        <= 30000
}

/// A request is accepted exactly if its bounds may be asked for; and if, besides, a span of time
/// does not end before it begins, a query vector is not empty, and a ranked retrieval has a query
/// vector or a reference node.
pub proof fn law_accepted_requests(request: QueryRequest)
    ensures
        request_error(request) is None <==> match request {
            QueryRequest::GetNodeById { .. } => true,
            QueryRequest::GetNodeByUniqueKey { .. } => true,
            QueryRequest::FilterNodes { limit, .. } => may_ask_for(asked_limit(limit)),
            QueryRequest::ListNeighbors { limit, .. } => may_ask_for(asked_limit(limit)),
            QueryRequest::SearchByLabel { limit, .. } => may_ask_for(asked_limit(limit)),
            QueryRequest::Traverse { max_hops, limit, timeout_ms, .. } => may_walk(
                max_hops,
                limit,
                timeout_ms,
            ),
            QueryRequest::ShortestPath { max_depth, limit, timeout_ms, .. } => may_walk(
                max_depth,
                limit,
                timeout_ms,
            ),
            QueryRequest::TimeRange { from_epoch_ms, to_epoch_ms, limit, .. } => from_epoch_ms
                <= to_epoch_ms && may_ask_for(limit as int),
            QueryRequest::VectorSearch { query_vector, limit, top_k, .. } => query_vector@.len() > 0
                && may_ask_for(limit as int) && (top_k matches Some(k) ==> may_ask_for(k as int)),
            QueryRequest::RankedRetrieval {
                query_vector,
                reference_node_id,
                from_epoch_ms,
                to_epoch_ms,
                limit,
                top_k,
                ..
            } => {
                &&& query_vector is Some || reference_node_id is Some
                &&& query_vector matches Some(vector) ==> vector@.len() > 0
                &&& from_epoch_ms matches Some(from) ==> (to_epoch_ms matches Some(to) ==> from
                    <= to)
                &&& may_ask_for(limit as int)
                &&& top_k matches Some(k) ==> may_ask_for(k as int)
            },
        },
{
}

/// A profile for ranked retrieval is accepted exactly if none is named, or the only one there is.
pub proof fn law_accepted_profiles(name: Option<Seq<char>>)
    ensures
        profile_error(name) is None <==> (name matches Some(n) ==> n == "v1-default"@),
{
}

// ---------------------------------------------------------------------------------------------
// Conditions
// ---------------------------------------------------------------------------------------------

/// A node meets one of several conditions exactly if it meets some of them.
pub proof fn law_one_of_several_conditions(conditions: Vec<FilterExpression>, node: NodeModel)
    ensures
        meets(FilterExpression::Or { conditions }, node) <==> exists|i: int|
            0 <= i < conditions@.len() && meets(#[trigger] conditions@[i], node),
{
    reveal_with_fuel(meets, 2);
    let all = FilterExpression::Or { conditions };
    if meets(all, node) {
        let i = choose|i: int| 0 <= i < conditions@.len() && meets(#[trigger] conditions@[i], node);
        assert(meets(conditions@[i], node));
    }
    if exists|i: int| 0 <= i < conditions@.len() && meets(#[trigger] conditions@[i], node) {
        let i = choose|i: int| 0 <= i < conditions@.len() && meets(#[trigger] conditions@[i], node);
        assert(decreases_to!(all => all->conditions));
        assert(decreases_to!(all->conditions => all->conditions@));
        assert(decreases_to!(all->conditions@ => all->conditions@[i]));
        assert(meets(all->conditions@[i], node));
    }
}

/// A node meets a condition that its id or its label be a string exactly if it is; and none that
/// they be greater than anything.
pub proof fn law_conditions_on_ids_and_labels(field: String, value: PropertyValue, node: NodeModel)
    requires
        field@ == "id"@ || field@ == "label"@,
    ensures
        meets(FilterExpression::Eq { field, value }, node) <==> value@ == PropertyModel::String(
            if field@ == "id"@ {
                node.id
            } else {
                node.node_type
            },
        ),
        !meets(FilterExpression::Gt { field, value }, node),
{
    reveal_strlit("id");
    reveal_strlit("label");
    assert("id"@ != "label"@) by {
        assert("id"@.len() != "label"@.len());
    }
}

/// On a property, a condition with an integer holds exactly of the integers that are equal to it, or
/// greater; one with a string, of that string alone; and none holds of a node without the property.
pub proof fn law_conditions_on_properties(field: String, value: PropertyValue, node: NodeModel)
    requires
        field@ != "id"@,
        field@ != "label"@,
    ensures
        !node.properties.contains_key(field@) ==> !meets(FilterExpression::Eq { field, value }, node)
            && !meets(FilterExpression::Gt { field, value }, node),
        value@ matches PropertyModel::Integer(n) ==> {
            &&& meets(FilterExpression::Eq { field, value }, node) <==> node.properties.contains_key(
                field@,
            ) && node.properties[field@] == PropertyModel::Integer(n)
            &&& meets(FilterExpression::Gt { field, value }, node) <==> node.properties.contains_key(
                field@,
            ) && (node.properties[field@] matches PropertyModel::Integer(held) && held > n)
        },
        value@ matches PropertyModel::String(s) ==> {
            &&& meets(FilterExpression::Eq { field, value }, node) <==> node.properties.contains_key(
                field@,
            ) && node.properties[field@] == PropertyModel::String(s)
            &&& !meets(FilterExpression::Gt { field, value }, node)
        },
        value@ matches PropertyModel::Boolean(b) ==> {
            &&& meets(FilterExpression::Eq { field, value }, node) <==> node.properties.contains_key(
                field@,
            ) && node.properties[field@] == PropertyModel::Boolean(b)
            &&& !meets(FilterExpression::Gt { field, value }, node)
        },
        value@ matches PropertyModel::Float(b) ==> {
            &&& meets(FilterExpression::Eq { field, value }, node) <==> node.properties.contains_key(
                field@,
            ) && (node.properties[field@] matches PropertyModel::Float(held) && is_double(held)
                && is_double(b) && double_of(held) == double_of(b))
            &&& meets(FilterExpression::Gt { field, value }, node) <==> node.properties.contains_key(
                field@,
            ) && (node.properties[field@] matches PropertyModel::Float(held) && is_double(held)
                && is_double(b) && double_of(held) > double_of(b))
        },
{
    if node.properties.contains_key(field@) {
        if let PropertyModel::Float(held) = node.properties[field@] {
            if let PropertyModel::Float(b) = value@ {
                if is_double(held) && is_double(b) {
                    law_doubles_are_compared_as_numbers(held, b);
                    law_doubles_are_compared_as_numbers(b, held);
                }
            }
        }
    }
}

// ---------------------------------------------------------------------------------------------
// Doubles
// ---------------------------------------------------------------------------------------------

/// How large a double is whose sign is clear, in units of the least one above zero: the fraction
/// alone below the normal numbers, and else the fraction with its leading one, doubled for every
/// step of the exponent. An infinite one comes out larger than every finite one.
pub open spec fn double_size(bits: int) -> int {
    let exponent = bits / 0x10_0000_0000_0000;
    let fraction = bits % 0x10_0000_0000_0000;
    if exponent == 0 {
        fraction
    } else {
        (0x10_0000_0000_0000 + fraction) * pow2((exponent - 1) as nat)
    }
}

/// The number that the bits of a double stand for, in units of the least one above zero.
pub open spec fn double_of(bits: u64) -> int {
    if bits < 0x8000_0000_0000_0000 {
        double_size(bits as int)
    } else {
        -double_size(bits - 0x8000_0000_0000_0000)
    }
}

proof fn lemma_size_at(e: int, f: int)
    requires
        0 <= e,
        0 <= f < 0x10_0000_0000_0000,
    ensures
        double_size(e * 0x10_0000_0000_0000 + f) == if e == 0 {
            f
        } else {
            (0x10_0000_0000_0000 + f) * pow2((e - 1) as nat)
        },
{
    let bits = e * 0x10_0000_0000_0000 + f;
    assert(bits / 0x10_0000_0000_0000 == e && bits % 0x10_0000_0000_0000 == f);
}

/// Doubles of a greater exponent are larger.
proof fn lemma_exponents(e: int, f: int, g: int, h: int)
    requires
        0 <= e < g,
        0 <= f < 0x10_0000_0000_0000,
        0 <= h < 0x10_0000_0000_0000,
    ensures
        double_size(e * 0x10_0000_0000_0000 + f) < double_size(g * 0x10_0000_0000_0000 + h),
{
    lemma_size_at(e, f);
    lemma_size_at(g, h);
    let q = pow2((g - 1) as nat) as int;
    vstd::arithmetic::power2::lemma_pow2_pos((g - 1) as nat);
    assert((0x10_0000_0000_0000 + h) * q >= 0x10_0000_0000_0000 * q) by (nonlinear_arith)
        requires
            h >= 0,
            q > 0,
    ;
    if e > 0 {
        let p = pow2((e - 1) as nat) as int;
        vstd::arithmetic::power2::lemma_pow2_pos((e - 1) as nat);
        vstd::arithmetic::power2::lemma_pow2_unfold(e as nat);
        if e < g - 1 {
            vstd::arithmetic::power2::lemma_pow2_strictly_increases(e as nat, (g - 1) as nat);
        }
        assert(q >= 2 * p);
        assert((0x10_0000_0000_0000 + f) * p < 0x10_0000_0000_0000 * q) by (nonlinear_arith)
            requires
                f < 0x10_0000_0000_0000,
                p > 0,
                q >= 2 * p,
        ;
    } else {
        assert(f < 0x10_0000_0000_0000 * q) by (nonlinear_arith)
            requires
                f < 0x10_0000_0000_0000,
                q > 0,
        ;
    }
}

proof fn lemma_double_grows(a: int, b: int)
    requires
        0 <= a < b,
    ensures
        double_size(a) < double_size(b),
{
    let e = a / 0x10_0000_0000_0000;
    let f = a % 0x10_0000_0000_0000;
    let g = b / 0x10_0000_0000_0000;
    let h = b % 0x10_0000_0000_0000;
    assert(a == e * 0x10_0000_0000_0000 + f);
    assert(b == g * 0x10_0000_0000_0000 + h);
    if e < g {
        lemma_exponents(e, f, g, h);
    } else {
        assert(e == g && f < h);
        lemma_size_at(e, f);
        lemma_size_at(g, h);
        if e > 0 {
            let p = pow2((e - 1) as nat) as int;
            vstd::arithmetic::power2::lemma_pow2_pos((e - 1) as nat);
            assert((0x10_0000_0000_0000 + f) * p < (0x10_0000_0000_0000 + h) * p) by (
            nonlinear_arith)
                requires
                    f < h,
                    p > 0,
            ;
        }
    }
}

/// Numbers in floating point are compared by the numbers that they are.
pub proof fn law_doubles_are_compared_as_numbers(a: u64, b: u64)
    requires
        is_double(a),
        is_double(b),
    ensures
        double_of(a) < double_of(b) <==> double_place(a) < double_place(b),
        double_of(a) == double_of(b) <==> double_place(a) == double_place(b),
{
    let x = if a < 0x8000_0000_0000_0000 {
        a as int
    } else {
        a - 0x8000_0000_0000_0000
    };
    let y = if b < 0x8000_0000_0000_0000 {
        b as int
    } else {
        b - 0x8000_0000_0000_0000
    };
    assert(double_size(0) == 0);
    if x < y {
        lemma_double_grows(x, y);
    }
    if y < x {
        lemma_double_grows(y, x);
    }
    if x > 0 {
        lemma_double_grows(0, x);
    }
    if y > 0 {
        lemma_double_grows(0, y);
    }
}

/// A double is no number exactly if its exponent is the greatest and its fraction is not zero.
pub proof fn law_what_is_no_double(bits: u64)
    ensures
        is_double(bits) <==> !((bits / 0x10_0000_0000_0000) % 0x800 == 0x7ff && bits
            % 0x10_0000_0000_0000 != 0),
{
}

} // verus!
