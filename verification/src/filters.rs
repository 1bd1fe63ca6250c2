//! Conditions on nodes.
use vstd::prelude::*;

use crate::rank::{is_number, value_place};
use crate::records::{NodeModel, NodeRecord, PropertyModel, PropertyValue};
use crate::text;

verus! {

/// A condition on a node.
#[derive(Debug, PartialEq, Eq)]
pub enum FilterExpression {
    /// The field has the value.
    Eq { field: String, value: PropertyValue },
    /// The field has a greater value.
    Gt { field: String, value: PropertyValue },
    /// One of the conditions holds.
    Or { conditions: Vec<FilterExpression> },
}

/// The value of a field of a node: its id, its type under the name `label`, or a property.
pub open spec fn field_of(node: NodeModel, field: Seq<char>) -> Option<PropertyModel> {
    if field == "id"@ {
        Some(PropertyModel::String(node.id))
    } else if field == "label"@ {
        Some(PropertyModel::String(node.node_type))
    } else if node.properties.contains_key(field) {
        Some(node.properties[field])
    } else {
        None
    }
}

/// Whether the bits of a double are those of a number, an infinite one among them.
pub open spec fn is_double(bits: u64) -> bool {
    bits <= 0x7ff0_0000_0000_0000 || 0x8000_0000_0000_0000 <= bits <= 0xfff0_0000_0000_0000
}

/// Where a double that is a number stands by its value: both zeros stand at the same place.
pub open spec fn double_place(bits: u64) -> int {
    if bits < 0x8000_0000_0000_0000 {
        bits as int
    } else {
        0x8000_0000_0000_0000 - bits
    }
}

/// Whether two values are the same: of the same kind, and equal. Numbers in floating point are
/// equal by their values, and what is no number equals nothing.
pub open spec fn same_value(a: PropertyModel, b: PropertyModel) -> bool {
    match (a, b) {
        (PropertyModel::Float(x), PropertyModel::Float(y)) => is_double(x) && is_double(y)
            && double_place(x) == double_place(y),
        (PropertyModel::FloatList(x), PropertyModel::FloatList(y)) => x.len() == y.len() && forall|
            i: int,
        |
            0 <= i < x.len() ==> is_number(#[trigger] x[i]) && is_number(y[i]) && value_place(x[i])
                == value_place(y[i]),
        _ => a == b,
    }
}

/// Whether a value is greater than another one: both are integers, or both are numbers in floating
/// point.
pub open spec fn greater_value(a: PropertyModel, b: PropertyModel) -> bool {
    match (a, b) {
        (PropertyModel::Integer(x), PropertyModel::Integer(y)) => x > y,
        (PropertyModel::Float(x), PropertyModel::Float(y)) => is_double(x) && is_double(y)
            && double_place(x) > double_place(y),
        _ => false,
    }
}

/// Whether a node meets a condition.
pub open spec fn meets(filter: FilterExpression, node: NodeModel) -> bool
    decreases filter,
{
    match filter {
        FilterExpression::Eq { field, value } => field_of(node, field@) matches Some(held)
            && same_value(held, value@),
        FilterExpression::Gt { field, value } => field_of(node, field@) matches Some(held)
            && greater_value(held, value@),
        FilterExpression::Or { conditions } => exists|i: int|
            0 <= i < conditions@.len() && meets(#[trigger] conditions@[i], node),
    }
}

/// Whether the bits of a double are those of a number.
fn holds_double(bits: u64) -> (r: bool)
    ensures
        r == is_double(bits),
{
    bits <= 0x7ff0_0000_0000_0000 || (0x8000_0000_0000_0000 <= bits && bits
        <= 0xfff0_0000_0000_0000)
}

/// Where a double that is a number stands by its value.
fn double_place_of(bits: u64) -> (r: i128)
    ensures
        r == double_place(bits),
{
    if bits < 0x8000_0000_0000_0000 {
        bits as i128
    } else {
        0x8000_0000_0000_0000 - bits as i128
    }
}

/// Whether two lists of singles are the same by their values.
fn same_singles(a: &Vec<u32>, b: &Vec<u32>) -> (r: bool)
    ensures
        r == same_value(PropertyModel::FloatList(a@), PropertyModel::FloatList(b@)),
{
    if a.len() != b.len() {
        return false;
    }
    let mut i: usize = 0;
    while i < a.len()
        invariant
            i <= a.len(),
            a.len() == b.len(),
            forall|k: int|
                0 <= k < i ==> is_number(#[trigger] a@[k]) && is_number(b@[k]) && value_place(a@[k])
                    == value_place(b@[k]),
        decreases a.len() - i,
    {
        if !crate::rank::holds_number(a[i]) || !crate::rank::holds_number(b[i])
            || crate::rank::value_place_of(a[i]) != crate::rank::value_place_of(b[i]) {
            assert(!(is_number(a@[i as int]) && is_number(b@[i as int]) && value_place(a@[i as int])
                == value_place(b@[i as int])));
            return false;
        }
        i = i + 1;
    }
    true
}

/// Whether two values are the same.
fn values_are_same(a: &PropertyValue, b: &PropertyValue) -> (r: bool)
    ensures
        r == same_value(a@, b@),
{
    match (a, b) {
        (PropertyValue::String(x), PropertyValue::String(y)) => text::same_text(
            x.as_str(),
            y.as_str(),
        ),
        (PropertyValue::Integer(x), PropertyValue::Integer(y)) => *x == *y,
        (PropertyValue::Float(x), PropertyValue::Float(y)) => holds_double(*x) && holds_double(*y)
            && double_place_of(*x) == double_place_of(*y),
        (PropertyValue::Boolean(x), PropertyValue::Boolean(y)) => *x == *y,
        (PropertyValue::StringList(x), PropertyValue::StringList(y)) => same_texts(x, y),
        (PropertyValue::FloatList(x), PropertyValue::FloatList(y)) => same_singles(x, y),
        _ => false,
    }
}

/// Whether two lists of strings are the same.
fn same_texts(a: &Vec<String>, b: &Vec<String>) -> (r: bool)
    ensures
        r == (text::texts(a@) == text::texts(b@)),
{
    if a.len() != b.len() {
        assert(text::texts(a@).len() != text::texts(b@).len());
        return false;
    }
    let mut i: usize = 0;
    while i < a.len()
        invariant
            i <= a.len(),
            a.len() == b.len(),
            forall|k: int| 0 <= k < i ==> (#[trigger] a@[k])@ == b@[k]@,
        decreases a.len() - i,
    {
        if !text::same_text(a[i].as_str(), b[i].as_str()) {
            assert(text::texts(a@)[i as int] != text::texts(b@)[i as int]);
            return false;
        }
        i = i + 1;
    }
    assert(text::texts(a@) =~= text::texts(b@));
    true
}

/// Whether a value is greater than another one.
fn value_is_greater(a: &PropertyValue, b: &PropertyValue) -> (r: bool)
    ensures
        r == greater_value(a@, b@),
{
    match (a, b) {
        (PropertyValue::Integer(x), PropertyValue::Integer(y)) => *x > *y,
        (PropertyValue::Float(x), PropertyValue::Float(y)) => holds_double(*x) && holds_double(*y)
            && double_place_of(*x) > double_place_of(*y),
        _ => false,
    }
}

/// The value of a field of a node.
fn read_field(node: &NodeRecord, field: &str) -> (r: Option<PropertyValue>)
    ensures
        crate::graph::optional_view(r) == field_of(node@, field@),
{
    if text::same_text(field, "id") {
        return Some(PropertyValue::String(node.id.as_str().to_owned()));
    }
    if text::same_text(field, "label") {
        return Some(PropertyValue::String(node.node_type.clone()));
    }
    match node.property(field) {
        Some(value) => Some(value.clone()),
        None => None,
    }
}

impl FilterExpression {
    /// Whether a node meets the condition.
    pub fn matches_node(&self, node: &NodeRecord) -> (r: bool)
        ensures
            r == meets(*self, node@),
        decreases *self,
    {
        match self {
            FilterExpression::Eq { field, value } => match read_field(node, field.as_str()) {
                Some(held) => values_are_same(&held, value),
                None => false,
            },
            FilterExpression::Gt { field, value } => match read_field(node, field.as_str()) {
                Some(held) => value_is_greater(&held, value),
                None => false,
            },
            FilterExpression::Or { conditions } => {
                let mut i: usize = 0;
                while i < conditions.len()
                    invariant
                        i <= conditions.len(),
                        *self == (FilterExpression::Or { conditions: *conditions }),
                        forall|k: int|
                            0 <= k < i ==> !meets(#[trigger] conditions@[k], node@),
                    decreases conditions.len() - i,
                {
                    proof {
                        assert(decreases_to!(*self => self->conditions));
                        assert(decreases_to!(self->conditions => self->conditions@));
                        assert(decreases_to!(self->conditions@ => self->conditions@[i as int]));
                        assert(self->conditions@[i as int] == conditions@[i as int]);
                    }
                    if conditions[i].matches_node(node) {
                        proof {
                            assert(meets(self->conditions@[i as int], node@));
                            assert(meets(*self, node@));
                        }
                        return true;
                    }
                    i = i + 1;
                }
                false
            },
        }
    }
}

/// The nodes that meet a condition.
pub open spec fn meeting(nodes: Seq<NodeModel>, filter: FilterExpression) -> Seq<NodeModel> {
    nodes.filter(|node: NodeModel| meets(filter, node))
}

} // verus!
