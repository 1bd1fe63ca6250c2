//! Node and edge records, write batches and transactions.
//!
//! Floating-point values are held as their IEEE 754 bits: a `Float` property as the 64 bits of a
//! double, the components of a vector as the 32 bits of a single each.
use vstd::arithmetic::power2::{
    lemma2_to64, lemma2_to64_rest, lemma_pow2_adds, lemma_pow2_pos, lemma_pow2_strictly_increases,
    lemma_pow2_unfold, pow2,
};
use vstd::prelude::*;
use vstd::string::*;

use crate::common::{join2, EdgeId, ErrorModel, NodeId, Result, TransactionId, Undr9Error};
use crate::ordered::{models, replicate_items, OrderedMap, Replicate};
use crate::text;

verus! {

/// A property of a node or an edge.
#[derive(Debug, PartialEq, Eq)]
pub enum PropertyValue {
    String(String),
    Integer(i64),
    /// The bits of a double.
    Float(u64),
    Boolean(bool),
    StringList(Vec<String>),
    /// The bits of one single per item.
    FloatList(Vec<u32>),
}

/// The model of a property.
pub enum PropertyModel {
    String(Seq<char>),
    Integer(i64),
    Float(u64),
    Boolean(bool),
    StringList(Seq<Seq<char>>),
    FloatList(Seq<u32>),
}

impl View for PropertyValue {
    type V = PropertyModel;

    open spec fn view(&self) -> PropertyModel {
        match self {
            PropertyValue::String(s) => PropertyModel::String(s@),
            PropertyValue::Integer(n) => PropertyModel::Integer(*n),
            PropertyValue::Float(b) => PropertyModel::Float(*b),
            PropertyValue::Boolean(b) => PropertyModel::Boolean(*b),
            PropertyValue::StringList(l) => PropertyModel::StringList(text::texts(l@)),
            PropertyValue::FloatList(l) => PropertyModel::FloatList(l@),
        }
    }
}

/// A copy of the bits of a vector.
pub fn copy_bits(bits: &Vec<u32>) -> (r: Vec<u32>)
    ensures
        r@ == bits@,
{
    let mut out: Vec<u32> = Vec::new();
    let mut i: usize = 0;
    while i < bits.len()
        invariant
            i <= bits.len(),
            out@ == bits@.subrange(0, i as int),
        decreases bits.len() - i,
    {
        out.push(bits[i]);
        i = i + 1;
        proof {
            assert(out@ =~= bits@.subrange(0, i as int));
        }
    }
    proof {
        assert(out@ =~= bits@);
    }
    out
}

impl Replicate for Vec<u32> {
    fn replicate(&self) -> (r: Self) {
        copy_bits(self)
    }
}

impl Replicate for PropertyValue {
    fn replicate(&self) -> (r: Self) {
        match self {
            PropertyValue::String(s) => PropertyValue::String(s.clone()),
            PropertyValue::Integer(n) => PropertyValue::Integer(*n),
            PropertyValue::Float(b) => PropertyValue::Float(*b),
            PropertyValue::Boolean(b) => PropertyValue::Boolean(*b),
            PropertyValue::StringList(l) => PropertyValue::StringList(text::copy_texts(l)),
            PropertyValue::FloatList(l) => PropertyValue::FloatList(copy_bits(l)),
        }
    }
}

impl Clone for PropertyValue {
    fn clone(&self) -> (r: PropertyValue)
        ensures
            r@ == self@,
    {
        self.replicate()
    }
}

// ---------------------------------------------------------------------------------------------
// Doubles as integers
// ---------------------------------------------------------------------------------------------

/// The exponent field of a double.
pub open spec fn double_exponent(bits: u64) -> int {
    (bits as int / 0x10_0000_0000_0000) % 2048
}

/// The fraction field of a double.
pub open spec fn double_fraction(bits: u64) -> int {
    bits as int % 0x10_0000_0000_0000
}

/// The sign bit of a double.
pub open spec fn double_negative(bits: u64) -> bool {
    bits >= 0x8000_0000_0000_0000
}

/// The absolute value of a finite double without its fractional part.
pub open spec fn double_magnitude(bits: u64) -> nat {
    let exponent = double_exponent(bits);
    let fraction = double_fraction(bits);
    let significand = if exponent == 0 {
        fraction
    } else {
        fraction + 0x10_0000_0000_0000
    };
    let scale = if exponent == 0 {
        1 - 1075
    } else {
        exponent - 1075
    };
    if scale >= 0 {
        (significand * pow2(scale as nat)) as nat
    } else {
        (significand / pow2((-scale) as nat) as int) as nat
    }
}

/// A number brought into the range of `i64`.
pub open spec fn clamp_i64(n: int) -> int {
    if n > i64::MAX {
        i64::MAX as int
    } else if n < i64::MIN {
        i64::MIN as int
    } else {
        n
    }
}

/// A double as an integer: its fractional part is dropped, what lies outside the range of `i64`
/// becomes the nearest end of it, and what is not a number becomes zero.
pub open spec fn double_as_integer(bits: u64) -> int {
    if double_exponent(bits) == 2047 {
        if double_fraction(bits) != 0 {
            0
        } else if double_negative(bits) {
            i64::MIN as int
        } else {
            i64::MAX as int
        }
    } else if double_negative(bits) {
        clamp_i64(-(double_magnitude(bits) as int))
    } else {
        clamp_i64(double_magnitude(bits) as int)
    }
}

/// A power of two.
fn power_of_two(n: u32) -> (r: u64)
    requires
        n < 64,
    ensures
        r == pow2(n as nat),
{
    let mut p: u64 = 1;
    let mut i: u32 = 0;
    proof {
        lemma2_to64();
    }
    while i < n
        invariant
            i <= n < 64,
            p == pow2(i as nat),
        decreases n - i,
    {
        proof {
            lemma2_to64();
            lemma2_to64_rest();
            lemma_pow2_unfold((i + 1) as nat);
            if i + 1 < 63 {
                lemma_pow2_strictly_increases((i + 1) as nat, 63);
            }
        }
        p = p * 2;
        i = i + 1;
    }
    p
}

/// The absolute value of a finite double without its fractional part, cut off at two to the 63.
fn magnitude(exponent: u64, fraction: u64) -> (r: u64)
    requires
        exponent < 2047,
        fraction < 0x10_0000_0000_0000,
    ensures
        r <= 0x8000_0000_0000_0000,
        ({
            let significand = if exponent == 0 {
                fraction as int
            } else {
                fraction + 0x10_0000_0000_0000
            };
            let scale = if exponent == 0 {
                1 - 1075
            } else {
                exponent - 1075
            };
            let m = if scale >= 0 {
                significand * pow2(scale as nat)
            } else {
                significand / pow2((-scale) as nat) as int
            };
            if m >= 0x8000_0000_0000_0000 {
                r == 0x8000_0000_0000_0000
            } else {
                r == m
            }
        }),
{
    let significand: u64 = if exponent == 0 { fraction } else { fraction + 0x10_0000_0000_0000 };
    proof {
        lemma2_to64();
        lemma2_to64_rest();
        assert(pow2(52) == 0x10_0000_0000_0000);
        assert(pow2(53) == 0x20_0000_0000_0000);
        assert(pow2(63) == 0x8000_0000_0000_0000);
    }
    if exponent >= 1075 {
        let scale: u64 = exponent - 1075;
        if scale >= 11 {
            proof {
                lemma_pow2_adds(52, scale as nat);
                if 52 + scale > 63 {
                    lemma_pow2_strictly_increases(63, (52 + scale) as nat);
                }
                lemma_pow2_pos(scale as nat);
                assert(significand * pow2(scale as nat) >= pow2(52) * pow2(scale as nat))
                    by (nonlinear_arith)
                    requires
                        significand >= pow2(52),
                        pow2(scale as nat) >= 0,
                ;
            }
            0x8000_0000_0000_0000
        } else {
            let p: u64 = power_of_two(scale as u32);
            proof {
                lemma_pow2_adds(53, scale as nat);
                lemma_pow2_adds(52, scale as nat);
                if 53 + scale < 63 {
                    lemma_pow2_strictly_increases((53 + scale) as nat, 63);
                }
                assert(significand * p <= pow2(53) * p) by (nonlinear_arith)
                    requires
                        significand <= pow2(53),
                        p >= 0,
                ;
            }
            significand * p
        }
    } else {
        let scale: u64 = if exponent == 0 { 1074 } else { 1075 - exponent };
        if scale >= 54 {
            proof {
                lemma_pow2_strictly_increases(53, scale as nat);
                assert(significand as int / pow2(scale as nat) as int == 0) by (nonlinear_arith)
                    requires
                        0 <= significand < pow2(scale as nat),
                ;
            }
            0
        } else {
            let p: u64 = power_of_two(scale as u32);
            proof {
                lemma_pow2_pos(scale as nat);
                assert(significand / p <= significand) by (nonlinear_arith)
                    requires
                        p > 0,
                ;
            }
            significand / p
        }
    }
}

/// A double as an integer: see [`double_as_integer`].
pub fn integer_from_double(bits: u64) -> (r: i64)
    ensures
        r == double_as_integer(bits),
{
    let exponent: u64 = (bits / 0x10_0000_0000_0000) % 2048;
    let fraction: u64 = bits % 0x10_0000_0000_0000;
    let negative: bool = bits >= 0x8000_0000_0000_0000;
    if exponent == 2047 {
        if fraction != 0 {
            0
        } else if negative {
            i64::MIN
        } else {
            i64::MAX
        }
    } else {
        let m: u64 = magnitude(exponent, fraction);
        if m >= 0x8000_0000_0000_0000 {
            if negative {
                i64::MIN
            } else {
                i64::MAX
            }
        } else if negative {
            -(m as i64)
        } else {
            m as i64
        }
    }
}

impl PropertyModel {
    /// The property as an integer, where it is a number.
    pub open spec fn integer(self) -> Option<int> {
        match self {
            PropertyModel::Integer(n) => Some(n as int),
            PropertyModel::Float(b) => Some(double_as_integer(b)),
            _ => None,
        }
    }

    /// Whether the property is a number.
    pub open spec fn is_number(self) -> bool {
        self is Integer || self is Float
    }
}

/// An optional machine integer as an optional integer.
pub open spec fn optional_int(n: Option<i64>) -> Option<int> {
    match n {
        Some(n) => Some(n as int),
        None => None,
    }
}

impl PropertyValue {
    /// The property as an integer, where it is a number.
    pub fn as_i64(&self) -> (r: Option<i64>)
        ensures
            optional_int(r) == self@.integer(),
    {
        match self {
            PropertyValue::Integer(value) => Some(*value),
            PropertyValue::Float(bits) => Some(integer_from_double(*bits)),
            _ => None,
        }
    }

    /// Whether the property is a number.
    pub fn is_number(&self) -> (r: bool)
        ensures
            r == self@.is_number(),
    {
        match self {
            PropertyValue::Integer(_) => true,
            PropertyValue::Float(_) => true,
            _ => false,
        }
    }
}

// ---------------------------------------------------------------------------------------------
// Records
// ---------------------------------------------------------------------------------------------

/// A node of the graph.
#[derive(Debug, PartialEq, Eq)]
pub struct NodeRecord {
    pub id: NodeId,
    pub node_type: String,
    pub properties: OrderedMap<String, PropertyValue>,
    pub vectors: OrderedMap<String, Vec<u32>>,
}

/// An edge of the graph.
#[derive(Debug, PartialEq, Eq)]
pub struct EdgeRecord {
    pub id: EdgeId,
    pub source: NodeId,
    pub target: NodeId,
    pub edge_type: String,
    pub properties: OrderedMap<String, PropertyValue>,
}

/// The model of a node.
pub struct NodeModel {
    pub id: Seq<char>,
    pub node_type: Seq<char>,
    pub properties: Map<Seq<char>, PropertyModel>,
    pub vectors: Map<Seq<char>, Seq<u32>>,
}

/// The model of an edge.
pub struct EdgeModel {
    pub id: Seq<char>,
    pub source: Seq<char>,
    pub target: Seq<char>,
    pub edge_type: Seq<char>,
    pub properties: Map<Seq<char>, PropertyModel>,
}

impl View for NodeRecord {
    type V = NodeModel;

    open spec fn view(&self) -> NodeModel {
        NodeModel {
            id: self.id@,
            node_type: self.node_type@,
            properties: self.properties@,
            vectors: self.vectors@,
        }
    }
}

impl View for EdgeRecord {
    type V = EdgeModel;

    open spec fn view(&self) -> EdgeModel {
        EdgeModel {
            id: self.id@,
            source: self.source@,
            target: self.target@,
            edge_type: self.edge_type@,
            properties: self.properties@,
        }
    }
}

impl Replicate for NodeRecord {
    fn replicate(&self) -> (r: Self) {
        NodeRecord {
            id: self.id.clone(),
            node_type: self.node_type.clone(),
            properties: self.properties.replicate(),
            vectors: self.vectors.replicate(),
        }
    }
}

impl Replicate for EdgeRecord {
    fn replicate(&self) -> (r: Self) {
        EdgeRecord {
            id: self.id.clone(),
            source: self.source.clone(),
            target: self.target.clone(),
            edge_type: self.edge_type.clone(),
            properties: self.properties.replicate(),
        }
    }
}

impl Clone for NodeRecord {
    fn clone(&self) -> (r: NodeRecord)
        ensures
            r@ == self@,
    {
        self.replicate()
    }
}

impl Clone for EdgeRecord {
    fn clone(&self) -> (r: EdgeRecord)
        ensures
            r@ == self@,
    {
        self.replicate()
    }
}

/// Accepts a kind that is not blank.
pub fn validate_kind(field: &str, value: &str) -> (r: Result<()>)
    ensures
        r is Ok <==> !text::is_blank(value@),
        r matches Err(e) ==> e@ == ErrorModel::Validation(field@ + " cannot be empty"@),
{
    if text::blank(value) {
        return Err(Undr9Error::Validation(join2(field, " cannot be empty")));
    }
    Ok(())
}

/// Accepts a property key that is not blank.
pub fn validate_property_key(key: &str) -> (r: Result<()>)
    ensures
        r is Ok <==> !text::is_blank(key@),
        r matches Err(e) ==> e@ == ErrorModel::Validation("property key cannot be empty"@),
{
    if text::blank(key) {
        return Err(Undr9Error::Validation("property key cannot be empty".to_owned()));
    }
    Ok(())
}

/// The message for a node that carries its vector among its properties.
pub open spec fn embedding_property_message() -> Seq<char> {
    "embedding is no longer supported in properties; send vectors.default or another named vector in the vectors map"@
}

impl NodeModel {
    /// A node of a type, without properties and vectors.
    pub open spec fn bare(id: Seq<char>, node_type: Seq<char>) -> NodeModel {
        NodeModel { id, node_type, properties: Map::empty(), vectors: Map::empty() }
    }

    /// The property of a key.
    pub open spec fn property(self, key: Seq<char>) -> Option<PropertyModel> {
        if self.properties.contains_key(key) {
            Some(self.properties[key])
        } else {
            None
        }
    }

    /// The property of a key as an integer.
    pub open spec fn integer_property(self, key: Seq<char>) -> Option<int> {
        match self.property(key) {
            Some(value) => value.integer(),
            None => None,
        }
    }

    /// The time of a node.
    pub open spec fn timestamp(self) -> Option<int> {
        self.integer_property("timestamp"@)
    }

    /// The unique key of a node: its `unique_key` property, if that is a string.
    pub open spec fn unique_key(self) -> Option<Seq<char>> {
        match self.property("unique_key"@) {
            Some(PropertyModel::String(key)) => Some(key),
            _ => None,
        }
    }

    /// What is wrong with the memory metadata of a node, if anything is: a vector among the
    /// properties, or a time, importance or confidence that is not a number.
    pub open spec fn metadata_error(self) -> Option<ErrorModel> {
        if self.properties.contains_key("embedding"@) {
            Some(ErrorModel::Validation(embedding_property_message()))
        } else if self.properties.contains_key("timestamp"@)
            && !self.properties["timestamp"@].is_number() {
            Some(ErrorModel::Validation("timestamp must be an integer-compatible value"@))
        } else if self.properties.contains_key("importance"@)
            && !self.properties["importance"@].is_number() {
            Some(ErrorModel::Validation("importance"@ + " must be a float-compatible value"@))
        } else if self.properties.contains_key("confidence"@)
            && !self.properties["confidence"@].is_number() {
            Some(ErrorModel::Validation("confidence"@ + " must be a float-compatible value"@))
        } else {
            None
        }
    }
}

impl NodeRecord {
    /// A node of a type, without properties and vectors; the type must not be blank.
    pub fn new(id: NodeId, node_type: &str) -> (r: Result<NodeRecord>)
        ensures
            r is Ok <==> !text::is_blank(node_type@),
            r matches Ok(node) ==> node@ == NodeModel::bare(id@, node_type@),
            r matches Err(e) ==> e@ == ErrorModel::Validation("node_type"@ + " cannot be empty"@),
    {
        match validate_kind("node_type", node_type) {
            Ok(()) => Ok(
                NodeRecord {
                    id,
                    node_type: node_type.to_owned(),
                    properties: OrderedMap::new(),
                    vectors: OrderedMap::new(),
                },
            ),
            Err(error) => Err(error),
        }
    }

    /// The node with a property set; the key must not be blank.
    pub fn with_property(self, key: &str, value: PropertyValue) -> (r: Result<NodeRecord>)
        ensures
            r is Ok <==> !text::is_blank(key@),
            r matches Ok(node) ==> node@ == (NodeModel {
                properties: self@.properties.insert(key@, value@),
                ..self@
            }),
            r matches Err(e) ==> e@ == ErrorModel::Validation("property key cannot be empty"@),
    {
        match validate_property_key(key) {
            Ok(()) => {
                let mut node: NodeRecord = self;
                node.properties.insert(key.to_owned(), value);
                Ok(node)
            },
            Err(error) => Err(error),
        }
    }

    /// The node with a named vector set; the name must not be blank.
    pub fn with_vector(self, name: &str, values: Vec<u32>) -> (r: Result<NodeRecord>)
        ensures
            r is Ok <==> !text::is_blank(name@),
            r matches Ok(node) ==> node@ == (NodeModel {
                vectors: self@.vectors.insert(name@, values@),
                ..self@
            }),
            r matches Err(e) ==> e@ == ErrorModel::Validation("property key cannot be empty"@),
    {
        match validate_property_key(name) {
            Ok(()) => {
                let mut node: NodeRecord = self;
                node.vectors.insert(name.to_owned(), values);
                Ok(node)
            },
            Err(error) => Err(error),
        }
    }

    /// The property of a key.
    pub fn property(&self, key: &str) -> (r: Option<&PropertyValue>)
        ensures
            match r {
                Some(value) => self@.property(key@) == Some(value@),
                None => self@.property(key@) is None,
            },
    {
        self.properties.get_text(key)
    }

    /// The part of the identifier before its first colon.
    pub fn namespace(&self) -> (r: Option<&str>)
        ensures
            text::optional_text(r) == match text::split_once_parts(self.id@, ':') {
                Some((before, _)) => Some(before),
                None => None,
            },
    {
        let id: &str = self.id.as_str();
        let chars: Vec<char> = text::chars_of(id);
        let i: usize = text::find_char(&chars, ':', 0);
        proof {
            text::lemma_index_from(chars@, ':', 0, i as int);
        }
        if i < chars.len() {
            Some(id.substring_char(0, i))
        } else {
            None
        }
    }

    /// A named vector.
    pub fn vector(&self, name: &str) -> (r: Option<&[u32]>)
        ensures
            match r {
                Some(bits) => self@.vectors.contains_key(name@) && bits@ == self@.vectors[name@],
                None => !self@.vectors.contains_key(name@),
            },
    {
        match self.vectors.get_text(name) {
            Some(bits) => Some(bits.as_slice()),
            None => None,
        }
    }

    /// The vector named `default`.
    pub fn embedding(&self) -> (r: Option<&[u32]>)
        ensures
            match r {
                Some(bits) => self@.vectors.contains_key("default"@) && bits@
                    == self@.vectors["default"@],
                None => !self@.vectors.contains_key("default"@),
            },
    {
        self.vector("default")
    }

    /// The property of a key as an integer.
    pub fn integer_property(&self, key: &str) -> (r: Option<i64>)
        ensures
            optional_int(r) == self@.integer_property(key@),
    {
        match self.property(key) {
            Some(value) => value.as_i64(),
            None => None,
        }
    }

    /// The time of the node.
    pub fn timestamp_ms(&self) -> (r: Option<i64>)
        ensures
            optional_int(r) == self@.timestamp(),
    {
        self.integer_property("timestamp")
    }

    /// The unique key of the node: its `unique_key` property, if that is a string.
    pub fn unique_key(&self) -> (r: Option<&str>)
        ensures
            text::optional_text(r) == self@.unique_key(),
    {
        match self.property("unique_key") {
            Some(PropertyValue::String(key)) => Some(key.as_str()),
            _ => None,
        }
    }

    /// Whether the property of a key is missing or a number.
    fn is_number_or_missing(&self, key: &str) -> (r: bool)
        ensures
            r == !(self@.properties.contains_key(key@) && !self@.properties[key@].is_number()),
    {
        match self.properties.get_text(key) {
            Some(value) => value.is_number(),
            None => true,
        }
    }

    /// Accepts a node whose memory metadata is in order.
    pub fn normalize_memory_metadata(&mut self) -> (r: Result<()>)
        ensures
            final(self)@ == old(self)@,
            r is Ok <==> old(self)@.metadata_error() is None,
            r matches Err(e) ==> old(self)@.metadata_error() == Some(e@),
    {
        if self.properties.get_text("embedding").is_some() {
            return Err(
                Undr9Error::Validation(
                    "embedding is no longer supported in properties; send vectors.default or another named vector in the vectors map".to_owned(),
                ),
            );
        }
        if !self.is_number_or_missing("timestamp") {
            return Err(
                Undr9Error::Validation("timestamp must be an integer-compatible value".to_owned()),
            );
        }
        if !self.is_number_or_missing("importance") {
            return Err(
                Undr9Error::Validation(join2("importance", " must be a float-compatible value")),
            );
        }
        if !self.is_number_or_missing("confidence") {
            return Err(
                Undr9Error::Validation(join2("confidence", " must be a float-compatible value")),
            );
        }
        Ok(())
    }
}

impl EdgeModel {
    /// An edge of a type, without properties.
    pub open spec fn bare(
        id: Seq<char>,
        source: Seq<char>,
        target: Seq<char>,
        edge_type: Seq<char>,
    ) -> EdgeModel {
        EdgeModel { id, source, target, edge_type, properties: Map::empty() }
    }
}

impl EdgeRecord {
    /// An edge of a type, without properties; the type must not be blank.
    pub fn new(id: EdgeId, source: NodeId, target: NodeId, edge_type: &str) -> (r: Result<EdgeRecord>)
        ensures
            r is Ok <==> !text::is_blank(edge_type@),
            r matches Ok(edge) ==> edge@ == EdgeModel::bare(id@, source@, target@, edge_type@),
            r matches Err(e) ==> e@ == ErrorModel::Validation("edge_type"@ + " cannot be empty"@),
    {
        match validate_kind("edge_type", edge_type) {
            Ok(()) => Ok(
                EdgeRecord {
                    id,
                    source,
                    target,
                    edge_type: edge_type.to_owned(),
                    properties: OrderedMap::new(),
                },
            ),
            Err(error) => Err(error),
        }
    }
}

// ---------------------------------------------------------------------------------------------
// Batches and transactions
// ---------------------------------------------------------------------------------------------

/// Records to write and identifiers to delete.
#[derive(Debug, PartialEq, Eq)]
pub struct WriteBatch {
    pub nodes_upserted: Vec<NodeRecord>,
    pub edges_upserted: Vec<EdgeRecord>,
    pub deleted_node_ids: Vec<NodeId>,
    pub deleted_edge_ids: Vec<EdgeId>,
}

/// The model of a batch.
pub struct BatchModel {
    pub nodes_upserted: Seq<NodeModel>,
    pub edges_upserted: Seq<EdgeModel>,
    pub deleted_node_ids: Seq<Seq<char>>,
    pub deleted_edge_ids: Seq<Seq<char>>,
}

impl View for WriteBatch {
    type V = BatchModel;

    open spec fn view(&self) -> BatchModel {
        BatchModel {
            nodes_upserted: models(self.nodes_upserted@),
            edges_upserted: models(self.edges_upserted@),
            deleted_node_ids: models(self.deleted_node_ids@),
            deleted_edge_ids: models(self.deleted_edge_ids@),
        }
    }
}

impl BatchModel {
    /// A batch that does nothing.
    pub open spec fn empty() -> BatchModel {
        BatchModel {
            nodes_upserted: Seq::empty(),
            edges_upserted: Seq::empty(),
            deleted_node_ids: Seq::empty(),
            deleted_edge_ids: Seq::empty(),
        }
    }
}

impl Default for WriteBatch {
    fn default() -> (r: WriteBatch)
        ensures
            r@ == BatchModel::empty(),
    {
        let batch = WriteBatch {
            nodes_upserted: Vec::new(),
            edges_upserted: Vec::new(),
            deleted_node_ids: Vec::new(),
            deleted_edge_ids: Vec::new(),
        };
        proof {
            assert(batch@.nodes_upserted =~= Seq::empty());
            assert(batch@.edges_upserted =~= Seq::empty());
            assert(batch@.deleted_node_ids =~= Seq::empty());
            assert(batch@.deleted_edge_ids =~= Seq::empty());
        }
        batch
    }
}

impl Replicate for WriteBatch {
    fn replicate(&self) -> (r: Self) {
        WriteBatch {
            nodes_upserted: replicate_items(&self.nodes_upserted),
            edges_upserted: replicate_items(&self.edges_upserted),
            deleted_node_ids: replicate_items(&self.deleted_node_ids),
            deleted_edge_ids: replicate_items(&self.deleted_edge_ids),
        }
    }
}

impl Clone for WriteBatch {
    fn clone(&self) -> (r: WriteBatch)
        ensures
            r@ == self@,
    {
        self.replicate()
    }
}

impl WriteBatch {
    /// Whether the batch does nothing.
    pub fn is_empty(&self) -> (r: bool)
        ensures
            r == (self@ == BatchModel::empty()),
    {
        let empty: bool = self.nodes_upserted.len() == 0 && self.edges_upserted.len() == 0
            && self.deleted_node_ids.len() == 0 && self.deleted_edge_ids.len() == 0;
        proof {
            assert(self@.nodes_upserted.len() == self.nodes_upserted.len());
            assert(self@.edges_upserted.len() == self.edges_upserted.len());
            assert(self@.deleted_node_ids.len() == self.deleted_node_ids.len());
            assert(self@.deleted_edge_ids.len() == self.deleted_edge_ids.len());
            if empty {
                assert(self@.nodes_upserted =~= Seq::empty());
                assert(self@.edges_upserted =~= Seq::empty());
                assert(self@.deleted_node_ids =~= Seq::empty());
                assert(self@.deleted_edge_ids =~= Seq::empty());
            }
        }
        empty
    }
}

/// How transactions are isolated from each other.
#[derive(Debug, Clone, Copy, PartialEq, Eq, Structural)]
pub enum IsolationLevel {
    Snapshot,
}

/// Where a transaction stands.
#[derive(Debug, Clone, Copy, PartialEq, Eq, Structural)]
pub enum TransactionState {
    Active,
    Committed,
    RolledBack,
}

/// One step of a transaction.
#[derive(Debug, PartialEq, Eq)]
pub enum TransactionOperation {
    UpsertNode(NodeRecord),
    UpsertEdge(EdgeRecord),
    DeleteNode { node_id: NodeId },
    DeleteEdge { edge_id: EdgeId },
}

/// What is known of a transaction.
#[derive(Debug, PartialEq, Eq)]
pub struct TransactionSummary {
    pub transaction_id: TransactionId,
    pub isolation_level: IsolationLevel,
    pub state: TransactionState,
    pub started_at_revision: u64,
    pub staged_operation_count: usize,
    pub touched_node_count: usize,
    pub touched_edge_count: usize,
}

/// What a commit gave.
#[derive(Debug, PartialEq, Eq)]
pub struct TransactionCommitResult {
    pub transaction_id: TransactionId,
    pub committed_revision: u64,
    pub committed_lsn: u64,
    pub staged_operation_count: usize,
}

} // verus!
