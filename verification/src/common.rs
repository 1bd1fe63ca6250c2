//! Identifiers, errors and checksums.
use vstd::prelude::*;
use vstd::string::*;

use crate::ordered::{OrderedKey, Replicate};
use crate::text;

verus! {

/// The result of an operation that can fail.
pub type Result<T> = std::result::Result<T, Undr9Error>;

/// What can go wrong.
#[derive(Debug, PartialEq, Eq)]
pub enum Undr9Error {
    Validation(String),
    Conflict(String),
    Io(String),
    Serialization(String),
    NotFound(String),
    Corruption(String),
}

/// The model of an error: its kind and its message.
pub enum ErrorModel {
    Validation(Seq<char>),
    Conflict(Seq<char>),
    Io(Seq<char>),
    Serialization(Seq<char>),
    NotFound(Seq<char>),
    Corruption(Seq<char>),
}

impl View for Undr9Error {
    type V = ErrorModel;

    open spec fn view(&self) -> ErrorModel {
        match self {
            Undr9Error::Validation(m) => ErrorModel::Validation(m@),
            Undr9Error::Conflict(m) => ErrorModel::Conflict(m@),
            Undr9Error::Io(m) => ErrorModel::Io(m@),
            Undr9Error::Serialization(m) => ErrorModel::Serialization(m@),
            Undr9Error::NotFound(m) => ErrorModel::NotFound(m@),
            Undr9Error::Corruption(m) => ErrorModel::Corruption(m@),
        }
    }
}

impl ErrorModel {
    /// The line that an error is shown as.
    pub open spec fn shown(self) -> Seq<char> {
        match self {
            ErrorModel::Validation(m) => "validation error: "@ + m,
            ErrorModel::Conflict(m) => "conflict detected: "@ + m,
            ErrorModel::Io(m) => "io error: "@ + m,
            ErrorModel::Serialization(m) => "serialization error: "@ + m,
            ErrorModel::NotFound(m) => "not found: "@ + m,
            ErrorModel::Corruption(m) => "corruption detected: "@ + m,
        }
    }
}

/// The string made of two parts.
pub fn join2(a: &str, b: &str) -> (r: String)
    ensures
        r@ == a@ + b@,
{
    let mut out: String = a.to_owned();
    out.append(b);
    out
}

/// The string made of three parts.
pub fn join3(a: &str, b: &str, c: &str) -> (r: String)
    ensures
        r@ == a@ + b@ + c@,
{
    let mut out: String = a.to_owned();
    out.append(b);
    out.append(c);
    out
}

impl Undr9Error {
    /// The line that the error is shown as.
    pub fn to_string(&self) -> (r: String)
        ensures
            r@ == self@.shown(),
    {
        match self {
            Undr9Error::Validation(m) => join2("validation error: ", m.as_str()),
            Undr9Error::Conflict(m) => join2("conflict detected: ", m.as_str()),
            Undr9Error::Io(m) => join2("io error: ", m.as_str()),
            Undr9Error::Serialization(m) => join2("serialization error: ", m.as_str()),
            Undr9Error::NotFound(m) => join2("not found: ", m.as_str()),
            Undr9Error::Corruption(m) => join2("corruption detected: ", m.as_str()),
        }
    }
}

// ---------------------------------------------------------------------------------------------
// Identifiers
// ---------------------------------------------------------------------------------------------

/// The characters that an identifier may hold.
pub open spec fn is_identifier_char(c: char) -> bool {
    text::is_ascii_alphanumeric(c) || c == '-' || c == '_' || c == ':'
}

/// An identifier: not empty, and nothing in it but the characters above.
pub open spec fn is_identifier(value: Seq<char>) -> bool {
    value.len() > 0 && forall|i: int| 0 <= i < value.len() ==> is_identifier_char(#[trigger] value[i])
}

/// What is wrong with an identifier of the given kind.
pub open spec fn identifier_error(kind: Seq<char>, value: Seq<char>) -> ErrorModel {
    if text::is_blank(value) {
        ErrorModel::Validation(kind + " identifier cannot be empty"@)
    } else {
        ErrorModel::Validation(
            kind + " identifier may only contain ASCII letters, digits, '-', '_' or ':'"@,
        )
    }
}

proof fn lemma_trim_start_keeps(s: Seq<char>)
    requires
        s.len() > 0,
        !text::is_white_space(s[0]),
    ensures
        text::trim_start(s) == s,
{
}

/// An identifier is never blank.
pub proof fn lemma_identifier_not_blank(value: Seq<char>)
    requires
        is_identifier(value),
    ensures
        !text::is_blank(value),
{
    assert(is_identifier_char(value[0]));
    lemma_trim_start_keeps(value);
    assert(is_identifier_char(value[value.len() - 1]));
}

/// Accepts identifiers only.
pub fn validate_identifier(kind: &str, value: &str) -> (r: Result<()>)
    ensures
        r is Ok <==> is_identifier(value@),
        r matches Err(e) ==> e@ == identifier_error(kind@, value@),
{
    if text::blank(value) {
        proof {
            if is_identifier(value@) {
                lemma_identifier_not_blank(value@);
            }
        }
        return Err(Undr9Error::Validation(join2(kind, " identifier cannot be empty")));
    }
    let chars: Vec<char> = text::chars_of(value);
    let mut i: usize = 0;
    while i < chars.len()
        invariant
            chars@ == value@,
            i <= chars.len(),
            !text::is_blank(value@),
            forall|k: int| 0 <= k < i ==> is_identifier_char(#[trigger] chars@[k]),
        decreases chars.len() - i,
    {
        let c: char = chars[i];
        if !(text::ascii_alphanumeric(c) || c == '-' || c == '_' || c == ':') {
            proof {
                assert(!is_identifier_char(value@[i as int]));
            }
            return Err(
                Undr9Error::Validation(
                    join2(
                        kind,
                        " identifier may only contain ASCII letters, digits, '-', '_' or ':'",
                    ),
                ),
            );
        }
        i = i + 1;
    }
    proof {
        if value@.len() == 0 {
            assert(text::trimmed(value@) =~= value@);
        }
    }
    Ok(())
}

/// The identifier of a node.
#[derive(Debug, PartialEq, Eq, PartialOrd, Ord, Hash)]
pub struct NodeId(String);

/// The identifier of an edge.
#[derive(Debug, PartialEq, Eq, PartialOrd, Ord, Hash)]
pub struct EdgeId(String);

/// The identifier of a transaction.
#[derive(Debug, PartialEq, Eq, PartialOrd, Ord, Hash)]
pub struct TransactionId(String);

impl View for NodeId {
    type V = Seq<char>;

    closed spec fn view(&self) -> Seq<char> {
        self.0@
    }
}

impl View for EdgeId {
    type V = Seq<char>;

    closed spec fn view(&self) -> Seq<char> {
        self.0@
    }
}

impl View for TransactionId {
    type V = Seq<char>;

    closed spec fn view(&self) -> Seq<char> {
        self.0@
    }
}

impl NodeId {
    /// A node identifier made of the given characters, if they make one.
    pub fn new(value: &str) -> (r: Result<NodeId>)
        ensures
            r is Ok <==> is_identifier(value@),
            r matches Ok(id) ==> id@ == value@,
            r matches Err(e) ==> e@ == identifier_error("node"@, value@),
    {
        match validate_identifier("node", value) {
            Ok(()) => Ok(NodeId(value.to_owned())),
            Err(error) => Err(error),
        }
    }

    /// An identifier read back from a stored record, taken as it stands.
    pub fn from_stored(value: String) -> (r: NodeId)
        ensures
            r@ == value@,
    {
        NodeId(value)
    }

    /// The characters of the identifier.
    pub fn as_str(&self) -> (r: &str)
        ensures
            r@ == self@,
    {
        self.0.as_str()
    }
}

impl EdgeId {
    /// An edge identifier made of the given characters, if they make one.
    pub fn new(value: &str) -> (r: Result<EdgeId>)
        ensures
            r is Ok <==> is_identifier(value@),
            r matches Ok(id) ==> id@ == value@,
            r matches Err(e) ==> e@ == identifier_error("edge"@, value@),
    {
        match validate_identifier("edge", value) {
            Ok(()) => Ok(EdgeId(value.to_owned())),
            Err(error) => Err(error),
        }
    }

    /// An identifier read back from a stored record, taken as it stands.
    pub fn from_stored(value: String) -> (r: EdgeId)
        ensures
            r@ == value@,
    {
        EdgeId(value)
    }

    /// The characters of the identifier.
    pub fn as_str(&self) -> (r: &str)
        ensures
            r@ == self@,
    {
        self.0.as_str()
    }
}

impl TransactionId {
    /// A transaction identifier made of the given characters, if they make one.
    pub fn new(value: &str) -> (r: Result<TransactionId>)
        ensures
            r is Ok <==> is_identifier(value@),
            r matches Ok(id) ==> id@ == value@,
            r matches Err(e) ==> e@ == identifier_error("transaction"@, value@),
    {
        match validate_identifier("transaction", value) {
            Ok(()) => Ok(TransactionId(value.to_owned())),
            Err(error) => Err(error),
        }
    }

    /// An identifier read back from a stored record, taken as it stands.
    pub fn from_stored(value: String) -> (r: TransactionId)
        ensures
            r@ == value@,
    {
        TransactionId(value)
    }

    /// The characters of the identifier.
    pub fn as_str(&self) -> (r: &str)
        ensures
            r@ == self@,
    {
        self.0.as_str()
    }
}

impl Clone for NodeId {
    fn clone(&self) -> (r: NodeId)
        ensures
            r@ == self@,
    {
        NodeId(self.0.clone())
    }
}

impl Clone for EdgeId {
    fn clone(&self) -> (r: EdgeId)
        ensures
            r@ == self@,
    {
        EdgeId(self.0.clone())
    }
}

impl Clone for TransactionId {
    fn clone(&self) -> (r: TransactionId)
        ensures
            r@ == self@,
    {
        TransactionId(self.0.clone())
    }
}

impl OrderedKey for NodeId {
    open spec fn less(a: Seq<char>, b: Seq<char>) -> bool {
        text::text_less(a, b)
    }

    proof fn less_irreflexive(a: Seq<char>) {
        text::lemma_text_less_irreflexive(a);
    }

    proof fn less_transitive(a: Seq<char>, b: Seq<char>, c: Seq<char>) {
        text::lemma_text_less_transitive(a, b, c);
    }

    proof fn less_total(a: Seq<char>, b: Seq<char>) {
        text::lemma_text_less_total(a, b);
    }

    fn before(&self, other: &Self) -> (r: bool) {
        text::precedes(self.as_str(), other.as_str())
    }
}

impl OrderedKey for EdgeId {
    open spec fn less(a: Seq<char>, b: Seq<char>) -> bool {
        text::text_less(a, b)
    }

    proof fn less_irreflexive(a: Seq<char>) {
        text::lemma_text_less_irreflexive(a);
    }

    proof fn less_transitive(a: Seq<char>, b: Seq<char>, c: Seq<char>) {
        text::lemma_text_less_transitive(a, b, c);
    }

    proof fn less_total(a: Seq<char>, b: Seq<char>) {
        text::lemma_text_less_total(a, b);
    }

    fn before(&self, other: &Self) -> (r: bool) {
        text::precedes(self.as_str(), other.as_str())
    }
}

impl Replicate for NodeId {
    fn replicate(&self) -> (r: Self) {
        self.clone()
    }
}

impl Replicate for EdgeId {
    fn replicate(&self) -> (r: Self) {
        self.clone()
    }
}

// ---------------------------------------------------------------------------------------------
// Checksums
// ---------------------------------------------------------------------------------------------

/// A remainder once bits have been divided by the polynomial of CRC-32 (IEEE 802.3), whose bits
/// stand in reverse.
pub open spec fn crc_divided(remainder: u32, bits: nat) -> u32
    decreases bits,
{
    if bits == 0 {
        remainder
    } else {
        let before = crc_divided(remainder, (bits - 1) as nat);
        if before & 1 == 1 {
            (before >> 1) ^ 0xedb8_8320
        } else {
            before >> 1
        }
    }
}

/// The remainder after bytes, which starts with all its bits set.
pub open spec fn crc_remainder(bytes: Seq<u8>) -> u32
    decreases bytes.len(),
{
    if bytes.len() == 0 {
        0xffff_ffff
    } else {
        crc_divided(crc_remainder(bytes.drop_last()) ^ (bytes.last() as u32), 8)
    }
}

/// The CRC-32 (IEEE 802.3) checksum of bytes: their remainder with all its bits turned around.
pub open spec fn crc32_checksum(bytes: Seq<u8>) -> u32 {
    crc_remainder(bytes) ^ 0xffff_ffff
}

/// Runs `crc32fast::Hasher` from its initial state over all the bytes and takes its final value,
/// which is their CRC-32 checksum by the polynomial of IEEE 802.3.
#[verifier::external_body]
fn hash_bytes(bytes: &[u8]) -> (r: u32)
    ensures
        r == crc32_checksum(bytes@),
{
    let mut hasher = crc32fast::Hasher::new();
    hasher.update(bytes);
    hasher.finalize()
}

/// The CRC-32 checksum of a string of bytes.
pub fn crc32(bytes: &[u8]) -> (r: u32)
    ensures
        r == crc32_checksum(bytes@),
{
    hash_bytes(bytes)
}

/// Every way to make an identifier from a string agrees on which strings are identifiers, and a
/// string of identifier characters is one exactly if it is not empty.
pub proof fn law_identifiers(value: Seq<char>)
    requires
        forall|i: int| 0 <= i < value.len() ==> is_identifier_char(#[trigger] value[i]),
    ensures
        is_identifier(value) <==> !text::is_blank(value),
{
    if value.len() > 0 {
        lemma_identifier_not_blank(value);
    } else {
        assert(text::trimmed(value) =~= value);
    }
}

} // verus!
