//! Who may do what.
use vstd::prelude::*;
use vstd::string::*;
use vstd::utf8::*;

use crate::common::{ErrorModel, Result, Undr9Error};
use crate::config::{config_error, AuthConfig, AuthModel, ConfigModel};
use crate::text;

verus! {

/// What someone is taken for.
#[derive(Debug, Clone, Copy, PartialEq, Eq, Structural)]
pub enum Role {
    Reader,
    Writer,
    Admin,
}

/// What someone wants to do.
#[derive(Debug, Clone, Copy, PartialEq, Eq, Structural)]
pub enum Action {
    Read,
    Write,
    Administer,
    Maintain,
}

/// Someone who has shown a key.
#[derive(Debug, PartialEq, Eq)]
pub struct Principal {
    pub name: String,
    pub role: Role,
}

/// The model of someone who has shown a key.
pub struct PrincipalModel {
    pub name: Seq<char>,
    pub role: Role,
}

impl View for Principal {
    type V = PrincipalModel;

    open spec fn view(&self) -> PrincipalModel {
        PrincipalModel { name: self.name@, role: self.role }
    }
}

/// Whether a role may act: an admin may do everything, a writer may read and write, a reader may
/// read.
pub open spec fn allows(role: Role, action: Action) -> bool {
    match role {
        Role::Admin => true,
        Role::Writer => action == Action::Read || action == Action::Write,
        Role::Reader => action == Action::Read,
    }
}

/// Decides who may act.
pub struct Authorizer;

impl Authorizer {
    /// Whether someone may act.
    pub fn is_allowed(principal: Principal, action: Action) -> (r: bool)
        ensures
            r == allows(principal.role, action),
    {
        match principal.role {
            Role::Admin => true,
            Role::Writer => action == Action::Read || action == Action::Write,
            Role::Reader => action == Action::Read,
        }
    }
}

/// A writer may do all that a reader may, and an admin all that a writer may; only an admin may
/// administer and maintain.
pub proof fn law_roles_nest(action: Action)
    ensures
        allows(Role::Reader, action) ==> allows(Role::Writer, action),
        allows(Role::Writer, action) ==> allows(Role::Admin, action),
        action == Action::Administer || action == Action::Maintain ==> (forall|role: Role|
            #[trigger] allows(role, action) <==> role == Role::Admin),
{
}

/// The byte at a place, or zero behind the end.
pub open spec fn byte_or_zero(bytes: Seq<u8>, i: int) -> u8 {
    if 0 <= i < bytes.len() {
        bytes[i]
    } else {
        0
    }
}

/// The byte at a place, or zero behind the end.
fn padded(bytes: &[u8], i: usize) -> (r: u8)
    ensures
        r == byte_or_zero(bytes@, i as int),
{
    if i < bytes.len() {
        bytes[i]
    } else {
        0
    }
}

/// Whether two texts are the same. All bytes are looked at, whatever they are: how long it takes
/// depends on the lengths alone.
pub fn secure_compare(left: &str, right: &str) -> (r: bool)
    ensures
        r == (left@ == right@),
{
    let left_bytes: &[u8] = left.as_bytes();
    let right_bytes: &[u8] = right.as_bytes();
    let left_len: usize = left_bytes.len();
    let right_len: usize = right_bytes.len();
    let mut diff: usize = left_len ^ right_len;
    proof {
        assert((left_len ^ right_len) == 0 <==> left_len == right_len) by (bit_vector);
    }
    let max_len: usize = if left_len < right_len {
        right_len
    } else {
        left_len
    };
    let mut index: usize = 0;
    while index < max_len
        invariant
            index <= max_len,
            left_bytes@ == encode_utf8(left@),
            right_bytes@ == encode_utf8(right@),
            diff == 0 <==> (left_bytes@.len() == right_bytes@.len() && forall|k: int|
                0 <= k < index ==> byte_or_zero(left_bytes@, k) == #[trigger] byte_or_zero(
                    right_bytes@,
                    k,
                )),
        decreases max_len - index,
    {
        let lhs: u8 = padded(left_bytes, index);
        let rhs: u8 = padded(right_bytes, index);
        let part: usize = (lhs ^ rhs) as usize;
        let before: usize = diff;
        diff = before | part;
        proof {
            assert((lhs ^ rhs) == 0 <==> lhs == rhs) by (bit_vector);
            assert((before | part) == 0 <==> (before == 0 && part == 0)) by (bit_vector);
            assert(byte_or_zero(left_bytes@, index as int) == lhs);
            assert(byte_or_zero(right_bytes@, index as int) == rhs);
        }
        index = index + 1;
    }
    proof {
        let a = encode_utf8(left@);
        let b = encode_utf8(right@);
        if diff == 0 {
            assert forall|k: int| 0 <= k < a.len() implies a[k] == b[k] by {
                assert(byte_or_zero(a, k) == byte_or_zero(b, k));
            }
            assert(a =~= b);
            text::lemma_utf8_injective(left@, right@);
        } else if left@ == right@ {
            assert(a == b);
        }
    }
    diff == 0
}

/// Who has shown a key. A key that several roles have is the first one's: the admin's, then the
/// writer's.
pub open spec fn holder(config: AuthModel, key: Seq<char>) -> Option<PrincipalModel> {
    if key == config.admin_api_key {
        Some(PrincipalModel { name: config.bootstrap_admin_username, role: Role::Admin })
    } else if key == config.writer_api_key {
        Some(PrincipalModel { name: "writer"@, role: Role::Writer })
    } else if key == config.reader_api_key {
        Some(PrincipalModel { name: "reader"@, role: Role::Reader })
    } else {
        None
    }
}

/// Finds out who has shown a key.
pub struct ApiKeyAuthenticator;

impl ApiKeyAuthenticator {
    /// Who has shown a key.
    pub fn authenticate(config: &AuthConfig, api_key: &str) -> (r: Result<Principal>)
        ensures
            match holder(config@, api_key@) {
                Some(principal) => r is Ok && r->Ok_0@ == principal,
                None => r is Err && r->Err_0@ == ErrorModel::Validation("invalid API key"@),
            },
    {
        if secure_compare(api_key, config.admin_api_key.as_str()) {
            return Ok(
                Principal { name: config.bootstrap_admin_username.clone(), role: Role::Admin },
            );
        }
        if secure_compare(api_key, config.writer_api_key.as_str()) {
            return Ok(Principal { name: "writer".to_owned(), role: Role::Writer });
        }
        if secure_compare(api_key, config.reader_api_key.as_str()) {
            return Ok(Principal { name: "reader".to_owned(), role: Role::Reader });
        }
        Err(Undr9Error::Validation("invalid API key".to_owned()))
    }
}

/// In a configuration that is in order and asks for keys, every key stands for its own role, and
/// no other text stands for any.
pub proof fn law_keys_stand_for_their_roles(config: ConfigModel, key: Seq<char>)
    requires
        config_error(config) is None,
        config.auth.enabled,
    ensures
        holder(config.auth, key) matches Some(p) ==> match p.role {
            Role::Admin => key == config.auth.admin_api_key,
            Role::Writer => key == config.auth.writer_api_key,
            Role::Reader => key == config.auth.reader_api_key,
        },
        holder(config.auth, config.auth.admin_api_key) matches Some(p) && p.role == Role::Admin,
        holder(config.auth, config.auth.writer_api_key) matches Some(p) && p.role == Role::Writer,
        holder(config.auth, config.auth.reader_api_key) matches Some(p) && p.role == Role::Reader,
        holder(config.auth, key) is None <==> key != config.auth.admin_api_key && key
            != config.auth.writer_api_key && key != config.auth.reader_api_key,
{
}

} // verus!
