//! Who is let through, what variables set, and when a search graph is asked.
use vstd::prelude::*;
use vstd::string::*;

use crate::auth::{allows, Action, Role};
use crate::config::{config_error, ConfigModel};
use crate::index::{is_sidecar, sanitized, sidecar_name};
use crate::ordered::without;
use crate::records::NodeModel;
use crate::service::authorization_error;
use crate::text;
use crate::vectors::{hnsw_spaces_with, hnsw_spaces_without, space_after, HnswModel, Spaces};

verus! {

// ---------------------------------------------------------------------------------------------
// Keys and roles
// ---------------------------------------------------------------------------------------------

/// A reader may read and nothing else, a writer may read and write and nothing else, and an admin
/// may do everything.
pub proof fn law_who_may_do_what(action: Action)
    ensures
        allows(Role::Reader, action) <==> action == Action::Read,
        allows(Role::Writer, action) <==> action == Action::Read || action == Action::Write,
        allows(Role::Admin, action),
{
}

/// In a configuration that is in order and asks for keys, a request is let through exactly if there
/// is a token for it and it shows the admin's key, or the writer's to read or write, or the reader's
/// to read.
pub proof fn law_who_is_let_through(
    config: ConfigModel,
    api_key: Option<Seq<char>>,
    has_token: bool,
    action: Action,
)
    requires
        config_error(config) is None,
        config.auth.enabled,
    ensures
        authorization_error(config.auth, api_key, has_token, action) is None <==> has_token && (
        api_key matches Some(key) && {
            ||| key == config.auth.admin_api_key
            ||| key == config.auth.writer_api_key && (action == Action::Read || action
                == Action::Write)
            ||| key == config.auth.reader_api_key && action == Action::Read
        }),
{
    if let Some(key) = api_key {
        crate::auth::law_keys_stand_for_their_roles(config, key);
        crate::auth::law_keys_stand_for_their_roles(config, config.auth.admin_api_key);
    }
}

/// A request that is not let through is told why: 503 where nobody is asked for a key, 401 without a
/// key that is known, 429 without a token, and 403 where the role does not allow it.
pub proof fn law_why_a_request_is_refused(
    config: ConfigModel,
    api_key: Option<Seq<char>>,
    has_token: bool,
    action: Action,
)
    requires
        authorization_error(config.auth, api_key, has_token, action) is Some,
    ensures
        ({
            let status = authorization_error(config.auth, api_key, has_token, action)->0.status;
            let known = api_key matches Some(key) && (key == config.auth.admin_api_key || key
                == config.auth.writer_api_key || key == config.auth.reader_api_key);
            &&& status == 503 <==> !config.auth.enabled
            &&& status == 401 <==> config.auth.enabled && !known
            &&& status == 429 <==> config.auth.enabled && known && !has_token
            &&& status == 403 <==> config.auth.enabled && known && has_token
        }),
{
}

// ---------------------------------------------------------------------------------------------
// Numbers in variables
// ---------------------------------------------------------------------------------------------

proof fn lemma_digit(n: int)
    requires
        0 <= n < 10,
    ensures
        '0' <= text::digit(n) <= '9',
        text::digit_value(text::digit(n)) == n,
{
}

proof fn lemma_decimal(n: nat)
    ensures
        text::all_digits(text::decimal(n)),
        text::decimal_value(text::decimal(n)) == n,
    decreases n,
{
    let s = text::decimal(n);
    if n < 10 {
        lemma_digit(n as int);
        assert(s.drop_last() =~= Seq::<char>::empty());
        assert(text::decimal_value(Seq::<char>::empty()) == 0);
        assert(s.last() == text::digit(n as int));
    } else {
        lemma_decimal(n / 10);
        lemma_digit((n % 10) as int);
        assert(s.drop_last() =~= text::decimal(n / 10));
        assert(s.last() == text::digit((n % 10) as int));
        assert forall|i: int| 0 <= i < s.len() implies '0' <= #[trigger] s[i] <= '9' by {
            if i < text::decimal(n / 10).len() {
                assert(s[i] == text::decimal(n / 10)[i]);
            }
        }
    }
}

/// A number that is written down in decimal digits and read again is the same number, unless it is
/// above what may be read; and no two numbers are written the same.
pub proof fn law_numerals_are_read_back(n: nat, m: nat, max: nat)
    ensures
        text::parsed_unsigned(text::decimal(n), max) == (if n <= max {
            Some(n)
        } else {
            None
        }),
        text::decimal(n) == text::decimal(m) ==> n == m,
{
    lemma_decimal(n);
    lemma_decimal(m);
    let s = text::decimal(n);
    assert('0' <= s[0] <= '9');
    assert(text::unsigned_digits(s) == s);
}

// ---------------------------------------------------------------------------------------------
// Texts in variables
// ---------------------------------------------------------------------------------------------

/// Every variable that names a text sets that text, whatever it held, and without the variable the
/// text stays as it was.
pub proof fn law_variables_that_set_texts(
    config: ConfigModel,
    variables: Map<Seq<char>, Seq<char>>,
)
    ensures
        ({
            let after = config.overridden(variables);
            let set = |name: Seq<char>, before: Seq<char>, now: Seq<char>|
                (variables.contains_key(name) ==> now == variables[name]) && (
                !variables.contains_key(name) ==> now == before);
            &&& set(
                "UNDR9_BIND_ADDRESS"@,
                config.server.bind_address,
                after.server.bind_address,
            )
            &&& set("UNDR9_STORAGE_ROOT"@, config.storage.root_dir, after.storage.root_dir)
            &&& set(
                "UNDR9_BOOTSTRAP_ADMIN_USERNAME"@,
                config.auth.bootstrap_admin_username,
                after.auth.bootstrap_admin_username,
            )
            &&& set("UNDR9_ADMIN_API_KEY"@, config.auth.admin_api_key, after.auth.admin_api_key)
            &&& set("UNDR9_WRITER_API_KEY"@, config.auth.writer_api_key, after.auth.writer_api_key)
            &&& set("UNDR9_READER_API_KEY"@, config.auth.reader_api_key, after.auth.reader_api_key)
            &&& set("UNDR9_LOG_LEVEL"@, config.observability.log_level, after.observability.log_level)
            &&& set(
                "UNDR9_OTLP_PROTOCOL"@,
                config.observability.otlp_protocol,
                after.observability.otlp_protocol,
            )
            &&& set(
                "UNDR9_OTLP_ENDPOINT"@,
                config.observability.otlp_endpoint,
                after.observability.otlp_endpoint,
            )
            &&& set(
                "UNDR9_OTLP_HEADERS"@,
                config.observability.otlp_headers,
                after.observability.otlp_headers,
            )
        }),
{
}

// ---------------------------------------------------------------------------------------------
// Search graphs
// ---------------------------------------------------------------------------------------------

/// A search graph is asked only where there is one, where more nodes have a vector of the name than
/// are compared one by one, and where these are as long as the query vector. It is asked for as many
/// hits as the answer may list or more, but for no more than there are nodes; and for as many as the
/// request says, where that is more than it may list.
pub proof fn law_search_graphs(
    index: HnswModel,
    query_dimension: nat,
    name: Seq<char>,
    limit: usize,
    top_k: Option<usize>,
)
    ensures
        index.search_limit(query_dimension, name, limit, top_k) is Some <==> {
            &&& limit > 0
            &&& index.spaces.contains_key(name)
            &&& index.spaces[name].runtime
            &&& index.spaces[name].candidate_ids.len() > index.exact_fallback_threshold
            &&& index.spaces[name].dimension matches Some(d) && d == query_dimension
        },
        index.search_limit(query_dimension, name, limit, top_k) matches Some(count) ==> {
            let all = index.spaces[name].candidate_ids.len();
            let asked = match top_k {
                Some(k) => k,
                None => index.semantic_top_k,
            };
            &&& count <= all
            &&& count == all || count >= limit
            &&& count == all || count >= asked
            &&& count <= limit || count <= asked
            &&& count > 0
        },
{
}

/// Whether a vector space has a node among its candidates.
pub open spec fn is_candidate(spaces: Spaces, name: Seq<char>, id: Seq<char>) -> bool {
    spaces.contains_key(name) && spaces[name].candidate_ids.contains(id)
}

/// What a list without an item holds.
proof fn lemma_without(list: Seq<Seq<char>>, item: Seq<char>, b: Seq<char>)
    ensures
        without(list, item).contains(b) <==> list.contains(b) && b != item,
    decreases list.len(),
{
    reveal(Seq::filter);
    if list.len() > 0 {
        let short = list.drop_last();
        lemma_without(short, item, b);
        assert(list =~= short.push(list.last()));
        crate::reach::lemma_push_contains(short, list.last(), b);
        crate::reach::lemma_push_contains(without(short, item), list.last(), b);
    }
}

/// Once a node is written it is a candidate of a vector space exactly if it has a vector of its name
/// that is as long as those of the space, where these have a length; no other node becomes a candidate
/// or ceases to be one.
pub proof fn law_written_vectors(
    spaces: Spaces,
    node: NodeModel,
    refused: Set<Seq<char>>,
    name: Seq<char>,
    other: Seq<char>,
)
    ensures
        is_candidate(hnsw_spaces_with(spaces, node, refused), name, node.id)
            <==> node.vectors.contains_key(name) && (spaces.contains_key(name) ==> (
        spaces[name].dimension matches Some(d) ==> node.vectors[name].len() == d)) && (
        !spaces.contains_key(name) ==> node.vectors[name].len() <= usize::MAX),
        other != node.id ==> (is_candidate(hnsw_spaces_with(spaces, node, refused), name, other)
            <==> is_candidate(spaces, name, other)),
{
    let after = space_after(spaces, node, refused, name);
    let before = if spaces.contains_key(name) {
        spaces[name].candidate_ids
    } else {
        Seq::empty()
    };
    lemma_without(before, node.id, node.id);
    lemma_without(before, node.id, other);
    crate::reach::lemma_push_contains(before, node.id, node.id);
    crate::reach::lemma_push_contains(before, node.id, other);
    assert(!Seq::<Seq<char>>::empty().contains(other));
    if after.candidate_ids.contains(node.id) {
        let k = choose|k: int|
            0 <= k < after.candidate_ids.len() && after.candidate_ids[k] == node.id;
        assert(after.candidate_ids.len() > 0);
    }
    if after.candidate_ids.contains(other) {
        let k = choose|k: int| 0 <= k < after.candidate_ids.len() && after.candidate_ids[k] == other;
        assert(after.candidate_ids.len() > 0);
    }
}

/// Once a node is deleted it is a candidate of no vector space; no other node becomes a candidate or
/// ceases to be one.
pub proof fn law_deleted_vectors(spaces: Spaces, id: Seq<char>, name: Seq<char>, other: Seq<char>)
    ensures
        !is_candidate(hnsw_spaces_without(spaces, id), name, id),
        other != id ==> (is_candidate(hnsw_spaces_without(spaces, id), name, other)
            <==> is_candidate(spaces, name, other)),
{
    if spaces.contains_key(name) {
        let before = spaces[name].candidate_ids;
        lemma_without(before, id, id);
        lemma_without(before, id, other);
        let after = spaces[name].without_node(id).candidate_ids;
        if after.contains(other) {
            let k = choose|k: int| 0 <= k < after.len() && after[k] == other;
            assert(after.len() > 0);
        }
    }
}

// ---------------------------------------------------------------------------------------------
// Pieces of texts
// ---------------------------------------------------------------------------------------------

/// Whether a text is white space alone.
pub open spec fn all_white(s: Seq<char>) -> bool {
    forall|i: int| 0 <= i < s.len() ==> text::is_white_space(#[trigger] s[i])
}

proof fn lemma_trim_start(s: Seq<char>) -> (cut: int)
    ensures
        0 <= cut <= s.len(),
        text::trim_start(s) == s.subrange(cut, s.len() as int),
        all_white(s.subrange(0, cut)),
        cut < s.len() ==> !text::is_white_space(s[cut]),
    decreases s.len(),
{
    if s.len() > 0 && text::is_white_space(s[0]) {
        let rest = s.drop_first();
        let c = lemma_trim_start(rest);
        assert(rest.subrange(c, rest.len() as int) =~= s.subrange(c + 1, s.len() as int));
        assert forall|i: int| 0 <= i < c + 1 implies text::is_white_space(
            #[trigger] s.subrange(0, c + 1)[i],
        ) by {
            if i > 0 {
                assert(s[i] == rest.subrange(0, c)[i - 1]);
            }
        }
        c + 1
    } else {
        assert(s.subrange(0, s.len() as int) =~= s);
        0
    }
}

proof fn lemma_trim_end(s: Seq<char>) -> (cut: int)
    ensures
        0 <= cut <= s.len(),
        text::trim_end(s) == s.subrange(0, cut),
        all_white(s.subrange(cut, s.len() as int)),
        cut > 0 ==> !text::is_white_space(s[cut - 1]),
    decreases s.len(),
{
    if s.len() > 0 && text::is_white_space(s.last()) {
        let rest = s.drop_last();
        let c = lemma_trim_end(rest);
        assert(rest.subrange(0, c) =~= s.subrange(0, c));
        let tail = s.subrange(c, s.len() as int);
        assert forall|i: int| 0 <= i < tail.len() implies text::is_white_space(
            #[trigger] tail[i],
        ) by {
            if i < tail.len() - 1 {
                assert(tail[i] == rest.subrange(c, rest.len() as int)[i]);
            }
        }
        c
    } else {
        assert(s.subrange(0, s.len() as int) =~= s);
        s.len() as int
    }
}

/// Trimming cuts off white space at both ends, all of it, and nothing else.
pub proof fn law_trimming(s: Seq<char>) -> (r: (int, int))
    ensures
        0 <= r.0 <= r.1 <= s.len(),
        text::trimmed(s) == s.subrange(r.0, r.1),
        all_white(s.subrange(0, r.0)),
        all_white(s.subrange(r.1, s.len() as int)),
        r.0 < r.1 ==> !text::is_white_space(s[r.0]) && !text::is_white_space(s[r.1 - 1]),
{
    let a = lemma_trim_start(s);
    let rest = text::trim_start(s);
    let b = lemma_trim_end(rest);
    assert(rest.subrange(0, b) =~= s.subrange(a, a + b));
    assert(rest.subrange(b, rest.len() as int) =~= s.subrange(a + b, s.len() as int));
    (a, a + b)
}

/// Pieces with a separator between each two.
pub open spec fn parted_by(pieces: Seq<Seq<char>>, sep: char) -> Seq<char>
    decreases pieces.len(),
{
    if pieces.len() == 0 {
        Seq::empty()
    } else if pieces.len() == 1 {
        pieces[0]
    } else {
        pieces[0].push(sep) + parted_by(pieces.drop_first(), sep)
    }
}

/// The pieces of a text hold no separator, and with a separator between each two they are the text.
pub proof fn law_pieces(s: Seq<char>, sep: char)
    ensures
        text::split_pieces(s, sep).len() > 0,
        parted_by(text::split_pieces(s, sep), sep) == s,
        forall|k: int|
            0 <= k < text::split_pieces(s, sep).len() ==> !(#[trigger] text::split_pieces(
                s,
                sep,
            )[k]).contains(sep),
    decreases s.len(),
{
    let pieces = text::split_pieces(s, sep);
    let i = text::index_from(s, sep, 0);
    lemma_index(s, sep, 0);
    if 0 <= i < s.len() {
        let head = s.subrange(0, i);
        let rest = s.subrange(i + 1, s.len() as int);
        law_pieces(rest, sep);
        let others = text::split_pieces(rest, sep);
        assert(pieces == seq![head] + others);
        assert(pieces.drop_first() =~= others);
        assert(pieces[0] == head);
        assert(parted_by(pieces, sep) =~= s);
        assert forall|k: int| 0 <= k < pieces.len() implies !(#[trigger] pieces[k]).contains(sep) by {
            if k > 0 {
                assert(pieces[k] == others[k - 1]);
            }
        }
    } else {
        assert(pieces == seq![s]);
        assert(pieces[0] == s);
    }
}

proof fn lemma_index(s: Seq<char>, sep: char, from: int)
    requires
        0 <= from <= s.len(),
    ensures
        from <= text::index_from(s, sep, from) <= s.len(),
        text::index_from(s, sep, from) < s.len() ==> s[text::index_from(s, sep, from)] == sep,
        forall|k: int| from <= k < text::index_from(s, sep, from) ==> s[k] != sep,
    decreases s.len() - from,
{
    if from < s.len() && s[from] != sep {
        lemma_index(s, sep, from + 1);
    }
}

// ---------------------------------------------------------------------------------------------
// Files of vector spaces
// ---------------------------------------------------------------------------------------------

/// The file of every vector space is found among the files of its index, and its vector name brings
/// no character into the file name but letters, digits, `-` and `_`.
pub proof fn law_sidecars(file_name: Seq<char>, vector_name: Seq<char>, suffix: Seq<char>)
    ensures
        is_sidecar(file_name, suffix, sidecar_name(file_name, vector_name, suffix)),
        sanitized(vector_name).len() > 0,
        forall|i: int|
            0 <= i < sanitized(vector_name).len() ==> {
                let c = #[trigger] sanitized(vector_name)[i];
                'a' <= c <= 'z' || 'A' <= c <= 'Z' || '0' <= c <= '9' || c == '-' || c == '_'
            },
{
    let base = text::without_suffix(file_name, suffix) + "."@;
    let name = sidecar_name(file_name, vector_name, suffix);
    assert(name.subrange(0, base.len() as int) =~= base);
    assert(name.subrange(name.len() - suffix.len(), name.len() as int) =~= suffix);
    reveal_strlit("default");
}

} // verus!
