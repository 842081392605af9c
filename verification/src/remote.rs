//! How bundles map onto the remote secret store: folders, listings, the
//! requests that bring a remote bundle in line with a local one, and how a
//! remote listing turns into bundle names.

use vstd::prelude::*;
use vstd::string::StringSliceAdditionalSpecFns;

use crate::env::{string_views, Env, Pairs};
use crate::text::{
    blank, compare_text, lemma_strip_both_ends, lemma_strip_slash_prefix, has_prefix, is_blank, is_white_space, lemma_lt_transitive, owned, push_char, push_str, seq_lt, slash, starts_with, strip_both,
    trim, trim_end_slashes, trim_slashes, trimmed, strip_end, text_eq, Order,
};
use crate::validate::{is_env_key, is_reserved_key, is_reserved_remote_key, validate_env_key, KeyError};

verus! {

/// The bundle whose variables live at the root folder.
pub const GLOBAL_BUNDLE: &'static str = "global";

/// The bundle that holds imported agent auth records.
pub const AGENT_AUTH_BUNDLE: &'static str = "agents";

/// The folder of the agent auth records.
pub const AGENT_AUTH_SECRET_PATH: &'static str = "/agents";

/// What the UI shows in place of an agent auth record's JSON.
pub const AGENT_AUTH_DISPLAY_VALUE: &'static str = "<managed by rage import>";

// ---------------------------------------------------------------- paths

/// An endpoint without trailing slashes.
pub fn normalize_endpoint(endpoint: &str) -> (r: String)
    ensures
        r@ == strip_end(endpoint@, slash()),
{
    trim_end_slashes(endpoint)
}

/// A folder path: `/`, or `/` followed by the path without surrounding
/// slashes and white space.
pub open spec fn normalized_path(path: Seq<char>) -> Seq<char> {
    let t = trimmed(path);
    if t.len() == 0 || t == "/"@ {
        "/"@
    } else {
        "/"@ + strip_both(t, slash())
    }
}

pub fn normalize_secret_path(path: &str) -> (r: String)
    ensures
        r@ == normalized_path(path@),
{
    let t = trim(path);
    if t.as_str().unicode_len() == 0 || text_eq(t.as_str(), "/") {
        return "/".to_owned();
    }
    let mut out = "/".to_owned();
    let inner = trim_slashes(t.as_str());
    push_str(&mut out, inner.as_str());
    out
}

/// The folder of a bundle: the root for `global`, else the bundle's name as
/// a path.
pub open spec fn bundle_folder(bundle: Seq<char>) -> Seq<char> {
    if bundle == "global"@ {
        "/"@
    } else {
        normalized_path("/"@ + strip_both(bundle, slash()))
    }
}

pub fn bundle_path(bundle: &str) -> (r: String)
    ensures
        r@ == bundle_folder(bundle@),
{
    if text_eq(bundle, GLOBAL_BUNDLE) {
        return "/".to_owned();
    }
    let mut p = "/".to_owned();
    let inner = trim_slashes(bundle);
    push_str(&mut p, inner.as_str());
    normalize_secret_path(p.as_str())
}

/// The query-string spelling of a flag.
pub fn bool_str(value: bool) -> (r: &'static str)
    ensures
        r@ == (if value { "true"@ } else { "false"@ }),
{
    if value {
        "true"
    } else {
        "false"
    }
}

// ---------------------------------------------------------------- URLs

pub open spec fn is_unreserved(b: u8) -> bool {
    (65 <= b <= 90) || (97 <= b <= 122) || (48 <= b <= 57) || b == 45 || b == 95 || b == 46 || b
        == 126
}

pub open spec fn hex_upper(n: int) -> char {
    if n < 10 {
        ((n + 48) as u8) as char
    } else {
        ((n + 55) as u8) as char
    }
}

/// Each byte that is not unreserved written as `%XX`.
pub open spec fn percent_encoded(bytes: Seq<u8>) -> Seq<char>
    decreases bytes.len(),
{
    if bytes.len() == 0 {
        Seq::empty()
    } else {
        let b = bytes.last();
        percent_encoded(bytes.drop_last()) + (if is_unreserved(b) {
            seq![b as char]
        } else {
            seq!['%', hex_upper(b as int / 16), hex_upper(b as int % 16)]
        })
    }
}

fn hex_digit_upper(n: u8) -> (r: char)
    requires
        n < 16,
    ensures
        r == hex_upper(n as int),
{
    if n < 10 {
        (n + 48) as char
    } else {
        (n + 55) as char
    }
}

/// Percent-encodes a secret name for a URL path segment, byte by byte of
/// its UTF-8 form.
pub fn url_component(value: &str) -> (r: String)
    ensures
        r@ == percent_encoded(value.spec_bytes()),
{
    let bytes = value.as_bytes();
    let mut out = String::new();
    let mut i: usize = 0;
    while i < bytes.len()
        invariant
            i <= bytes@.len(),
            bytes@ == value.spec_bytes(),
            out@ == percent_encoded(bytes@.take(i as int)),
        decreases bytes@.len() - i,
    {
        let b = bytes[i];
        if (65 <= b && b <= 90) || (97 <= b && b <= 122) || (48 <= b && b <= 57) || b == 45 || b
            == 95 || b == 46 || b == 126 {
            push_char(&mut out, b as char);
        } else {
            push_char(&mut out, '%');
            push_char(&mut out, hex_digit_upper(b / 16));
            push_char(&mut out, hex_digit_upper(b % 16));
        }
        proof {
            let t = bytes@.take(i + 1);
            assert(t.drop_last() =~= bytes@.take(i as int));
            assert(t.last() == b);
        }
        i = i + 1;
    }
    assert(bytes@.take(bytes@.len() as int) =~= bytes@);
    out
}

// ---------------------------------------------------------------- remote secrets

/// One secret as the store lists it: its key, its value when the listing
/// includes values, and the folder it lives in.
#[derive(Debug, Clone)]
pub struct RemoteSecret {
    pub key: String,
    pub value: Option<String>,
    pub path: String,
}

pub open spec fn value_or_empty(v: Option<String>) -> Seq<char> {
    match v {
        Some(s) => s@,
        None => Seq::empty(),
    }
}

/// The (key, value) pairs of a listing.
pub open spec fn secret_pairs(s: Seq<RemoteSecret>) -> Pairs {
    s.map_values(|x: RemoteSecret| (x.key@, value_or_empty(x.value)))
}

/// The listing's pairs without the agent auth records.
pub open spec fn bundle_pairs(s: Seq<RemoteSecret>) -> Pairs
    decreases s.len(),
{
    if s.len() == 0 {
        Seq::empty()
    } else {
        let x = s.last();
        let rest = bundle_pairs(s.drop_last());
        if is_reserved_key(x.key@) {
            rest
        } else {
            rest.push((x.key@, value_or_empty(x.value)))
        }
    }
}

/// The listing's pairs with each agent auth record's value replaced by the
/// display placeholder.
pub open spec fn display_pairs(s: Seq<RemoteSecret>) -> Pairs
    decreases s.len(),
{
    if s.len() == 0 {
        Seq::empty()
    } else {
        let x = s.last();
        display_pairs(s.drop_last()).push(
            (
                x.key@,
                if is_reserved_key(x.key@) {
                    AGENT_AUTH_DISPLAY_VALUE@
                } else {
                    value_or_empty(x.value)
                },
            ),
        )
    }
}

/// Whether some key of the listing is an agent auth record.
pub open spec fn has_reserved(s: Seq<RemoteSecret>) -> bool {
    exists|i: int| 0 <= i < s.len() && is_reserved_key(#[trigger] s[i].key@)
}

pub fn any_reserved(secrets: &Vec<RemoteSecret>) -> (r: bool)
    ensures
        r == has_reserved(secrets@),
{
    let mut i: usize = 0;
    while i < secrets.len()
        invariant
            i <= secrets@.len(),
            forall|j: int| 0 <= j < i ==> !is_reserved_key(#[trigger] secrets@[j].key@),
        decreases secrets@.len() - i,
    {
        if is_reserved_remote_key(secrets[i].key.as_str()) {
            return true;
        }
        i = i + 1;
    }
    false
}

/// Whether reading `bundle` with an empty listing must look at the root
/// folder for agent auth records of the older layout.
pub fn needs_legacy_check(bundle: &str, listed_empty: bool) -> (r: bool)
    ensures
        r == (listed_empty && bundle@ == AGENT_AUTH_BUNDLE@),
{
    listed_empty && text_eq(bundle, AGENT_AUTH_BUNDLE)
}

/// The first listed key that is not a valid variable name.
pub open spec fn first_bad_key(pairs: Pairs) -> Option<int> {
    if exists|i: int| 0 <= i < pairs.len() && !is_env_key(#[trigger] pairs[i].0) {
        Some(choose|i: int| 0 <= i < pairs.len() && !is_env_key(#[trigger] pairs[i].0) && forall|j: int|
            0 <= j < i ==> is_env_key(#[trigger] pairs[j].0))
    } else {
        None
    }
}

/// A bundle as the remote listing holds it. An empty listing is a missing
/// bundle, unless agent auth records of the older layout stand at the root
/// (`legacy_auth`): then the agents bundle exists and is empty. Agent auth
/// records are left out (or, `for_display`, shown as a placeholder); a key
/// that is no variable name is an error.
pub fn bundle_from_listing(secrets: &Vec<RemoteSecret>, legacy_auth: bool, for_display: bool) -> (r:
    Result<Option<Env>, KeyError>)
    ensures
        ({
            let pairs = listing_pairs(secrets@, for_display);
            match r {
                Ok(None) => secrets@.len() == 0 && !legacy_auth,
                Ok(Some(env)) => (secrets@.len() == 0 && legacy_auth && env@.len() == 0) || (
                secrets@.len() > 0 && (forall|i: int|
                    0 <= i < pairs.len() ==> is_env_key(#[trigger] pairs[i].0))
                    && env.map() == crate::env::pairs_to_map(pairs)),
                Err(e) => secrets@.len() > 0 && (exists|i: int|
                    0 <= i < pairs.len() && !is_env_key(#[trigger] pairs[i].0)),
            }
        }),
{
    if secrets.len() == 0 {
        if legacy_auth {
            return Ok(Some(Env::new()));
        }
        return Ok(None);
    }
    let ghost pairs = if for_display {
        display_pairs(secrets@)
    } else {
        bundle_pairs(secrets@)
    };
    let mut env = Env::new();
    let mut i: usize = 0;
    let ghost mut done: Pairs = Seq::empty();
    while i < secrets.len()
        invariant
            i <= secrets@.len(),
            pairs == (if for_display {
                display_pairs(secrets@)
            } else {
                bundle_pairs(secrets@)
            }),
            done == (if for_display {
                display_pairs(secrets@.take(i as int))
            } else {
                bundle_pairs(secrets@.take(i as int))
            }),
            forall|j: int| 0 <= j < done.len() ==> is_env_key(#[trigger] done[j].0),
            env.map() == crate::env::pairs_to_map(done),
        decreases secrets@.len() - i,
    {
        let s = &secrets[i];
        let ghost t = secrets@.take(i + 1);
        assert(t.drop_last() =~= secrets@.take(i as int));
        assert(t.last() == secrets@[i as int]);
        let reserved = is_reserved_remote_key(s.key.as_str());
        if reserved && !for_display {
            proof {
                done = bundle_pairs(t);
            }
        } else {
            if let Err(e) = validate_env_key(s.key.as_str()) {
                proof {
                    let full = listing_pairs(secrets@, for_display);
                    let here = listing_pairs(t, for_display);
                    lemma_prefix_pairs(secrets@, i + 1, for_display);
                    assert(here[here.len() - 1].0 == s.key@);
                    let last = here.len() - 1;
                    assert(0 <= last < here.len());
                    assert(full[last] == here[last]);
                    assert(!is_env_key(full[last].0));
                }
                return Err(e);
            }
            let value = if reserved {
                AGENT_AUTH_DISPLAY_VALUE.to_owned()
            } else {
                match &s.value {
                    Some(v) => v.clone(),
                    None => String::new(),
                }
            };
            let ghost before = done;
            env.insert(s.key.clone(), value);
            proof {
                done = if for_display {
                    display_pairs(t)
                } else {
                    bundle_pairs(t)
                };
                assert(done == before.push((s.key@, value@)));
                assert(done.drop_last() =~= before);
            }
        }
        i = i + 1;
    }
    assert(secrets@.take(secrets@.len() as int) =~= secrets@);
    Ok(Some(env))
}

/// The pairs a listing shows, with or without the placeholders.
pub open spec fn listing_pairs(s: Seq<RemoteSecret>, for_display: bool) -> Pairs {
    if for_display {
        display_pairs(s)
    } else {
        bundle_pairs(s)
    }
}

/// One more secret adds at most one pair at the end.
proof fn lemma_pairs_step(s: Seq<RemoteSecret>, k: int, d: bool)
    requires
        0 <= k < s.len(),
    ensures
        listing_pairs(s.take(k), d).len() <= listing_pairs(s.take(k + 1), d).len(),
        forall|j: int|
            0 <= j < listing_pairs(s.take(k), d).len() ==> #[trigger] listing_pairs(
                s.take(k + 1),
                d,
            )[j] == listing_pairs(s.take(k), d)[j],
{
    let t = s.take(k + 1);
    assert(t.drop_last() =~= s.take(k));
    let p0 = listing_pairs(s.take(k), d);
    let p1 = listing_pairs(t, d);
    if d {
        assert(p1 == p0.push(p1.last()));
    } else if is_reserved_key(t.last().key@) {
        assert(p1 == p0);
    } else {
        assert(p1 == p0.push(p1.last()));
    }
}

/// The pairs of a prefix of a listing are a prefix of the listing's pairs.
proof fn lemma_prefix_pairs(s: Seq<RemoteSecret>, k: int, d: bool)
    requires
        0 <= k <= s.len(),
    ensures
        listing_pairs(s.take(k), d).len() <= listing_pairs(s, d).len(),
        forall|j: int|
            0 <= j < listing_pairs(s.take(k), d).len() ==> #[trigger] listing_pairs(s, d)[j]
                == listing_pairs(s.take(k), d)[j],
    decreases s.len() - k,
{
    if k < s.len() {
        lemma_prefix_pairs(s, k + 1, d);
        lemma_pairs_step(s, k, d);
        assert forall|j: int| 0 <= j < listing_pairs(s.take(k), d).len() implies #[trigger] listing_pairs(
            s,
            d,
        )[j] == listing_pairs(s.take(k), d)[j] by {
            assert(listing_pairs(s.take(k + 1), d)[j] == listing_pairs(s.take(k), d)[j]);
            assert(listing_pairs(s, d)[j] == listing_pairs(s.take(k + 1), d)[j]);
        }
    } else {
        assert(s.take(k) =~= s);
    }
}

// ---------------------------------------------------------------- writing a bundle

/// One request that brings the remote bundle in line with a local one.
#[derive(Debug, Clone)]
pub enum WriteOp {
    Delete(String),
    Update(String, String),
    Create(String, String),
}

/// A request as plain values: 0 delete, 1 update, 2 create; key; value.
pub open spec fn op_view(op: WriteOp) -> (u8, Seq<char>, Seq<char>) {
    match op {
        WriteOp::Delete(k) => (0, k@, Seq::empty()),
        WriteOp::Update(k, v) => (1, k@, v@),
        WriteOp::Create(k, v) => (2, k@, v@),
    }
}

pub open spec fn ops_view(ops: Seq<WriteOp>) -> Seq<(u8, Seq<char>, Seq<char>)> {
    ops.map_values(|op: WriteOp| op_view(op))
}

/// Deletions of the existing keys the bundle no longer holds, in listing
/// order.
pub open spec fn deletions(existing: Seq<Seq<char>>, keep: Map<Seq<char>, Seq<char>>) -> Seq<
    (u8, Seq<char>, Seq<char>),
>
    decreases existing.len(),
{
    if existing.len() == 0 {
        Seq::empty()
    } else {
        let k = existing.last();
        let rest = deletions(existing.drop_last(), keep);
        if keep.dom().contains(k) {
            rest
        } else {
            rest.push((0u8, k, Seq::empty()))
        }
    }
}

/// An update for each variable whose key exists, a creation for each other,
/// in name order.
pub open spec fn upserts(existing: Seq<Seq<char>>, env: Pairs) -> Seq<(u8, Seq<char>, Seq<char>)>
    decreases env.len(),
{
    if env.len() == 0 {
        Seq::empty()
    } else {
        let (k, v) = env.last();
        upserts(existing, env.drop_last()).push(
            (if existing.contains(k) { 1u8 } else { 2u8 }, k, v),
        )
    }
}

/// The keys of a folder listing that are not agent auth records.
pub open spec fn plain_keys(s: Seq<RemoteSecret>) -> Seq<Seq<char>>
    decreases s.len(),
{
    if s.len() == 0 {
        Seq::empty()
    } else {
        let rest = plain_keys(s.drop_last());
        if is_reserved_key(s.last().key@) {
            rest
        } else {
            rest.push(s.last().key@)
        }
    }
}

/// The keys of a listing, agent auth records left out.
pub fn listed_plain_keys(secrets: &Vec<RemoteSecret>) -> (r: Vec<String>)
    ensures
        string_views(r@) == plain_keys(secrets@),
{
    let mut out: Vec<String> = Vec::new();
    let mut i: usize = 0;
    while i < secrets.len()
        invariant
            i <= secrets@.len(),
            string_views(out@) == plain_keys(secrets@.take(i as int)),
        decreases secrets@.len() - i,
    {
        let ghost t = secrets@.take(i + 1);
        assert(t.drop_last() =~= secrets@.take(i as int));
        assert(t.last() == secrets@[i as int]);
        if !is_reserved_remote_key(secrets[i].key.as_str()) {
            let ghost before = out@;
            out.push(secrets[i].key.clone());
            assert(string_views(out@) =~= string_views(before).push(secrets@[i as int].key@));
        }
        i = i + 1;
    }
    assert(secrets@.take(secrets@.len() as int) =~= secrets@);
    out
}

fn contains_text(v: &Vec<String>, k: &str) -> (r: bool)
    ensures
        r == string_views(v@).contains(k@),
{
    let mut i: usize = 0;
    while i < v.len()
        invariant
            i <= v@.len(),
            forall|j: int| 0 <= j < i ==> v@[j]@ != k@,
        decreases v@.len() - i,
    {
        if text_eq(v[i].as_str(), k) {
            assert(string_views(v@)[i as int] == k@);
            return true;
        }
        i = i + 1;
    }
    proof {
        if string_views(v@).contains(k@) {
            let j = choose|j: int| 0 <= j < string_views(v@).len() && string_views(v@)[j] == k@;
            assert(v@[j]@ == k@);
        }
    }
    false
}

/// The requests that make the remote folder hold exactly `env`, given the
/// keys it holds now (agent auth records already left out): deletions
/// first, then updates and creations.
pub fn write_plan(existing: &Vec<String>, env: &Env) -> (r: Vec<WriteOp>)
    ensures
        ops_view(r@) == deletions(string_views(existing@), env.map()) + upserts(
            string_views(existing@),
            env@,
        ),
{
    let mut out: Vec<WriteOp> = Vec::new();
    let ghost ex = string_views(existing@);
    let mut i: usize = 0;
    while i < existing.len()
        invariant
            i <= existing@.len(),
            ex == string_views(existing@),
            ops_view(out@) == deletions(ex.take(i as int), env.map()),
        decreases existing@.len() - i,
    {
        let ghost t = ex.take(i + 1);
        assert(t.drop_last() =~= ex.take(i as int));
        assert(t.last() == existing@[i as int]@);
        if !env.contains_key(existing[i].as_str()) {
            let ghost before = out@;
            out.push(WriteOp::Delete(existing[i].clone()));
            assert(ops_view(out@) =~= ops_view(before).push(
                (0u8, existing@[i as int]@, Seq::empty()),
            ));
        }
        i = i + 1;
    }
    assert(ex.take(existing@.len() as int) =~= ex);
    let ghost dels = ops_view(out@);
    let n = env.len();
    let mut j: usize = 0;
    while j < n
        invariant
            n == env@.len(),
            j <= n,
            ex == string_views(existing@),
            ops_view(out@) == dels + upserts(ex, env@.take(j as int)),
        decreases n - j,
    {
        let k = env.key_at(j);
        let v = env.value_at(j);
        let ghost t = env@.take(j + 1);
        assert(t.drop_last() =~= env@.take(j as int));
        assert(t.last() == env@[j as int]);
        let ghost before = out@;
        if contains_text(existing, k.as_str()) {
            out.push(WriteOp::Update(k.clone(), v.clone()));
        } else {
            out.push(WriteOp::Create(k.clone(), v.clone()));
        }
        assert(ops_view(out@) =~= ops_view(before).push(
            (if ex.contains(k@) { 1u8 } else { 2u8 }, k@, v@),
        ));
        j = j + 1;
    }
    assert(env@.take(n as int) =~= env@);
    out
}

// ---------------------------------------------------------------- listing bundles

/// The bundle a folder path stands for.
pub open spec fn bundle_of_folder(path: Seq<char>) -> Seq<char> {
    if path == "/"@ || is_blank(path) {
        "global"@
    } else {
        strip_both(path, slash())
    }
}

/// The bundle name a listed secret contributes, if any: agent auth records
/// count toward the agents bundle (at the root too, the older layout), and
/// folders under `authless` are not bundles.
pub open spec fn listed_bundle(key: Seq<char>, path: Seq<char>) -> Option<Seq<char>> {
    let b = bundle_of_folder(path);
    let named = if is_reserved_key(key) {
        if b == "global"@ {
            Some("agents"@)
        } else if b == "agents"@ {
            Some(b)
        } else {
            None
        }
    } else {
        Some(b)
    };
    match named {
        Some(n) => if n == "authless"@ || starts_with(n, "authless/"@) {
            None
        } else {
            Some(n)
        },
        None => None,
    }
}

fn bundle_of_secret(secret: &RemoteSecret) -> (r: Option<String>)
    ensures
        match r {
            Some(n) => listed_bundle(secret.key@, secret.path@) == Some(n@),
            None => listed_bundle(secret.key@, secret.path@) is None,
        },
{
    let b = if text_eq(secret.path.as_str(), "/") || blank(secret.path.as_str()) {
        "global".to_owned()
    } else {
        trim_slashes(secret.path.as_str())
    };
    let named = if is_reserved_remote_key(secret.key.as_str()) {
        if text_eq(b.as_str(), GLOBAL_BUNDLE) {
            Some(AGENT_AUTH_BUNDLE.to_owned())
        } else if text_eq(b.as_str(), AGENT_AUTH_BUNDLE) {
            Some(b)
        } else {
            None
        }
    } else {
        Some(b)
    };
    match named {
        Some(n) => {
            if text_eq(n.as_str(), "authless") || has_prefix(n.as_str(), "authless/") {
                None
            } else {
                Some(n)
            }
        },
        None => None,
    }
}

/// Law: an agent auth record counts toward the `agents` bundle, whether it
/// sits in the agents folder or, in the older layout, at the root.
pub proof fn law_agent_records_count_toward_agents(key: Seq<char>, path: Seq<char>)
    requires
        is_reserved_key(key),
        bundle_of_folder(path) == "agents"@ || bundle_of_folder(path) == "global"@,
    ensures
        listed_bundle(key, path) == Some("agents"@),
{
    reveal_strlit("agents");
    reveal_strlit("authless");
    reveal_strlit("authless/");
    assert("agents"@.len() == 6 && "authless"@.len() == 8 && "authless/"@.len() == 9);
    assert("agents"@ != "authless"@);
    assert(!starts_with("agents"@, "authless/"@));
}

/// Law: an ordinary variable counts toward the bundle of its folder, unless
/// that folder lies under `authless`; an agent auth record anywhere but the
/// root or the agents folder counts toward no bundle.
pub proof fn law_variables_count_toward_their_folder(key: Seq<char>, path: Seq<char>)
    ensures
        ({
            let b = bundle_of_folder(path);
            let hidden = b == "authless"@ || starts_with(b, "authless/"@);
            &&& !is_reserved_key(key) && !hidden ==> listed_bundle(key, path) == Some(b)
            &&& !is_reserved_key(key) && hidden ==> listed_bundle(key, path) is None
            &&& is_reserved_key(key) && b != "agents"@ && b != "global"@ ==> listed_bundle(key, path) is None
        }),
{
}

/// Law: the folder agent auth records are written to stands for the
/// `agents` bundle, so a listing that holds a record there names `agents`:
/// some secret of it contributes that name, which `list_bundles` then
/// returns.
pub proof fn law_agents_folder_is_listed(secrets: Seq<RemoteSecret>, i: int)
    requires
        0 <= i < secrets.len(),
        is_reserved_key(secrets[i].key@),
        secrets[i].path@ == AGENT_AUTH_SECRET_PATH@,
    ensures
        exists|j: int|
            0 <= j < secrets.len() && listed_bundle(#[trigger] secrets[j].key@, secrets[j].path@)
                == Some("agents"@),
{
    reveal_strlit("/agents");
    reveal_strlit("agents");
    reveal_strlit("/");
    let path = secrets[i].path@;
    assert(path =~= "/"@ + "agents"@);
    assert(path != "/"@);
    assert(!is_blank(path)) by {
        assert(!is_white_space(path[0]));
    }
    lemma_strip_slash_prefix("agents"@);
    assert(bundle_of_folder(path) == "agents"@);
    law_agent_records_count_toward_agents(secrets[i].key@, path);
}

pub open spec fn names_sorted(s: Seq<Seq<char>>) -> bool {
    forall|i: int, j: int| 0 <= i < j < s.len() ==> seq_lt(#[trigger] s[i], #[trigger] s[j])
}

/// Adds `x` to a sorted list of distinct names, unless it is there.
fn insert_name(names: &mut Vec<String>, x: String)
    requires
        names_sorted(string_views(old(names)@)),
    ensures
        names_sorted(string_views(final(names)@)),
        forall|n: Seq<char>|
            string_views(final(names)@).contains(n) <==> (string_views(old(names)@).contains(n)
                || n == x@),
{
    let ghost old_v = string_views(names@);
    let mut i: usize = 0;
    let mut stop = false;
    while i < names.len() && !stop
        invariant
            i <= names@.len(),
            old_v == string_views(names@),
            names_sorted(old_v),
            forall|j: int| 0 <= j < i ==> seq_lt(#[trigger] old_v[j], x@),
            stop ==> i < names@.len() && seq_lt(x@, old_v[i as int]),
        decreases names@.len() - i + (if stop { 0int } else { 1int }),
    {
        match compare_text(names[i].as_str(), x.as_str()) {
            Order::Less => {
                i = i + 1;
            },
            Order::Equal => {
                assert(old_v[i as int] == x@);
                return;
            },
            Order::Greater => {
                stop = true;
            },
        }
    }
    // every later name is greater than x
    assert forall|j: int| i <= j < old_v.len() implies seq_lt(x@, #[trigger] old_v[j]) by {
        if j == i {
        } else {
            lemma_lt_transitive(x@, old_v[i as int], old_v[j]);
        }
    }
    names.insert(i, x);
    proof {
        let nv = string_views(names@);
        assert(nv =~= old_v.insert(i as int, x@));
        assert forall|a: int, b: int| 0 <= a < b < nv.len() implies seq_lt(
            #[trigger] nv[a],
            #[trigger] nv[b],
        ) by {
            if a < i && b < i {
            } else if a < i && b == i {
            } else if a < i {
                assert(nv[b] == old_v[b - 1]);
                lemma_lt_transitive(old_v[a], x@, old_v[b - 1]);
            } else if a == i {
                assert(nv[b] == old_v[b - 1]);
            } else {
                assert(nv[a] == old_v[a - 1] && nv[b] == old_v[b - 1]);
            }
        }
        assert forall|n: Seq<char>| nv.contains(n) <==> (old_v.contains(n) || n == x@) by {
            if nv.contains(n) {
                let k = choose|k: int| 0 <= k < nv.len() && nv[k] == n;
                if k < i {
                    assert(old_v[k] == n);
                } else if k > i {
                    assert(old_v[k - 1] == n);
                }
            }
            if old_v.contains(n) {
                let k = choose|k: int| 0 <= k < old_v.len() && old_v[k] == n;
                if k < i {
                    assert(nv[k] == n);
                } else {
                    assert(nv[k + 1] == n);
                }
            }
            if n == x@ {
                assert(nv[i as int] == n);
            }
        }
    }
}

/// The bundles a recursive listing of the store shows: sorted, each once.
pub fn list_bundles(secrets: &Vec<RemoteSecret>) -> (r: Vec<String>)
    ensures
        names_sorted(string_views(r@)),
        forall|n: Seq<char>|
            string_views(r@).contains(n) <==> exists|i: int|
                0 <= i < secrets@.len() && listed_bundle(
                    #[trigger] secrets@[i].key@,
                    secrets@[i].path@,
                ) == Some(n),
{
    let mut out: Vec<String> = Vec::new();
    let mut i: usize = 0;
    while i < secrets.len()
        invariant
            i <= secrets@.len(),
            names_sorted(string_views(out@)),
            forall|n: Seq<char>|
                string_views(out@).contains(n) <==> exists|j: int|
                    0 <= j < i && listed_bundle(#[trigger] secrets@[j].key@, secrets@[j].path@)
                        == Some(n),
        decreases secrets@.len() - i,
    {
        let ghost before = string_views(out@);
        match bundle_of_secret(&secrets[i]) {
            Some(name) => {
                let ghost nm = name@;
                insert_name(&mut out, name);
                proof {
                    assert forall|n: Seq<char>| string_views(out@).contains(n) <==> exists|j: int|
                        0 <= j < i + 1 && listed_bundle(
                            #[trigger] secrets@[j].key@,
                            secrets@[j].path@,
                        ) == Some(n) by {
                        if n == nm {
                            assert(listed_bundle(secrets@[i as int].key@, secrets@[i as int].path@)
                                == Some(n));
                        }
                        if exists|j: int|
                            0 <= j < i + 1 && listed_bundle(
                                #[trigger] secrets@[j].key@,
                                secrets@[j].path@,
                            ) == Some(n) {
                            let j = choose|j: int|
                                0 <= j < i + 1 && listed_bundle(
                                    #[trigger] secrets@[j].key@,
                                    secrets@[j].path@,
                                ) == Some(n);
                            if j < i {
                                assert(before.contains(n));
                            }
                        }
                    }
                }
            },
            None => {
                proof {
                    assert forall|n: Seq<char>| string_views(out@).contains(n) <==> exists|j: int|
                        0 <= j < i + 1 && listed_bundle(
                            #[trigger] secrets@[j].key@,
                            secrets@[j].path@,
                        ) == Some(n) by {
                        if exists|j: int|
                            0 <= j < i + 1 && listed_bundle(
                                #[trigger] secrets@[j].key@,
                                secrets@[j].path@,
                            ) == Some(n) {
                            let j = choose|j: int|
                                0 <= j < i + 1 && listed_bundle(
                                    #[trigger] secrets@[j].key@,
                                    secrets@[j].path@,
                                ) == Some(n);
                            if j < i {
                                assert(before.contains(n));
                            }
                        }
                    }
                }
            },
        }
        i = i + 1;
    }
    out
}

// ---------------------------------------------------------------- folders

/// The pieces of `s` between the occurrences of `sep`.
pub open spec fn split_all(s: Seq<char>, sep: char) -> Seq<Seq<char>>
    decreases s.len(),
{
    let i = crate::clock::first_index(s, sep);
    if i >= s.len() || i < 0 {
        seq![s]
    } else {
        seq![s.subrange(0, i)] + split_all(s.subrange(i + 1, s.len() as int), sep)
    }
}

/// The (name, parent) pairs of the folders to create, outermost first,
/// for the pieces `parts` under `parent`.
pub open spec fn folder_chain(parts: Seq<Seq<char>>, parent: Seq<char>) -> Seq<
    (Seq<char>, Seq<char>),
>
    decreases parts.len(),
{
    if parts.len() == 0 {
        Seq::empty()
    } else {
        let part = parts[0];
        let next = if parent == "/"@ {
            "/"@ + part
        } else {
            parent + "/"@ + part
        };
        seq![(part, parent)] + folder_chain(parts.drop_first(), next)
    }
}

/// The folders to create before a secret can be written at `path`.
pub open spec fn folders_for(path: Seq<char>) -> Seq<(Seq<char>, Seq<char>)> {
    let p = normalized_path(path);
    if p == "/"@ {
        Seq::empty()
    } else {
        folder_chain(split_all(strip_both(p, slash()), '/'), "/"@)
    }
}

fn split_slashes(s: &str) -> (r: Vec<String>)
    ensures
        string_views(r@) == split_all(s@, '/'),
    decreases s@.len(),
{
    let n = s.unicode_len();
    let mut i: usize = 0;
    let mut stop = false;
    while i < n && !stop
        invariant
            n == s@.len(),
            i <= n,
            forall|j: int| 0 <= j < i ==> s@[j] != '/',
            stop ==> i < n && s@[i as int] == '/',
        decreases n - i + (if stop { 0int } else { 1int }),
    {
        if s.get_char(i) == '/' {
            stop = true;
        } else {
            i = i + 1;
        }
    }
    proof {
        crate::clock::lemma_first_index(s@, '/');
    }
    let mut out: Vec<String> = Vec::new();
    out.push(owned(s.substring_char(0, i)));
    if i < n && s.get_char(i) == '/' {
        proof {
            lemma_first_index_is(s@, '/', i as int);
        }
        let rest = split_slashes(s.substring_char(i + 1, n));
        let mut k: usize = 0;
        let ghost head = string_views(out@);
        while k < rest.len()
            invariant
                k <= rest@.len(),
                string_views(out@) == head + string_views(rest@).take(k as int),
            decreases rest@.len() - k,
        {
            let ghost before = string_views(out@);
            out.push(rest[k].clone());
            assert(string_views(out@) =~= before.push(rest@[k as int]@));
            assert(string_views(rest@).take(k + 1) =~= string_views(rest@).take(k as int).push(
                rest@[k as int]@,
            ));
            k = k + 1;
        }
        assert(string_views(rest@).take(rest@.len() as int) =~= string_views(rest@));
        assert(head =~= seq![s@.subrange(0, i as int)]);
    } else {
        proof {
            lemma_first_index_is(s@, '/', i as int);
            assert(s@.subrange(0, i as int) =~= s@);
        }
        assert(string_views(out@) =~= seq![s@]);
    }
    out
}

proof fn lemma_first_index_is(s: Seq<char>, c: char, i: int)
    requires
        0 <= i <= s.len(),
        forall|j: int| 0 <= j < i ==> s[j] != c,
        i == s.len() || s[i] == c,
    ensures
        crate::clock::first_index(s, c) == i,
    decreases s.len(),
{
    if s.len() > 0 && i > 0 {
        lemma_first_index_is(s.drop_first(), c, i - 1);
    }
}

/// The path of folder `name` inside folder `parent`.
pub open spec fn child_path(parent: Seq<char>, name: Seq<char>) -> Seq<char> {
    if parent == "/"@ {
        "/"@ + name
    } else {
        parent + "/"@ + name
    }
}

proof fn lemma_chain_links(parts: Seq<Seq<char>>, parent: Seq<char>)
    ensures
        folder_chain(parts, parent).len() == parts.len(),
        parts.len() > 0 ==> folder_chain(parts, parent)[0] == (parts[0], parent),
        forall|i: int|
            0 < i < parts.len() ==> #[trigger] folder_chain(parts, parent)[i].1 == child_path(
                folder_chain(parts, parent)[i - 1].1,
                folder_chain(parts, parent)[i - 1].0,
            ),
        forall|i: int| 0 <= i < parts.len() ==> #[trigger] folder_chain(parts, parent)[i].0 == parts[i],
    decreases parts.len(),
{
    if parts.len() > 0 {
        let next = child_path(parent, parts[0]);
        let rest = parts.drop_first();
        lemma_chain_links(rest, next);
        let c = folder_chain(parts, parent);
        let rc = folder_chain(rest, next);
        assert(c == seq![(parts[0], parent)] + rc);
        assert forall|i: int| 0 < i < parts.len() implies #[trigger] c[i].1 == child_path(
            c[i - 1].1,
            c[i - 1].0,
        ) by {
            assert(c[i] == rc[i - 1]);
            if i > 1 {
                assert(c[i - 1] == rc[i - 2]);
            }
        }
        assert forall|i: int| 0 <= i < parts.len() implies #[trigger] c[i].0 == parts[i] by {
            if i > 0 {
                assert(c[i] == rc[i - 1]);
                assert(rest[i - 1] == parts[i]);
            }
        }
    }
}

/// No piece of a split holds the separator; the first piece of text that
/// does not start with it is not empty.
proof fn lemma_split_pieces(s: Seq<char>)
    ensures
        split_all(s, '/').len() > 0,
        forall|i: int| 0 <= i < split_all(s, '/').len() ==> !(#[trigger] split_all(s, '/')[i]).contains('/'),
        s.len() > 0 && s[0] != '/' ==> split_all(s, '/')[0].len() > 0,
    decreases s.len(),
{
    lemma_split_first(s);
    crate::clock::lemma_first_index(s, '/');
    let i = crate::clock::first_index(s, '/');
    let parts = split_all(s, '/');
    if 0 <= i < s.len() {
        let s0 = s.subrange(0, i);
        let rest = s.subrange(i + 1, s.len() as int);
        lemma_split_pieces(rest);
        assert(!s0.contains('/')) by {
            if s0.contains('/') {
                let j = choose|j: int| 0 <= j < s0.len() && s0[j] == '/';
                assert(s[j] == '/');
            }
        }
        assert forall|k: int| 0 <= k < parts.len() implies !(#[trigger] parts[k]).contains('/') by {
            if k > 0 {
                assert(parts[k] == split_all(rest, '/')[k - 1]);
            }
        }
        if s.len() > 0 && s[0] != '/' {
            assert(i != 0);
        }
    } else {
        crate::clock::lemma_first_index(s, '/');
        assert(!s.contains('/')) by {
            if s.contains('/') {
                let j = choose|j: int| 0 <= j < s.len() && s[j] == '/';
                assert(s[j] != '/');
            }
        }
    }
}

/// The pieces of `s` around its first `/`, when it has one.
proof fn lemma_split_first(s: Seq<char>)
    ensures
        ({
            let i = crate::clock::first_index(s, '/');
            if 0 <= i < s.len() {
                &&& split_all(s, '/') == seq![s.subrange(0, i)] + split_all(
                    s.subrange(i + 1, s.len() as int),
                    '/',
                )
                &&& s == s.subrange(0, i) + "/"@ + s.subrange(i + 1, s.len() as int)
                &&& forall|j: int| 0 <= j < i ==> s[j] != '/'
            } else {
                split_all(s, '/') == seq![s]
            }
        }),
{
    reveal_strlit("/");
    crate::clock::lemma_first_index(s, '/');
    let i = crate::clock::first_index(s, '/');
    if 0 <= i < s.len() {
        assert(s =~= s.subrange(0, i) + "/"@ + s.subrange(i + 1, s.len() as int));
    }
}

proof fn lemma_chain_single(part: Seq<char>, parent: Seq<char>)
    ensures
        folder_chain(seq![part], parent) == seq![(part, parent)],
{
    let next = child_path(parent, part);
    assert(seq![part].drop_first() =~= Seq::<Seq<char>>::empty());
    assert(folder_chain(Seq::<Seq<char>>::empty(), next) =~= Seq::<(Seq<char>, Seq<char>)>::empty());
    assert(folder_chain(seq![part], parent) =~= seq![(part, parent)]);
}

/// Below a folder other than the root, the folders for `s` end in the
/// folder `parent/s`.
proof fn lemma_chain_end(s: Seq<char>, parent: Seq<char>)
    requires
        parent.len() >= 2,
    ensures
        folder_chain(split_all(s, '/'), parent).len() > 0,
        child_path(
            folder_chain(split_all(s, '/'), parent).last().1,
            folder_chain(split_all(s, '/'), parent).last().0,
        ) == parent + "/"@ + s,
    decreases s.len(),
{
    reveal_strlit("/");
    lemma_split_first(s);
    let i = crate::clock::first_index(s, '/');
    if 0 <= i < s.len() {
        let s0 = s.subrange(0, i);
        let rest = s.subrange(i + 1, s.len() as int);
        let parts = split_all(s, '/');
        let next = parent + "/"@ + s0;
        assert(parts.drop_first() =~= split_all(rest, '/'));
        assert(parts[0] == s0);
        assert(parent != "/"@);
        lemma_chain_end(rest, next);
        let rc = folder_chain(split_all(rest, '/'), next);
        let c = folder_chain(parts, parent);
        assert(c == seq![(s0, parent)] + rc);
        assert(c.last() == rc.last());
        assert(next + "/"@ + rest =~= parent + "/"@ + s);
    } else {
        lemma_chain_single(s, parent);
    }
}

/// From the root, the folders for a path with no slash at either end end in
/// the folder `/s`.
proof fn lemma_chain_from_root(s: Seq<char>)
    requires
        s.len() > 0,
        s[0] != '/',
    ensures
        folder_chain(split_all(s, '/'), "/"@).len() > 0,
        child_path(
            folder_chain(split_all(s, '/'), "/"@).last().1,
            folder_chain(split_all(s, '/'), "/"@).last().0,
        ) == "/"@ + s,
{
    reveal_strlit("/");
    lemma_split_first(s);
    let i = crate::clock::first_index(s, '/');
    if 0 <= i < s.len() {
        let s0 = s.subrange(0, i);
        let rest = s.subrange(i + 1, s.len() as int);
        let parts = split_all(s, '/');
        assert(i != 0);
        let next = "/"@ + s0;
        assert(parts.drop_first() =~= split_all(rest, '/'));
        assert(parts[0] == s0);
        assert(next.len() >= 2);
        lemma_chain_end(rest, next);
        let rc = folder_chain(split_all(rest, '/'), next);
        let c = folder_chain(parts, "/"@);
        assert(c == seq![(s0, "/"@)] + rc);
        assert(c.last() == rc.last());
        assert(next + "/"@ + rest =~= "/"@ + s);
    } else {
        lemma_chain_single(s, "/"@);
    }
}

/// Law: the folders created before a bundle is written lead, one inside the
/// other, to the secret path: the first sits in the root, each next one in
/// the folder requested just before it, and the last one is the normalized
/// secret path itself. Each is one step of the path: no name holds a `/`,
/// and the first is not empty. A path that normalizes to the root needs
/// none.
pub proof fn law_folders_lead_to_path(path: Seq<char>)
    ensures
        (folders_for(path).len() == 0) == (normalized_path(path) == "/"@),
        folders_for(path).len() > 0 ==> folders_for(path)[0].1 == "/"@,
        forall|i: int|
            0 < i < folders_for(path).len() ==> #[trigger] folders_for(path)[i].1 == child_path(
                folders_for(path)[i - 1].1,
                folders_for(path)[i - 1].0,
            ),
        folders_for(path).len() > 0 ==> child_path(
            folders_for(path).last().1,
            folders_for(path).last().0,
        ) == normalized_path(path),
        forall|i: int| 0 <= i < folders_for(path).len() ==> !(#[trigger] folders_for(path)[i]).0.contains('/'),
        folders_for(path).len() > 0 ==> folders_for(path)[0].0.len() > 0,
{
    reveal_strlit("/");
    let p = normalized_path(path);
    if p != "/"@ {
        let t = trimmed(path);
        let inner = strip_both(t, slash());
        assert(p == "/"@ + inner);
        if inner.len() == 0 {
            assert(p =~= "/"@);
        }
        lemma_strip_both_ends(t, slash());
        lemma_strip_slash_prefix(inner);
        let parts = split_all(inner, '/');
        lemma_chain_links(parts, "/"@);
        lemma_chain_from_root(inner);
        lemma_split_pieces(inner);
        let r = folders_for(path);
        assert forall|i: int| 0 <= i < r.len() implies !(#[trigger] r[i]).0.contains('/') by {
            assert(r[i].0 == parts[i]);
        }
    }
}

/// The (name, parent) folders to create, outermost first, before writing a
/// secret at `secret_path`.
pub fn folder_requests(secret_path: &str) -> (r: Vec<(String, String)>)
    ensures
        r@.map_values(|p: (String, String)| (p.0@, p.1@)) == folders_for(secret_path@),
{
    let path = normalize_secret_path(secret_path);
    let mut out: Vec<(String, String)> = Vec::new();
    if text_eq(path.as_str(), "/") {
        assert(out@.map_values(|p: (String, String)| (p.0@, p.1@)) =~= folders_for(
            secret_path@,
        ));
        return out;
    }
    let inner = trim_slashes(path.as_str());
    let parts = split_slashes(inner.as_str());
    let mut parent = "/".to_owned();
    let mut i: usize = 0;
    let ghost all = string_views(parts@);
    assert(all.skip(0) =~= all);
    assert(out@.map_values(|p: (String, String)| (p.0@, p.1@)) =~= Seq::<(Seq<char>, Seq<char>)>::empty());
    while i < parts.len()
        invariant
            i <= parts@.len(),
            all == string_views(parts@),
            out@.map_values(|p: (String, String)| (p.0@, p.1@)) + folder_chain(
                all.skip(i as int),
                parent@,
            ) == folder_chain(all, "/"@),
        decreases parts@.len() - i,
    {
        let part = parts[i].clone();
        let next = if text_eq(parent.as_str(), "/") {
            let mut p = "/".to_owned();
            push_str(&mut p, part.as_str());
            p
        } else {
            let mut p = parent.clone();
            push_str(&mut p, "/");
            push_str(&mut p, part.as_str());
            p
        };
        let ghost before = out@.map_values(|p: (String, String)| (p.0@, p.1@));
        let ghost rest = all.skip(i as int);
        let ghost pv = parent@;
        assert(rest[0] == part@);
        assert(rest.drop_first() =~= all.skip(i + 1));
        assert(next@ == (if pv == "/"@ {
            "/"@ + part@
        } else {
            pv + "/"@ + part@
        }));
        assert(folder_chain(rest, pv) == seq![(part@, pv)] + folder_chain(all.skip(i + 1), next@));
        out.push((part, parent));
        assert(out@.map_values(|p: (String, String)| (p.0@, p.1@)) =~= before.push((part@, pv)));
        parent = next;
        assert(before.push((part@, pv)) + folder_chain(all.skip(i + 1), parent@) =~= before
            + folder_chain(rest, pv));
        i = i + 1;
    }
    assert(all.skip(parts@.len() as int) =~= Seq::<Seq<char>>::empty());
    assert(out@.map_values(|p: (String, String)| (p.0@, p.1@)) =~= out@.map_values(|p: (String, String)| (p.0@, p.1@)) + folder_chain(Seq::<Seq<char>>::empty(), parent@));
    out
}


// ---------------------------------------------------------------- requests

fn joined(base: &str, tail: &str) -> (r: String)
    ensures
        r@ == base@ + tail@,
{
    let mut out = owned(base);
    push_str(&mut out, tail);
    out
}

/// The URL that lists secrets.
pub fn secrets_url(endpoint: &str) -> (r: String)
    ensures
        r@ == endpoint@ + "/api/v4/secrets"@,
{
    joined(endpoint, "/api/v4/secrets")
}

/// The URL of one secret, its name percent-encoded.
pub fn secret_url(endpoint: &str, key: &str) -> (r: String)
    ensures
        r@ == endpoint@ + "/api/v4/secrets/"@ + percent_encoded(key.spec_bytes()),
{
    let mut out = joined(endpoint, "/api/v4/secrets/");
    let k = url_component(key);
    push_str(&mut out, k.as_str());
    out
}

/// The URL that creates folders.
pub fn folders_url(endpoint: &str) -> (r: String)
    ensures
        r@ == endpoint@ + "/api/v2/folders"@,
{
    joined(endpoint, "/api/v2/folders")
}

/// The URL of a service token's metadata.
pub fn service_token_url(endpoint: &str) -> (r: String)
    ensures
        r@ == strip_end(endpoint@, slash()) + "/api/v2/service-token"@,
{
    let base = normalize_endpoint(endpoint);
    joined(base.as_str(), "/api/v2/service-token")
}

/// The URL that lists projects.
pub fn projects_url(endpoint: &str) -> (r: String)
    ensures
        r@ == strip_end(endpoint@, slash()) + "/api/v1/projects"@,
{
    let base = normalize_endpoint(endpoint);
    joined(base.as_str(), "/api/v1/projects")
}

/// The URL of the Universal Auth login.
pub fn universal_auth_url(endpoint: &str) -> (r: String)
    ensures
        r@ == strip_end(endpoint@, slash()) + "/api/v1/auth/universal-auth/login"@,
{
    let base = normalize_endpoint(endpoint);
    joined(base.as_str(), "/api/v1/auth/universal-auth/login")
}

pub open spec fn query_view(q: Seq<(String, String)>) -> Seq<(Seq<char>, Seq<char>)> {
    q.map_values(|e: (String, String)| (e.0@, e.1@))
}

fn pair(k: &str, v: &str) -> (r: (String, String))
    ensures
        r.0@ == k@,
        r.1@ == v@,
{
    (owned(k), owned(v))
}

/// The query of a listing: project, environment, folder, whether values
/// and subfolders are included; never imports or expanded references.
pub fn list_query(project: &str, environment: &str, secret_path: &str, view_values: bool, recursive: bool) -> (r: Vec<(String, String)>)
    ensures
        query_view(r@) == seq![
            ("projectId"@, project@),
            ("environment"@, environment@),
            ("secretPath"@, normalized_path(secret_path@)),
            ("viewSecretValue"@, if view_values { "true"@ } else { "false"@ }),
            ("recursive"@, if recursive { "true"@ } else { "false"@ }),
            ("includeImports"@, "false"@),
            ("expandSecretReferences"@, "false"@),
        ],
{
    let path = normalize_secret_path(secret_path);
    let mut q: Vec<(String, String)> = Vec::new();
    q.push(pair("projectId", project));
    q.push(pair("environment", environment));
    q.push(pair("secretPath", path.as_str()));
    q.push(pair("viewSecretValue", bool_str(view_values)));
    q.push(pair("recursive", bool_str(recursive)));
    q.push(pair("includeImports", "false"));
    q.push(pair("expandSecretReferences", "false"));
    assert(query_view(q@) =~= seq![
        ("projectId"@, project@),
        ("environment"@, environment@),
        ("secretPath"@, normalized_path(secret_path@)),
        ("viewSecretValue"@, if view_values { "true"@ } else { "false"@ }),
        ("recursive"@, if recursive { "true"@ } else { "false"@ }),
        ("includeImports"@, "false"@),
        ("expandSecretReferences"@, "false"@),
    ]);
    q
}

/// The query that reads one shared secret with its value.
pub fn read_query(project: &str, environment: &str, secret_path: &str) -> (r: Vec<(String, String)>)
    ensures
        query_view(r@) == seq![
            ("projectId"@, project@),
            ("environment"@, environment@),
            ("secretPath"@, normalized_path(secret_path@)),
            ("type"@, "shared"@),
            ("viewSecretValue"@, "true"@),
            ("includeImports"@, "false"@),
            ("expandSecretReferences"@, "false"@),
        ],
{
    let path = normalize_secret_path(secret_path);
    let mut q: Vec<(String, String)> = Vec::new();
    q.push(pair("projectId", project));
    q.push(pair("environment", environment));
    q.push(pair("secretPath", path.as_str()));
    q.push(pair("type", "shared"));
    q.push(pair("viewSecretValue", "true"));
    q.push(pair("includeImports", "false"));
    q.push(pair("expandSecretReferences", "false"));
    assert(query_view(q@) =~= seq![
        ("projectId"@, project@),
        ("environment"@, environment@),
        ("secretPath"@, normalized_path(secret_path@)),
        ("type"@, "shared"@),
        ("viewSecretValue"@, "true"@),
        ("includeImports"@, "false"@),
        ("expandSecretReferences"@, "false"@),
    ]);
    q
}

/// The message for a bundle the remote does not have.
pub fn missing_bundle_message(bundle: &str) -> (r: String)
    ensures
        r@ == "remote bundle '"@ + bundle@ + "' does not exist"@,
{
    let mut out = owned("remote bundle '");
    push_str(&mut out, bundle);
    push_str(&mut out, "' does not exist");
    out
}


// ---------------------------------------------------------------- the write law

/// The folder's keys and values after the requests, in order: a deletion
/// removes a key, an update or a creation sets it.
pub open spec fn apply_writes(store: Map<Seq<char>, Seq<char>>, ops: Seq<(u8, Seq<char>, Seq<char>)>) -> Map<
    Seq<char>,
    Seq<char>,
>
    decreases ops.len(),
{
    if ops.len() == 0 {
        store
    } else {
        let before = apply_writes(store, ops.drop_last());
        let op = ops.last();
        if op.0 == 0 {
            before.remove(op.1)
        } else {
            before.insert(op.1, op.2)
        }
    }
}

proof fn lemma_apply_concat(
    store: Map<Seq<char>, Seq<char>>,
    a: Seq<(u8, Seq<char>, Seq<char>)>,
    b: Seq<(u8, Seq<char>, Seq<char>)>,
)
    ensures
        apply_writes(store, a + b) == apply_writes(apply_writes(store, a), b),
    decreases b.len(),
{
    if b.len() == 0 {
        assert(a + b =~= a);
    } else {
        assert((a + b).drop_last() =~= a + b.drop_last());
        lemma_apply_concat(store, a, b.drop_last());
    }
}

proof fn lemma_apply_deletions(
    store: Map<Seq<char>, Seq<char>>,
    existing: Seq<Seq<char>>,
    keep: Map<Seq<char>, Seq<char>>,
)
    ensures
        forall|k: Seq<char>|
            #[trigger] apply_writes(store, deletions(existing, keep)).dom().contains(k) <==> (
            store.dom().contains(k) && !(existing.contains(k) && !keep.dom().contains(k))),
        forall|k: Seq<char>|
            #[trigger] apply_writes(store, deletions(existing, keep)).dom().contains(k) ==> apply_writes(
                store,
                deletions(existing, keep),
            )[k] == store[k],
    decreases existing.len(),
{
    if existing.len() > 0 {
        let init = existing.drop_last();
        lemma_apply_deletions(store, init, keep);
        assert forall|k: Seq<char>| existing.contains(k) <==> (init.contains(k) || k == existing.last()) by {
            if existing.contains(k) {
                let i = choose|i: int| 0 <= i < existing.len() && existing[i] == k;
                if i < init.len() {
                    assert(init[i] == k);
                }
            }
            if init.contains(k) {
                let i = choose|i: int| 0 <= i < init.len() && init[i] == k;
                assert(existing[i] == k);
            }
            if k == existing.last() {
                assert(existing[existing.len() - 1] == k);
            }
        }
        let last = existing.last();
        let prev = deletions(init, keep);
        if keep.dom().contains(last) {
            assert(deletions(existing, keep) == prev);
        } else {
            assert(deletions(existing, keep) == prev.push((0u8, last, Seq::<char>::empty())));
            assert(deletions(existing, keep).drop_last() =~= prev);
            assert(apply_writes(store, deletions(existing, keep)) == apply_writes(store, prev).remove(
                last,
            ));
        }
    }
}

proof fn lemma_apply_upserts(store: Map<Seq<char>, Seq<char>>, existing: Seq<Seq<char>>, env: Pairs)
    ensures
        apply_writes(store, upserts(existing, env)) == store.union_prefer_right(
            crate::env::pairs_to_map(env),
        ),
    decreases env.len(),
{
    if env.len() == 0 {
        assert(store.union_prefer_right(crate::env::pairs_to_map(env)) =~= store);
    } else {
        lemma_apply_upserts(store, existing, env.drop_last());
        let u = upserts(existing, env);
        assert(u.drop_last() == upserts(existing, env.drop_last()));
        assert(apply_writes(store, u) =~= store.union_prefer_right(crate::env::pairs_to_map(env)));
    }
}

/// Law: the requests that `write_plan` makes leave the remote folder holding
/// exactly the bundle, whatever values its existing keys held before.
pub proof fn law_write_plan_reaches_bundle(
    existing: Seq<Seq<char>>,
    store: Map<Seq<char>, Seq<char>>,
    env: Pairs,
)
    requires
        store.dom() == existing.to_set(),
    ensures
        apply_writes(
            store,
            deletions(existing, crate::env::pairs_to_map(env)) + upserts(existing, env),
        ) == crate::env::pairs_to_map(env),
{
    let keep = crate::env::pairs_to_map(env);
    let d = deletions(existing, keep);
    lemma_apply_concat(store, d, upserts(existing, env));
    lemma_apply_deletions(store, existing, keep);
    let mid = apply_writes(store, d);
    lemma_apply_upserts(mid, existing, env);
    assert forall|k: Seq<char>| mid.dom().contains(k) implies keep.dom().contains(k) by {
        assert(store.dom().contains(k));
        assert(existing.to_set().contains(k));
    }
    assert(mid.union_prefer_right(keep) =~= keep);
}

} // verus!
