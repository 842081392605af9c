//! The encrypted local cache: which line of an identity file holds the age
//! identity, the file name a bundle's cache gets, how a bundle is sealed
//! into an age file and read back, and how dotenv entries become a bundle.

use vstd::prelude::*;
use vstd::string::StringSliceAdditionalSpecFns;
use vstd::utf8::{decode_utf8, encode_utf8, encode_utf8_decode_utf8, encode_utf8_valid_utf8};

use crate::clock::{first_index, lemma_first_index_at};
use crate::env::{pairs_to_map, Env, Pairs};
use crate::outside::{
    age_decrypt, age_decrypted, age_encrypt, age_identity_parses, age_new_identity,
    age_recipient_from_line, age_recipient_of, age_recipient_parses, base64_url_text,
    bech32_payload, bech32_payload_of, dotenv_entries_of, dotenv_items, dotenv_safe, encode_url_safe, is_url_safe_char,
    probe_scalar, read_entries, recipient_low_order, sealed_for, utf8_text, x25519_of, x25519_shared,
};
use crate::render::{dotenv_text, render_dotenv};
use crate::text::{
    is_white_space, lemma_leading_count, lemma_trailing_count, push_char, push_str, trim,
    trimmed, ws,
};
use crate::validate::{env_key_error, is_env_key, is_prefix_char, validate_env_key, KeyError};

verus! {

pub open spec fn opt_string(o: Option<String>) -> Option<Seq<char>> {
    match o {
        Some(s) => Some(s@),
        None => None,
    }
}

// ---------------------------------------------------------------- identity files

/// The identity line of an identity file: the first line that, trimmed, is
/// neither empty nor a `#` comment, trimmed.
pub open spec fn identity_line_of(s: Seq<char>) -> Option<Seq<char>>
    decreases s.len(),
{
    let i = first_index(s, '\n');
    let line = trimmed(s.subrange(0, i));
    if 0 <= i && line.len() > 0 && line[0] != '#' {
        Some(line)
    } else if i >= s.len() || i < 0 {
        None
    } else {
        identity_line_of(s.subrange(i + 1, s.len() as int))
    }
}

/// Finds the identity line of an identity file.
pub fn identity_line(raw: &str) -> (r: Option<String>)
    ensures
        opt_string(r) == identity_line_of(raw@),
{
    let n = raw.unicode_len();
    let mut start: usize = 0;
    assert(raw@.subrange(0, n as int) =~= raw@);
    loop
        invariant
            n == raw@.len(),
            start <= n,
            identity_line_of(raw@) == identity_line_of(raw@.subrange(start as int, n as int)),
        decreases n - start,
    {
        let mut end = start;
        while end < n && raw.get_char(end) != '\n'
            invariant
                n == raw@.len(),
                start <= end <= n,
                forall|j: int| start <= j < end ==> raw@[j] != '\n',
            decreases n - end,
        {
            end = end + 1;
        }
        let ghost sub = raw@.subrange(start as int, n as int);
        proof {
            lemma_first_index_at(sub, '\n', end - start);
            assert(sub.subrange(0, end - start) =~= raw@.subrange(start as int, end as int));
        }
        let line = trim(raw.substring_char(start, end));
        if line.as_str().unicode_len() > 0 && line.as_str().get_char(0) != '#' {
            return Some(line);
        }
        if end >= n {
            return None;
        }
        proof {
            assert(sub.subrange(end - start + 1, sub.len() as int) =~= raw@.subrange(
                end + 1,
                n as int,
            ));
        }
        start = end + 1;
    }
}

/// Why no recipient came out of an identity file.
#[derive(Debug, Clone, Copy, PartialEq, Eq, Structural)]
pub enum IdentityError {
    Empty,
    Invalid,
}

impl IdentityError {
    pub fn message(&self) -> (r: String)
        ensures
            r@ == (match *self {
                IdentityError::Empty => "age identity is empty"@,
                IdentityError::Invalid => "invalid age identity"@,
            }),
    {
        match self {
            IdentityError::Empty => "age identity is empty".to_owned(),
            IdentityError::Invalid => "invalid age identity".to_owned(),
        }
    }
}

/// The public recipient of the identity an identity file holds.
pub fn recipient_from_identity_text(raw: &str) -> (r: Result<String, IdentityError>)
    ensures
        match identity_line_of(raw@) {
            None => r == Err::<String, IdentityError>(IdentityError::Empty),
            Some(line) => if age_identity_parses(line) {
                r matches Ok(s) && s@ == age_recipient_of(line)
            } else {
                r == Err::<String, IdentityError>(IdentityError::Invalid)
            },
        },
{
    match identity_line(raw) {
        None => Err(IdentityError::Empty),
        Some(line) => match age_recipient_from_line(line.as_str()) {
            Some(recipient) => Ok(recipient),
            None => Err(IdentityError::Invalid),
        },
    }
}

/// The contents of a newly generated identity file: a fresh identity on a
/// line of its own.
pub fn new_identity_file_text() -> (r: String)
    ensures
        identity_line_of(r@) matches Some(line) && age_identity_parses(line),
        r@.len() > 0 && r@.last() == '\n',
{
    let key = age_new_identity();
    let ghost g0 = key@;
    let mut out = key;
    push_char(&mut out, '\n');
    proof {
        let g = g0;
        let s = out@;
        assert(s =~= g.push('\n'));
        assert forall|j: int| 0 <= j < g.len() implies s[j] != '\n' by {
            assert(s[j] == g[j]);
            assert(!is_white_space(g[j]));
        }
        lemma_first_index_at(s, '\n', g.len() as int);
        assert(s.subrange(0, g.len() as int) =~= g);
        lemma_leading_count(g, ws(), 0);
        lemma_trailing_count(g, ws(), 0);
        assert(g.subrange(0, g.len() as int) =~= g);
        assert(trimmed(g) == g);
    }
    out
}


// ---------------------------------------------------------------- file names

/// The base64 form of a bundle name, which carries no `/` into a file name;
/// no other name has the same form.
pub fn encode_bundle(bundle: &str) -> (r: String)
    ensures
        r@ == base64_url_text(bundle.spec_bytes()),
        forall|i: int| 0 <= i < r@.len() ==> is_url_safe_char(#[trigger] r@[i]),
        forall|other: Seq<char>| #[trigger] base64_url_text(encode_utf8(other)) == r@ ==> other == bundle@,
{
    let r = encode_url_safe(bundle.as_bytes());
    proof {
        assert forall|other: Seq<char>| #[trigger] base64_url_text(encode_utf8(other)) == r@ implies other
            == bundle@ by {
            encode_utf8_decode_utf8(other);
            encode_utf8_decode_utf8(bundle@);
        }
    }
    r
}

/// The identifier of a bundle's cache: `<prefix>-<base64 of the bundle>`.
/// Under one prefix, distinct bundles get distinct identifiers.
pub fn secret_id(prefix: &str, bundle: &str) -> (r: String)
    ensures
        r@ == prefix@ + seq!['-'] + base64_url_text(bundle.spec_bytes()),
        forall|i: int| prefix@.len() < i < r@.len() ==> is_url_safe_char(#[trigger] r@[i]),
        forall|other: Seq<char>|
            #[trigger] base64_url_text(encode_utf8(other)) == base64_url_text(bundle.spec_bytes())
                ==> other == bundle@,
        forall|other: Seq<char>|
            prefix@ + seq!['-'] + #[trigger] base64_url_text(encode_utf8(other)) == r@ ==> other
                == bundle@,
{
    let encoded = encode_bundle(bundle);
    let mut out = prefix.to_owned();
    push_char(&mut out, '-');
    push_str(&mut out, encoded.as_str());
    proof {
        let n = prefix@.len() as int;
        assert forall|i: int| n < i < out@.len() implies is_url_safe_char(#[trigger] out@[i]) by {
            assert(out@[i] == encoded@[i - n - 1]);
        }
        let head = prefix@ + seq!['-'];
        assert forall|other: Seq<char>|
            head + #[trigger] base64_url_text(encode_utf8(other)) == out@ implies other == bundle@ by {
            let t = base64_url_text(encode_utf8(other));
            assert((head + t).subrange(head.len() as int, (head + t).len() as int) =~= t);
            assert(out@.subrange(head.len() as int, out@.len() as int) =~= encoded@);
        }
    }
    out
}

/// The file name of a bundle's cache: `<prefix>-<base64 of the bundle>.env.age`.
/// With a valid prefix the name holds no `/`, so every bundle, however many
/// folders its name spans, is cached directly in the cache directory.
pub fn cache_file_name(prefix: &str, bundle: &str) -> (r: String)
    ensures
        r@ == prefix@ + seq!['-'] + base64_url_text(bundle.spec_bytes()) + ".env.age"@,
        forall|other: Seq<char>|
            prefix@ + seq!['-'] + #[trigger] base64_url_text(encode_utf8(other)) + ".env.age"@ == r@
                ==> other == bundle@,
        (forall|i: int| 0 <= i < prefix@.len() ==> is_prefix_char(#[trigger] prefix@[i]))
            ==> forall|j: int| 0 <= j < r@.len() ==> #[trigger] r@[j] != '/',
{
    let mut out = secret_id(prefix, bundle);
    let ghost id = out@;
    push_str(&mut out, ".env.age");
    proof {
        let tail = ".env.age"@;
        assert forall|other: Seq<char>|
            prefix@ + seq!['-'] + #[trigger] base64_url_text(encode_utf8(other)) + tail == out@ implies other
                == bundle@ by {
            let x = prefix@ + seq!['-'] + base64_url_text(encode_utf8(other));
            assert((x + tail).subrange(0, x.len() as int) =~= x);
            assert(out@.subrange(0, id.len() as int) =~= id);
        }
        reveal_strlit(".env.age");
        if forall|i: int| 0 <= i < prefix@.len() ==> is_prefix_char(#[trigger] prefix@[i]) {
            assert forall|j: int| 0 <= j < out@.len() implies #[trigger] out@[j] != '/' by {
                if j < prefix@.len() {
                    assert(out@[j] == prefix@[j]);
                    assert(is_prefix_char(prefix@[j]));
                } else if j == prefix@.len() {
                } else if j < id.len() {
                    assert(out@[j] == id[j]);
                    assert(is_url_safe_char(id[j]));
                } else {
                    assert(out@[j] == ".env.age"@[j - id.len()]);
                }
            }
        }
    }
    out
}

// ---------------------------------------------------------------- sealing and opening

/// Why a bundle's cache could not be written or read.
#[derive(Debug, Clone, Copy, PartialEq, Eq, Structural)]
pub enum CacheError {
    Encrypt,
    WeakRecipient,
    EmptyIdentity,
    Undecryptable,
    NotUtf8,
    Unreadable,
    Key(KeyError),
}

/// Whether a recipient's key is a point of small order, one that every
/// secret would share the all-zero secret with.
pub fn recipient_is_low_order(recipient: &str) -> (r: bool)
    ensures
        r == recipient_low_order(recipient@),
{
    let key = match bech32_payload(recipient) {
        Some(k) => k,
        None => return false,
    };
    if key.len() != 32 {
        return false;
    }
    let mut scalar: Vec<u8> = Vec::new();
    while scalar.len() < 32
        invariant
            scalar@.len() <= 32,
            forall|j: int| 0 <= j < scalar@.len() ==> scalar@[j] == 1u8,
        decreases 32 - scalar@.len(),
    {
        scalar.push(1u8);
    }
    assert(scalar@ =~= probe_scalar());
    let shared = x25519_shared(scalar.as_slice(), key.as_slice());
    assert(bech32_payload_of(recipient@) == Some(key@));
    let mut i: usize = 0;
    while i < shared.len()
        invariant
            i <= shared@.len(),
            shared@ == x25519_of(probe_scalar(), key@),
            bech32_payload_of(recipient@) == Some(key@),
            key@.len() == 32,
            forall|j: int| 0 <= j < i ==> shared@[j] == 0,
        decreases shared@.len() - i,
    {
        if shared[i] != 0 {
            assert(shared@[i as int] != 0);
            return false;
        }
        i = i + 1;
    }
    true
}

/// Encrypts a bundle's dotenv text to a recipient. A recipient whose key is
/// of small order is refused; any other recipient that parses gets an age
/// file, which every identity of the recipient decrypts back to that text's
/// bytes; text that is no recipient fails to encrypt.
pub fn seal_cache(recipient: &str, env: &Env) -> (r: Result<Vec<u8>, CacheError>)
    ensures
        (r == Err::<Vec<u8>, CacheError>(CacheError::WeakRecipient)) == recipient_low_order(recipient@),
        !recipient_low_order(recipient@) && !age_recipient_parses(recipient@) ==> r
            == Err::<Vec<u8>, CacheError>(CacheError::Encrypt),
        !recipient_low_order(recipient@) && age_recipient_parses(recipient@) ==> r is Ok,
        r matches Ok(ct) ==> sealed_for(recipient@, encode_utf8(dotenv_text(env@)), ct@),
{
    if recipient_is_low_order(recipient) {
        return Err(CacheError::WeakRecipient);
    }
    let text = render_dotenv(env);
    match age_encrypt(recipient, text.as_str().as_bytes()) {
        Some(ct) => Ok(ct),
        None => Err(CacheError::Encrypt),
    }
}

/// The text a cache file yields to an identity file.
pub open spec fn open_cache_spec(identity: Seq<char>, ct: Seq<u8>) -> Result<Seq<char>, CacheError> {
    match identity_line_of(identity) {
        None => Err(CacheError::EmptyIdentity),
        Some(line) => match age_decrypted(line, ct) {
            None => Err(CacheError::Undecryptable),
            Some(p) => if vstd::utf8::valid_utf8(p) {
                Ok(decode_utf8(p))
            } else {
                Err(CacheError::NotUtf8)
            },
        },
    }
}

/// Decrypts a cache file with the identity an identity file holds.
pub fn open_cache(identity: &str, ct: &[u8]) -> (r: Result<String, CacheError>)
    ensures
        match r {
            Ok(s) => open_cache_spec(identity@, ct@) == Ok::<Seq<char>, CacheError>(s@),
            Err(e) => open_cache_spec(identity@, ct@) == Err::<Seq<char>, CacheError>(e),
        },
{
    let line = match identity_line(identity) {
        Some(l) => l,
        None => return Err(CacheError::EmptyIdentity),
    };
    let plain = match age_decrypt(line.as_str(), ct) {
        Some(p) => p,
        None => return Err(CacheError::Undecryptable),
    };
    match utf8_text(plain) {
        Some(s) => Ok(s),
        None => Err(CacheError::NotUtf8),
    }
}

/// Law: a cache sealed to the recipient of an identity file opens, with
/// that identity file, to exactly the dotenv text of the bundle that was
/// sealed.
pub proof fn law_cache_read_back(
    identity: Seq<char>,
    recipient: Seq<char>,
    bundle: Seq<(Seq<char>, Seq<char>)>,
    ct: Seq<u8>,
)
    requires
        identity_line_of(identity) matches Some(line) && age_identity_parses(line)
            && age_recipient_of(line) == recipient,
        sealed_for(recipient, encode_utf8(dotenv_text(bundle)), ct),
    ensures
        open_cache_spec(identity, ct) == Ok::<Seq<char>, CacheError>(dotenv_text(bundle)),
{
    let line = identity_line_of(identity).unwrap();
    let text = dotenv_text(bundle);
    assert(age_decrypted(line, ct) == Some(encode_utf8(text)));
    encode_utf8_valid_utf8(text);
    encode_utf8_decode_utf8(text);
}

// ---------------------------------------------------------------- dotenv entries

/// Why dotenv text did not read as a bundle.
#[derive(Debug, Clone, Copy, PartialEq, Eq, Structural)]
pub enum DotenvError {
    Unreadable,
    Key(KeyError),
}

pub open spec fn item_views(items: Seq<Option<(String, String)>>) -> Seq<Option<(Seq<char>, Seq<char>)>> {
    items.map_values(|it: Option<(String, String)>| match it {
        Some(p) => Some((p.0@, p.1@)),
        None => None,
    })
}

/// The bundle dotenv entries make, in order, a later entry replacing an
/// earlier one of the same name; or the error of the first entry that is
/// unreadable or has an invalid name.
pub open spec fn items_outcome(items: Seq<Option<(Seq<char>, Seq<char>)>>) -> Result<
    Map<Seq<char>, Seq<char>>,
    DotenvError,
>
    decreases items.len(),
{
    if items.len() == 0 {
        Ok(Map::empty())
    } else {
        match items_outcome(items.drop_last()) {
            Err(e) => Err(e),
            Ok(m) => match items.last() {
                None => Err(DotenvError::Unreadable),
                Some(kv) => if is_env_key(kv.0) {
                    Ok(m.insert(kv.0, kv.1))
                } else {
                    Err(DotenvError::Key(env_key_error(kv.0).unwrap()))
                },
            },
        }
    }
}

/// Builds a bundle from dotenv entries.
pub fn env_from_items(items: Vec<Option<(String, String)>>) -> (r: Result<Env, DotenvError>)
    ensures
        match r {
            Ok(env) => items_outcome(item_views(items@)) == Ok::<
                Map<Seq<char>, Seq<char>>,
                DotenvError,
            >(env.map()),
            Err(e) => items_outcome(item_views(items@)) == Err::<
                Map<Seq<char>, Seq<char>>,
                DotenvError,
            >(e),
        },
{
    let n = items.len();
    let mut env = Env::new();
    let mut i: usize = 0;
    while i < n
        invariant
            n == items@.len(),
            i <= n,
            items_outcome(item_views(items@).subrange(0, i as int)) == Ok::<
                Map<Seq<char>, Seq<char>>,
                DotenvError,
            >(env.map()),
        decreases n - i,
    {
        let ghost pre = item_views(items@).subrange(0, i as int);
        let ghost next = item_views(items@).subrange(0, i + 1);
        proof {
            assert(next.drop_last() =~= pre);
        }
        match &items[i] {
            None => {
                proof {
                    lemma_outcome_stays_err(item_views(items@), i + 1, DotenvError::Unreadable);
                }
                return Err(DotenvError::Unreadable);
            },
            Some((key, value)) => {
                match validate_env_key(key.as_str()) {
                    Err(e) => {
                        proof {
                            lemma_outcome_stays_err(item_views(items@), i + 1, DotenvError::Key(e));
                        }
                        return Err(DotenvError::Key(e));
                    },
                    Ok(()) => {
                        env.insert(key.clone(), value.clone());
                    },
                }
            },
        }
        i = i + 1;
    }
    assert(item_views(items@).subrange(0, n as int) =~= item_views(items@));
    Ok(env)
}

proof fn lemma_outcome_stays_err(items: Seq<Option<(Seq<char>, Seq<char>)>>, k: int, e: DotenvError)
    requires
        0 <= k <= items.len(),
        items_outcome(items.subrange(0, k)) == Err::<Map<Seq<char>, Seq<char>>, DotenvError>(e),
    ensures
        items_outcome(items) == Err::<Map<Seq<char>, Seq<char>>, DotenvError>(e),
    decreases items.len() - k,
{
    if k < items.len() {
        assert(items.subrange(0, k + 1).drop_last() =~= items.subrange(0, k));
        lemma_outcome_stays_err(items, k + 1, e);
    } else {
        assert(items.subrange(0, k) =~= items);
    }
}

/// A bundle outcome with the bundle taken as its map.
pub open spec fn env_outcome(r: Result<Env, DotenvError>) -> Result<Map<Seq<char>, Seq<char>>, DotenvError> {
    match r {
        Ok(env) => Ok(env.map()),
        Err(e) => Err(e),
    }
}

/// Entries read from pairs with valid names make the map the pairs make.
proof fn lemma_read_entries_outcome(pairs: Pairs)
    requires
        forall|i: int| 0 <= i < pairs.len() ==> is_env_key(#[trigger] pairs[i].0),
    ensures
        items_outcome(read_entries(pairs)) == Ok::<Map<Seq<char>, Seq<char>>, DotenvError>(
            pairs_to_map(pairs),
        ),
    decreases pairs.len(),
{
    if pairs.len() > 0 {
        let init = pairs.drop_last();
        assert(read_entries(pairs).drop_last() =~= read_entries(init));
        assert(is_env_key(pairs[pairs.len() - 1].0));
        lemma_read_entries_outcome(init);
    }
}

/// Reads dotenv text into a bundle, with `dotenvy` splitting the text into
/// entries. For text without `$` the outcome is that of the entries
/// `dotenvy` reads (`items_outcome`); the dotenv text of pairs with valid
/// names and `$`-free values reads back as the map of those pairs; empty
/// text gives an empty bundle; and whatever `dotenvy` yields, a bundle that
/// comes out has only valid variable names.
pub fn parse_dotenv(raw: &str) -> (r: Result<Env, DotenvError>)
    ensures
        r matches Ok(env) ==> forall|k: Seq<char>| #[trigger] env.map().dom().contains(k) ==> is_env_key(k),
        !raw@.contains('$') ==> env_outcome(r) == items_outcome(dotenv_entries_of(raw@)),
        forall|pairs: Pairs|
            #![trigger dotenv_text(pairs)]
            raw@ == dotenv_text(pairs) && dotenv_safe(pairs) ==> (r matches Ok(env) && env.map()
                == pairs_to_map(pairs)),
        raw@.len() == 0 ==> (r matches Ok(env) && env.map() == Map::<Seq<char>, Seq<char>>::empty()),
{
    let items = dotenv_items(raw);
    let ghost views = item_views(items@);
    let r = env_from_items(items);
    proof {
        if let Ok(env) = &r {
            assert forall|k: Seq<char>| #[trigger] env.map().dom().contains(k) implies is_env_key(k) by {
                lemma_outcome_keys(views, env.map(), k);
            }
        }
        assert(env_outcome(r) == items_outcome(views));
        assert forall|pairs: Pairs|
            #![trigger dotenv_text(pairs)]
            raw@ == dotenv_text(pairs) && dotenv_safe(pairs) implies (r matches Ok(env) && env.map()
                == pairs_to_map(pairs)) by {
            assert(views == read_entries(pairs));
            lemma_read_entries_outcome(pairs);
        }
        if raw@.len() == 0 {
            assert(views =~= Seq::<Option<(Seq<char>, Seq<char>)>>::empty());
        }
    }
    r
}

proof fn lemma_outcome_keys(items: Seq<Option<(Seq<char>, Seq<char>)>>, m: Map<Seq<char>, Seq<char>>, k: Seq<char>)
    requires
        items_outcome(items) == Ok::<Map<Seq<char>, Seq<char>>, DotenvError>(m),
        m.dom().contains(k),
    ensures
        is_env_key(k),
    decreases items.len(),
{
    if items.len() > 0 {
        let prev = items_outcome(items.drop_last());
        let kv = items.last().unwrap();
        if kv.0 != k {
            lemma_outcome_keys(items.drop_last(), prev->Ok_0, k);
        }
    }
}

/// A bundle outcome taken as a cache outcome.
pub open spec fn as_cache_outcome(o: Result<Map<Seq<char>, Seq<char>>, DotenvError>) -> Result<
    Map<Seq<char>, Seq<char>>,
    CacheError,
> {
    match o {
        Ok(m) => Ok(m),
        Err(DotenvError::Unreadable) => Err(CacheError::Unreadable),
        Err(DotenvError::Key(e)) => Err(CacheError::Key(e)),
    }
}

/// A cache read's outcome with the bundle taken as its map.
pub open spec fn cache_env_outcome(r: Result<Env, CacheError>) -> Result<Map<Seq<char>, Seq<char>>, CacheError> {
    match r {
        Ok(env) => Ok(env.map()),
        Err(e) => Err(e),
    }
}

/// Reads a bundle's cache file with an identity file: the file is opened
/// as `open_cache` does, and the text read as `parse_dotenv` does. A cache
/// sealed to the identity's recipient for pairs with valid names and
/// `$`-free values reads back as the map of those pairs.
pub fn read_cache_env(identity: &str, ct: &[u8]) -> (r: Result<Env, CacheError>)
    ensures
        open_cache_spec(identity@, ct@) matches Err(e) ==> r == Err::<Env, CacheError>(e),
        open_cache_spec(identity@, ct@) matches Ok(t) ==> (!t.contains('$') ==> cache_env_outcome(r)
            == as_cache_outcome(items_outcome(dotenv_entries_of(t)))),
        open_cache_spec(identity@, ct@) is Ok ==> (r is Ok || r == Err::<Env, CacheError>(
            CacheError::Unreadable,
        ) || r matches Err(CacheError::Key(_))),
        forall|pairs: Pairs|
            #![trigger dotenv_text(pairs)]
            open_cache_spec(identity@, ct@) == Ok::<Seq<char>, CacheError>(dotenv_text(pairs))
                && dotenv_safe(pairs) ==> (r matches Ok(env) && env.map() == pairs_to_map(pairs)),
        forall|pairs: Pairs|
            #![trigger dotenv_text(pairs)]
            (identity_line_of(identity@) matches Some(line) && age_identity_parses(line) && sealed_for(
                age_recipient_of(line),
                encode_utf8(dotenv_text(pairs)),
                ct@,
            )) && dotenv_safe(pairs) ==> (r matches Ok(env) && env.map() == pairs_to_map(pairs)),
        r matches Ok(env) ==> forall|k: Seq<char>| #[trigger] env.map().dom().contains(k) ==> is_env_key(k),
{
    proof {
        assert forall|pairs: Pairs|
            #![trigger dotenv_text(pairs)]
            (identity_line_of(identity@) matches Some(line) && age_identity_parses(line) && sealed_for(
                age_recipient_of(line),
                encode_utf8(dotenv_text(pairs)),
                ct@,
            )) implies open_cache_spec(identity@, ct@) == Ok::<Seq<char>, CacheError>(
            dotenv_text(pairs),
        ) by {
            let line = identity_line_of(identity@).unwrap();
            law_cache_read_back(identity@, age_recipient_of(line), pairs, ct@);
        }
    }
    let text = open_cache(identity, ct)?;
    let parsed = parse_dotenv(text.as_str());
    match parsed {
        Ok(env) => Ok(env),
        Err(DotenvError::Unreadable) => Err(CacheError::Unreadable),
        Err(DotenvError::Key(e)) => Err(CacheError::Key(e)),
    }
}

} // verus!
