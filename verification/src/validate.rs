//! Rules on the names that bundles, keys and cache files may use.

use vstd::prelude::*;

use crate::text::{
    ends_with, has_prefix, has_suffix, is_ascii_alnum, is_ascii_alnum_char, is_ascii_alpha,
    is_ascii_alpha_char, push_char, starts_with,
};

verus! {

/// Why a variable name was refused.
#[derive(Debug, Clone, Copy, PartialEq, Eq, Structural)]
pub enum KeyError {
    Empty,
    BadStart,
    BadChar,
    Reserved,
}

impl KeyError {
    /// The message the command line prints for this error.
    pub fn message(&self) -> (r: String)
        ensures
            r@ == key_error_text(*self),
    {
        let s = match self {
            KeyError::Empty => "environment key cannot be empty",
            KeyError::BadStart => "environment key must start with a letter or underscore",
            KeyError::BadChar => "environment key may contain only letters, numbers, and underscores",
            KeyError::Reserved => "environment key name is reserved for rage agent auth",
        };
        s.to_owned()
    }
}

pub open spec fn key_error_text(e: KeyError) -> Seq<char> {
    match e {
        KeyError::Empty => "environment key cannot be empty"@,
        KeyError::BadStart => "environment key must start with a letter or underscore"@,
        KeyError::BadChar => "environment key may contain only letters, numbers, and underscores"@,
        KeyError::Reserved => "environment key name is reserved for rage agent auth"@,
    }
}

pub open spec fn is_key_tail_char(c: char) -> bool {
    c == '_' || is_ascii_alnum(c)
}

/// A shell variable name: a letter or underscore, then letters, digits and
/// underscores.
pub open spec fn is_env_key(s: Seq<char>) -> bool {
    &&& s.len() > 0
    &&& (s[0] == '_' || is_ascii_alpha(s[0]))
    &&& forall|i: int| 1 <= i < s.len() ==> is_key_tail_char(#[trigger] s[i])
}

/// The first rule a name breaks, if any.
pub open spec fn env_key_error(s: Seq<char>) -> Option<KeyError> {
    if s.len() == 0 {
        Some(KeyError::Empty)
    } else if !(s[0] == '_' || is_ascii_alpha(s[0])) {
        Some(KeyError::BadStart)
    } else if !(forall|i: int| 1 <= i < s.len() ==> is_key_tail_char(#[trigger] s[i])) {
        Some(KeyError::BadChar)
    } else {
        None
    }
}

/// Checks a variable name.
pub fn validate_env_key(key: &str) -> (r: Result<(), KeyError>)
    ensures
        r is Ok <==> is_env_key(key@),
        r is Err ==> Some(r->Err_0) == env_key_error(key@),
        r is Ok ==> env_key_error(key@) is None,
{
    let n = key.unicode_len();
    if n == 0 {
        return Err(KeyError::Empty);
    }
    let first = key.get_char(0);
    if !(first == '_' || is_ascii_alpha_char(first)) {
        return Err(KeyError::BadStart);
    }
    let mut i: usize = 1;
    while i < n
        invariant
            n == key@.len(),
            1 <= i <= n,
            key@[0] == '_' || is_ascii_alpha(key@[0]),
            forall|j: int| 1 <= j < i ==> is_key_tail_char(#[trigger] key@[j]),
        decreases n - i,
    {
        let c = key.get_char(i);
        if !(c == '_' || is_ascii_alnum_char(c)) {
            assert(!is_key_tail_char(key@[i as int]));
            return Err(KeyError::BadChar);
        }
        i = i + 1;
    }
    Ok(())
}

/// Names of agent auth records: `AUTHLESS_` ... `_JSON`.
pub open spec fn is_reserved_key(s: Seq<char>) -> bool {
    starts_with(s, "AUTHLESS_"@) && ends_with(s, "_JSON"@)
}

/// Whether a remote key is reserved for agent auth records.
pub fn is_reserved_remote_key(key: &str) -> (r: bool)
    ensures
        r == is_reserved_key(key@),
{
    has_prefix(key, "AUTHLESS_") && has_suffix(key, "_JSON")
}

/// Checks a name that a user sets or removes in a bundle: a valid variable
/// name that is not reserved for agent auth.
pub fn validate_bundle_key(key: &str) -> (r: Result<(), KeyError>)
    ensures
        r is Ok <==> is_env_key(key@) && !is_reserved_key(key@),
        r == Err::<(), KeyError>(KeyError::Reserved) <==> is_env_key(key@) && is_reserved_key(
            key@,
        ),
        r is Err && r->Err_0 != KeyError::Reserved ==> Some(r->Err_0) == env_key_error(key@),
{
    validate_env_key(key)?;
    if is_reserved_remote_key(key) {
        return Err(KeyError::Reserved);
    }
    Ok(())
}

pub open spec fn ascii_upper_char(c: char) -> char {
    if 'a' <= c && c <= 'z' {
        ((c as u32) - 32) as char
    } else {
        c
    }
}

/// `str::to_ascii_uppercase`.
pub open spec fn ascii_upper(s: Seq<char>) -> Seq<char> {
    s.map_values(|c: char| ascii_upper_char(c))
}

fn upper_char(c: char) -> (r: char)
    ensures
        r == ascii_upper_char(c),
{
    if 'a' <= c && c <= 'z' {
        let u = (c as u32) - 32;
        assert(u < 0xD800);
        u as u8 as char
    } else {
        c
    }
}

/// The remote key of a provider's auth record: `AUTHLESS_<PROVIDER>_JSON`.
pub open spec fn auth_key_of(provider: Seq<char>) -> Seq<char> {
    "AUTHLESS_"@ + ascii_upper(provider) + "_JSON"@
}

pub fn auth_secret_key(provider: &str) -> (r: String)
    ensures
        r@ == auth_key_of(provider@),
{
    let mut out = "AUTHLESS_".to_owned();
    let n = provider.unicode_len();
    let mut i: usize = 0;
    while i < n
        invariant
            n == provider@.len(),
            i <= n,
            out@ == "AUTHLESS_"@ + ascii_upper(provider@.subrange(0, i as int)),
        decreases n - i,
    {
        let c = upper_char(provider.get_char(i));
        push_char(&mut out, c);
        proof {
            assert(ascii_upper(provider@.subrange(0, i + 1)) =~= ascii_upper(
                provider@.subrange(0, i as int),
            ).push(c));
        }
        i = i + 1;
    }
    assert(provider@.subrange(0, n as int) =~= provider@);
    out.append("_JSON");
    out
}

/// Characters a cache file prefix may use.
pub open spec fn is_prefix_char(c: char) -> bool {
    is_ascii_alnum(c) || c == '-' || c == '_'
}

/// Why a secret prefix was refused.
#[derive(Debug, Clone, Copy, PartialEq, Eq, Structural)]
pub enum PrefixError {
    Empty,
    BadChar,
}

impl PrefixError {
    pub fn message(&self) -> (r: String)
        ensures
            r@ == (match *self {
                PrefixError::Empty => "secret prefix cannot be empty"@,
                PrefixError::BadChar => "secret prefix may contain only letters, numbers, hyphens, and underscores"@,
            }),
    {
        match self {
            PrefixError::Empty => "secret prefix cannot be empty".to_owned(),
            PrefixError::BadChar => "secret prefix may contain only letters, numbers, hyphens, and underscores".to_owned(),
        }
    }
}

/// Checks the prefix of cache file names.
pub fn validate_secret_prefix(prefix: &str) -> (r: Result<(), PrefixError>)
    ensures
        r == Err::<(), PrefixError>(PrefixError::Empty) <==> prefix@.len() == 0,
        r == Err::<(), PrefixError>(PrefixError::BadChar) <==> prefix@.len() > 0 && exists|i: int|
            0 <= i < prefix@.len() && !is_prefix_char(#[trigger] prefix@[i]),
        r is Ok <==> prefix@.len() > 0 && forall|i: int|
            0 <= i < prefix@.len() ==> is_prefix_char(#[trigger] prefix@[i]),
{
    let n = prefix.unicode_len();
    if n == 0 {
        return Err(PrefixError::Empty);
    }
    let mut i: usize = 0;
    while i < n
        invariant
            n == prefix@.len(),
            i <= n,
            forall|j: int| 0 <= j < i ==> is_prefix_char(#[trigger] prefix@[j]),
        decreases n - i,
    {
        let c = prefix.get_char(i);
        if !(is_ascii_alnum_char(c) || c == '-' || c == '_') {
            assert(!is_prefix_char(prefix@[i as int]));
            return Err(PrefixError::BadChar);
        }
        i = i + 1;
    }
    Ok(())
}

} // verus!
