//! Agent auth records (Grok and Codex): importing them from the tools' own
//! files, checking stored ones, deciding when one is fresh, applying a
//! token refresh, and keeping secrets out of error messages.

use vstd::prelude::*;
use vstd::utf8::{char_is_scalar, decode_utf8, encode_scalar, encode_utf8, encode_utf8_decode_utf8, is_char_boundary};

use crate::cache::opt_string;
use crate::clock::{
    decimal, iso_in_range, iso_text_in_range, parse_iso_unix, parse_iso_unix_spec, piece,
    push_decimal, unix_to_iso, unix_to_iso_spec, lemma_first_index_at,
};
use crate::outside::{
    base64_url_bytes, decode_url_safe, json_object_text, json_object_text_of, json_pretty,
    json_pretty_of, json_text_at, json_text_of, json_u64_at, json_u64_of, leaf_views, opt_text,
    text_pairs, JsonLeaf, JsonLeafView, JsonText, JsonTextView,
};
use crate::text::{
    blank, has_prefix, has_substring, is_blank, is_white_space, is_white_space_char,
    leading_count, lemma_leading_count, lemma_leading_facts, occurs_in, owned, push_char, push_str, starts_with,
    text_eq, ws,
};

verus! {

/// How early before expiry a record counts as stale, by default.
pub const DEFAULT_REFRESH_MARGIN_SECONDS: u64 = 300;

pub const GROK_CLIENT_ID: &'static str = "b1a00492-073a-47ea-816f-4c329264a828";

pub const GROK_ISSUER: &'static str = "https://auth.x.ai";

pub const GROK_DEFAULT_AUTH_ENDPOINT: &'static str = "https://auth.x.ai/oauth2/token";

/// The variable through which Grok receives its access token.
pub const GROK_AUTH_ENV_VAR: &'static str = "GROK_CODE_XAI_API_KEY";

pub const CODEX_CLIENT_ID: &'static str = "app_EMoamEEZ73f0CkXaXp7hrann";

pub const CODEX_ISSUER: &'static str = "https://auth.openai.com";

pub const CODEX_DEFAULT_AUTH_ENDPOINT: &'static str = "https://auth.openai.com/oauth/token";

/// A Codex record older than this is refreshed, whatever its expiry.
pub const CODEX_REFRESH_MAX_AGE_SECONDS: u64 = 8 * 24 * 60 * 60;

// ---------------------------------------------------------------- providers

/// The tools whose auth records rage keeps.
#[derive(Debug, Clone, Copy, PartialEq, Eq, Structural)]
pub enum Provider {
    Grok,
    Codex,
}

/// How a provider's token endpoint takes a refresh request.
#[derive(Debug, Clone, Copy, PartialEq, Eq, Structural)]
pub enum RefreshBodyFormat {
    Form,
    Json,
}

pub open spec fn provider_name(p: Provider) -> Seq<char> {
    match p {
        Provider::Grok => "grok"@,
        Provider::Codex => "codex"@,
    }
}

pub open spec fn provider_client_id(p: Provider) -> Seq<char> {
    match p {
        Provider::Grok => GROK_CLIENT_ID@,
        Provider::Codex => CODEX_CLIENT_ID@,
    }
}

pub open spec fn provider_issuer(p: Provider) -> Seq<char> {
    match p {
        Provider::Grok => GROK_ISSUER@,
        Provider::Codex => CODEX_ISSUER@,
    }
}

pub open spec fn provider_format(p: Provider) -> RefreshBodyFormat {
    match p {
        Provider::Grok => RefreshBodyFormat::Form,
        Provider::Codex => RefreshBodyFormat::Json,
    }
}

impl Provider {
    pub fn name(self) -> (r: &'static str)
        ensures
            r@ == provider_name(self),
    {
        match self {
            Provider::Grok => "grok",
            Provider::Codex => "codex",
        }
    }

    pub fn client_id(self) -> (r: &'static str)
        ensures
            r@ == provider_client_id(self),
    {
        match self {
            Provider::Grok => GROK_CLIENT_ID,
            Provider::Codex => CODEX_CLIENT_ID,
        }
    }

    pub fn issuer(self) -> (r: &'static str)
        ensures
            r@ == provider_issuer(self),
    {
        match self {
            Provider::Grok => GROK_ISSUER,
            Provider::Codex => CODEX_ISSUER,
        }
    }

    pub fn refresh_body_format(self) -> (r: RefreshBodyFormat)
        ensures
            r == provider_format(self),
    {
        match self {
            Provider::Grok => RefreshBodyFormat::Form,
            Provider::Codex => RefreshBodyFormat::Json,
        }
    }

    /// The variable that overrides the token endpoint.
    pub fn endpoint_variable(self) -> (r: &'static str)
        ensures
            r@ == (match self {
                Provider::Grok => "GROK_AUTH_ENDPOINT_URL"@,
                Provider::Codex => "CODEX_AUTH_ENDPOINT_URL"@,
            }),
    {
        match self {
            Provider::Grok => "GROK_AUTH_ENDPOINT_URL",
            Provider::Codex => "CODEX_AUTH_ENDPOINT_URL",
        }
    }

    /// The token endpoint: the override where one is set, else the default.
    pub fn endpoint(self, from_env: Option<String>) -> (r: String)
        ensures
            r@ == (match from_env {
                Some(v) => v@,
                None => match self {
                    Provider::Grok => GROK_DEFAULT_AUTH_ENDPOINT@,
                    Provider::Codex => CODEX_DEFAULT_AUTH_ENDPOINT@,
                },
            }),
    {
        match from_env {
            Some(v) => v,
            None => match self {
                Provider::Grok => GROK_DEFAULT_AUTH_ENDPOINT.to_owned(),
                Provider::Codex => CODEX_DEFAULT_AUTH_ENDPOINT.to_owned(),
            },
        }
    }
}

// ---------------------------------------------------------------- records

/// An agent auth record as rage stores it.
#[derive(Debug, Clone)]
pub struct AuthRecord {
    pub client_id: String,
    pub issuer: String,
    pub id_token: Option<String>,
    pub access_token: String,
    pub refresh_token: String,
    pub account_id: Option<String>,
    pub expires_at: String,
    pub last_refresh: Option<String>,
    pub scope: Option<String>,
    pub token_type: Option<String>,
    pub updated_at: Option<String>,
}

/// An auth record with its strings taken by their characters.
pub struct RecordView {
    pub client_id: Seq<char>,
    pub issuer: Seq<char>,
    pub id_token: Option<Seq<char>>,
    pub access_token: Seq<char>,
    pub refresh_token: Seq<char>,
    pub account_id: Option<Seq<char>>,
    pub expires_at: Seq<char>,
    pub last_refresh: Option<Seq<char>>,
    pub scope: Option<Seq<char>>,
    pub token_type: Option<Seq<char>>,
    pub updated_at: Option<Seq<char>>,
}

impl View for AuthRecord {
    type V = RecordView;

    open spec fn view(&self) -> RecordView {
        RecordView {
            client_id: self.client_id@,
            issuer: self.issuer@,
            id_token: opt_string(self.id_token),
            access_token: self.access_token@,
            refresh_token: self.refresh_token@,
            account_id: opt_string(self.account_id),
            expires_at: self.expires_at@,
            last_refresh: opt_string(self.last_refresh),
            scope: opt_string(self.scope),
            token_type: opt_string(self.token_type),
            updated_at: opt_string(self.updated_at),
        }
    }
}

/// Why a stored record was refused.
#[derive(Debug, Clone, Copy, PartialEq, Eq, Structural)]
pub enum RecordError {
    WrongClient,
    NoIdToken,
}

/// Whether a stored record belongs to the provider and holds what it needs.
pub open spec fn record_check(p: Provider, a: RecordView) -> Result<(), RecordError> {
    if a.client_id != provider_client_id(p) || a.issuer != provider_issuer(p) || is_blank(
        a.access_token,
    ) || is_blank(a.refresh_token) || is_blank(a.expires_at) {
        Err(RecordError::WrongClient)
    } else if p == Provider::Codex && (match a.id_token {
        Some(t) => t.len() == 0,
        None => true,
    }) {
        Err(RecordError::NoIdToken)
    } else {
        Ok(())
    }
}

impl RecordError {
    pub fn message(&self, provider: Provider) -> (r: String)
        ensures
            r@ == (match *self {
                RecordError::WrongClient => "stored auth JSON for "@ + provider_name(provider)
                    + " is missing required fields or has the wrong client"@,
                RecordError::NoIdToken => "stored Codex auth is missing id_token; re-run `rage import codex <auth-file>`"@,
            }),
    {
        match self {
            RecordError::WrongClient => {
                let mut out = "stored auth JSON for ".to_owned();
                push_str(&mut out, provider.name());
                push_str(&mut out, " is missing required fields or has the wrong client");
                out
            },
            RecordError::NoIdToken => "stored Codex auth is missing id_token; re-run `rage import codex <auth-file>`".to_owned(),
        }
    }
}

/// Checks a stored record against its provider.
pub fn check_auth_record(provider: Provider, auth: &AuthRecord) -> (r: Result<(), RecordError>)
    ensures
        r == record_check(provider, auth@),
{
    if !text_eq(auth.client_id.as_str(), provider.client_id()) || !text_eq(
        auth.issuer.as_str(),
        provider.issuer(),
    ) || blank(auth.access_token.as_str()) || blank(auth.refresh_token.as_str()) || blank(
        auth.expires_at.as_str(),
    ) {
        return Err(RecordError::WrongClient);
    }
    if provider == Provider::Codex {
        let empty = match &auth.id_token {
            Some(t) => t.as_str().unicode_len() == 0,
            None => true,
        };
        if empty {
            return Err(RecordError::NoIdToken);
        }
    }
    Ok(())
}

// ---------------------------------------------------------------- freshness

pub open spec fn sat_add(a: int, b: int) -> int {
    if a + b > u64::MAX {
        u64::MAX as int
    } else {
        a + b
    }
}

fn saturating_sum(a: u64, b: u64) -> (r: u64)
    ensures
        r == sat_add(a as int, b as int),
{
    if a > u64::MAX - b {
        u64::MAX
    } else {
        a + b
    }
}

/// Whether a record can be used as it is at time `now`: it expires more than
/// `margin` seconds from now, and a Codex record was refreshed less than
/// eight days ago.
pub open spec fn fresh_spec(
    p: Provider,
    expires_at: Seq<char>,
    last_refresh: Option<Seq<char>>,
    margin: int,
    now: int,
) -> bool {
    match parse_iso_unix_spec(expires_at) {
        None => false,
        Some(e) => if sat_add(now, margin) >= e {
            false
        } else if p == Provider::Codex {
            match last_refresh {
                None => false,
                Some(l) => match parse_iso_unix_spec(l) {
                    None => false,
                    Some(lr) => now < sat_add(lr, CODEX_REFRESH_MAX_AGE_SECONDS as int),
                },
            }
        } else {
            true
        },
    }
}

/// The timestamps of a record that `is_fresh` reads, within the range it
/// reads without overflow.
pub open spec fn times_in_range(p: Provider, a: RecordView) -> bool {
    &&& iso_in_range(a.expires_at)
    &&& (p == Provider::Codex && a.last_refresh is Some) ==> iso_in_range(a.last_refresh->Some_0)
}

/// Whether a record is fresh at time `now` (Unix seconds).
pub fn is_fresh(provider: Provider, auth: &AuthRecord, margin_seconds: u64, now: u64) -> (r: bool)
    requires
        times_in_range(provider, auth@),
    ensures
        r == fresh_spec(
            provider,
            auth@.expires_at,
            auth@.last_refresh,
            margin_seconds as int,
            now as int,
        ),
{
    let expires_at = match parse_iso_unix(auth.expires_at.as_str()) {
        Some(v) => v,
        None => return false,
    };
    if saturating_sum(now, margin_seconds) >= expires_at {
        return false;
    }
    if provider == Provider::Codex {
        let last = match &auth.last_refresh {
            Some(l) => l,
            None => return false,
        };
        let last_refresh = match parse_iso_unix(last.as_str()) {
            Some(v) => v,
            None => return false,
        };
        return now < saturating_sum(last_refresh, CODEX_REFRESH_MAX_AGE_SECONDS);
    }
    true
}

/// `is_fresh` for any record: `None` where a timestamp it reads lies outside
/// the range `is_fresh` reads without overflow.
pub fn is_fresh_checked(provider: Provider, auth: &AuthRecord, margin_seconds: u64, now: u64) -> (r:
    Option<bool>)
    ensures
        r is Some <==> times_in_range(provider, auth@),
        r matches Some(b) ==> b == fresh_spec(
            provider,
            auth@.expires_at,
            auth@.last_refresh,
            margin_seconds as int,
            now as int,
        ),
{
    if !iso_text_in_range(auth.expires_at.as_str()) {
        return None;
    }
    if provider == Provider::Codex {
        if let Some(l) = &auth.last_refresh {
            if !iso_text_in_range(l.as_str()) {
                return None;
            }
        }
    }
    Some(is_fresh(provider, auth, margin_seconds, now))
}

/// After a refresh failed and the record was read again (`reread`, parsed as
/// `newer`): whether that record is used in place of the failure. It is when
/// its text differs from the record first read (`raw`) and it is fresh at
/// `now`; `None` where the text differs and a timestamp it holds lies
/// outside the range freshness is read in.
pub fn reread_usable(
    provider: Provider,
    raw: &str,
    reread: &str,
    newer: &AuthRecord,
    margin_seconds: u64,
    now: u64,
) -> (r: Option<bool>)
    ensures
        reread@ == raw@ ==> r == Some(false),
        reread@ != raw@ ==> (r is Some <==> times_in_range(provider, newer@)),
        reread@ != raw@ ==> (r matches Some(b) ==> b == fresh_spec(
            provider,
            newer@.expires_at,
            newer@.last_refresh,
            margin_seconds as int,
            now as int,
        )),
{
    if text_eq(reread, raw) {
        Some(false)
    } else {
        is_fresh_checked(provider, newer, margin_seconds, now)
    }
}


// ---------------------------------------------------------------- JWT expiry

pub open spec fn res_view<E>(r: Result<String, E>) -> Result<Seq<char>, E> {
    match r {
        Ok(s) => Ok(s@),
        Err(e) => Err(e),
    }
}

/// Why no expiry came out of a JWT.
#[derive(Debug, Clone, Copy, PartialEq, Eq, Structural)]
pub enum JwtError {
    NoPayload,
    BadBase64,
    BadJson,
    NoExp,
}

impl JwtError {
    pub fn message(&self) -> (r: String)
        ensures
            r@ == (match *self {
                JwtError::NoPayload => "JWT is missing a payload"@,
                JwtError::BadBase64 => "decode JWT payload"@,
                JwtError::BadJson => "parse JWT payload"@,
                JwtError::NoExp => "JWT payload is missing numeric exp"@,
            }),
    {
        match self {
            JwtError::NoPayload => "JWT is missing a payload".to_owned(),
            JwtError::BadBase64 => "decode JWT payload".to_owned(),
            JwtError::BadJson => "parse JWT payload".to_owned(),
            JwtError::NoExp => "JWT payload is missing numeric exp".to_owned(),
        }
    }
}

/// The second `.`-separated piece of a JWT, its payload.
pub fn jwt_payload(jwt: &str) -> (r: Option<String>)
    ensures
        opt_string(r) == piece(jwt@, '.', 1),
{
    let n = jwt.unicode_len();
    let mut i: usize = 0;
    while i < n && jwt.get_char(i) != '.'
        invariant
            n == jwt@.len(),
            i <= n,
            forall|j: int| 0 <= j < i ==> jwt@[j] != '.',
        decreases n - i,
    {
        i = i + 1;
    }
    proof {
        lemma_first_index_at(jwt@, '.', i as int);
    }
    if i >= n {
        return None;
    }
    let mut k: usize = i + 1;
    while k < n && jwt.get_char(k) != '.'
        invariant
            n == jwt@.len(),
            i < k <= n,
            forall|j: int| i < j < k ==> jwt@[j] != '.',
        decreases n - k,
    {
        k = k + 1;
    }
    let ghost rest = jwt@.subrange(i + 1, n as int);
    proof {
        assert forall|j: int| 0 <= j < k - i - 1 implies rest[j] != '.' by {
            assert(rest[j] == jwt@[i + 1 + j]);
        }
        lemma_first_index_at(rest, '.', k - i - 1);
        assert(rest.subrange(0, k - i - 1) =~= jwt@.subrange(i + 1, k as int));
        if k - i - 1 >= rest.len() {
            assert(rest =~= jwt@.subrange(i + 1, k as int));
        }
        assert(piece(jwt@, '.', 1) == piece(rest, '.', 0));
    }
    Some(owned(jwt.substring_char(i + 1, k)))
}

/// The expiry, as ISO text, that a JWT claim names.
pub open spec fn claim_expiry(claim: Option<Option<u64>>) -> Result<Seq<char>, JwtError> {
    match claim {
        None => Err(JwtError::BadJson),
        Some(None) => Err(JwtError::NoExp),
        Some(Some(e)) => Ok(unix_to_iso_spec(e as nat)),
    }
}

/// The expiry of a token as the `exp` claim read from its payload gives it.
pub fn expiry_from_claim(claim: Option<Option<u64>>) -> (r: Result<String, JwtError>)
    ensures
        res_view(r) == claim_expiry(claim),
{
    match claim {
        None => Err(JwtError::BadJson),
        Some(None) => Err(JwtError::NoExp),
        Some(Some(e)) => Ok(unix_to_iso(e)),
    }
}

/// The expiry of a JWT: its payload, base64-decoded, read as JSON, field `exp`.
pub open spec fn jwt_expiry_spec(jwt: Seq<char>) -> Result<Seq<char>, JwtError> {
    match piece(jwt, '.', 1) {
        None => Err(JwtError::NoPayload),
        Some(p) => match base64_url_bytes(encode_utf8(p)) {
            None => Err(JwtError::BadBase64),
            Some(b) => claim_expiry(json_u64_of(b, "exp"@)),
        },
    }
}

/// The expiry of a JWT as ISO text.
pub fn jwt_expiry_iso(jwt: &str) -> (r: Result<String, JwtError>)
    ensures
        res_view(r) == jwt_expiry_spec(jwt@),
{
    let payload = match jwt_payload(jwt) {
        Some(p) => p,
        None => return Err(JwtError::NoPayload),
    };
    let bytes = match decode_url_safe(payload.as_str().as_bytes()) {
        Some(b) => b,
        None => return Err(JwtError::BadBase64),
    };
    let claim = json_u64_at(bytes.as_slice(), "exp");
    expiry_from_claim(claim)
}

// ---------------------------------------------------------------- importing

/// Why a tool's auth file could not be imported.
#[derive(Debug, Clone, Copy, PartialEq, Eq, Structural)]
pub enum ImportError {
    NotJson,
    NoEntry,
    NoKey,
    NoRefreshToken,
    NoExpiresAt,
    NoTokens,
    NoIdToken,
    NoAccessToken,
    Jwt(JwtError),
}

/// The key of the Grok record in Grok's own auth file: issuer `::` client.
pub open spec fn grok_entry_key_spec() -> Seq<char> {
    GROK_ISSUER@ + "::"@ + GROK_CLIENT_ID@
}

pub fn grok_entry_key() -> (r: String)
    ensures
        r@ == grok_entry_key_spec(),
{
    let mut out = GROK_ISSUER.to_owned();
    push_str(&mut out, "::");
    push_str(&mut out, GROK_CLIENT_ID);
    out
}

/// A required string field: the field's text, or the error for what is
/// missing on the way to it.
pub open spec fn field_text(j: JsonTextView, no_scope: ImportError, no_field: ImportError) -> Result<
    Seq<char>,
    ImportError,
> {
    match j {
        JsonTextView::NotJson => Err(ImportError::NotJson),
        JsonTextView::NotObject => Err(no_scope),
        JsonTextView::NotText => Err(no_field),
        JsonTextView::Text(s) => Ok(s),
    }
}

/// An optional string field.
pub open spec fn optional_text(j: JsonTextView) -> Option<Seq<char>> {
    match j {
        JsonTextView::Text(s) => Some(s),
        _ => None,
    }
}

pub fn required_text(j: JsonText, no_scope: ImportError, no_field: ImportError) -> (r: Result<
    String,
    ImportError,
>)
    ensures
        res_view(r) == field_text(j@, no_scope, no_field),
{
    match j {
        JsonText::NotJson => Err(ImportError::NotJson),
        JsonText::NotObject => Err(no_scope),
        JsonText::NotText => Err(no_field),
        JsonText::Text(s) => Ok(s),
    }
}

pub fn optional_string(j: JsonText) -> (r: Option<String>)
    ensures
        opt_string(r) == optional_text(j@),
{
    match j {
        JsonText::Text(s) => Some(s),
        _ => None,
    }
}

pub open spec fn rec_view<E>(r: Result<AuthRecord, E>) -> Result<RecordView, E> {
    match r {
        Ok(a) => Ok(a@),
        Err(e) => Err(e),
    }
}

/// The record an imported Grok entry becomes.
pub open spec fn grok_record_view(access: Seq<char>, refresh: Seq<char>, expires_at: Seq<char>, now: nat) -> RecordView {
    RecordView {
        client_id: GROK_CLIENT_ID@,
        issuer: GROK_ISSUER@,
        id_token: None,
        access_token: access,
        refresh_token: refresh,
        account_id: None,
        expires_at: expires_at,
        last_refresh: None,
        scope: None,
        token_type: Some("Bearer"@),
        updated_at: Some(unix_to_iso_spec(now)),
    }
}

pub fn grok_record(access: String, refresh: String, expires_at: String, now: u64) -> (r: AuthRecord)
    ensures
        r@ == grok_record_view(access@, refresh@, expires_at@, now as nat),
{
    AuthRecord {
        client_id: GROK_CLIENT_ID.to_owned(),
        issuer: GROK_ISSUER.to_owned(),
        id_token: None,
        access_token: access,
        refresh_token: refresh,
        account_id: None,
        expires_at: expires_at,
        last_refresh: None,
        scope: None,
        token_type: Some("Bearer".to_owned()),
        updated_at: Some(unix_to_iso(now)),
    }
}

/// What importing Grok's auth file gives at time `now`.
pub open spec fn grok_import_spec(raw: Seq<char>, now: nat) -> Result<RecordView, ImportError> {
    let key = grok_entry_key_spec();
    match field_text(json_text_of(raw, Some(key), "key"@), ImportError::NoEntry, ImportError::NoKey) {
        Err(e) => Err(e),
        Ok(a) => match field_text(
            json_text_of(raw, Some(key), "refresh_token"@),
            ImportError::NoEntry,
            ImportError::NoRefreshToken,
        ) {
            Err(e) => Err(e),
            Ok(rt) => match field_text(
                json_text_of(raw, Some(key), "expires_at"@),
                ImportError::NoEntry,
                ImportError::NoExpiresAt,
            ) {
                Err(e) => Err(e),
                Ok(ex) => Ok(grok_record_view(a, rt, ex, now)),
            },
        },
    }
}

/// Imports the record of Grok's own auth file at time `now` (Unix seconds).
pub fn import_grok_auth(raw: &str, now: u64) -> (r: Result<AuthRecord, ImportError>)
    ensures
        rec_view(r) == grok_import_spec(raw@, now as nat),
{
    let key = grok_entry_key();
    let access = required_text(
        json_text_at(raw, Some(key.as_str()), "key"),
        ImportError::NoEntry,
        ImportError::NoKey,
    )?;
    let refresh = required_text(
        json_text_at(raw, Some(key.as_str()), "refresh_token"),
        ImportError::NoEntry,
        ImportError::NoRefreshToken,
    )?;
    let expires_at = required_text(
        json_text_at(raw, Some(key.as_str()), "expires_at"),
        ImportError::NoEntry,
        ImportError::NoExpiresAt,
    )?;
    Ok(grok_record(access, refresh, expires_at, now))
}

/// The record an imported Codex file becomes.
pub open spec fn codex_record_view(
    id_token: Seq<char>,
    access: Seq<char>,
    refresh: Seq<char>,
    account: Option<Seq<char>>,
    expires_at: Seq<char>,
    last_refresh: Option<Seq<char>>,
    now: nat,
) -> RecordView {
    RecordView {
        client_id: CODEX_CLIENT_ID@,
        issuer: CODEX_ISSUER@,
        id_token: Some(id_token),
        access_token: access,
        refresh_token: refresh,
        account_id: account,
        expires_at: expires_at,
        last_refresh: Some(
            match last_refresh {
                Some(l) => l,
                None => unix_to_iso_spec(now),
            },
        ),
        scope: None,
        token_type: Some("Bearer"@),
        updated_at: Some(unix_to_iso_spec(now)),
    }
}

pub fn codex_record(
    id_token: String,
    access: String,
    refresh: String,
    account: Option<String>,
    expires_at: String,
    last_refresh: Option<String>,
    now: u64,
) -> (r: AuthRecord)
    ensures
        r@ == codex_record_view(
            id_token@,
            access@,
            refresh@,
            opt_string(account),
            expires_at@,
            opt_string(last_refresh),
            now as nat,
        ),
{
    let last = match last_refresh {
        Some(l) => l,
        None => unix_to_iso(now),
    };
    AuthRecord {
        client_id: CODEX_CLIENT_ID.to_owned(),
        issuer: CODEX_ISSUER.to_owned(),
        id_token: Some(id_token),
        access_token: access,
        refresh_token: refresh,
        account_id: account,
        expires_at: expires_at,
        last_refresh: Some(last),
        scope: None,
        token_type: Some("Bearer".to_owned()),
        updated_at: Some(unix_to_iso(now)),
    }
}

/// What importing Codex's auth file gives at time `now`.
pub open spec fn codex_import_spec(raw: Seq<char>, now: nat) -> Result<RecordView, ImportError> {
    let tk = "tokens"@;
    match field_text(
        json_text_of(raw, Some(tk), "id_token"@),
        ImportError::NoTokens,
        ImportError::NoIdToken,
    ) {
        Err(e) => Err(e),
        Ok(id) => match field_text(
            json_text_of(raw, Some(tk), "access_token"@),
            ImportError::NoTokens,
            ImportError::NoAccessToken,
        ) {
            Err(e) => Err(e),
            Ok(a) => match field_text(
                json_text_of(raw, Some(tk), "refresh_token"@),
                ImportError::NoTokens,
                ImportError::NoRefreshToken,
            ) {
                Err(e) => Err(e),
                Ok(rt) => match jwt_expiry_spec(a) {
                    Err(e) => Err(ImportError::Jwt(e)),
                    Ok(ex) => Ok(
                        codex_record_view(
                            id,
                            a,
                            rt,
                            optional_text(json_text_of(raw, Some(tk), "account_id"@)),
                            ex,
                            optional_text(json_text_of(raw, None, "last_refresh"@)),
                            now,
                        ),
                    ),
                },
            },
        },
    }
}

/// Imports the record of Codex's own auth file at time `now`; its expiry is
/// the access token's `exp`.
pub fn import_codex_auth(raw: &str, now: u64) -> (r: Result<AuthRecord, ImportError>)
    ensures
        rec_view(r) == codex_import_spec(raw@, now as nat),
{
    let id_token = required_text(
        json_text_at(raw, Some("tokens"), "id_token"),
        ImportError::NoTokens,
        ImportError::NoIdToken,
    )?;
    let access = required_text(
        json_text_at(raw, Some("tokens"), "access_token"),
        ImportError::NoTokens,
        ImportError::NoAccessToken,
    )?;
    let refresh = required_text(
        json_text_at(raw, Some("tokens"), "refresh_token"),
        ImportError::NoTokens,
        ImportError::NoRefreshToken,
    )?;
    let account = optional_string(json_text_at(raw, Some("tokens"), "account_id"));
    let expires_at = match jwt_expiry_iso(access.as_str()) {
        Ok(e) => e,
        Err(e) => return Err(ImportError::Jwt(e)),
    };
    let last_refresh = optional_string(json_text_at(raw, None, "last_refresh"));
    Ok(codex_record(id_token, access, refresh, account, expires_at, last_refresh, now))
}


// ---------------------------------------------------------------- redaction

pub open spec fn non_ws() -> spec_fn(char) -> bool {
    |c: char| !is_white_space(c)
}

/// The words of `s` as `str::split_whitespace` yields them: the maximal runs
/// of characters that are not white space.
pub open spec fn words(s: Seq<char>) -> Seq<Seq<char>>
    decreases s.len(),
{
    let a = leading_count(s, ws());
    if a >= s.len() {
        Seq::empty()
    } else {
        let rest = s.subrange(a as int, s.len() as int);
        let w = leading_count(rest, non_ws());
        if w == 0 || w > rest.len() {
            Seq::empty()
        } else {
            seq![rest.subrange(0, w as int)] + words(rest.subrange(w as int, rest.len() as int))
        }
    }
}

/// Words joined by single spaces.
pub open spec fn join_words(ws: Seq<Seq<char>>) -> Seq<char>
    decreases ws.len(),
{
    if ws.len() == 0 {
        Seq::empty()
    } else if ws.len() == 1 {
        ws[0]
    } else {
        join_words(ws.drop_last()) + seq![' '] + ws.last()
    }
}

pub open spec fn dot_count(s: Seq<char>) -> nat
    decreases s.len(),
{
    if s.len() == 0 {
        0
    } else {
        dot_count(s.drop_last()) + if s.last() == '.' {
            1nat
        } else {
            0nat
        }
    }
}

/// A word that looks like a JWT: `eyJ` and at least two dots.
pub open spec fn jwt_like(w: Seq<char>) -> bool {
    starts_with(w, "eyJ"@) && dot_count(w) >= 2
}

/// A word that looks like a secret: JWT-like, or starting with `refresh`
/// or `access`.
pub open spec fn secret_like(w: Seq<char>) -> bool {
    jwt_like(w) || starts_with(w, "refresh"@) || starts_with(w, "access"@)
}

pub open spec fn redact_word(w: Seq<char>) -> Seq<char> {
    if jwt_like(w) {
        "[redacted-jwt]"@
    } else if starts_with(w, "refresh"@) || starts_with(w, "access"@) {
        "[redacted]"@
    } else {
        w
    }
}

pub open spec fn redact_all(ws: Seq<Seq<char>>) -> Seq<Seq<char>> {
    ws.map_values(|w: Seq<char>| redact_word(w))
}

/// `value` with every secret-like word replaced, words joined by one space.
pub open spec fn redacted(value: Seq<char>) -> Seq<char> {
    join_words(redact_all(words(value)))
}

fn count_dots(w: &str) -> (r: usize)
    ensures
        r == dot_count(w@),
{
    let n = w.unicode_len();
    let mut i: usize = 0;
    let mut c: usize = 0;
    while i < n
        invariant
            n == w@.len(),
            i <= n,
            c == dot_count(w@.subrange(0, i as int)),
            c <= i,
        decreases n - i,
    {
        proof {
            assert(w@.subrange(0, i + 1).drop_last() =~= w@.subrange(0, i as int));
        }
        if w.get_char(i) == '.' {
            c = c + 1;
        }
        i = i + 1;
    }
    assert(w@.subrange(0, n as int) =~= w@);
    c
}

fn redact_one(w: &str) -> (r: String)
    ensures
        r@ == redact_word(w@),
{
    if has_prefix(w, "eyJ") && count_dots(w) >= 2 {
        "[redacted-jwt]".to_owned()
    } else if has_prefix(w, "refresh") || has_prefix(w, "access") {
        "[redacted]".to_owned()
    } else {
        owned(w)
    }
}

proof fn lemma_words_step(s: Seq<char>, a: int, w: int)
    requires
        0 <= a < a + w <= s.len(),
        forall|j: int| 0 <= j < a ==> is_white_space(s[j]),
        forall|j: int| a <= j < a + w ==> !is_white_space(s[j]),
        !is_white_space(s[a]),
        a + w == s.len() || is_white_space(s[a + w]),
    ensures
        words(s) == seq![s.subrange(a, a + w)] + words(s.subrange(a + w, s.len() as int)),
{
    lemma_leading_count(s, ws(), a);
    let rest = s.subrange(a, s.len() as int);
    assert forall|j: int| 0 <= j < w implies (non_ws())(rest[j]) by {
        assert(rest[j] == s[a + j]);
    }
    if a + w < s.len() {
        assert(rest[w] == s[a + w]);
    }
    lemma_leading_count(rest, non_ws(), w);
    assert(rest.subrange(0, w) =~= s.subrange(a, a + w));
    assert(rest.subrange(w, rest.len() as int) =~= s.subrange(a + w, s.len() as int));
}

proof fn lemma_words_blank(s: Seq<char>)
    requires
        forall|j: int| 0 <= j < s.len() ==> is_white_space(s[j]),
    ensures
        words(s) == Seq::<Seq<char>>::empty(),
{
    lemma_leading_count(s, ws(), s.len() as int);
}

/// Replaces every secret-like word of `value`: a JWT-like word by
/// `[redacted-jwt]`, a word starting with `refresh` or `access` by
/// `[redacted]`; words are joined by single spaces.
pub fn redact_secret_like(value: &str) -> (r: String)
    ensures
        r@ == redacted(value@),
{
    let n = value.unicode_len();
    let mut out = String::new();
    let ghost mut done: Seq<Seq<char>> = Seq::empty();
    let mut wrote = false;
    let mut i: usize = 0;
    assert(value@.subrange(0, n as int) =~= value@);
    loop
        invariant
            n == value@.len(),
            i <= n,
            wrote == (done.len() > 0),
            words(value@) == done + words(value@.subrange(i as int, n as int)),
            out@ == join_words(redact_all(done)),
        decreases n - i,
    {
        let mut j = i;
        while j < n && is_white_space_char(value.get_char(j))
            invariant
                n == value@.len(),
                i <= j <= n,
                forall|q: int| i <= q < j ==> is_white_space(value@[q]),
            decreases n - j,
        {
            j = j + 1;
        }
        let ghost s = value@.subrange(i as int, n as int);
        if j >= n {
            proof {
                assert forall|q: int| 0 <= q < s.len() implies is_white_space(s[q]) by {
                    assert(s[q] == value@[i + q]);
                }
                lemma_words_blank(s);
                assert(done + Seq::<Seq<char>>::empty() =~= done);
            }
            return out;
        }
        let mut k = j + 1;
        while k < n && !is_white_space_char(value.get_char(k))
            invariant
                n == value@.len(),
                j < k <= n,
                forall|q: int| j <= q < k ==> !is_white_space(value@[q]),
            decreases n - k,
        {
            k = k + 1;
        }
        proof {
            assert forall|q: int| 0 <= q < j - i implies is_white_space(s[q]) by {
                assert(s[q] == value@[i + q]);
            }
            assert forall|q: int| j - i <= q < k - i implies !is_white_space(s[q]) by {
                assert(s[q] == value@[i + q]);
            }
            if k < n {
                assert(s[k - i] == value@[k as int]);
            }
            lemma_words_step(s, j - i, k - j);
            assert(s.subrange(j - i, k - i) =~= value@.subrange(j as int, k as int));
            assert(s.subrange(k - i, s.len() as int) =~= value@.subrange(k as int, n as int));
        }
        let word = value.substring_char(j, k);
        let red = redact_one(word);
        let ghost before = done;
        if wrote {
            push_char(&mut out, ' ');
        }
        push_str(&mut out, red.as_str());
        wrote = true;
        proof {
            done = done.push(word@);
            assert(redact_all(done) =~= redact_all(before).push(redact_word(word@)));
            assert(redact_all(done).drop_last() =~= redact_all(before));
            assert(done + words(value@.subrange(k as int, n as int)) =~= before + (seq![word@]
                + words(value@.subrange(k as int, n as int))));
        }
        i = k;
    }
}


// ---------------------------------------------------------------- error bodies

/// The field of an error body kept under `key`, redacted, if the body is a
/// JSON object with a string there.
pub open spec fn safe_entry(body: Seq<char>, key: Seq<char>) -> Seq<(Seq<char>, Seq<char>)> {
    match json_text_of(body, None, key) {
        JsonTextView::Text(v) => seq![(key, redacted(v))],
        _ => Seq::empty(),
    }
}

pub open spec fn safe_fields(body: Seq<char>) -> Seq<(Seq<char>, Seq<char>)> {
    safe_entry(body, "error"@) + safe_entry(body, "error_description"@) + safe_entry(
        body,
        "message"@,
    ) + safe_entry(body, "detail"@)
}

/// An error body fit to print, before it is cut to length: the redacted
/// `error`, `error_description`, `message` and `detail` fields of a JSON
/// body as a JSON object; the whole body redacted where it is no JSON or
/// has none of those fields.
pub open spec fn safe_body_full(body: Seq<char>) -> Seq<char> {
    if json_text_of(body, None, "error"@) is NotJson || safe_fields(body).len() == 0 {
        redacted(body)
    } else {
        json_object_text_of(safe_fields(body))
    }
}

/// The longest byte count an error body is cut to.
pub const ERROR_BODY_LIMIT: usize = 500;

/// Whether cutting text at the byte limit falls between characters (where it
/// does not, `String::truncate` panics).
pub open spec fn cut_ok(s: Seq<char>) -> bool {
    encode_utf8(s).len() <= ERROR_BODY_LIMIT || is_char_boundary(encode_utf8(s), ERROR_BODY_LIMIT as int)
}

/// Text cut to its first `ERROR_BODY_LIMIT` bytes.
pub open spec fn cut_text(s: Seq<char>) -> Seq<char> {
    if encode_utf8(s).len() <= ERROR_BODY_LIMIT {
        s
    } else {
        decode_utf8(encode_utf8(s).subrange(0, ERROR_BODY_LIMIT as int))
    }
}

proof fn lemma_encode_append(a: Seq<char>, b: Seq<char>)
    ensures
        encode_utf8(a + b) == encode_utf8(a) + encode_utf8(b),
    decreases a.len(),
{
    if a.len() > 0 {
        assert((a + b).drop_first() =~= a.drop_first() + b);
        lemma_encode_append(a.drop_first(), b);
        assert(encode_utf8(a + b) =~= encode_utf8(a) + encode_utf8(b));
    } else {
        assert(a + b =~= b);
        assert(encode_utf8(a) + encode_utf8(b) =~= encode_utf8(b));
    }
}

fn utf8_width(c: char) -> (r: usize)
    ensures
        r == encode_utf8(seq![c]).len(),
        1 <= r <= 4,
{
    proof {
        char_is_scalar(c);
        assert(seq![c].drop_first() =~= Seq::<char>::empty());
        assert(encode_utf8(Seq::<char>::empty()) =~= Seq::<u8>::empty());
        assert(encode_utf8(seq![c]) =~= encode_scalar(c as u32));
    }
    let v = c as u32;
    if v <= 0x7f {
        1
    } else if v <= 0x7ff {
        2
    } else if v <= 0xffff {
        3
    } else {
        4
    }
}

/// Whether the UTF-8 encoding of `s` takes at most `limit` bytes.
fn bytes_at_most(s: &str, limit: usize) -> (r: bool)
    ensures
        r == (encode_utf8(s@).len() <= limit),
{
    let n = s.unicode_len();
    let mut i: usize = 0;
    let mut used: usize = 0;
    while i < n
        invariant
            n == s@.len(),
            i <= n,
            used == encode_utf8(s@.subrange(0, i as int)).len(),
            used <= limit,
        decreases n - i,
    {
        let c = s.get_char(i);
        let w = utf8_width(c);
        proof {
            assert(s@.subrange(0, i + 1) =~= s@.subrange(0, i as int) + seq![c]);
            lemma_encode_append(s@.subrange(0, i as int), seq![c]);
        }
        if w > limit - used {
            proof {
                assert(s@ =~= s@.subrange(0, i + 1) + s@.subrange(i + 1, n as int));
                lemma_encode_append(s@.subrange(0, i + 1), s@.subrange(i + 1, n as int));
            }
            return false;
        }
        used = used + w;
        i = i + 1;
    }
    assert(s@.subrange(0, n as int) =~= s@);
    true
}

fn cut_to_limit(s: String) -> (r: String)
    requires
        cut_ok(s@),
    ensures
        r@ == cut_text(s@),
{
    let t = s.as_str();
    if bytes_at_most(t, ERROR_BODY_LIMIT) {
        return s;
    }
    let (head, _tail) = t.split_at(ERROR_BODY_LIMIT);
    proof {
        encode_utf8_decode_utf8(head@);
    }
    owned(head)
}

fn fits_cut(s: &String) -> (r: bool)
    ensures
        r == cut_ok(s@),
{
    let t = s.as_str();
    bytes_at_most(t, ERROR_BODY_LIMIT) || t.is_char_boundary(ERROR_BODY_LIMIT)
}

fn push_safe_entry(fields: &mut Vec<(String, String)>, found: JsonText, key: &str)
    ensures
        text_pairs(final(fields)@) == text_pairs(old(fields)@) + (match found@ {
            JsonTextView::Text(v) => seq![(key@, redacted(v))],
            _ => Seq::empty(),
        }),
{
    match found {
        JsonText::Text(v) => {
            let red = redact_secret_like(v.as_str());
            let ghost before = fields@;
            fields.push((owned(key), red));
            assert(text_pairs(fields@) =~= text_pairs(before).push((key@, redacted(v@))));
        },
        _ => {
            assert(text_pairs(fields@) =~= text_pairs(old(fields)@) + Seq::empty());
        },
    }
}

fn full_safe_body(body: &str) -> (r: String)
    ensures
        r@ == safe_body_full(body@),
{
    let first = json_text_at(body, None, "error");
    if let JsonText::NotJson = first {
        return redact_secret_like(body);
    }
    let mut fields: Vec<(String, String)> = Vec::new();
    assert(text_pairs(fields@) =~= Seq::<(Seq<char>, Seq<char>)>::empty());
    push_safe_entry(&mut fields, first, "error");
    push_safe_entry(&mut fields, json_text_at(body, None, "error_description"), "error_description");
    push_safe_entry(&mut fields, json_text_at(body, None, "message"), "message");
    push_safe_entry(&mut fields, json_text_at(body, None, "detail"), "detail");
    assert(text_pairs(fields@) =~= safe_fields(body@));
    if fields.len() == 0 {
        return redact_secret_like(body);
    }
    json_object_text(&fields)
}

/// An HTTP error body fit to print: see `safe_body_full`, cut to
/// `ERROR_BODY_LIMIT` bytes.
pub fn safe_error_body(body: &str) -> (r: String)
    requires
        cut_ok(safe_body_full(body@)),
    ensures
        r@ == cut_text(safe_body_full(body@)),
{
    cut_to_limit(full_safe_body(body))
}

/// `safe_error_body` for any body: `None` where cutting it to length would
/// split a character.
pub fn safe_error_body_checked(body: &str) -> (r: Option<String>)
    ensures
        r is Some <==> cut_ok(safe_body_full(body@)),
        r matches Some(s) ==> s@ == cut_text(safe_body_full(body@)),
{
    let full = full_safe_body(body);
    if fits_cut(&full) {
        Some(safe_error_body(body))
    } else {
        None
    }
}

/// The message for a refused token refresh; with `invalid_grant` in the
/// body, the advice to import the record again.
pub open spec fn refresh_failure_text(p: Provider, status: u16, body: Seq<char>) -> Seq<char> {
    let head = provider_name(p) + " auth refresh failed: HTTP "@ + decimal(status as nat) + seq![' ']
        + cut_text(safe_body_full(body));
    if occurs_in(body, "invalid_grant"@) {
        head + "\nThe stored refresh token is no longer valid. Re-run `rage import "@
            + provider_name(p) + " <auth-file>` from a logged-in machine."@
    } else {
        head
    }
}

/// The message for a token refresh answered with an error status; `None`
/// where cutting the body to length would split a character.
pub fn refresh_failure_message(provider: Provider, status: u16, body: &str) -> (r: Option<String>)
    ensures
        r is Some <==> cut_ok(safe_body_full(body@)),
        r matches Some(s) ==> s@ == refresh_failure_text(provider, status, body@),
{
    let safe = safe_error_body_checked(body)?;
    let mut out = owned(provider.name());
    push_str(&mut out, " auth refresh failed: HTTP ");
    push_decimal(&mut out, status as u64);
    push_char(&mut out, ' ');
    push_str(&mut out, safe.as_str());
    if has_substring(body, "invalid_grant") {
        push_str(&mut out, "\nThe stored refresh token is no longer valid. Re-run `rage import ");
        push_str(&mut out, provider.name());
        push_str(&mut out, " <auth-file>` from a logged-in machine.");
    }
    Some(out)
}


// ---------------------------------------------------------------- refreshing

/// What a token endpoint answered to a refresh.
#[derive(Debug, Clone)]
pub struct RefreshResponse {
    pub access_token: Option<String>,
    pub refresh_token: Option<String>,
    pub id_token: Option<String>,
    pub expires_in: Option<u64>,
    pub scope: Option<String>,
    pub token_type: Option<String>,
}

pub struct RefreshView {
    pub access_token: Option<Seq<char>>,
    pub refresh_token: Option<Seq<char>>,
    pub id_token: Option<Seq<char>>,
    pub expires_in: Option<u64>,
    pub scope: Option<Seq<char>>,
    pub token_type: Option<Seq<char>>,
}

impl View for RefreshResponse {
    type V = RefreshView;

    open spec fn view(&self) -> RefreshView {
        RefreshView {
            access_token: opt_string(self.access_token),
            refresh_token: opt_string(self.refresh_token),
            id_token: opt_string(self.id_token),
            expires_in: self.expires_in,
            scope: opt_string(self.scope),
            token_type: opt_string(self.token_type),
        }
    }
}

/// Why a refresh answer could not become a record.
#[derive(Debug, Clone, Copy, PartialEq, Eq, Structural)]
pub enum RefreshError {
    MissingFields,
    Jwt(JwtError),
}

impl RefreshError {
    pub fn message(&self, provider: Provider) -> (r: String)
        ensures
            r@ == (match *self {
                RefreshError::MissingFields => provider_name(provider)
                    + " refresh response is missing access_token, refresh_token, or expires_in"@,
                RefreshError::Jwt(e) => (match e {
                    JwtError::NoPayload => "JWT is missing a payload"@,
                    JwtError::BadBase64 => "decode JWT payload"@,
                    JwtError::BadJson => "parse JWT payload"@,
                    JwtError::NoExp => "JWT payload is missing numeric exp"@,
                }),
            }),
    {
        match self {
            RefreshError::MissingFields => {
                let mut out = owned(provider.name());
                push_str(
                    &mut out,
                    " refresh response is missing access_token, refresh_token, or expires_in",
                );
                out
            },
            RefreshError::Jwt(e) => e.message(),
        }
    }
}

pub open spec fn or_text(a: Option<Seq<char>>, b: Seq<char>) -> Seq<char> {
    match a {
        Some(v) => v,
        None => b,
    }
}

/// The record a refresh answer gives at time `now`: the answer's tokens
/// where it has them, else the old ones; the expiry `expires_in` seconds
/// from now, else the new access token's `exp`; a form-encoded provider
/// (Grok) must answer with all three of access token, refresh token and
/// `expires_in`.
pub open spec fn refresh_spec(p: Provider, a: RecordView, d: RefreshView, now: nat) -> Result<RecordView, RefreshError> {
    if provider_format(p) == RefreshBodyFormat::Form && (d.access_token is None
        || d.refresh_token is None || d.expires_in is None) {
        Err(RefreshError::MissingFields)
    } else {
        let access = or_text(d.access_token, a.access_token);
        let expiry = match d.expires_in {
            Some(e) => Ok(unix_to_iso_spec(now + e as nat)),
            None => jwt_expiry_spec(access),
        };
        match expiry {
            Err(e) => Err(RefreshError::Jwt(e)),
            Ok(ex) => Ok(
                RecordView {
                    client_id: provider_client_id(p),
                    issuer: provider_issuer(p),
                    id_token: match d.id_token {
                        Some(t) => Some(t),
                        None => a.id_token,
                    },
                    access_token: access,
                    refresh_token: or_text(d.refresh_token, a.refresh_token),
                    account_id: a.account_id,
                    expires_at: ex,
                    last_refresh: if provider_format(p) == RefreshBodyFormat::Json {
                        Some(unix_to_iso_spec(now))
                    } else {
                        a.last_refresh
                    },
                    scope: d.scope,
                    token_type: d.token_type,
                    updated_at: Some(unix_to_iso_spec(now)),
                },
            ),
        }
    }
}

/// Law: a refresh answer's tokens replace the stored ones. For every
/// provider, the record that comes out holds the answer's refresh token,
/// access token and id token wherever the answer carries them, and keeps the
/// stored ones only where it carries none; it stays the provider's record
/// and keeps its account, and it is stamped as updated at `now`. Its expiry
/// is `expires_in` seconds from `now`, or, with no `expires_in`, the `exp` of
/// the access token it now holds. An answer with all three of access token,
/// refresh token and `expires_in` is always applied.
pub proof fn law_refresh_takes_answer_tokens(p: Provider, a: RecordView, d: RefreshView, now: nat)
    ensures
        refresh_spec(p, a, d, now) matches Ok(r) ==> {
            &&& r.refresh_token == (match d.refresh_token {
                Some(t) => t,
                None => a.refresh_token,
            })
            &&& r.access_token == (match d.access_token {
                Some(t) => t,
                None => a.access_token,
            })
            &&& r.id_token == (match d.id_token {
                Some(t) => Some(t),
                None => a.id_token,
            })
            &&& r.client_id == provider_client_id(p)
            &&& r.account_id == a.account_id
            &&& r.updated_at == Some(unix_to_iso_spec(now))
            &&& d.expires_in is None ==> jwt_expiry_spec(r.access_token) == Ok::<
                Seq<char>,
                JwtError,
            >(r.expires_at)
        },
        d.access_token is Some && d.refresh_token is Some && d.expires_in is Some ==> (refresh_spec(
            p,
            a,
            d,
            now,
        ) matches Ok(r) && r.expires_at == unix_to_iso_spec(now + d.expires_in->Some_0 as nat)),
{
}

fn copy_text(s: &String) -> (r: String)
    ensures
        r@ == s@,
{
    owned(s.as_str())
}

fn copy_opt(s: &Option<String>) -> (r: Option<String>)
    ensures
        opt_string(r) == opt_string(*s),
{
    match s {
        Some(v) => Some(copy_text(v)),
        None => None,
    }
}

/// The fields of a refresh request, in the order they are sent. A form body
/// lists the grant type, the refresh token and the client id; a JSON body is
/// an object, written with its keys in sorted order.
pub open spec fn refresh_fields(p: Provider, refresh_token: Seq<char>) -> Seq<(Seq<char>, Seq<char>)> {
    match provider_format(p) {
        RefreshBodyFormat::Form => seq![
            ("grant_type"@, "refresh_token"@),
            ("refresh_token"@, refresh_token),
            ("client_id"@, provider_client_id(p)),
        ],
        RefreshBodyFormat::Json => seq![
            ("client_id"@, provider_client_id(p)),
            ("grant_type"@, "refresh_token"@),
            ("refresh_token"@, refresh_token),
        ],
    }
}

/// The fields to send when refreshing a record's tokens.
pub fn refresh_request_fields(provider: Provider, auth: &AuthRecord) -> (r: Vec<(String, String)>)
    ensures
        text_pairs(r@) == refresh_fields(provider, auth.refresh_token@),
{
    let mut fields: Vec<(String, String)> = Vec::new();
    match provider.refresh_body_format() {
        RefreshBodyFormat::Form => {
            fields.push(("grant_type".to_owned(), "refresh_token".to_owned()));
            fields.push(("refresh_token".to_owned(), copy_text(&auth.refresh_token)));
            fields.push(("client_id".to_owned(), provider.client_id().to_owned()));
        },
        RefreshBodyFormat::Json => {
            fields.push(("client_id".to_owned(), provider.client_id().to_owned()));
            fields.push(("grant_type".to_owned(), "refresh_token".to_owned()));
            fields.push(("refresh_token".to_owned(), copy_text(&auth.refresh_token)));
        },
    }
    assert(text_pairs(fields@) =~= refresh_fields(provider, auth.refresh_token@));
    fields
}

/// Applies a successful refresh answer to a record at time `now`.
pub fn apply_refresh(provider: Provider, auth: &AuthRecord, data: RefreshResponse, now: u64) -> (r:
    Result<AuthRecord, RefreshError>)
    requires
        data.expires_in matches Some(e) ==> now + e <= u64::MAX,
    ensures
        rec_view(r) == refresh_spec(provider, auth@, data@, now as nat),
{
    if provider.refresh_body_format() == RefreshBodyFormat::Form && (data.access_token.is_none()
        || data.refresh_token.is_none() || data.expires_in.is_none()) {
        return Err(RefreshError::MissingFields);
    }
    let access_token = match data.access_token {
        Some(t) => t,
        None => copy_text(&auth.access_token),
    };
    let refresh_token = match data.refresh_token {
        Some(t) => t,
        None => copy_text(&auth.refresh_token),
    };
    let id_token = match data.id_token {
        Some(t) => Some(t),
        None => copy_opt(&auth.id_token),
    };
    let expires_at = match data.expires_in {
        Some(e) => unix_to_iso(now + e),
        None => match jwt_expiry_iso(access_token.as_str()) {
            Ok(x) => x,
            Err(e) => return Err(RefreshError::Jwt(e)),
        },
    };
    let last_refresh = if provider.refresh_body_format() == RefreshBodyFormat::Json {
        Some(unix_to_iso(now))
    } else {
        copy_opt(&auth.last_refresh)
    };
    Ok(
        AuthRecord {
            client_id: owned(provider.client_id()),
            issuer: owned(provider.issuer()),
            id_token,
            access_token,
            refresh_token,
            account_id: copy_opt(&auth.account_id),
            expires_at,
            last_refresh,
            scope: data.scope,
            token_type: data.token_type,
            updated_at: Some(unix_to_iso(now)),
        },
    )
}

// ---------------------------------------------------------------- Codex home

/// Why Codex's auth file could not be written for a record.
#[derive(Debug, Clone, Copy, PartialEq, Eq, Structural)]
pub enum CodexFileError {
    NoIdToken,
    Serialize,
}

/// The document Codex reads as its auth file.
pub open spec fn codex_doc(a: RecordView, now: nat) -> Seq<(Seq<char>, JsonLeafView)> {
    let base = seq![
        ("id_token"@, a.id_token->Some_0),
        ("access_token"@, a.access_token),
        ("refresh_token"@, a.refresh_token),
    ];
    let tokens = match a.account_id {
        Some(acct) => base.push(("account_id"@, acct)),
        None => base,
    };
    seq![
        ("auth_mode"@, JsonLeafView::Text("chatgpt"@)),
        ("OPENAI_API_KEY"@, JsonLeafView::Null),
        ("tokens"@, JsonLeafView::Fields(tokens)),
        ("last_refresh"@, JsonLeafView::Text(or_text(a.last_refresh, unix_to_iso_spec(now)))),
    ]
}

/// The text of Codex's auth file for a record at time `now`.
pub fn codex_auth_json(auth: &AuthRecord, now: u64) -> (r: Result<String, CodexFileError>)
    ensures
        auth@.id_token is None ==> r == Err::<String, CodexFileError>(CodexFileError::NoIdToken),
        auth@.id_token is Some ==> (r matches Ok(s) && s@ == json_pretty_of(codex_doc(auth@, now as nat)) + seq!['\n']),
{
    let id_token = match &auth.id_token {
        Some(t) => copy_text(t),
        None => return Err(CodexFileError::NoIdToken),
    };
    let mut tokens: Vec<(String, String)> = Vec::new();
    tokens.push(("id_token".to_owned(), id_token));
    tokens.push(("access_token".to_owned(), copy_text(&auth.access_token)));
    tokens.push(("refresh_token".to_owned(), copy_text(&auth.refresh_token)));
    if let Some(acct) = &auth.account_id {
        tokens.push(("account_id".to_owned(), copy_text(acct)));
    }
    let ghost base = seq![
        ("id_token"@, auth@.id_token->Some_0),
        ("access_token"@, auth@.access_token),
        ("refresh_token"@, auth@.refresh_token),
    ];
    assert(text_pairs(tokens@) =~= (match auth@.account_id {
        Some(acct) => base.push(("account_id"@, acct)),
        None => base,
    }));
    let last = match &auth.last_refresh {
        Some(l) => copy_text(l),
        None => unix_to_iso(now),
    };
    let mut doc: Vec<(String, JsonLeaf)> = Vec::new();
    doc.push(("auth_mode".to_owned(), JsonLeaf::Text("chatgpt".to_owned())));
    doc.push(("OPENAI_API_KEY".to_owned(), JsonLeaf::Null));
    doc.push(("tokens".to_owned(), JsonLeaf::Fields(tokens)));
    doc.push(("last_refresh".to_owned(), JsonLeaf::Text(last)));
    assert(leaf_views(doc@) =~= codex_doc(auth@, now as nat));
    match json_pretty(&doc) {
        Some(text) => {
            let mut out = text;
            push_char(&mut out, '\n');
            Ok(out)
        },
        None => Err(CodexFileError::Serialize),
    }
}

/// The name of the backup of an existing Codex auth file.
pub fn backup_file_name(pid: u32, now: u64) -> (r: String)
    ensures
        r@ == ".rage-auth.json.backup-"@ + decimal(pid as nat) + seq!['-'] + decimal(now as nat),
{
    let mut out = ".rage-auth.json.backup-".to_owned();
    push_decimal(&mut out, pid as u64);
    push_char(&mut out, '-');
    push_decimal(&mut out, now);
    out
}

/// Whether an existing Codex auth file is backed up before rage writes its own.
pub fn codex_backup_wanted(force: bool, had_existing_auth: bool) -> (r: bool)
    ensures
        r == (force && had_existing_auth),
{
    force && had_existing_auth
}

/// What is done with Codex's auth file after the tool exits.
#[derive(Debug, Clone, Copy, PartialEq, Eq, Structural)]
pub enum CodexCleanup {
    /// Copy the backup back over the auth file, then remove the backup.
    RestoreBackup,
    /// Remove the auth file rage wrote (a missing file is no error).
    RemoveAuth,
    /// Leave the auth file alone.
    Keep,
}

/// The clean-up after Codex exits: a forced run over an existing file
/// restores its backup; a run that created the file, or a forced one, removes
/// it; otherwise the file stays.
pub fn codex_cleanup(force: bool, had_existing_auth: bool, has_backup: bool) -> (r: CodexCleanup)
    ensures
        r == (if force && had_existing_auth {
            if has_backup {
                CodexCleanup::RestoreBackup
            } else {
                CodexCleanup::Keep
            }
        } else if force || !had_existing_auth {
            CodexCleanup::RemoveAuth
        } else {
            CodexCleanup::Keep
        }),
{
    if force && had_existing_auth {
        if has_backup {
            CodexCleanup::RestoreBackup
        } else {
            CodexCleanup::Keep
        }
    } else if force || !had_existing_auth {
        CodexCleanup::RemoveAuth
    } else {
        CodexCleanup::Keep
    }
}

/// How many leading arguments to drop before running a tool: a first `--`.
pub fn leading_dashdash(first: Option<&str>) -> (r: usize)
    ensures
        r == (if opt_text(first) == Some("--"@) {
            1usize
        } else {
            0usize
        }),
{
    match first {
        Some(a) => if text_eq(a, "--") {
            1
        } else {
            0
        },
        None => 0,
    }
}

/// The message for a provider whose record is in neither place it is kept.
pub fn auth_not_imported_message(provider: &str) -> (r: String)
    ensures
        r@ == provider@ + " auth is not imported; run `rage import "@ + provider@
            + " <auth-file>`"@,
{
    let mut out = owned(provider);
    push_str(&mut out, " auth is not imported; run `rage import ");
    push_str(&mut out, provider);
    push_str(&mut out, " <auth-file>`");
    out
}

impl ImportError {
    /// The message the command line prints for this error.
    pub fn message(&self, provider: Provider) -> (r: String)
        ensures
            r@ == (match *self {
                ImportError::NotJson => (match provider {
                    Provider::Grok => "parse Grok auth JSON"@,
                    Provider::Codex => "parse Codex auth JSON"@,
                }),
                ImportError::NoEntry => "No Grok OIDC auth entry found for "@ + grok_entry_key_spec()
                    + "."@,
                ImportError::NoKey => "Grok auth entry is missing key"@,
                ImportError::NoRefreshToken => (match provider {
                    Provider::Grok => "Grok auth entry is missing refresh_token"@,
                    Provider::Codex => "Codex auth file is missing refresh_token"@,
                }),
                ImportError::NoExpiresAt => "Grok auth entry is missing expires_at"@,
                ImportError::NoTokens => "Codex auth file is missing tokens."@,
                ImportError::NoIdToken => "Codex auth file is missing id_token"@,
                ImportError::NoAccessToken => "Codex auth file is missing access_token"@,
                ImportError::Jwt(e) => "derive Codex access token expiry: "@ + (match e {
                    JwtError::NoPayload => "JWT is missing a payload"@,
                    JwtError::BadBase64 => "decode JWT payload"@,
                    JwtError::BadJson => "parse JWT payload"@,
                    JwtError::NoExp => "JWT payload is missing numeric exp"@,
                }),
            }),
    {
        match self {
            ImportError::NotJson => match provider {
                Provider::Grok => "parse Grok auth JSON".to_owned(),
                Provider::Codex => "parse Codex auth JSON".to_owned(),
            },
            ImportError::NoEntry => {
                let mut out = "No Grok OIDC auth entry found for ".to_owned();
                let key = grok_entry_key();
                push_str(&mut out, key.as_str());
                push_str(&mut out, ".");
                out
            },
            ImportError::NoKey => "Grok auth entry is missing key".to_owned(),
            ImportError::NoRefreshToken => match provider {
                Provider::Grok => "Grok auth entry is missing refresh_token".to_owned(),
                Provider::Codex => "Codex auth file is missing refresh_token".to_owned(),
            },
            ImportError::NoExpiresAt => "Grok auth entry is missing expires_at".to_owned(),
            ImportError::NoTokens => "Codex auth file is missing tokens.".to_owned(),
            ImportError::NoIdToken => "Codex auth file is missing id_token".to_owned(),
            ImportError::NoAccessToken => "Codex auth file is missing access_token".to_owned(),
            ImportError::Jwt(e) => {
                let mut out = "derive Codex access token expiry: ".to_owned();
                let m = e.message();
                push_str(&mut out, m.as_str());
                out
            },
        }
    }
}


// ---------------------------------------------------------------- the redaction law

/// Text with at least one character and no white space: one word.
pub open spec fn is_word(w: Seq<char>) -> bool {
    w.len() > 0 && forall|j: int| 0 <= j < w.len() ==> !is_white_space(#[trigger] w[j])
}

proof fn lemma_words_are_words(s: Seq<char>)
    ensures
        forall|i: int| 0 <= i < words(s).len() ==> is_word(#[trigger] words(s)[i]),
    decreases s.len(),
{
    let a = leading_count(s, ws());
    if a < s.len() {
        let rest = s.subrange(a as int, s.len() as int);
        let w = leading_count(rest, non_ws());
        lemma_leading_facts(rest, non_ws());
        if w > 0 && w <= rest.len() {
            let tail = rest.subrange(w as int, rest.len() as int);
            lemma_words_are_words(tail);
            let first = rest.subrange(0, w as int);
            assert forall|j: int| 0 <= j < first.len() implies !is_white_space(#[trigger] first[j]) by {
                assert(first[j] == rest[j]);
                assert((non_ws())(rest[j]));
            }
            assert forall|i: int| 0 <= i < words(s).len() implies is_word(#[trigger] words(s)[i]) by {
                if i > 0 {
                    assert(words(s)[i] == words(tail)[i - 1]);
                }
            }
        }
    }
}

proof fn lemma_words_of_word(w: Seq<char>)
    requires
        is_word(w),
    ensures
        words(w) == seq![w],
{
    lemma_words_step(w, 0, w.len() as int);
    assert(w.subrange(0, w.len() as int) =~= w);
    lemma_words_blank(w.subrange(w.len() as int, w.len() as int));
    assert(seq![w] + Seq::<Seq<char>>::empty() =~= seq![w]);
}

/// Appending a space and a word to text adds that word to its words.
proof fn lemma_words_append(x: Seq<char>, y: Seq<char>)
    requires
        is_word(y),
    ensures
        words(x + seq![' '] + y) == words(x) + seq![y],
    decreases x.len(),
{
    let z = x + seq![' '] + y;
    lemma_leading_facts(x, ws());
    let a = leading_count(x, ws());
    if a == x.len() {
        assert forall|j: int| 0 <= j < x.len() + 1 implies (ws())(z[j]) by {
            if j < x.len() {
                assert(z[j] == x[j]);
            }
        }
        assert(z[x.len() + 1int] == y[0]);
        lemma_leading_count(z, ws(), x.len() + 1int);
        let rest = z.subrange(x.len() + 1int, z.len() as int);
        assert(rest =~= y);
        lemma_leading_count(y, non_ws(), y.len() as int);
        assert(y.subrange(0, y.len() as int) =~= y);
        lemma_words_blank(y.subrange(y.len() as int, y.len() as int));
        assert forall|j: int| 0 <= j < x.len() implies is_white_space(x[j]) by {
            assert((ws())(x[j]));
        }
        lemma_words_blank(x);
        assert(words(z) =~= seq![y] + Seq::<Seq<char>>::empty());
        assert(words(x) + seq![y] =~= seq![y]);
    } else {
        assert forall|j: int| 0 <= j < a implies (ws())(z[j]) by {
            assert(z[j] == x[j]);
        }
        assert(z[a as int] == x[a as int]);
        lemma_leading_count(z, ws(), a as int);
        let rx = x.subrange(a as int, x.len() as int);
        let rz = z.subrange(a as int, z.len() as int);
        assert(rz =~= rx + seq![' '] + y);
        lemma_leading_facts(rx, non_ws());
        let w = leading_count(rx, non_ws());
        assert(rx[0] == x[a as int]);
        assert(w > 0);
        assert forall|j: int| 0 <= j < w implies (non_ws())(rz[j]) by {
            assert(rz[j] == rx[j]);
        }
        if w < rx.len() {
            assert(rz[w as int] == rx[w as int]);
        } else {
            assert(rz[w as int] == ' ');
        }
        lemma_leading_count(rz, non_ws(), w as int);
        let xt = rx.subrange(w as int, rx.len() as int);
        assert(rz.subrange(0, w as int) =~= rx.subrange(0, w as int));
        assert(rz.subrange(w as int, rz.len() as int) =~= xt + seq![' '] + y);
        lemma_words_append(xt, y);
        assert(words(z) =~= seq![rx.subrange(0, w as int)] + (words(xt) + seq![y]));
        assert(words(x) =~= seq![rx.subrange(0, w as int)] + words(xt));
        assert(words(z) =~= words(x) + seq![y]);
    }
}

/// Words joined by spaces split back into the same words.
proof fn lemma_words_join(ws: Seq<Seq<char>>)
    requires
        forall|i: int| 0 <= i < ws.len() ==> is_word(#[trigger] ws[i]),
    ensures
        words(join_words(ws)) == ws,
    decreases ws.len(),
{
    if ws.len() == 0 {
        lemma_words_blank(Seq::<char>::empty());
        assert(ws =~= Seq::<Seq<char>>::empty());
    } else if ws.len() == 1 {
        lemma_words_of_word(ws[0]);
        assert(ws =~= seq![ws[0]]);
    } else {
        let init = ws.drop_last();
        assert forall|i: int| 0 <= i < init.len() implies is_word(#[trigger] init[i]) by {
            assert(init[i] == ws[i]);
        }
        lemma_words_join(init);
        assert(is_word(ws[ws.len() - 1]));
        lemma_words_append(join_words(init), ws.last());
        assert(init + seq![ws.last()] =~= ws);
    }
}

proof fn lemma_redacted_word(w: Seq<char>)
    requires
        is_word(w),
    ensures
        is_word(redact_word(w)),
        !secret_like(redact_word(w)),
{
    reveal_strlit("[redacted-jwt]");
    reveal_strlit("[redacted]");
    reveal_strlit("eyJ");
    reveal_strlit("refresh");
    reveal_strlit("access");
    if jwt_like(w) || starts_with(w, "refresh"@) || starts_with(w, "access"@) {
        let r = redact_word(w);
        assert(r[0] == '[');
        assert(r.len() >= 7);
        assert(r.subrange(0, 3)[0] == '[');
        assert(r.subrange(0, 7)[0] == '[');
        assert(r.subrange(0, 6)[0] == '[');
        assert(!starts_with(r, "eyJ"@));
        assert(!starts_with(r, "refresh"@));
        assert(!starts_with(r, "access"@));
    }
}

/// Law: the words of a redacted text are exactly the input's words, each
/// redacted, and none of them looks like a secret (a JWT, or a word starting
/// with `refresh` or `access`).
pub proof fn law_redaction_hides_secrets(value: Seq<char>)
    ensures
        words(redacted(value)) == redact_all(words(value)),
        forall|i: int|
            0 <= i < words(redacted(value)).len() ==> !secret_like(#[trigger] words(redacted(value))[i]),
{
    let ws0 = words(value);
    lemma_words_are_words(value);
    let red = redact_all(ws0);
    assert forall|i: int| 0 <= i < red.len() implies is_word(#[trigger] red[i]) && !secret_like(red[i]) by {
        lemma_redacted_word(ws0[i]);
    }
    lemma_words_join(red);
}

} // verus!
