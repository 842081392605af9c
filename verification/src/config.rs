//! The configuration file and the settings taken from the environment:
//! migrating an old file, checking a loaded one, what `rage init` writes,
//! where the age identity comes from, and how the Infisical project is found.

use vstd::prelude::*;

use crate::cache::{identity_line_of, opt_string, recipient_from_identity_text, IdentityError};
use crate::outside::{age_identity_parses, age_recipient_of, text_pairs};
use crate::remote::normalize_endpoint;
use crate::text::{blank, is_blank, owned, slash, strip_end, text_eq};
use crate::validate::{is_prefix_char, validate_secret_prefix, PrefixError};

verus! {

pub const DEFAULT_SECRET_PREFIX: &'static str = "rage";

pub const DEFAULT_INFISICAL_ENDPOINT: &'static str = "https://us.infisical.com";

pub const DEFAULT_INFISICAL_ENVIRONMENT: &'static str = "prod";

pub const CONFIG_FILE_NAME: &'static str = "config.toml";

pub fn default_infisical_environment() -> (r: String)
    ensures
        r@ == DEFAULT_INFISICAL_ENVIRONMENT@,
{
    owned(DEFAULT_INFISICAL_ENVIRONMENT)
}

pub fn default_infisical_endpoint() -> (r: String)
    ensures
        r@ == DEFAULT_INFISICAL_ENDPOINT@,
{
    owned(DEFAULT_INFISICAL_ENDPOINT)
}

pub fn default_secret_prefix() -> (r: String)
    ensures
        r@ == DEFAULT_SECRET_PREFIX@,
{
    owned(DEFAULT_SECRET_PREFIX)
}

/// Where the age identity that opens the cache is read from.
#[derive(Debug, Clone, Copy, PartialEq, Eq, Structural)]
pub enum IdentitySource {
    File,
    Keychain,
}

/// The configuration rage runs with.
#[derive(Debug, Clone)]
pub struct Config {
    pub infisical_project_id: String,
    pub infisical_environment: String,
    pub infisical_endpoint: String,
    pub age_recipient: String,
    pub age_identity: String,
    pub age_identity_source: IdentitySource,
    pub keychain_service: Option<String>,
    pub keychain_account: Option<String>,
    pub secret_prefix: String,
    pub cache_dir: String,
}

/// The configuration file as read, defaults filled in, before migration: an
/// older file may name a `gcp_project` and no Infisical project.
#[derive(Debug, Clone)]
pub struct RawConfig {
    pub infisical_project_id: Option<String>,
    pub gcp_project: Option<String>,
    pub infisical_environment: String,
    pub infisical_endpoint: String,
    pub age_recipient: String,
    pub age_identity: String,
    pub age_identity_source: IdentitySource,
    pub keychain_service: Option<String>,
    pub keychain_account: Option<String>,
    pub secret_prefix: String,
    pub cache_dir: String,
}

/// A setting that counts as given: present and not blank.
pub open spec fn given(o: Option<Seq<char>>) -> Option<Seq<char>> {
    match o {
        Some(v) => if is_blank(v) {
            None
        } else {
            Some(v)
        },
        None => None,
    }
}

/// A setting if it is present and not blank.
pub fn non_blank(o: Option<String>) -> (r: Option<String>)
    ensures
        opt_string(r) == given(opt_string(o)),
{
    match o {
        Some(v) => if blank(v.as_str()) {
            None
        } else {
            Some(v)
        },
        None => None,
    }
}

/// A setting read from the first of two variables that is set (even to
/// blank text), kept only if not blank.
pub fn env_choice(first: Option<String>, second: Option<String>) -> (r: Option<String>)
    ensures
        opt_string(r) == given(
            match opt_string(first) {
                Some(v) => Some(v),
                None => opt_string(second),
            },
        ),
{
    match first {
        Some(v) => non_blank(Some(v)),
        None => non_blank(second),
    }
}

/// A client setting: the first variable that is set, else the configured value.
pub fn setting_or(first: Option<String>, second: Option<String>, configured: &str) -> (r: String)
    ensures
        r@ == (match opt_string(first) {
            Some(v) => v,
            None => match opt_string(second) {
                Some(v) => v,
                None => configured@,
            },
        }),
{
    match first {
        Some(v) => v,
        None => match second {
            Some(v) => v,
            None => owned(configured),
        },
    }
}

/// The endpoint rage talks to: an override from the environment where one
/// is set, else the configured one; without trailing slashes.
pub fn endpoint_from(env_override: Option<String>, configured: &str) -> (r: String)
    ensures
        r@ == strip_end(
            match opt_string(env_override) {
                Some(v) => v,
                None => configured@,
            },
            slash(),
        ),
{
    match env_override {
        Some(v) => normalize_endpoint(v.as_str()),
        None => normalize_endpoint(configured),
    }
}

/// Whether a loaded file is written back in the current form: it names a
/// `gcp_project`, or no Infisical project.
pub fn config_needs_rewrite(raw: &RawConfig) -> (r: bool)
    ensures
        r == (raw.gcp_project is Some || given(opt_string(raw.infisical_project_id)) is None),
{
    let has_gcp = raw.gcp_project.is_some();
    let stored = match &raw.infisical_project_id {
        Some(v) => !blank(v.as_str()),
        None => false,
    };
    has_gcp || !stored
}

/// The Infisical project a file names, if it names one that is not blank.
pub fn stored_project_id(raw: &RawConfig) -> (r: Option<String>)
    ensures
        opt_string(r) == given(opt_string(raw.infisical_project_id)),
{
    match &raw.infisical_project_id {
        Some(v) => if blank(v.as_str()) {
            None
        } else {
            Some(owned(v.as_str()))
        },
        None => None,
    }
}

impl Config {
    /// The configuration a file gives: its project where it names one, else
    /// the project found otherwise (`inferred_project_id`); the endpoint as
    /// `endpoint_from` gives it; every other setting as the file has it.
    pub fn from_raw(raw: RawConfig, endpoint: String, inferred_project_id: String) -> (r: Config)
        ensures
            r.infisical_project_id@ == (match given(opt_string(raw.infisical_project_id)) {
                Some(v) => v,
                None => inferred_project_id@,
            }),
            r.infisical_environment == raw.infisical_environment,
            r.infisical_endpoint == endpoint,
            r.age_recipient == raw.age_recipient,
            r.age_identity == raw.age_identity,
            r.age_identity_source == raw.age_identity_source,
            r.keychain_service == raw.keychain_service,
            r.keychain_account == raw.keychain_account,
            r.secret_prefix == raw.secret_prefix,
            r.cache_dir == raw.cache_dir,
    {
        let project = match stored_project_id(&raw) {
            Some(v) => v,
            None => inferred_project_id,
        };
        Config {
            infisical_project_id: project,
            infisical_environment: raw.infisical_environment,
            infisical_endpoint: endpoint,
            age_recipient: raw.age_recipient,
            age_identity: raw.age_identity,
            age_identity_source: raw.age_identity_source,
            keychain_service: raw.keychain_service,
            keychain_account: raw.keychain_account,
            secret_prefix: raw.secret_prefix,
            cache_dir: raw.cache_dir,
        }
    }
}

/// Why a configuration was refused.
#[derive(Debug, Clone, Copy, PartialEq, Eq, Structural)]
pub enum ConfigError {
    NoProjectId,
    NoEnvironment,
    Prefix(PrefixError),
    NoKeychainService,
}

impl ConfigError {
    pub fn message(&self) -> (r: String)
        ensures
            r@ == (match *self {
                ConfigError::NoProjectId => "infisical_project_id is required in config"@,
                ConfigError::NoEnvironment => "infisical_environment is required in config"@,
                ConfigError::Prefix(PrefixError::Empty) => "secret prefix cannot be empty"@,
                ConfigError::Prefix(PrefixError::BadChar) => "secret prefix may contain only letters, numbers, hyphens, and underscores"@,
                ConfigError::NoKeychainService => "--keychain-service is required when --age-identity-source keychain is used"@,
            }),
    {
        match self {
            ConfigError::NoProjectId => "infisical_project_id is required in config".to_owned(),
            ConfigError::NoEnvironment => "infisical_environment is required in config".to_owned(),
            ConfigError::Prefix(e) => e.message(),
            ConfigError::NoKeychainService => "--keychain-service is required when --age-identity-source keychain is used".to_owned(),
        }
    }
}

pub open spec fn prefix_error(p: Seq<char>) -> Option<PrefixError> {
    if p.len() == 0 {
        Some(PrefixError::Empty)
    } else if exists|i: int| 0 <= i < p.len() && !is_prefix_char(#[trigger] p[i]) {
        Some(PrefixError::BadChar)
    } else {
        None
    }
}

/// A keychain identity needs a keychain service.
pub fn validate_identity_config(cfg: &Config) -> (r: Result<(), ConfigError>)
    ensures
        r == (if cfg.age_identity_source == IdentitySource::Keychain && cfg.keychain_service is None {
            Err::<(), ConfigError>(ConfigError::NoKeychainService)
        } else {
            Ok(())
        }),
{
    if cfg.age_identity_source == IdentitySource::Keychain && cfg.keychain_service.is_none() {
        return Err(ConfigError::NoKeychainService);
    }
    Ok(())
}

/// The checks a loaded configuration passes, in order: a project, an
/// environment, a valid secret prefix, a keychain service for a keychain
/// identity.
pub open spec fn config_check(cfg: Config) -> Result<(), ConfigError> {
    if is_blank(cfg.infisical_project_id@) {
        Err(ConfigError::NoProjectId)
    } else if is_blank(cfg.infisical_environment@) {
        Err(ConfigError::NoEnvironment)
    } else if prefix_error(cfg.secret_prefix@) is Some {
        Err(ConfigError::Prefix(prefix_error(cfg.secret_prefix@)->Some_0))
    } else if cfg.age_identity_source == IdentitySource::Keychain && cfg.keychain_service is None {
        Err(ConfigError::NoKeychainService)
    } else {
        Ok(())
    }
}

pub fn check_config(cfg: &Config) -> (r: Result<(), ConfigError>)
    ensures
        r == config_check(*cfg),
{
    if blank(cfg.infisical_project_id.as_str()) {
        return Err(ConfigError::NoProjectId);
    }
    if blank(cfg.infisical_environment.as_str()) {
        return Err(ConfigError::NoEnvironment);
    }
    match validate_secret_prefix(cfg.secret_prefix.as_str()) {
        Err(e) => {
            assert(prefix_error(cfg.secret_prefix@) == Some(e));
            return Err(ConfigError::Prefix(e));
        },
        Ok(()) => {
            assert(prefix_error(cfg.secret_prefix@) is None);
        },
    }
    validate_identity_config(cfg)
}

// ---------------------------------------------------------------- init

/// Why `rage init` found no recipient.
#[derive(Debug, Clone, Copy, PartialEq, Eq, Structural)]
pub enum InitError {
    Identity(IdentityError),
    RecipientMismatch,
    RecipientRequired,
}

/// The recipient `rage init` configures: for a file identity, the one its
/// identity file derives (an explicit recipient must equal it); for a
/// keychain identity, the explicit one, which is then required.
pub open spec fn init_recipient_spec(
    source: IdentitySource,
    identity_text: Seq<char>,
    explicit: Option<Seq<char>>,
) -> Result<Seq<char>, InitError> {
    match source {
        IdentitySource::File => match identity_line_of(identity_text) {
            None => Err(InitError::Identity(IdentityError::Empty)),
            Some(line) => if !age_identity_parses(line) {
                Err(InitError::Identity(IdentityError::Invalid))
            } else {
                match explicit {
                    Some(e) => if e != age_recipient_of(line) {
                        Err(InitError::RecipientMismatch)
                    } else {
                        Ok(age_recipient_of(line))
                    },
                    None => Ok(age_recipient_of(line)),
                }
            },
        },
        IdentitySource::Keychain => match explicit {
            Some(e) => Ok(e),
            None => Err(InitError::RecipientRequired),
        },
    }
}

/// Decides the recipient `rage init` writes; `identity_text` is the identity
/// file's text (unused for a keychain identity).
pub fn init_recipient(source: IdentitySource, identity_text: &str, explicit: Option<&str>) -> (r:
    Result<String, InitError>)
    ensures
        match r {
            Ok(s) => init_recipient_spec(source, identity_text@, crate::outside::opt_text(explicit))
                == Ok::<Seq<char>, InitError>(s@),
            Err(e) => init_recipient_spec(source, identity_text@, crate::outside::opt_text(explicit))
                == Err::<Seq<char>, InitError>(e),
        },
{
    match source {
        IdentitySource::File => {
            let derived = match recipient_from_identity_text(identity_text) {
                Ok(d) => d,
                Err(e) => return Err(InitError::Identity(e)),
            };
            match explicit {
                Some(e) => if !text_eq(e, derived.as_str()) {
                    Err(InitError::RecipientMismatch)
                } else {
                    Ok(derived)
                },
                None => Ok(derived),
            }
        },
        IdentitySource::Keychain => match explicit {
            Some(e) => Ok(owned(e)),
            None => Err(InitError::RecipientRequired),
        },
    }
}

// ---------------------------------------------------------------- keychain

/// Why the keychain was not asked for the identity.
#[derive(Debug, Clone, Copy, PartialEq, Eq, Structural)]
pub enum KeychainError {
    SshRefused,
    NoService,
}

impl KeychainError {
    pub fn message(&self) -> (r: String)
        ensures
            r@ == (match *self {
                KeychainError::SshRefused => "refusing to read macOS Keychain identity from an SSH session; pass --allow-ssh-keychain to opt in"@,
                KeychainError::NoService => "keychain_service is required for keychain identity source"@,
            }),
    {
        match self {
            KeychainError::SshRefused => "refusing to read macOS Keychain identity from an SSH session; pass --allow-ssh-keychain to opt in".to_owned(),
            KeychainError::NoService => "keychain_service is required for keychain identity source".to_owned(),
        }
    }
}

/// The keychain service and account that hold the identity. Over SSH the
/// keychain is read only when allowed explicitly; the account defaults to
/// the configured identity name.
pub fn keychain_lookup(cfg: &Config, in_ssh_session: bool, allow_ssh_keychain: bool) -> (r: Result<
    (String, String),
    KeychainError,
>)
    ensures
        in_ssh_session && !allow_ssh_keychain ==> r == Err::<(String, String), KeychainError>(
            KeychainError::SshRefused,
        ),
        !(in_ssh_session && !allow_ssh_keychain) && cfg.keychain_service is None ==> r == Err::<
            (String, String),
            KeychainError,
        >(KeychainError::NoService),
        r matches Ok((service, account)) ==> !(in_ssh_session && !allow_ssh_keychain)
            && opt_string(cfg.keychain_service) == Some(service@) && account@ == (match opt_string(
            cfg.keychain_account,
        ) {
            Some(a) => a,
            None => cfg.age_identity@,
        }),
        r is Err || cfg.keychain_service is Some,
{
    if in_ssh_session && !allow_ssh_keychain {
        return Err(KeychainError::SshRefused);
    }
    let service = match &cfg.keychain_service {
        Some(s) => owned(s.as_str()),
        None => return Err(KeychainError::NoService),
    };
    let account = match &cfg.keychain_account {
        Some(a) => owned(a.as_str()),
        None => owned(cfg.age_identity.as_str()),
    };
    Ok((service, account))
}

// ---------------------------------------------------------------- commands

/// Which bundles `rage sync` fetches.
#[derive(Debug, Clone)]
pub enum SyncPlan {
    /// Every bundle the remote lists.
    All,
    /// The bundles named.
    These(Vec<String>),
}

/// Why the bundles given to a command were refused.
#[derive(Debug, Clone, Copy, PartialEq, Eq, Structural)]
pub enum BundleArgsError {
    BothGiven,
    NoneGiven,
    NoBundle,
}

impl BundleArgsError {
    pub fn message(&self) -> (r: String)
        ensures
            r@ == (match *self {
                BundleArgsError::BothGiven => "pass either explicit bundles or --all, not both"@,
                BundleArgsError::NoneGiven => "pass one or more bundles, or use --all"@,
                BundleArgsError::NoBundle => "pass at least one bundle"@,
            }),
    {
        match self {
            BundleArgsError::BothGiven => "pass either explicit bundles or --all, not both".to_owned(),
            BundleArgsError::NoneGiven => "pass one or more bundles, or use --all".to_owned(),
            BundleArgsError::NoBundle => "pass at least one bundle".to_owned(),
        }
    }
}

/// `rage sync`: `--all` or explicit bundles, exactly one of the two.
pub fn resolve_sync_bundles(all: bool, bundles: Vec<String>) -> (r: Result<SyncPlan, BundleArgsError>)
    ensures
        all && bundles@.len() == 0 ==> r matches Ok(SyncPlan::All),
        !all && bundles@.len() > 0 ==> (r matches Ok(SyncPlan::These(v)) && v@ == bundles@),
        all && bundles@.len() > 0 ==> r == Err::<SyncPlan, BundleArgsError>(
            BundleArgsError::BothGiven,
        ),
        !all && bundles@.len() == 0 ==> r == Err::<SyncPlan, BundleArgsError>(
            BundleArgsError::NoneGiven,
        ),
{
    let empty = bundles.len() == 0;
    if all && empty {
        Ok(SyncPlan::All)
    } else if !all && !empty {
        Ok(SyncPlan::These(bundles))
    } else if all {
        Err(BundleArgsError::BothGiven)
    } else {
        Err(BundleArgsError::NoneGiven)
    }
}

/// Commands that load bundles need at least one.
pub fn check_load_bundles(bundles: &Vec<String>) -> (r: Result<(), BundleArgsError>)
    ensures
        r is Ok <==> bundles@.len() > 0,
        r is Err ==> r == Err::<(), BundleArgsError>(BundleArgsError::NoBundle),
{
    if bundles.len() == 0 {
        Err(BundleArgsError::NoBundle)
    } else {
        Ok(())
    }
}

// ---------------------------------------------------------------- Infisical project

/// The project fields of a service token's metadata.
#[derive(Debug, Clone)]
pub struct ServiceToken {
    pub project_id: Option<String>,
    pub workspace_id: Option<String>,
    pub workspace: Option<String>,
}

/// The token metadata: a nested `serviceToken` object where the answer has
/// one, else the fields at the top level.
pub fn pick_service_token(nested: Option<ServiceToken>, top: ServiceToken) -> (r: ServiceToken)
    ensures
        r == (match nested {
            Some(t) => t,
            None => top,
        }),
{
    match nested {
        Some(t) => t,
        None => top,
    }
}

impl ServiceToken {
    /// The project a token belongs to: its project id, else its workspace
    /// id, else its workspace, whichever is present first, if not blank.
    pub fn project(self) -> (r: Option<String>)
        ensures
            opt_string(r) == given(
                match opt_string(self.project_id) {
                    Some(v) => Some(v),
                    None => match opt_string(self.workspace_id) {
                        Some(v) => Some(v),
                        None => opt_string(self.workspace),
                    },
                },
            ),
    {
        let first = match self.project_id {
            Some(v) => Some(v),
            None => match self.workspace_id {
                Some(v) => Some(v),
                None => self.workspace,
            },
        };
        non_blank(first)
    }
}

/// A project as the project list shows it.
#[derive(Debug, Clone)]
pub struct ProjectEntry {
    pub id: String,
    pub slug: Option<String>,
}

/// Why no single project came out of the project list.
#[derive(Debug, Clone, Copy, PartialEq, Eq, Structural)]
pub enum ProjectError {
    SlugNotFound,
    Ambiguous,
}

/// The first project whose slug is `slug`.
pub open spec fn first_with_slug(ps: Seq<ProjectEntry>, slug: Seq<char>) -> Option<int>
    decreases ps.len(),
{
    if ps.len() == 0 {
        None
    } else if opt_string(ps[0].slug) == Some(slug) {
        Some(0)
    } else {
        match first_with_slug(ps.drop_first(), slug) {
            Some(i) => Some(i + 1),
            None => None,
        }
    }
}

/// The project the list settles on: with a slug, the first project that has
/// it; without one, the only project listed.
pub fn project_from_list(projects: Vec<ProjectEntry>, slug: Option<String>) -> (r: Result<
    String,
    ProjectError,
>)
    ensures
        match slug {
            Some(s) => match first_with_slug(projects@, s@) {
                Some(i) => r matches Ok(id) && id@ == projects@[i].id@,
                None => r == Err::<String, ProjectError>(ProjectError::SlugNotFound),
            },
            None => if projects@.len() == 1 {
                r matches Ok(id) && id@ == projects@[0].id@
            } else {
                r == Err::<String, ProjectError>(ProjectError::Ambiguous)
            },
        },
{
    match slug {
        Some(s) => {
            let n = projects.len();
            let mut i: usize = 0;
            assert(projects@.subrange(0, n as int) =~= projects@);
            while i < n
                invariant
                    n == projects@.len(),
                    i <= n,
                    slug matches Some(s0) && s0@ == s@,
                    first_with_slug(projects@, s@) == (match first_with_slug(
                        projects@.subrange(i as int, n as int),
                        s@,
                    ) {
                        Some(j) => Some(j + i),
                        None => None::<int>,
                    }),
                decreases n - i,
            {
                let ghost rest = projects@.subrange(i as int, n as int);
                proof {
                    assert(rest.drop_first() =~= projects@.subrange(i + 1, n as int));
                    assert(rest[0] == projects@[i as int]);
                }
                let hit = match &projects[i].slug {
                    Some(t) => text_eq(t.as_str(), s.as_str()),
                    None => false,
                };
                if hit {
                    assert(first_with_slug(rest, s@) == Some(0int));
                    assert(first_with_slug(projects@, s@) == Some(i as int));
                    let id = owned(projects[i].id.as_str());
                    assert(id@ == projects@[i as int].id@);
                    return Ok(id);
                }
                assert(first_with_slug(rest, s@) == (match first_with_slug(rest.drop_first(), s@) {
                    Some(j) => Some(j + 1),
                    None => None::<int>,
                }));
                i = i + 1;
            }
            proof {
                assert(projects@.subrange(n as int, n as int).len() == 0);
            }
            Err(ProjectError::SlugNotFound)
        },
        None => {
            if projects.len() == 1 {
                Ok(owned(projects[0].id.as_str()))
            } else {
                Err(ProjectError::Ambiguous)
            }
        },
    }
}

/// The JSON fields of a Universal Auth login, in the order they are
/// written: the client id and secret, then the organization slug where one
/// is set.
pub open spec fn login_fields(id: Seq<char>, secret: Seq<char>, slug: Option<Seq<char>>) -> Seq<(Seq<char>, Seq<char>)> {
    let base = seq![("clientId"@, id), ("clientSecret"@, secret)];
    match slug {
        Some(s) => base.push(("organizationSlug"@, s)),
        None => base,
    }
}

/// The body of a Universal Auth login, or `None` where the client id or the
/// client secret is missing (Infisical auth is then not configured).
pub fn universal_auth_fields(
    client_id: Option<String>,
    client_secret: Option<String>,
    organization_slug: Option<String>,
) -> (r: Option<Vec<(String, String)>>)
    ensures
        match (opt_string(client_id), opt_string(client_secret)) {
            (Some(id), Some(secret)) => r matches Some(f) && text_pairs(f@) == login_fields(
                id,
                secret,
                opt_string(organization_slug),
            ),
            _ => r is None,
        },
{
    let (id, secret) = match (client_id, client_secret) {
        (Some(id), Some(secret)) => (id, secret),
        _ => return None,
    };
    let mut fields: Vec<(String, String)> = Vec::new();
    fields.push(("clientId".to_owned(), id));
    fields.push(("clientSecret".to_owned(), secret));
    let ghost base = text_pairs(fields@);
    match organization_slug {
        Some(slug) => {
            fields.push(("organizationSlug".to_owned(), slug));
            assert(text_pairs(fields@) =~= base.push(("organizationSlug"@, fields@[2].1@)));
        },
        None => {},
    }
    Some(fields)
}

/// Whether a Universal Auth login answer carries a usable bearer token.
pub fn usable_bearer(token_type: &str, access_token: &str) -> (r: bool)
    ensures
        r == (token_type@ == "Bearer"@ && !is_blank(access_token@)),
{
    text_eq(token_type, "Bearer") && !blank(access_token)
}

/// The line `rage auth status` prints.
pub fn auth_status_line(token_available: bool) -> (r: &'static str)
    ensures
        r@ == (if token_available {
            "auth: infisical-token-env"@
        } else {
            "auth: not-configured"@
        }),
{
    if token_available {
        "auth: infisical-token-env"
    } else {
        "auth: not-configured"
    }
}

} // verus!
