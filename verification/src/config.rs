//! Profiles: which model is asked, where, and with which key.

use crate::profiles::Profiles;
use crate::text;
use vstd::prelude::*;

verus! {

/// How a profile's endpoint is spoken to: over HTTP, or through a local program
/// with a login of its own.
///
/// Of the two local programs, `codex` is looked for under that name, and the other
/// one under the name that the configuration file gives to its protocol.
#[derive(Clone, Copy, Debug, PartialEq, Eq, Structural)]
pub enum Protocol {
    OpenAi,
    Gemini,
    Claude,
    Codex,
}

impl Protocol {
    /// The name of the protocol in configuration files. None where it is for the
    /// file to give.
    pub open spec fn name(self) -> Option<Seq<char>> {
        match self {
            Protocol::OpenAi => Some("openai"@),
            Protocol::Gemini => Some("gemini"@),
            Protocol::Claude => None,
            Protocol::Codex => Some("codex"@),
        }
    }

    /// A local program does the work.
    pub open spec fn local(self) -> bool {
        self == Protocol::Claude || self == Protocol::Codex
    }

    /// The name of the protocol in configuration files, unless it is for the file
    /// to give.
    pub fn as_str(self) -> (r: &'static str)
        requires
            self.name() is Some,
        ensures
            self.name() == Some(r@),
    {
        match self {
            Protocol::OpenAi => "openai",
            Protocol::Gemini => "gemini",
            Protocol::Claude => "",
            Protocol::Codex => "codex",
        }
    }

    /// Does a local program do the work?
    pub fn is_local(self) -> (r: bool)
        ensures
            r == self.local(),
    {
        match self {
            Protocol::OpenAi => false,
            Protocol::Gemini => false,
            Protocol::Claude => true,
            Protocol::Codex => true,
        }
    }
}

/// A name in a configuration file means one protocol.
pub proof fn names_tell_protocols_apart(p: Protocol, q: Protocol)
    requires
        p.name() is Some,
        p.name() == q.name(),
    ensures
        p == q,
{
    reveal_strlit("openai");
    reveal_strlit("gemini");
    reveal_strlit("codex");
    let name = p.name()->0;
    assert(name[0] == "openai"@[0] || name[0] == "gemini"@[0] || name[0] == "codex"@[0]);
}

/// How many translations run at once where nobody says otherwise.
pub const DEFAULT_CONCURRENCY: usize = 4;

/// What a configuration file holds.
#[derive(Debug)]
pub struct ConfigFile {
    pub default_profile: Option<String>,
    pub concurrency: Option<usize>,
    pub profiles: Profiles,
}

/// One profile of a configuration file.
#[derive(Clone, Debug)]
pub struct ProfileConfig {
    pub protocol: Protocol,
    pub endpoint: Option<String>,
    pub model: Option<String>,
    pub api_key_env: Option<String>,
    pub concurrency: Option<usize>,
}

/// A profile with every question settled.
#[derive(Debug)]
pub struct ResolvedProfile {
    pub protocol: Protocol,
    pub endpoint: String,
    pub model: String,
    pub api_key: String,
    pub concurrency: usize,
}

/// What the command line says.
#[derive(Debug)]
pub struct ResolveInputs {
    pub profile: Option<String>,
    pub model: Option<String>,
    pub base_url: Option<String>,
    pub api_key: Option<String>,
    pub concurrency: Option<usize>,
}

impl Default for ConfigFile {
    fn default() -> (r: Self)
        ensures
            r.default_profile is None,
            r.concurrency is None,
            r.profiles@ == Map::<Seq<char>, ProfileConfig>::empty(),
    {
        ConfigFile { default_profile: None, concurrency: None, profiles: Profiles::new() }
    }
}

impl Default for ResolveInputs {
    fn default() -> (r: Self)
        ensures
            r.profile is None,
            r.model is None,
            r.base_url is None,
            r.api_key is None,
            r.concurrency is None,
    {
        ResolveInputs { profile: None, model: None, base_url: None, api_key: None, concurrency: None }
    }
}

/// Why no profile could be settled.
#[derive(Debug)]
pub enum ConfigError {
    NoProfile,
    NoConfig { name: String },
    NotFound { name: String, available: Vec<String> },
    MissingKey { variable: String },
    ZeroConcurrency,
}

// ---------------------------------------------------------------- defaults

/// The endpoint of a protocol: an address, or a program to look for. None where
/// the program has its name from the configuration file.
pub open spec fn endpoint_of(p: Protocol) -> Option<Seq<char>> {
    match p {
        Protocol::OpenAi => Some("https://api.openai.com/v1"@),
        Protocol::Gemini => Some("https://generativelanguage.googleapis.com"@),
        Protocol::Claude => None,
        Protocol::Codex => Some("codex"@),
    }
}

/// The model of a protocol. A local program has a default of its own.
pub open spec fn model_of(p: Protocol) -> Seq<char> {
    match p {
        Protocol::OpenAi => "gpt-4o"@,
        Protocol::Gemini => "gemini-3-flash-preview"@,
        Protocol::Claude => ""@,
        Protocol::Codex => ""@,
    }
}

/// The environment variable that holds the key of a protocol. A local program
/// needs none.
pub open spec fn variable_of(p: Protocol) -> Option<Seq<char>> {
    match p {
        Protocol::OpenAi => Some("OPENAI_API_KEY"@),
        Protocol::Gemini => Some("GEMINI_API_KEY"@),
        Protocol::Claude => None,
        Protocol::Codex => None,
    }
}

fn default_endpoint(p: Protocol) -> (r: &'static str)
    requires
        endpoint_of(p) is Some,
    ensures
        endpoint_of(p) == Some(r@),
{
    match p {
        Protocol::OpenAi => "https://api.openai.com/v1",
        Protocol::Gemini => "https://generativelanguage.googleapis.com",
        Protocol::Claude => "",
        Protocol::Codex => "codex",
    }
}

fn default_model(p: Protocol) -> (r: &'static str)
    ensures
        r@ == model_of(p),
{
    match p {
        Protocol::OpenAi => "gpt-4o",
        Protocol::Gemini => "gemini-3-flash-preview",
        Protocol::Claude => "",
        Protocol::Codex => "",
    }
}

fn default_api_key_env(p: Protocol) -> (r: Option<&'static str>)
    ensures
        match r {
            Some(s) => variable_of(p) == Some(s@),
            None => variable_of(p) is None,
        },
{
    match p {
        Protocol::OpenAi => Some("OPENAI_API_KEY"),
        Protocol::Gemini => Some("GEMINI_API_KEY"),
        Protocol::Claude => None,
        Protocol::Codex => None,
    }
}

// ---------------------------------------------------------------- resolution

/// The profile that is asked for: on the command line, else in the file.
pub open spec fn asked_for(config: Option<&ConfigFile>, cli: ResolveInputs) -> Option<Seq<char>> {
    match cli.profile {
        Some(name) => Some(name@),
        None => match config {
            Some(c) => text::optional(c.default_profile),
            None => None,
        },
    }
}

/// The profile that is asked for and there.
pub open spec fn selected(config: Option<&ConfigFile>, cli: ResolveInputs) -> Option<
    ProfileConfig,
> {
    match (asked_for(config, cli), config) {
        (Some(name), Some(c)) => if c.profiles@.dom().contains(name) {
            Some(c.profiles@[name])
        } else {
            None
        },
        _ => None,
    }
}

/// The environment variable to look the key up in, where one is needed.
pub open spec fn variable(p: ProfileConfig, cli: ResolveInputs) -> Option<Seq<char>> {
    if cli.api_key is Some || p.protocol.local() {
        None
    } else {
        match p.api_key_env {
            Some(v) => Some(v@),
            None => variable_of(p.protocol),
        }
    }
}

/// The key: that of the command line, else the value of the variable. A local
/// program has its own login.
pub open spec fn key(p: ProfileConfig, cli: ResolveInputs, value: Option<Seq<char>>) -> Option<
    Seq<char>,
> {
    match cli.api_key {
        Some(k) => Some(k@),
        None => if p.protocol.local() {
            Some(""@)
        } else {
            value
        },
    }
}

/// The endpoint: of the command line, else of the profile, else of the protocol.
pub open spec fn endpoint(p: ProfileConfig, cli: ResolveInputs) -> Option<Seq<char>> {
    match (cli.base_url, p.endpoint) {
        (Some(s), _) => Some(s@),
        (None, Some(s)) => Some(s@),
        (None, None) => endpoint_of(p.protocol),
    }
}

/// The model: of the command line, else of the profile, else of the protocol.
pub open spec fn model(p: ProfileConfig, cli: ResolveInputs) -> Seq<char> {
    match (cli.model, p.model) {
        (Some(s), _) => s@,
        (None, Some(s)) => s@,
        (None, None) => model_of(p.protocol),
    }
}

/// How many run at once: of the command line, else of the profile, else of the
/// file, else the default.
pub open spec fn concurrency(p: ProfileConfig, c: ConfigFile, cli: ResolveInputs) -> usize {
    match (cli.concurrency, p.concurrency, c.concurrency) {
        (Some(n), _, _) => n,
        (None, Some(n), _) => n,
        (None, None, Some(n)) => n,
        (None, None, None) => DEFAULT_CONCURRENCY,
    }
}

/// What settling a profile gives, when the variable that is looked up has this
/// value.
pub open spec fn outcome(
    config: Option<&ConfigFile>,
    cli: ResolveInputs,
    value: Option<Seq<char>>,
    r: Result<ResolvedProfile, ConfigError>,
) -> bool {
    match (asked_for(config, cli), config) {
        (None, _) => r matches Err(ConfigError::NoProfile),
        (Some(name), None) => r matches Err(ConfigError::NoConfig { name: n }) && n@ == name,
        (Some(name), Some(c)) => match selected(config, cli) {
            None => {
                &&& r matches Err(ConfigError::NotFound { name: n, available })
                &&& n@ == name
                &&& text::sorted(text::texts(available@))
                &&& text::texts(available@).no_duplicates()
                &&& forall|n: Seq<char>| #[trigger]
                    text::texts(available@).contains(n) <==> c.profiles@.dom().contains(n)
            },
            Some(p) => match key(p, cli, value) {
                None => r matches Err(ConfigError::MissingKey { variable: v }) && Some(v@)
                    == variable(p, cli),
                Some(k) => if concurrency(p, *c, cli) == 0 {
                    r matches Err(ConfigError::ZeroConcurrency)
                } else {
                    &&& r matches Ok(x)
                    &&& x.protocol == p.protocol
                    &&& endpoint(p, cli) == Some(x.endpoint@)
                    &&& x.model@ == model(p, cli)
                    &&& x.api_key@ == k
                    &&& x.concurrency == concurrency(p, *c, cli)
                },
            },
        },
    }
}

/// The environment variable that has to be looked up to settle a profile.
pub open spec fn wanted_variable(config: Option<&ConfigFile>, cli: ResolveInputs) -> Option<
    Seq<char>,
> {
    match selected(config, cli) {
        Some(p) => variable(p, cli),
        None => None,
    }
}

/// The profile that is asked for.
fn asked_name(config: Option<&ConfigFile>, cli: &ResolveInputs) -> (r: Option<String>)
    ensures
        text::optional(r) == asked_for(config, *cli),
{
    match &cli.profile {
        Some(name) => Some(name.clone()),
        None => match config {
            Some(c) => match &c.default_profile {
                Some(name) => Some(name.clone()),
                None => None,
            },
            None => None,
        },
    }
}

/// The environment variable that has to be looked up to settle a profile. None
/// where no lookup is needed, or none would help.
pub fn key_variable(config: Option<&ConfigFile>, cli: &ResolveInputs) -> (r: Option<String>)
    ensures
        text::optional(r) == wanted_variable(config, *cli),
{
    match (asked_name(config, cli), config) {
        (Some(name), Some(c)) => match c.profiles.get(name.as_str()) {
            Some(p) => {
                if cli.api_key.is_some() || p.protocol.is_local() {
                    return None;
                }
                match &p.api_key_env {
                    Some(v) => Some(v.clone()),
                    None => match default_api_key_env(p.protocol) {
                        Some(v) => Some(v.to_owned()),
                        None => None,
                    },
                }
            },
            None => None,
        },
        _ => None,
    }
}

/// The first of three that is there.
fn first_of(a: Option<String>, b: &Option<String>, c: &str) -> (r: String)
    ensures
        r@ == (match (a, *b) {
            (Some(s), _) => s@,
            (None, Some(s)) => s@,
            (None, None) => c@,
        }),
{
    match a {
        Some(s) => s,
        None => match b {
            Some(s) => s.clone(),
            None => c.to_owned(),
        },
    }
}

/// Settles a profile from the configuration file and the command line. `value`
/// is that of the variable that [`key_variable`] names.
pub fn resolve_with_value(
    config: Option<&ConfigFile>,
    cli: ResolveInputs,
    value: Option<String>,
) -> (r: Result<ResolvedProfile, ConfigError>)
    ensures
        outcome(config, cli, text::optional(value), r),
{
    let name = match asked_name(config, &cli) {
        Some(name) => name,
        None => {
            return Err(ConfigError::NoProfile);
        },
    };
    let cfg = match config {
        Some(c) => c,
        None => {
            return Err(ConfigError::NoConfig { name });
        },
    };
    let p = match cfg.profiles.get(name.as_str()) {
        Some(p) => p,
        None => {
            let available = cfg.profiles.names();
            return Err(ConfigError::NotFound { name, available });
        },
    };
    let wanted = key_variable(config, &cli);
    let ResolveInputs { profile: _, model: cli_model, base_url, api_key: cli_key, concurrency: n } =
        cli;
    let api_key = match cli_key {
        Some(k) => k,
        None => if p.protocol.is_local() {
            "".to_owned()
        } else {
            match value {
                Some(k) => k,
                None => {
                    return Err(
                        ConfigError::MissingKey {
                            variable: match wanted {
                                Some(v) => v,
                                None => "".to_owned(),
                            },
                        },
                    );
                },
            }
        },
    };
    let concurrency: usize = match n {
        Some(n) => n,
        None => match p.concurrency {
            Some(n) => n,
            None => match cfg.concurrency {
                Some(n) => n,
                None => DEFAULT_CONCURRENCY,
            },
        },
    };
    if concurrency == 0 {
        return Err(ConfigError::ZeroConcurrency);
    }
    let endpoint = match (base_url, &p.endpoint) {
        (Some(s), _) => s,
        (None, Some(s)) => s.clone(),
        (None, None) => default_endpoint(p.protocol).to_owned(),
    };
    Ok(
        ResolvedProfile {
            protocol: p.protocol,
            endpoint,
            model: first_of(cli_model, &p.model, default_model(p.protocol)),
            api_key,
            concurrency,
        },
    )
}

/// Settles a profile from the configuration file, the command line, and the
/// environment, which is asked for no variable but the one that [`key_variable`]
/// names, and for none where it names none. The command line comes before the profile, and the profile before what is built in.
pub fn resolve_with_env<F>(config: Option<&ConfigFile>, cli: ResolveInputs, env: F) -> (r: Result<
    ResolvedProfile,
    ConfigError,
>) where F: Fn(&str) -> Option<String>
    requires
        forall|name: &str|
            wanted_variable(config, cli) == Some(name@) ==> #[trigger] call_requires(env, (name,)),
    ensures
        match wanted_variable(config, cli) {
            None => outcome(config, cli, None, r),
            Some(v) => exists|name: &str, value: Option<String>|
                name@ == v && #[trigger] call_ensures(env, (name,), value) && outcome(
                    config,
                    cli,
                    text::optional(value),
                    r,
                ),
        },
{
    match key_variable(config, &cli) {
        Some(v) => {
            let name = v.as_str();
            let value = env(name);
            assert(call_ensures(env, (name,), value));
            resolve_with_value(config, cli, value)
        },
        None => resolve_with_value(config, cli, None),
    }
}

/// A profile has an endpoint: its own, or that of its protocol.
pub open spec fn has_endpoint(p: ProfileConfig) -> bool {
    p.endpoint is Some || endpoint_of(p.protocol) is Some
}

/// `r` is the profile `p` with `name`, which the file gives to the protocol, for the
/// program to look for, where neither the profile nor the protocol has an endpoint.
pub open spec fn program_named(p: ProfileConfig, name: Seq<char>, r: ProfileConfig) -> bool {
    &&& r.protocol == p.protocol
    &&& r.model == p.model
    &&& r.api_key_env == p.api_key_env
    &&& r.concurrency == p.concurrency
    &&& if has_endpoint(p) {
        r.endpoint == p.endpoint
    } else {
        r.endpoint matches Some(e) && e@ == name
    }
}

impl ProfileConfig {
    /// Makes the name of the protocol, as the configuration file has it, the program
    /// to look for, where neither the profile nor the protocol has an endpoint.
    pub fn with_program(self, name: &str) -> (r: Self)
        ensures
            program_named(self, name@, r),
            has_endpoint(r),
    {
        let mut r = self;
        if r.endpoint.is_none() && r.protocol == Protocol::Claude {
            r.endpoint = Some(name.to_owned());
        }
        r
    }
}

/// A profile whose protocol's name was taken from the file has an endpoint,
/// whatever the command line says: the one of the command line, else its own, else
/// that of its protocol, else the program that the protocol's name gives.
pub proof fn named_profiles_have_endpoints(
    p: ProfileConfig,
    name: Seq<char>,
    r: ProfileConfig,
    cli: ResolveInputs,
)
    requires
        program_named(p, name, r),
    ensures
        endpoint(r, cli) == Some(
            match (cli.base_url, p.endpoint) {
                (Some(s), _) => s@,
                (None, Some(s)) => s@,
                (None, None) => match endpoint_of(p.protocol) {
                    Some(e) => e,
                    None => name,
                },
            },
        ),
{
}

/// A local program whose protocol's name was taken from the file is looked for
/// under that name, where nobody names another: for `codex`, under its own.
pub proof fn local_programs_go_by_their_names(
    p: ProfileConfig,
    name: Seq<char>,
    r: ProfileConfig,
    cli: ResolveInputs,
)
    requires
        program_named(p, name, r),
        p.protocol.local(),
        p.protocol.name() matches Some(n) ==> n == name,
        p.endpoint is None,
        cli.base_url is None,
    ensures
        endpoint(r, cli) == Some(name),
{
}

/// What the command line says comes before what the profile says.
pub proof fn command_line_comes_first(p: ProfileConfig, c: ConfigFile, cli: ResolveInputs)
    ensures
        cli.model matches Some(s) ==> model(p, cli) == s@,
        cli.base_url matches Some(s) ==> endpoint(p, cli) == Some(s@),
        cli.concurrency matches Some(n) ==> concurrency(p, c, cli) == n,
        cli.api_key matches Some(k) ==> variable(p, cli) is None && forall|v: Option<Seq<char>>|
            key(p, cli, v) == Some(k@),
{
}

/// What the profile says comes before what is built in.
pub proof fn profile_comes_second(p: ProfileConfig, c: ConfigFile, cli: ResolveInputs)
    ensures
        cli.model is None ==> (p.model matches Some(s) ==> model(p, cli) == s@),
        cli.base_url is None ==> (p.endpoint matches Some(s) ==> endpoint(p, cli) == Some(
            s@,
        )),
        cli.concurrency is None ==> (p.concurrency matches Some(n) ==> concurrency(p, c, cli)
            == n),
        cli.api_key is None && !p.protocol.local() ==> (p.api_key_env matches Some(v)
            ==> variable(p, cli) == Some(v@)),
{
}

/// A local program needs no key: no variable is looked up for it, and whatever
/// the environment holds does not matter.
pub proof fn local_programs_need_no_key(p: ProfileConfig, cli: ResolveInputs)
    requires
        p.protocol.local(),
    ensures
        variable(p, cli) is None,
        forall|a: Option<Seq<char>>, b: Option<Seq<char>>|
            #![trigger key(p, cli, a), key(p, cli, b)]
            key(p, cli, a) is Some && key(p, cli, a) == key(p, cli, b),
{
}

// ---------------------------------------------------------------- words

/// The error in words, where `hint` says where the configuration file is.
pub open spec fn error_text(e: ConfigError, hint: Seq<char>) -> Seq<char> {
    match e {
        ConfigError::NoProfile =>
            "No profile selected. Pass --profile <name>, or set `default_profile = ...` in "@ + hint
            + "."@,
        ConfigError::NoConfig { name } => "Profile '"@ + name@
            + "' requested but no config file at "@ + hint + "."@,
        ConfigError::NotFound { name, available } => "Profile '"@ + name@
            + "' not found. Available: ["@ + text::join(text::texts(available@), ", "@) + "]"@,
        ConfigError::MissingKey { variable } =>
            "API key not provided. Use --api-key or set "@ + variable@ + " environment variable."@,
        ConfigError::ZeroConcurrency => "concurrency must be >= 1"@,
    }
}

impl ConfigError {
    /// The error in words, where `hint` says where the configuration file is.
    pub fn message(&self, hint: &str) -> (r: String)
        ensures
            r@ == error_text(*self, hint@),
    {
        match self {
            ConfigError::NoProfile => {
                let mut r =
                    "No profile selected. Pass --profile <name>, or set `default_profile = ...` in ".to_owned();
                r.append(hint);
                r.append(".");
                r
            },
            ConfigError::NoConfig { name } => {
                let mut r = "Profile '".to_owned();
                r.append(name.as_str());
                r.append("' requested but no config file at ");
                r.append(hint);
                r.append(".");
                r
            },
            ConfigError::NotFound { name, available } => {
                let mut r = "Profile '".to_owned();
                r.append(name.as_str());
                r.append("' not found. Available: [");
                r.append(text::joined(available, ", ").as_str());
                r.append("]");
                r
            },
            ConfigError::MissingKey { variable } => {
                let mut r = "API key not provided. Use --api-key or set ".to_owned();
                r.append(variable.as_str());
                r.append(" environment variable.");
                r
            },
            ConfigError::ZeroConcurrency => "concurrency must be >= 1".to_owned(),
        }
    }
}

// ---------------------------------------------------------------- the file

/// The place of the configuration file below a home directory.
pub open spec fn path_in(home: Seq<char>) -> Seq<char> {
    if home.len() == 0 || home.last() == '/' {
        home + ".config/ratex/config.toml"@
    } else {
        home + "/.config/ratex/config.toml"@
    }
}

/// The home directory is not known.
#[derive(Clone, Copy, Debug, PartialEq, Eq, Structural)]
pub struct NoHome;

impl NoHome {
    /// The error in words.
    pub fn message(self) -> (r: &'static str)
        ensures
            r@ == "HOME environment variable not set"@,
    {
        "HOME environment variable not set"
    }
}

/// Where the configuration file is, on every platform, given the value of `HOME`.
pub fn default_config_path(home: &Option<String>) -> (r: Result<String, NoHome>)
    ensures
        match r {
            Ok(path) => home matches Some(h) && path@ == path_in(h@),
            Err(_) => home is None,
        },
{
    match home {
        Some(h) => {
            let cs = text::chars_of(h.as_str());
            let mut r = h.clone();
            if cs.len() == 0 || cs[cs.len() - 1] == '/' {
                r.append(".config/ratex/config.toml");
            } else {
                r.append("/.config/ratex/config.toml");
            }
            Ok(r)
        },
        None => Err(NoHome),
    }
}

/// Where the configuration file is, for use in messages.
pub fn config_path_hint(home: &Option<String>) -> (r: String)
    ensures
        r@ == (match *home {
            Some(h) => path_in(h@),
            None => "~/.config/ratex/config.toml"@,
        }),
{
    match default_config_path(home) {
        Ok(path) => path,
        Err(_) => "~/.config/ratex/config.toml".to_owned(),
    }
}

} // verus!
