//! What a settled profile is made of, and which profile is settled.

use crate::config;
use crate::config::{
    ConfigError, ConfigFile, ProfileConfig, Protocol, ResolveInputs, ResolvedProfile,
};
use crate::text;
use vstd::prelude::*;

verus! {

/// The profile that the command line names is the one that is settled: which one the
/// file names as its default changes nothing then.
pub proof fn named_profile_comes_before_the_default(
    c: ConfigFile,
    d: ConfigFile,
    cli: ResolveInputs,
    value: Option<Seq<char>>,
    r: Result<ResolvedProfile, ConfigError>,
)
    requires
        cli.profile is Some,
        c.profiles@ == d.profiles@,
        c.concurrency == d.concurrency,
    ensures
        config::asked_for(Some(&c), cli) == Some(cli.profile->0@),
        config::asked_for(None, cli) == Some(cli.profile->0@),
        config::wanted_variable(Some(&c), cli) == config::wanted_variable(Some(&d), cli),
        config::outcome(Some(&c), cli, value, r) == config::outcome(Some(&d), cli, value, r),
{
}

/// Without a profile on the command line, the default of the file is settled, as if
/// the command line had named it.
pub proof fn default_profile_stands_for_a_named_one(
    c: ConfigFile,
    cli: ResolveInputs,
    named: ResolveInputs,
    value: Option<Seq<char>>,
    r: Result<ResolvedProfile, ConfigError>,
)
    requires
        cli.profile is None,
        c.default_profile is Some,
        named == (ResolveInputs { profile: c.default_profile, ..cli }),
    ensures
        config::wanted_variable(Some(&c), cli) == config::wanted_variable(Some(&c), named),
        config::outcome(Some(&c), cli, value, r) == config::outcome(Some(&c), named, value, r),
{
}

/// The name of a profile: that of the command line, else the default of the file.
pub open spec fn named(c: ConfigFile, cli: ResolveInputs, name: Seq<char>) -> bool {
    ||| cli.profile matches Some(n) && n@ == name
    ||| cli.profile is None && (c.default_profile matches Some(n) && n@ == name)
}

/// A service is asked over HTTP, and wants a key.
pub open spec fn wants_key(p: ProfileConfig) -> bool {
    p.protocol == Protocol::OpenAi || p.protocol == Protocol::Gemini
}

/// The first of three numbers that is there, else four.
pub open spec fn at_once(a: Option<usize>, b: Option<usize>, c: Option<usize>) -> int {
    if a is Some {
        a->0 as int
    } else if b is Some {
        b->0 as int
    } else if c is Some {
        c->0 as int
    } else {
        4
    }
}

/// A settled profile has the protocol of the profile that is named, and of each of
/// the other things what the command line says, else what the profile says, else what
/// is built in. The key of a service is that of the command line, else the value of
/// the variable; a local program has none.
pub proof fn settled_profiles_keep_the_order(
    c: ConfigFile,
    cli: ResolveInputs,
    value: Option<Seq<char>>,
    r: Result<ResolvedProfile, ConfigError>,
    name: Seq<char>,
)
    requires
        config::outcome(Some(&c), cli, value, r),
        named(c, cli, name),
        r is Ok,
    ensures
        c.profiles@.dom().contains(name),
        ({
            let p = c.profiles@[name];
            let x = r->Ok_0;
            &&& x.protocol == p.protocol
            &&& cli.base_url matches Some(s) ==> x.endpoint@ == s@
            &&& cli.base_url is None && p.endpoint is Some ==> x.endpoint@ == p.endpoint->0@
            &&& cli.model matches Some(s) ==> x.model@ == s@
            &&& cli.model is None && p.model is Some ==> x.model@ == p.model->0@
            &&& cli.model is None && p.model is None && !wants_key(p) ==> x.model@ == ""@
            &&& cli.api_key matches Some(k) ==> x.api_key@ == k@
            &&& cli.api_key is None && wants_key(p) ==> value == Some(x.api_key@)
            &&& cli.api_key is None && !wants_key(p) ==> x.api_key@ == ""@
            &&& x.concurrency == at_once(cli.concurrency, p.concurrency, c.concurrency)
            &&& x.concurrency > 0
        }),
{
}

/// What is built in for each service, and for the local program of a known name.
pub proof fn services_have_addresses_and_models(
    c: ConfigFile,
    cli: ResolveInputs,
    value: Option<Seq<char>>,
    r: Result<ResolvedProfile, ConfigError>,
    name: Seq<char>,
)
    requires
        config::outcome(Some(&c), cli, value, r),
        named(c, cli, name),
        r is Ok,
        cli.base_url is None && c.profiles@[name].endpoint is None,
        cli.model is None && c.profiles@[name].model is None,
    ensures
        r->Ok_0.protocol == Protocol::OpenAi ==> r->Ok_0.endpoint@ == "https://api.openai.com/v1"@
            && r->Ok_0.model@ == "gpt-4o"@,
        r->Ok_0.protocol == Protocol::Gemini ==> r->Ok_0.endpoint@
            == "https://generativelanguage.googleapis.com"@ && r->Ok_0.model@
            == "gemini-3-flash-preview"@,
        r->Ok_0.protocol == Protocol::Codex ==> r->Ok_0.endpoint@ == "codex"@,
{
}

/// A profile is settled as soon as it is there, has the key that it wants, and lets
/// at least one translation run.
pub proof fn complete_profiles_are_settled(
    c: ConfigFile,
    cli: ResolveInputs,
    value: Option<Seq<char>>,
    r: Result<ResolvedProfile, ConfigError>,
    name: Seq<char>,
)
    requires
        config::outcome(Some(&c), cli, value, r),
        named(c, cli, name),
        c.profiles@.dom().contains(name),
        cli.api_key is Some || value is Some || !wants_key(c.profiles@[name]),
        at_once(cli.concurrency, c.profiles@[name].concurrency, c.concurrency) > 0,
    ensures
        r is Ok,
{
}

/// Why a profile is not settled: none is named; there is no file; it is not in the
/// file; its key is missing, and the message says which variable could hold it; or no
/// translation may run.
pub proof fn refusals_have_their_reasons(
    c: Option<&ConfigFile>,
    cli: ResolveInputs,
    value: Option<Seq<char>>,
    r: Result<ResolvedProfile, ConfigError>,
    name: Seq<char>,
)
    requires
        config::outcome(c, cli, value, r),
    ensures
        cli.profile is None && (c is None || c->0.default_profile is None) ==> r matches Err(
            ConfigError::NoProfile,
        ),
        c is None && cli.profile is Some ==> (r matches Err(ConfigError::NoConfig { name: n }) && n@
            == cli.profile->0@),
        c is Some && named(*c->0, cli, name) && !c->0.profiles@.dom().contains(name) ==> (
        r matches Err(ConfigError::NotFound { name: n, available }) && n@ == name
            && text::texts(available@).to_set() == c->0.profiles@.dom()),
        c is Some && named(*c->0, cli, name) && c->0.profiles@.dom().contains(name) ==> {
            let p = c->0.profiles@[name];
            let keyless = wants_key(p) && cli.api_key is None && value is None;
            &&& keyless ==> (r matches Err(ConfigError::MissingKey { variable }) && {
                &&& p.api_key_env matches Some(v) ==> variable@ == v@
                &&& p.api_key_env is None && p.protocol == Protocol::OpenAi ==> variable@
                    == "OPENAI_API_KEY"@
                &&& p.api_key_env is None && p.protocol == Protocol::Gemini ==> variable@
                    == "GEMINI_API_KEY"@
            })
            &&& !keyless && at_once(cli.concurrency, p.concurrency, c->0.concurrency) == 0 ==> (
            r matches Err(ConfigError::ZeroConcurrency))
        },
{
    if c is Some && named(*c->0, cli, name) && !c->0.profiles@.dom().contains(name) {
        if let Err(ConfigError::NotFound { name: n, available }) = r {
            assert(text::texts(available@).to_set() =~= c->0.profiles@.dom());
        }
    }
}

/// Only a service whose key is not on the command line has its key looked up: in the
/// variable that the profile names, else in the one of its protocol.
pub proof fn keys_of_services_are_looked_up(
    c: ConfigFile,
    cli: ResolveInputs,
    name: Seq<char>,
)
    requires
        named(c, cli, name),
        c.profiles@.dom().contains(name),
    ensures
        ({
            let p = c.profiles@[name];
            let v = config::wanted_variable(Some(&c), cli);
            &&& v is Some <==> wants_key(p) && cli.api_key is None
            &&& v is Some && p.api_key_env is Some ==> v->0 == p.api_key_env->0@
            &&& v is Some && p.api_key_env is None && p.protocol == Protocol::OpenAi ==> v->0
                == "OPENAI_API_KEY"@
            &&& v is Some && p.api_key_env is None && p.protocol == Protocol::Gemini ==> v->0
                == "GEMINI_API_KEY"@
        }),
{
}

/// Where no profile is found, no variable is looked up.
pub proof fn nothing_is_looked_up_without_a_profile(
    c: Option<&ConfigFile>,
    cli: ResolveInputs,
    name: Seq<char>,
)
    requires
        c is None || (cli.profile is None && c->0.default_profile is None) || (named(
            *c->0,
            cli,
            name,
        ) && !c->0.profiles@.dom().contains(name)),
    ensures
        config::wanted_variable(c, cli) is None,
{
}

/// The configuration file lies at the same place below every home directory, whether
/// or not a slash ends the directory's name.
pub proof fn configuration_lies_below_home(home: Seq<char>)
    requires
        home.len() > 0,
        home.last() != '/',
    ensures
        config::path_in(home) == home + "/.config/ratex/config.toml"@,
        config::path_in(home.push('/')) == config::path_in(home),
{
    reveal_strlit("/.config/ratex/config.toml");
    reveal_strlit(".config/ratex/config.toml");
    assert(config::path_in(home.push('/')) =~= config::path_in(home));
}

/// An error names what was asked for and not there.
pub proof fn errors_name_what_is_missing(e: ConfigError, hint: Seq<char>)
    ensures
        e is NoProfile ==> exists|a: Seq<char>, b: Seq<char>|
            config::error_text(e, hint) == #[trigger] (a + hint + b),
        e matches ConfigError::NoConfig { name } ==> exists|a: Seq<char>, b: Seq<char>|
            config::error_text(e, hint) == #[trigger] (a + name@ + b),
        e matches ConfigError::NotFound { name, available } ==> exists|
            a: Seq<char>,
            b: Seq<char>,
            c: Seq<char>,
        |
            config::error_text(e, hint) == #[trigger] (a + name@ + b + text::join(
                text::texts(available@),
                ", "@,
            ) + c),
        e matches ConfigError::MissingKey { variable } ==> exists|a: Seq<char>, b: Seq<char>|
            config::error_text(e, hint) == #[trigger] (a + variable@ + b),
{
    match e {
        ConfigError::NoProfile => {
            let a =
                "No profile selected. Pass --profile <name>, or set `default_profile = ...` in "@;
            assert(config::error_text(e, hint) == a + hint + "."@);
        },
        ConfigError::NoConfig { name } => {
            let b = "' requested but no config file at "@ + hint + "."@;
            assert(config::error_text(e, hint) =~= "Profile '"@ + name@ + b);
        },
        ConfigError::NotFound { name, available } => {
            let list = text::join(text::texts(available@), ", "@);
            assert(config::error_text(e, hint) == "Profile '"@ + name@
                + "' not found. Available: ["@ + list + "]"@);
        },
        ConfigError::MissingKey { variable } => {
            assert(config::error_text(e, hint) == "API key not provided. Use --api-key or set "@
                + variable@ + " environment variable."@);
        },
        ConfigError::ZeroConcurrency => {},
    }
}

} // verus!
