//! Settling a profile.

use ratex::config::{
    config_path_hint, default_config_path, key_variable, resolve_with_env, resolve_with_value,
    ConfigError, ConfigFile, ProfileConfig, Protocol, ResolveInputs, DEFAULT_CONCURRENCY,
};
use ratex::profiles::Profiles;
use std::collections::HashMap;

const HINT: &str = "/home/me/.config/ratex/config.toml";

fn env_map(pairs: &[(&str, &str)]) -> HashMap<String, String> {
    pairs
        .iter()
        .map(|(k, v)| ((*k).to_string(), (*v).to_string()))
        .collect()
}

fn cfg(default: Option<&str>, profiles: Vec<(&str, ProfileConfig)>) -> ConfigFile {
    let mut named = Profiles::new();
    for (name, profile) in profiles {
        named.insert(name.to_string(), "its-name", profile);
    }
    ConfigFile {
        default_profile: default.map(String::from),
        concurrency: None,
        profiles: named,
    }
}

fn profile(
    protocol: Protocol,
    endpoint: Option<&str>,
    model: Option<&str>,
    api_key_env: Option<&str>,
) -> ProfileConfig {
    ProfileConfig {
        protocol,
        endpoint: endpoint.map(String::from),
        model: model.map(String::from),
        api_key_env: api_key_env.map(String::from),
        concurrency: None,
    }
}

fn pick(profile: &str) -> ResolveInputs {
    ResolveInputs {
        profile: Some(profile.into()),
        ..Default::default()
    }
}

#[test]
fn default_profile_of_the_file_is_used() {
    let c = cfg(
        Some("router"),
        vec![(
            "router",
            profile(
                Protocol::OpenAi,
                Some("https://openrouter.ai/api/v1"),
                Some("vendor/large-model"),
                Some("OPENROUTER_API_KEY"),
            ),
        )],
    );
    let env = env_map(&[("OPENROUTER_API_KEY", "sk-or")]);
    let r =
        resolve_with_env(Some(&c), ResolveInputs::default(), |k| env.get(k).cloned()).unwrap();
    assert_eq!(r.protocol, Protocol::OpenAi);
    assert_eq!(r.endpoint, "https://openrouter.ai/api/v1");
    assert_eq!(r.model, "vendor/large-model");
    assert_eq!(r.api_key, "sk-or");
}

#[test]
fn profile_falls_back_to_protocol_defaults() {
    let c = cfg(
        None,
        vec![("p", profile(Protocol::OpenAi, None, None, None))],
    );
    let env = env_map(&[("OPENAI_API_KEY", "fallback")]);
    let r = resolve_with_env(Some(&c), pick("p"), |k| env.get(k).cloned()).unwrap();
    assert_eq!(r.endpoint, "https://api.openai.com/v1");
    assert_eq!(r.model, "gpt-4o");
    assert_eq!(r.api_key, "fallback");
}

#[test]
fn cli_model_and_base_url_override_profile() {
    let c = cfg(
        None,
        vec![(
            "p",
            profile(
                Protocol::OpenAi,
                Some("https://profile-endpoint"),
                Some("profile-model"),
                None,
            ),
        )],
    );
    let env = env_map(&[("OPENAI_API_KEY", "k")]);
    let r = resolve_with_env(
        Some(&c),
        ResolveInputs {
            profile: Some("p".into()),
            model: Some("cli-model".into()),
            base_url: Some("https://cli-endpoint".into()),
            ..Default::default()
        },
        |k| env.get(k).cloned(),
    )
    .unwrap();
    assert_eq!(r.model, "cli-model");
    assert_eq!(r.endpoint, "https://cli-endpoint");
}

#[test]
fn cli_api_key_beats_profile_env_and_default_env() {
    let c = cfg(
        Some("p"),
        vec![("p", profile(Protocol::Gemini, None, None, None))],
    );
    let env = env_map(&[("GEMINI_API_KEY", "from-env")]);
    let r = resolve_with_env(
        Some(&c),
        ResolveInputs {
            api_key: Some("from-cli".into()),
            ..Default::default()
        },
        |k| env.get(k).cloned(),
    )
    .unwrap();
    assert_eq!(r.api_key, "from-cli");
}

#[test]
fn profile_api_key_env_beats_protocol_default_env() {
    let c = cfg(
        None,
        vec![(
            "p",
            profile(Protocol::OpenAi, None, None, Some("CUSTOM_KEY")),
        )],
    );
    let env = env_map(&[("CUSTOM_KEY", "custom"), ("OPENAI_API_KEY", "default")]);
    let r = resolve_with_env(Some(&c), pick("p"), |k| env.get(k).cloned()).unwrap();
    assert_eq!(r.api_key, "custom");
}

#[test]
fn no_profile_and_no_default_errs() {
    let c = cfg(None, vec![]);
    let err = resolve_with_env(Some(&c), ResolveInputs::default(), |_| None)
        .unwrap_err()
        .message(HINT);
    assert!(err.contains("No profile selected"), "got: {err}");
}

#[test]
fn profile_without_config_errs() {
    let err = resolve_with_env(None, pick("x"), |_| None)
        .unwrap_err()
        .message(HINT);
    assert!(err.contains("no config file"), "got: {err}");
}

#[test]
fn profile_not_found_lists_available_sorted() {
    let c = cfg(
        None,
        vec![
            ("zeta", profile(Protocol::OpenAi, None, None, None)),
            ("alpha", profile(Protocol::Gemini, None, None, None)),
        ],
    );
    let err = resolve_with_env(Some(&c), pick("missing"), |_| None)
        .unwrap_err()
        .message(HINT);
    assert!(err.contains("Profile 'missing' not found"), "got: {err}");
    assert!(err.contains("alpha, zeta"), "got: {err}");
}

#[test]
fn concurrency_resolution_cli_beats_profile_beats_global() {
    let mut c = cfg(
        None,
        vec![(
            "p",
            ProfileConfig {
                protocol: Protocol::OpenAi,
                endpoint: None,
                model: None,
                api_key_env: None,
                concurrency: Some(6),
            },
        )],
    );
    c.concurrency = Some(2);
    let env = env_map(&[("OPENAI_API_KEY", "k")]);

    let r = resolve_with_env(Some(&c), pick("p"), |k| env.get(k).cloned()).unwrap();
    assert_eq!(r.concurrency, 6);

    let r = resolve_with_env(
        Some(&c),
        ResolveInputs {
            profile: Some("p".into()),
            concurrency: Some(10),
            ..Default::default()
        },
        |k| env.get(k).cloned(),
    )
    .unwrap();
    assert_eq!(r.concurrency, 10);
}

#[test]
fn concurrency_falls_back_to_built_in_default() {
    let c = cfg(
        Some("p"),
        vec![("p", profile(Protocol::Gemini, None, None, None))],
    );
    let env = env_map(&[("GEMINI_API_KEY", "k")]);
    let r =
        resolve_with_env(Some(&c), ResolveInputs::default(), |k| env.get(k).cloned()).unwrap();
    assert_eq!(r.concurrency, DEFAULT_CONCURRENCY);
}

#[test]
fn concurrency_zero_is_rejected() {
    let c = cfg(
        Some("p"),
        vec![("p", profile(Protocol::Gemini, None, None, None))],
    );
    let env = env_map(&[("GEMINI_API_KEY", "k")]);
    let err = resolve_with_env(
        Some(&c),
        ResolveInputs {
            concurrency: Some(0),
            ..Default::default()
        },
        |k| env.get(k).cloned(),
    )
    .unwrap_err()
    .message(HINT);
    assert!(err.contains("concurrency"), "got: {err}");
}

#[test]
fn missing_api_key_error_names_the_env_var() {
    let c = cfg(
        Some("p"),
        vec![("p", profile(Protocol::Gemini, None, None, None))],
    );
    let err = resolve_with_env(Some(&c), ResolveInputs::default(), |_| None)
        .unwrap_err()
        .message(HINT);
    assert!(err.contains("GEMINI_API_KEY"), "got: {err}");
}

#[test]
fn protocols_have_names() {
    assert_eq!(Protocol::OpenAi.as_str(), "openai");
    assert_eq!(Protocol::Gemini.as_str(), "gemini");
    assert_eq!(Protocol::Codex.as_str(), "codex");
}

#[test]
fn local_programs_need_no_key() {
    for (protocol, bin) in [(Protocol::Claude, "its-name"), (Protocol::Codex, "codex")] {
        let c = cfg(Some("p"), vec![("p", profile(protocol, None, None, Some("SOME_KEY")))]);
        let r = resolve_with_env(Some(&c), ResolveInputs::default(), |k| {
            panic!("asked for {k}")
        })
        .unwrap();
        assert_eq!(r.endpoint, bin);
        assert_eq!(r.model, "");
        assert_eq!(r.api_key, "");
        assert_eq!(r.concurrency, 4);
    }
}

#[test]
fn gemini_has_its_own_defaults() {
    let c = cfg(Some("p"), vec![("p", profile(Protocol::Gemini, None, None, None))]);
    let r = resolve_with_env(Some(&c), ResolveInputs::default(), |_| Some("k".into())).unwrap();
    assert_eq!(r.endpoint, "https://generativelanguage.googleapis.com");
    assert_eq!(r.model, "gemini-3-flash-preview");
    assert_eq!(r.protocol, Protocol::Gemini);
}

#[test]
fn variable_to_look_up_is_named() {
    let c = cfg(
        None,
        vec![
            ("a", profile(Protocol::OpenAi, None, None, None)),
            ("b", profile(Protocol::Gemini, None, None, Some("MINE"))),
            ("c", profile(Protocol::Codex, None, None, None)),
        ],
    );
    assert_eq!(key_variable(Some(&c), &pick("a")).unwrap(), "OPENAI_API_KEY");
    assert_eq!(key_variable(Some(&c), &pick("b")).unwrap(), "MINE");
    assert!(key_variable(Some(&c), &pick("c")).is_none());
    assert!(key_variable(Some(&c), &pick("d")).is_none());
    assert!(key_variable(None, &pick("a")).is_none());
    let with_key = ResolveInputs {
        profile: Some("a".into()),
        api_key: Some("k".into()),
        ..Default::default()
    };
    assert!(key_variable(Some(&c), &with_key).is_none());
}

#[test]
fn missing_key_comes_before_zero_concurrency() {
    let c = cfg(Some("p"), vec![("p", profile(Protocol::OpenAi, None, None, None))]);
    let inputs = || ResolveInputs {
        concurrency: Some(0),
        ..Default::default()
    };
    assert!(matches!(
        resolve_with_value(Some(&c), inputs(), None),
        Err(ConfigError::MissingKey { .. })
    ));
    assert!(matches!(
        resolve_with_value(Some(&c), inputs(), Some("k".into())),
        Err(ConfigError::ZeroConcurrency)
    ));
}

#[test]
fn errors_of_profiles_in_words() {
    let c = cfg(
        None,
        vec![
            ("é", profile(Protocol::OpenAi, None, None, None)),
            ("b", profile(Protocol::OpenAi, None, None, None)),
            ("B", profile(Protocol::OpenAi, None, None, None)),
            ("ab", profile(Protocol::OpenAi, None, None, None)),
            ("a", profile(Protocol::OpenAi, None, None, None)),
        ],
    );
    let fail =
        |config, inputs| resolve_with_env(config, inputs, |_| None).unwrap_err().message(HINT);
    assert_eq!(
        fail(Some(&c), ResolveInputs::default()),
        format!("No profile selected. Pass --profile <name>, or set `default_profile = ...` in {HINT}.")
    );
    assert_eq!(
        fail(None, pick("x")),
        format!("Profile 'x' requested but no config file at {HINT}.")
    );
    assert_eq!(
        fail(Some(&c), pick("x")),
        "Profile 'x' not found. Available: [B, a, ab, b, é]"
    );
    assert_eq!(
        fail(Some(&c), pick("a")),
        "API key not provided. Use --api-key or set OPENAI_API_KEY environment variable."
    );
    assert_eq!(
        resolve_with_value(
            Some(&c),
            ResolveInputs {
                profile: Some("a".into()),
                concurrency: Some(0),
                ..Default::default()
            },
            Some("k".into())
        )
        .unwrap_err()
        .message(HINT),
        "concurrency must be >= 1"
    );
}

#[test]
fn configuration_file_has_one_place() {
    let home = |s: &str| Some(s.to_string());
    assert_eq!(default_config_path(&home("/home/me")).unwrap(), HINT);
    assert_eq!(default_config_path(&home("/home/me/")).unwrap(), HINT);
    assert_eq!(default_config_path(&home("")).unwrap(), ".config/ratex/config.toml");
    assert_eq!(
        default_config_path(&None).unwrap_err().message(),
        "HOME environment variable not set"
    );
    assert_eq!(config_path_hint(&home("/home/me")), HINT);
    assert_eq!(config_path_hint(&None), "~/.config/ratex/config.toml");
    let empty = ConfigFile::default();
    assert!(empty.default_profile.is_none() && empty.concurrency.is_none());
    assert!(empty.profiles.names().is_empty());
}

#[test]
fn profiles_are_kept_by_name() {
    let mut profiles = Profiles::new();
    assert!(profiles.get("a").is_none());
    assert!(profiles.names().is_empty());
    for (name, model) in [("b", "one"), ("a", "two"), ("b", "three"), ("B", "four")] {
        profiles.insert(name.into(), "openai", profile(Protocol::OpenAi, None, Some(model), None));
    }
    assert!(profiles.get("a").unwrap().endpoint.is_none());
    assert_eq!(profiles.names(), ["B", "a", "b"]);
    assert_eq!(profiles.get("a").unwrap().model.as_deref(), Some("two"));
    assert_eq!(profiles.get("b").unwrap().model.as_deref(), Some("three"));
    assert_eq!(profiles.get("B").unwrap().model.as_deref(), Some("four"));
    assert!(profiles.get("").is_none());
}

#[test]
fn program_is_named_where_none_is() {
    let endpoint = |protocol, endpoint| {
        profile(protocol, endpoint, None, None).with_program("name").endpoint
    };
    assert_eq!(endpoint(Protocol::Claude, None).as_deref(), Some("name"));
    assert_eq!(endpoint(Protocol::Codex, None), None);
    assert_eq!(endpoint(Protocol::Claude, Some("own")).as_deref(), Some("own"));
    assert_eq!(endpoint(Protocol::OpenAi, None), None);
    assert_eq!(endpoint(Protocol::Gemini, Some("own")).as_deref(), Some("own"));
    let settled = |inputs| {
        let c = cfg(Some("p"), vec![("p", profile(Protocol::Claude, None, None, None))]);
        resolve_with_env(Some(&c), inputs, |_| None).unwrap().endpoint
    };
    assert_eq!(settled(ResolveInputs::default()), "its-name");
    let base_url = Some("/bin/other".into());
    assert_eq!(settled(ResolveInputs { base_url, ..Default::default() }), "/bin/other");
}

#[test]
fn only_the_wanted_variable_is_asked_for() {
    let env = |name: &str| match name {
        "MINE" => Some("key".to_string()),
        other => panic!("asked for {other}"),
    };
    let c = cfg(
        None,
        vec![
            ("a", profile(Protocol::OpenAi, None, None, Some("MINE"))),
            ("b", profile(Protocol::Codex, None, None, Some("OTHER"))),
        ],
    );
    assert_eq!(resolve_with_env(Some(&c), pick("a"), env).unwrap().api_key, "key");
    assert_eq!(resolve_with_env(Some(&c), pick("b"), env).unwrap().api_key, "");
    assert!(resolve_with_env(Some(&c), pick("missing"), env).is_err());
    assert!(resolve_with_env(None, pick("a"), env).is_err());
}
