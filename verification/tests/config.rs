use frame_store::config::{
    cli_proxies, env_setting, env_u64, env_usize, missing_webhooks_message, proxy_list, resolve,
    split_list, Partial,
};

fn partial(bind: &str, frame_size: Option<usize>) -> Partial<f64> {
    Partial {
        bind: Some(bind.to_owned()),
        frame_size,
        ..Partial::empty()
    }
}

#[test]
fn earlier_source_wins_and_unique_fields_survive() {
    let env = partial("env", None);
    let cli = partial("cli", None);
    let toml = Partial {
        frame_size: Some(42),
        ..partial("toml", None)
    };
    let merged = env.or(cli).or(toml).or(Partial::defaults(1.0, 2.0));
    assert_eq!(merged.bind.unwrap(), "env");
    assert_eq!(merged.frame_size.unwrap(), 42);
}

#[test]
fn env_proxy_url_accepts_comma_separated_values() {
    assert_eq!(
        split_list("http://a, socks5h://b ,,").unwrap(),
        vec!["http://a", "socks5h://b"]
    );
}

#[test]
fn repeated_proxies_are_kept_in_order() {
    let urls = vec!["a".to_owned(), "b".to_owned()];
    assert_eq!(cli_proxies(urls).unwrap(), vec!["a", "b"]);
    assert_eq!(cli_proxies(vec![]), None);
    assert_eq!(split_list(" , ,"), None);
    assert_eq!(split_list(""), None);
}

/// Reads the two proxy settings of a configuration file.
fn read(text: &str) -> (Option<Vec<String>>, Option<String>) {
    let table: toml::Table = text.parse().unwrap();
    let list = table.get("proxy_urls").map(|value| {
        let items = value.as_array().unwrap();
        items
            .iter()
            .map(|item| item.as_str().unwrap().to_owned())
            .collect()
    });
    let single = table
        .get("proxy_url")
        .map(|value| value.as_str().unwrap().to_owned());
    (list, single)
}

#[test]
fn toml_accepts_proxy_urls_and_legacy_proxy_url() {
    let (list, _) = read("proxy_urls = [\"a\", \"b\"]");
    assert_eq!(list.clone().unwrap(), vec!["a", "b"]);
    assert_eq!(proxy_list(list, None), vec!["a", "b"]);

    let (list, single) = read("proxy_url = \"a\"");
    assert_eq!(proxy_list(list, single), vec!["a"]);
}

#[test]
fn resolving_needs_a_webhook_list() {
    let none = || Partial::<u64>::empty();
    assert!(resolve(none(), none(), none(), Partial::defaults(1, 2)).is_none());
    let toml = Partial {
        webhooks_file: Some("hooks".to_owned()),
        proxy_url: Some("p".to_owned()),
        frame_budget: Some(9),
        ..none()
    };
    let cli = Partial {
        target_rate: Some(7),
        ..none()
    };
    let config = resolve(none(), cli, toml, Partial::defaults(1, 2)).unwrap();
    assert_eq!(config.webhooks_file, "hooks");
    assert_eq!(config.proxy_urls, vec!["p"]);
    assert_eq!((config.target_rate, config.object_rate), (7, 2));
    assert_eq!(config.frame_budget, 9);
    assert_eq!(config.bind, "0.0.0.0:8080");
    assert_eq!(config.database_url, "sqlite:catalog.db?mode=rwc");
    assert_eq!((config.data_ttfb_ms, config.url_latency_ms), (100, 400));
    assert!(missing_webhooks_message().starts_with("webhooks_file is required"));
}

#[test]
fn empty_environment_settings_are_none() {
    assert_eq!(env_setting(Some(String::new())), None);
    assert_eq!(env_setting(Some("x".to_owned())), Some("x".to_owned()));
    assert_eq!(env_setting(None), None);
    let text = |value: &str| Some(value.to_owned());
    assert_eq!(env_u64(text("18446744073709551615")), Some(u64::MAX));
    assert_eq!(env_u64(text("18446744073709551616")), None);
    assert_eq!(env_usize(text("65536")), Some(65_536));
    for other in [text("64k"), text(""), None] {
        assert_eq!(env_u64(other.clone()), None);
        assert_eq!(env_usize(other), None);
    }
}
