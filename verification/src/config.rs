//! Layered settings with the precedence environment, then command line, then
//! configuration file, then defaults.
//!
//! Each source is a `Partial`; an earlier source wins field by field. `R` is
//! the type of rates.
use vstd::prelude::*;

use crate::text::{
    char_views, chars_of, parse_number, parsed, pieces, split_chars, text_of, trim, trimmed,
};

verus! {

/// The settings of a server.
#[derive(Debug)]
pub struct Config<R> {
    pub bind: String,
    pub database_url: String,
    pub webhooks_file: String,
    pub proxy_urls: Vec<String>,
    pub frame_size: usize,
    pub max_file_size: u64,
    pub target_rate: R,
    pub object_rate: R,
    pub data_ttfb_ms: u64,
    pub url_latency_ms: u64,
    pub frame_budget: usize,
}

/// The settings that one source gives.
#[derive(Debug)]
pub struct Partial<R> {
    pub bind: Option<String>,
    pub database_url: Option<String>,
    pub webhooks_file: Option<String>,
    pub proxy_urls: Option<Vec<String>>,
    pub proxy_url: Option<String>,
    pub frame_size: Option<usize>,
    pub max_file_size: Option<u64>,
    pub target_rate: Option<R>,
    pub object_rate: Option<R>,
    pub data_ttfb_ms: Option<u64>,
    pub url_latency_ms: Option<u64>,
    pub frame_budget: Option<usize>,
}

/// The first setting where there is one, and the second otherwise.
pub open spec fn first_of<T>(first: Option<T>, second: Option<T>) -> Option<T> {
    if first is Some {
        first
    } else {
        second
    }
}

fn first_setting<T>(first: Option<T>, second: Option<T>) -> (setting: Option<T>)
    ensures
        setting == first_of(first, second),
{
    match first {
        Some(value) => Some(value),
        None => second,
    }
}

impl<R> Partial<R> {
    /// The settings of both sources, the first before the second.
    pub open spec fn merged(self, other: Partial<R>) -> Partial<R> {
        Partial {
            bind: first_of(self.bind, other.bind),
            database_url: first_of(self.database_url, other.database_url),
            webhooks_file: first_of(self.webhooks_file, other.webhooks_file),
            proxy_urls: first_of(self.proxy_urls, other.proxy_urls),
            proxy_url: first_of(self.proxy_url, other.proxy_url),
            frame_size: first_of(self.frame_size, other.frame_size),
            max_file_size: first_of(self.max_file_size, other.max_file_size),
            target_rate: first_of(self.target_rate, other.target_rate),
            object_rate: first_of(self.object_rate, other.object_rate),
            data_ttfb_ms: first_of(self.data_ttfb_ms, other.data_ttfb_ms),
            url_latency_ms: first_of(self.url_latency_ms, other.url_latency_ms),
            frame_budget: first_of(self.frame_budget, other.frame_budget),
        }
    }

    /// A source that gives nothing.
    pub fn empty() -> (partial: Partial<R>)
        ensures
            partial == (Partial::<R> {
                bind: None,
                database_url: None,
                webhooks_file: None,
                proxy_urls: None,
                proxy_url: None,
                frame_size: None,
                max_file_size: None,
                target_rate: None,
                object_rate: None,
                data_ttfb_ms: None,
                url_latency_ms: None,
                frame_budget: None,
            }),
    {
        Partial {
            bind: None,
            database_url: None,
            webhooks_file: None,
            proxy_urls: None,
            proxy_url: None,
            frame_size: None,
            max_file_size: None,
            target_rate: None,
            object_rate: None,
            data_ttfb_ms: None,
            url_latency_ms: None,
            frame_budget: None,
        }
    }

    /// Fills each missing setting from the other source.
    pub fn or(self, other: Partial<R>) -> (both: Partial<R>)
        ensures
            both == self.merged(other),
    {
        Partial {
            bind: first_setting(self.bind, other.bind),
            database_url: first_setting(self.database_url, other.database_url),
            webhooks_file: first_setting(self.webhooks_file, other.webhooks_file),
            proxy_urls: first_setting(self.proxy_urls, other.proxy_urls),
            proxy_url: first_setting(self.proxy_url, other.proxy_url),
            frame_size: first_setting(self.frame_size, other.frame_size),
            max_file_size: first_setting(self.max_file_size, other.max_file_size),
            target_rate: first_setting(self.target_rate, other.target_rate),
            object_rate: first_setting(self.object_rate, other.object_rate),
            data_ttfb_ms: first_setting(self.data_ttfb_ms, other.data_ttfb_ms),
            url_latency_ms: first_setting(self.url_latency_ms, other.url_latency_ms),
            frame_budget: first_setting(self.frame_budget, other.frame_budget),
        }
    }

    /// Every setting but the webhook list and the proxies has a value.
    pub open spec fn has_defaults(self) -> bool {
        &&& self.bind is Some
        &&& self.database_url is Some
        &&& self.frame_size is Some
        &&& self.max_file_size is Some
        &&& self.target_rate is Some
        &&& self.object_rate is Some
        &&& self.data_ttfb_ms is Some
        &&& self.url_latency_ms is Some
        &&& self.frame_budget is Some
    }

    /// The lowest layer. The webhook list has no default.
    pub fn defaults(target_rate: R, object_rate: R) -> (partial: Partial<R>)
        ensures
            partial.has_defaults(),
            partial.bind->0@ == "0.0.0.0:8080"@,
            partial.database_url->0@ == "sqlite:catalog.db?mode=rwc"@,
            partial.webhooks_file is None,
            partial.proxy_urls is None,
            partial.proxy_url is None,
            partial.frame_size == Some(65_536usize),
            partial.max_file_size == Some(21_474_836_480u64),
            partial.target_rate == Some(target_rate),
            partial.object_rate == Some(object_rate),
            partial.data_ttfb_ms == Some(100u64),
            partial.url_latency_ms == Some(400u64),
            partial.frame_budget == Some(415usize),
    {
        Partial {
            bind: Some("0.0.0.0:8080".to_owned()),
            database_url: Some("sqlite:catalog.db?mode=rwc".to_owned()),
            webhooks_file: None,
            proxy_urls: None,
            proxy_url: None,
            frame_size: Some(65_536),
            max_file_size: Some(21_474_836_480),
            target_rate: Some(target_rate),
            object_rate: Some(object_rate),
            data_ttfb_ms: Some(100),
            url_latency_ms: Some(400),
            frame_budget: Some(415),
        }
    }
}

/// The proxies that merged settings name: the list, or the single one, or none.
pub open spec fn are_proxies<R>(merged: Partial<R>, proxy_urls: Seq<String>) -> bool {
    match merged.proxy_urls {
        Some(list) => proxy_urls == list@,
        None => match merged.proxy_url {
            Some(url) => proxy_urls.len() == 1 && proxy_urls[0] == url,
            None => proxy_urls.len() == 0,
        },
    }
}

/// Whether the settings are the merged ones.
pub open spec fn is_config<R>(merged: Partial<R>, config: Config<R>) -> bool {
    &&& merged.bind == Some(config.bind)
    &&& merged.database_url == Some(config.database_url)
    &&& merged.webhooks_file == Some(config.webhooks_file)
    &&& are_proxies(merged, config.proxy_urls@)
    &&& merged.frame_size == Some(config.frame_size)
    &&& merged.max_file_size == Some(config.max_file_size)
    &&& merged.target_rate == Some(config.target_rate)
    &&& merged.object_rate == Some(config.object_rate)
    &&& merged.data_ttfb_ms == Some(config.data_ttfb_ms)
    &&& merged.url_latency_ms == Some(config.url_latency_ms)
    &&& merged.frame_budget == Some(config.frame_budget)
}

/// The proxies that merged settings name.
pub fn proxy_list(proxy_urls: Option<Vec<String>>, proxy_url: Option<String>) -> (list: Vec<String>)
    ensures
        match proxy_urls {
            Some(urls) => list@ == urls@,
            None => match proxy_url {
                Some(url) => list@.len() == 1 && list@[0] == url,
                None => list@.len() == 0,
            },
        },
{
    match proxy_urls {
        Some(list) => list,
        None => {
            let mut list: Vec<String> = Vec::new();
            if let Some(url) = proxy_url {
                list.push(url);
            }
            list
        },
    }
}

/// What is said where no source names the webhook list.
pub fn missing_webhooks_message() -> (text: &'static str)
    ensures
        text@
            == "webhooks_file is required (DISCORD_WEBHOOKS_FILE, --webhooks-file, or webhooks_file in TOML)"@,
{
    "webhooks_file is required (DISCORD_WEBHOOKS_FILE, --webhooks-file, or webhooks_file in TOML)"
}

/// Merges all sources. The webhook list is the one setting that some source has
/// to give.
pub fn resolve<R>(
    env: Partial<R>,
    cli: Partial<R>,
    toml: Partial<R>,
    defaults: Partial<R>,
) -> (config: Option<Config<R>>)
    requires
        defaults.has_defaults(),
    ensures
        ({
            let merged = env.merged(cli).merged(toml).merged(defaults);
            match config {
                Some(c) => is_config(merged, c),
                None => merged.webhooks_file is None,
            }
        }),
{
    let merged: Partial<R> = env.or(cli).or(toml).or(defaults);
    match (
        merged.webhooks_file,
        merged.bind,
        merged.database_url,
        merged.frame_size,
        merged.max_file_size,
        merged.target_rate,
        merged.object_rate,
        merged.data_ttfb_ms,
        merged.url_latency_ms,
        merged.frame_budget,
    ) {
        (
            Some(webhooks_file),
            Some(bind),
            Some(database_url),
            Some(frame_size),
            Some(max_file_size),
            Some(target_rate),
            Some(object_rate),
            Some(data_ttfb_ms),
            Some(url_latency_ms),
            Some(frame_budget),
        ) => Some(
            Config {
                bind,
                database_url,
                webhooks_file,
                proxy_urls: proxy_list(merged.proxy_urls, merged.proxy_url),
                frame_size,
                max_file_size,
                target_rate,
                object_rate,
                data_ttfb_ms,
                url_latency_ms,
                frame_budget,
            },
        ),
        _ => None,
    }
}

/// The precedence promise, for any setting: the environment wins over the
/// command line, that over the file, and that over the default.
pub proof fn law_earlier_sources_win<T>(
    env: Option<T>,
    cli: Option<T>,
    toml: Option<T>,
    default: Option<T>,
)
    ensures
        first_of(first_of(first_of(env, cli), toml), default) == (if env is Some {
            env
        } else if cli is Some {
            cli
        } else if toml is Some {
            toml
        } else {
            default
        }),
{
}

/// Merging sources in pairs gives the same settings whichever pair comes first.
pub proof fn law_merging_is_associative<R>(a: Partial<R>, b: Partial<R>, c: Partial<R>)
    ensures
        a.merged(b).merged(c) == a.merged(b.merged(c)),
{
}

/// A setting of the environment: an empty one is none.
pub fn env_setting(value: Option<String>) -> (setting: Option<String>)
    ensures
        match value {
            Some(text) => setting == (if text@.len() == 0 { None } else { Some(text) }),
            None => setting is None,
        },
{
    match value {
        Some(text) => {
            if text.as_str().is_empty() {
                None
            } else {
                Some(text)
            }
        },
        None => None,
    }
}

/// The number that a setting of the environment gives, up to `max`: a text that
/// is no such number gives none.
pub open spec fn setting_number(value: Option<String>, max: int) -> Option<int> {
    match value {
        Some(text) => parsed(text@, 10, max),
        None => None,
    }
}

fn env_number(value: Option<String>, max: u64) -> (number: Option<u64>)
    ensures
        match number {
            Some(n) => setting_number(value, max as int) == Some(n as int) && n <= max,
            None => setting_number(value, max as int) is None,
        },
{
    match value {
        None => None,
        Some(text) => {
            let chars: Vec<char> = chars_of(text.as_str());
            parse_number(chars.as_slice(), 10, max)
        },
    }
}

/// A number in the environment.
pub fn env_u64(value: Option<String>) -> (number: Option<u64>)
    ensures
        match number {
            Some(n) => setting_number(value, u64::MAX as int) == Some(n as int),
            None => setting_number(value, u64::MAX as int) is None,
        },
{
    env_number(value, u64::MAX)
}

/// A size in the environment.
pub fn env_usize(value: Option<String>) -> (size: Option<usize>)
    ensures
        match size {
            Some(n) => setting_number(value, usize::MAX as int) == Some(n as int),
            None => setting_number(value, usize::MAX as int) is None,
        },
{
    match env_number(value, usize::MAX as u64) {
        Some(n) => Some(n as usize),
        None => None,
    }
}

/// Proxies given on the command line: an empty list is none.
pub fn cli_proxies(urls: Vec<String>) -> (setting: Option<Vec<String>>)
    ensures
        setting == (if urls@.len() == 0 { None } else { Some(urls) }),
{
    if urls.len() == 0 {
        None
    } else {
        Some(urls)
    }
}

/// The items of a list without the white space around them, and without the
/// empty ones.
pub open spec fn list_items(parts: Seq<Seq<char>>) -> Seq<Seq<char>>
    decreases parts.len(),
{
    if parts.len() == 0 {
        Seq::empty()
    } else {
        let before = list_items(parts.drop_last());
        let item = trimmed(parts.last());
        if item.len() == 0 {
            before
        } else {
            before.push(item)
        }
    }
}

/// Splits a list at its commas; nothing where no item is left.
pub fn split_list(value: &str) -> (list: Option<Vec<String>>)
    ensures
        ({
            let items = list_items(pieces(value@, ','));
            match list {
                Some(l) => items.len() > 0 && l@.map_values(|s: String| s@) == items,
                None => items.len() == 0,
            }
        }),
{
    let chars: Vec<char> = chars_of(value);
    let parts: Vec<Vec<char>> = split_chars(chars.as_slice(), ',');
    let ghost views = char_views(parts@);
    let mut list: Vec<String> = Vec::new();
    let mut i: usize = 0;
    proof {
        assert(views.take(0) =~= Seq::<Seq<char>>::empty());
        assert(list@.map_values(|s: String| s@) =~= list_items(views.take(0)));
    }
    while i < parts.len()
        invariant
            views == char_views(parts@),
            i <= parts.len(),
            list@.map_values(|s: String| s@) == list_items(views.take(i as int)),
        decreases parts.len() - i,
    {
        proof {
            assert(views[i as int] == parts[i as int]@);
            assert(views.take(i + 1).drop_last() =~= views.take(i as int));
            assert(views.take(i + 1).last() == views[i as int]);
        }
        let item: Vec<char> = trim(parts[i].as_slice());
        if item.len() != 0 {
            let ghost before = list@;
            let text: String = text_of(item.as_slice());
            list.push(text);
            assert(list@.map_values(|s: String| s@) =~= before.map_values(|s: String| s@).push(
                item@,
            ));
        }
        i += 1;
    }
    proof {
        assert(views.take(i as int) =~= views);
        assert(list@.map_values(|s: String| s@).len() == list@.len());
    }
    if list.len() == 0 {
        None
    } else {
        Some(list)
    }
}

/// The first of two sources wins for every setting, and where it gives none the
/// second counts.
pub proof fn law_the_first_source_wins<R>(a: Partial<R>, b: Partial<R>)
    ensures
        a.merged(b).bind == (if a.bind is Some {
            a.bind
        } else {
            b.bind
        }),
        a.merged(b).database_url == (if a.database_url is Some {
            a.database_url
        } else {
            b.database_url
        }),
        a.merged(b).webhooks_file == (if a.webhooks_file is Some {
            a.webhooks_file
        } else {
            b.webhooks_file
        }),
        a.merged(b).proxy_urls == (if a.proxy_urls is Some {
            a.proxy_urls
        } else {
            b.proxy_urls
        }),
        a.merged(b).proxy_url == (if a.proxy_url is Some {
            a.proxy_url
        } else {
            b.proxy_url
        }),
        a.merged(b).frame_size == (if a.frame_size is Some {
            a.frame_size
        } else {
            b.frame_size
        }),
        a.merged(b).max_file_size == (if a.max_file_size is Some {
            a.max_file_size
        } else {
            b.max_file_size
        }),
        a.merged(b).target_rate == (if a.target_rate is Some {
            a.target_rate
        } else {
            b.target_rate
        }),
        a.merged(b).object_rate == (if a.object_rate is Some {
            a.object_rate
        } else {
            b.object_rate
        }),
        a.merged(b).data_ttfb_ms == (if a.data_ttfb_ms is Some {
            a.data_ttfb_ms
        } else {
            b.data_ttfb_ms
        }),
        a.merged(b).url_latency_ms == (if a.url_latency_ms is Some {
            a.url_latency_ms
        } else {
            b.url_latency_ms
        }),
        a.merged(b).frame_budget == (if a.frame_budget is Some {
            a.frame_budget
        } else {
            b.frame_budget
        }),
{
}

/// Whether the value is the one of the first source that gives any.
pub open spec fn takes_first<T>(
    env: Option<T>,
    cli: Option<T>,
    toml: Option<T>,
    default: Option<T>,
    value: T,
) -> bool {
    if env is Some {
        env == Some(value)
    } else if cli is Some {
        cli == Some(value)
    } else if toml is Some {
        toml == Some(value)
    } else {
        default == Some(value)
    }
}

/// The settings promise: each setting comes from the environment, or else from the
/// command line, or else from the file, or else is the default.
pub proof fn law_settings_come_from_the_first_source<R>(
    env: Partial<R>,
    cli: Partial<R>,
    toml: Partial<R>,
    defaults: Partial<R>,
    config: Config<R>,
)
    requires
        is_config(env.merged(cli).merged(toml).merged(defaults), config),
    ensures
        takes_first(env.bind, cli.bind, toml.bind, defaults.bind, config.bind),
        takes_first(env.database_url, cli.database_url, toml.database_url, defaults.database_url, config.database_url),
        takes_first(env.webhooks_file, cli.webhooks_file, toml.webhooks_file, defaults.webhooks_file, config.webhooks_file),
        takes_first(env.frame_size, cli.frame_size, toml.frame_size, defaults.frame_size, config.frame_size),
        takes_first(env.max_file_size, cli.max_file_size, toml.max_file_size, defaults.max_file_size, config.max_file_size),
        takes_first(env.target_rate, cli.target_rate, toml.target_rate, defaults.target_rate, config.target_rate),
        takes_first(env.object_rate, cli.object_rate, toml.object_rate, defaults.object_rate, config.object_rate),
        takes_first(env.data_ttfb_ms, cli.data_ttfb_ms, toml.data_ttfb_ms, defaults.data_ttfb_ms, config.data_ttfb_ms),
        takes_first(env.url_latency_ms, cli.url_latency_ms, toml.url_latency_ms, defaults.url_latency_ms, config.url_latency_ms),
        takes_first(env.frame_budget, cli.frame_budget, toml.frame_budget, defaults.frame_budget, config.frame_budget),
{
}

/// A list of proxies counts before a single one, and without both there is none.
pub proof fn law_proxy_lists_count_first<R>(merged: Partial<R>, proxy_urls: Seq<String>)
    requires
        are_proxies(merged, proxy_urls),
    ensures
        merged.proxy_urls matches Some(list) ==> proxy_urls == list@,
        merged.proxy_urls is None && merged.proxy_url is Some ==> proxy_urls
            == seq![merged.proxy_url->0],
        merged.proxy_urls is None && merged.proxy_url is None ==> proxy_urls == Seq::<
            String,
        >::empty(),
{
    if merged.proxy_urls is None {
        if merged.proxy_url is Some {
            assert(proxy_urls =~= seq![merged.proxy_url->0]);
        } else {
            assert(proxy_urls =~= Seq::<String>::empty());
        }
    }
}

/// A further piece of a list adds its text without the white space around it,
/// behind the items before, and adds nothing where no text is left.
pub proof fn law_lists_keep_their_items(parts: Seq<Seq<char>>, part: Seq<char>)
    ensures
        list_items(Seq::empty()) == Seq::<Seq<char>>::empty(),
        list_items(parts.push(part)) == if trimmed(part).len() == 0 {
            list_items(parts)
        } else {
            list_items(parts).push(trimmed(part))
        },
{
    assert(parts.push(part).drop_last() =~= parts);
    assert(list_items(Seq::empty()) =~= Seq::<Seq<char>>::empty());
}

/// No item of a list is empty, and a list has no more items than pieces.
pub proof fn law_list_items_are_not_empty(parts: Seq<Seq<char>>)
    ensures
        list_items(parts).len() <= parts.len(),
        forall|i: int|
            0 <= i < list_items(parts).len() ==> (#[trigger] list_items(parts)[i]).len() > 0,
    decreases parts.len(),
{
    if parts.len() > 0 {
        law_list_items_are_not_empty(parts.drop_last());
        let before = list_items(parts.drop_last());
        assert forall|i: int| 0 <= i < list_items(parts).len() implies (#[trigger] list_items(
            parts,
        )[i]).len() > 0 by {
            if i < before.len() {
                assert(list_items(parts)[i] == before[i]);
            }
        }
    }
}

/// A number in the environment is one in decimal up to its limit; an empty text or
/// any other is none.
pub proof fn law_settings_are_decimal(value: Option<String>, max: int)
    ensures
        setting_number(value, max) == match value {
            Some(text) => parsed(text@, 10, max),
            None => None,
        },
{
}

} // verus!
