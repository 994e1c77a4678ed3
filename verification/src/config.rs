//! Plugin configuration (`config.json` inside the plugin config dir).
use vstd::prelude::*;
use crate::path::PathParts;

verus! {

#[derive(Debug, Clone, PartialEq, Eq)]
pub struct Config {
    /// Label template; see `label::Ctx` for tokens.
    pub template: String,
    /// Truncate labels longer than this with an ellipsis. 0 disables.
    pub max_length: usize,
    /// Overwrite hand-renamed labels on every reconcile.
    pub overwrite_manual: bool,
    /// Watcher reconcile interval in milliseconds (the `cd` safety net).
    pub poll_ms: u64,
    /// Quiet period that coalesces a burst of events, in milliseconds.
    pub debounce_ms: u64,
    /// Optional allowlist of ticket prefixes, e.g. `["BACK", "LIT"]`.
    pub ticket_prefixes: Vec<String>,
}

/// The documented default template, `{repo} {ticket}`.
pub open spec fn default_template_text() -> Seq<char> {
    seq!['{', 'r', 'e', 'p', 'o', '}', ' ', '{', 't', 'i', 'c', 'k', 'e', 't', '}']
}

/// The shortest reconcile interval that `load` lets stand.
pub open spec fn min_poll_ms() -> u64 {
    200
}

/// `ms`, raised to the shortest interval allowed.
pub open spec fn settled_poll(ms: u64) -> u64 {
    if ms >= min_poll_ms() {
        ms
    } else {
        min_poll_ms()
    }
}

/// The defaults, field by field.
pub open spec fn is_default(c: Config) -> bool {
    &&& c.template@ == default_template_text()
    &&& c.max_length == 0
    &&& !c.overwrite_manual
    &&& c.poll_ms == 1000
    &&& c.debounce_ms == 150
    &&& c.ticket_prefixes@.len() == 0
}

pub fn default_template() -> (s: String)
    ensures
        s@ == default_template_text(),
{
    let t = "{repo} {ticket}";
    proof {
        reveal_strlit("{repo} {ticket}");
        assert(t@ =~= default_template_text());
    }
    t.to_owned()
}

pub fn default_poll_ms() -> (ms: u64)
    ensures
        ms == 1000,
{
    1000
}

pub fn default_debounce_ms() -> (ms: u64)
    ensures
        ms == 150,
{
    150
}

impl Default for Config {
    fn default() -> (c: Config)
        ensures
            is_default(c),
    {
        Config {
            template: default_template(),
            max_length: 0,
            overwrite_manual: false,
            poll_ms: default_poll_ms(),
            debounce_ms: default_debounce_ms(),
            ticket_prefixes: Vec::new(),
        }
    }
}

pub open spec fn name_config() -> Seq<char> {
    seq!['c', 'o', 'n', 'f', 'i', 'g', '.', 'j', 's', 'o', 'n']
}

/// `config.json` inside the plugin config directory.
pub fn config_path(config_dir: &PathParts) -> (p: PathParts)
    ensures
        p@ == (config_dir@.0, config_dir@.1.push(name_config())),
{
    let name = "config.json";
    proof {
        reveal_strlit("config.json");
        assert(name@ =~= name_config());
    }
    config_dir.child(name)
}

pub open spec fn name_plugin() -> Seq<char> {
    seq!['h', 'e', 'r', 'd', 'r', '-', 't', 'a', 'b', '-', 'n', 'a', 'm', 'i', 'n', 'g']
}

pub open spec fn name_dot_config() -> Seq<char> {
    seq!['.', 'c', 'o', 'n', 'f', 'i', 'g']
}

pub open spec fn name_fallback() -> Seq<char> {
    seq!['.', 'h', 'e', 'r', 'd', 'r', '-', 't', 'a', 'b', '-', 'n', 'a', 'm', 'i', 'n', 'g']
}

/// The directory used when neither a plugin directory nor a home directory
/// is known: `.herdr-tab-naming`, relative to where the program runs.
pub fn fallback_dir() -> (p: PathParts)
    ensures
        p@ == (false, seq![name_fallback()]),
{
    let name = ".herdr-tab-naming";
    proof {
        reveal_strlit(".herdr-tab-naming");
        assert(name@ =~= name_fallback());
    }
    let p = PathParts::empty().child(name);
    assert(Seq::<Seq<char>>::empty().push(name_fallback()) =~= seq![name_fallback()]);
    p
}

/// The plugin config directory: the one Herdr names for the plugin, else
/// `.config/herdr-tab-naming` in the home directory, else the fallback.
pub fn config_dir(plugin_dir: Option<PathParts>, home: Option<&PathParts>) -> (p: PathParts)
    ensures
        p@ == match plugin_dir {
            Some(d) => d@,
            None => match home {
                Some(h) => (h@.0, h@.1.push(name_dot_config()).push(name_plugin())),
                None => (false, seq![name_fallback()]),
            },
        },
{
    if let Some(d) = plugin_dir {
        return d;
    }
    match home {
        Some(h) => {
            let a = ".config";
            let b = "herdr-tab-naming";
            proof {
                reveal_strlit(".config");
                reveal_strlit("herdr-tab-naming");
                assert(a@ =~= name_dot_config());
                assert(b@ =~= name_plugin());
            }
            h.child(a).child(b)
        },
        None => fallback_dir(),
    }
}

/// The configuration in force, given what the config file held: the parsed
/// file, or the defaults when it was missing or malformed (`None`); the
/// reconcile interval is raised to at least 200 ms either way.
pub fn load(parsed: Option<Config>) -> (c: Config)
    ensures
        c.poll_ms == settled_poll(if parsed is Some { parsed->0.poll_ms } else { 1000 }),
        parsed is Some ==> {
            &&& c.template@ == parsed->0.template@
            &&& c.max_length == parsed->0.max_length
            &&& c.overwrite_manual == parsed->0.overwrite_manual
            &&& c.debounce_ms == parsed->0.debounce_ms
            &&& c.ticket_prefixes@ == parsed->0.ticket_prefixes@
        },
        parsed is None ==> is_default(c),
        c.poll_ms >= min_poll_ms(),
{
    let mut cfg = match parsed {
        Some(c) => c,
        None => Config::default(),
    };
    if cfg.poll_ms < 200 {
        cfg.poll_ms = 200;
    }
    cfg
}

} // verus!
