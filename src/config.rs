//! The configured applications and the snapshot that a reload replaces.

use vstd::prelude::*;

verus! {

/// Where an application's icon comes from.
#[derive(Debug, PartialEq, Eq)]
pub enum Icon {
    /// An icon elsewhere, linked as it is.
    Remote { url: String },
    /// A local file, served under `/icon/<path>`.
    Local { path: String },
}

/// One configured application link.
#[derive(Debug, PartialEq, Eq)]
pub struct Entry {
    pub name: String,
    pub url: String,
    pub desc: Option<String>,
    pub icon: Option<Icon>,
}

/// The listen address and the ordered applications.
#[derive(Debug, PartialEq, Eq)]
pub struct Config {
    pub bind: String,
    pub apps: Vec<Entry>,
}

fn copy_string_opt(o: &Option<String>) -> (r: Option<String>)
    ensures
        r == *o,
{
    match o {
        Some(s) => Some(s.clone()),
        None => None,
    }
}

impl Icon {
    pub fn copy(&self) -> (r: Icon)
        ensures
            r == *self,
    {
        match self {
            Icon::Remote { url } => Icon::Remote { url: url.clone() },
            Icon::Local { path } => Icon::Local { path: path.clone() },
        }
    }
}

impl Entry {
    pub fn copy(&self) -> (r: Entry)
        ensures
            r == *self,
    {
        let icon = match &self.icon {
            Some(i) => Some(i.copy()),
            None => None,
        };
        Entry {
            name: self.name.clone(),
            url: self.url.clone(),
            desc: copy_string_opt(&self.desc),
            icon,
        }
    }
}

pub open spec fn default_bind_text() -> Seq<char> {
    seq!['1', '2', '7', '.', '0', '.', '0', '.', '1', ':', '8', '3', '3', '3']
}

impl Config {
    /// The listen address used when none is configured.
    pub fn default_bind() -> (r: String)
        ensures
            r@ == default_bind_text(),
    {
        let s = "127.0.0.1:8333";
        proof {
            reveal_strlit("127.0.0.1:8333");
        }
        let r = s.to_owned();
        assert(r@ =~= default_bind_text());
        r
    }
}

impl Default for Config {
    /// No applications, listening on the default address.
    fn default() -> (r: Config)
        ensures
            r.bind@ == default_bind_text(),
            r.apps@.len() == 0,
    {
        Config { bind: Config::default_bind(), apps: Vec::new() }
    }
}

/// The path of an entry's local icon, if it has one.
pub open spec fn local_icon(e: Entry) -> Option<Seq<char>> {
    match e.icon {
        Some(Icon::Local { path }) => Some(path@),
        _ => None,
    }
}

/// The local icon paths of `apps`, in order.
pub open spec fn local_paths(apps: Seq<Entry>) -> Seq<Seq<char>>
    decreases apps.len(),
{
    if apps.len() == 0 {
        Seq::empty()
    } else {
        let rest = local_paths(apps.drop_last());
        match local_icon(apps.last()) {
            Some(p) => rest.push(p),
            None => rest,
        }
    }
}

pub open spec fn strings_view(v: Seq<String>) -> Seq<Seq<char>> {
    v.map_values(|s: String| s@)
}

/// The allow-list of local icon paths that `config` names, in order.
pub fn local_icons(config: &Config) -> (r: Vec<String>)
    ensures
        strings_view(r@) == local_paths(config.apps@),
{
    let mut r: Vec<String> = Vec::new();
    let mut k: usize = 0;
    while k < config.apps.len()
        invariant
            k <= config.apps@.len(),
            strings_view(r@) == local_paths(config.apps@.subrange(0, k as int)),
        decreases config.apps@.len() - k,
    {
        let ghost before = r@;
        assert(config.apps@.subrange(0, k + 1).drop_last() =~= config.apps@.subrange(0, k as int));
        if let Some(Icon::Local { path }) = &config.apps[k].icon {
            r.push(path.clone());
        }
        k = k + 1;
        assert(strings_view(r@) =~= local_paths(config.apps@.subrange(0, k as int)));
    }
    assert(config.apps@.subrange(0, k as int) =~= config.apps@);
    r
}

/// The configuration in effect together with the allow-list derived from it.
#[derive(Debug)]
pub struct Store {
    pub config: Config,
    pub allow: Vec<String>,
}

impl Store {
    /// The allow-list is the one that the configuration names.
    pub open spec fn wf(&self) -> bool {
        strings_view(self.allow@) == local_paths(self.config.apps@)
    }

    /// A store for `config` with its allow-list.
    pub fn new(config: Config) -> (r: Store)
        ensures
            r.wf(),
            r.config == config,
    {
        let allow = local_icons(&config);
        Store { config, allow }
    }

    /// Installs a freshly loaded configuration together with its allow-list,
    /// or keeps the current snapshot whole when loading failed.
    pub fn apply_reload<E>(&mut self, loaded: Result<Config, E>) -> (r: Result<(), E>)
        requires
            old(self).wf(),
        ensures
            final(self).wf(),
            match loaded {
                Ok(c) => r is Ok && final(self).config == c,
                Err(e) => r == Err::<(), E>(e) && *final(self) == *old(self),
            },
    {
        match loaded {
            Ok(c) => {
                *self = Store::new(c);
                Ok(())
            },
            Err(e) => Err(e),
        }
    }
}

} // verus!
