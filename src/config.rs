use vstd::prelude::*;

use crate::duration::default_poll_interval;

verus! {

/// A repository to follow.
#[derive(Debug, Clone)]
pub struct GitHubRepo {
    pub owner: String,
    pub repo: String,
    pub assigned_only: bool,
}

/// The code-forge part of the configuration.
#[derive(Debug, Clone)]
pub struct GitHubConfig {
    pub poll_interval: String,
    pub repos: Vec<GitHubRepo>,
}

/// A feed to follow.
#[derive(Debug, Clone)]
pub struct RssSource {
    pub name: String,
    pub url: String,
    pub poll_interval: String,
}

/// The configuration file's contents.
#[derive(Debug, Clone)]
pub struct Config {
    pub github: GitHubConfig,
    pub rss: Vec<RssSource>,
}

impl Default for GitHubConfig {
    fn default() -> (r: GitHubConfig)
        ensures
            r.poll_interval@ == "5m"@,
            r.repos@.len() == 0,
    {
        GitHubConfig { poll_interval: String::from_str("5m"), repos: Vec::new() }
    }
}

impl Default for Config {
    fn default() -> (r: Config)
        ensures
            r.github.poll_interval@ == "5m"@,
            r.github.repos@.len() == 0,
            r.rss@.len() == 0,
    {
        Config { github: GitHubConfig::default(), rss: Vec::new() }
    }
}

impl RssSource {
    /// A feed polled at the default interval.
    pub fn new(name: String, url: String) -> (r: RssSource)
        ensures
            r.name == name,
            r.url == url,
            r.poll_interval@ == seq!['1', '0', 'm'],
    {
        RssSource { name, url, poll_interval: default_poll_interval() }
    }
}

/// The process-wide preferences: text values by key, the last set winning.
pub struct Preferences {
    entries: Vec<(String, String)>,
}

/// The value stored under a key.
pub open spec fn pref_get(entries: Seq<(Seq<char>, Seq<char>)>, key: Seq<char>) -> Option<Seq<char>>
    decreases entries.len(),
{
    if entries.len() == 0 {
        None
    } else if entries.last().0 == key {
        Some(entries.last().1)
    } else {
        pref_get(entries.drop_last(), key)
    }
}

impl View for Preferences {
    type V = Seq<(Seq<char>, Seq<char>)>;

    closed spec fn view(&self) -> Seq<(Seq<char>, Seq<char>)> {
        self.entries@.map_values(|e: (String, String)| (e.0@, e.1@))
    }
}

impl Preferences {
    pub fn new() -> (r: Preferences)
        ensures
            r@ == Seq::<(Seq<char>, Seq<char>)>::empty(),
    {
        let r = Preferences { entries: Vec::new() };
        assert(r@ =~= Seq::<(Seq<char>, Seq<char>)>::empty());
        r
    }

    /// The value of a preference.
    pub fn get(&self, key: &str) -> (r: Option<String>)
        ensures
            match r {
                Some(v) => pref_get(self@, key@) == Some(v@),
                None => pref_get(self@, key@) is None,
            },
    {
        let k = String::from_str(key);
        let ghost v = self@;
        assert(v.subrange(0, v.len() as int) =~= v);
        let mut i: usize = self.entries.len();
        while i > 0
            invariant
                i <= self.entries@.len(),
                v == self@,
                v == self.entries@.map_values(|e: (String, String)| (e.0@, e.1@)),
                k@ == key@,
                pref_get(v, key@) == pref_get(v.subrange(0, i as int), key@),
            decreases i,
        {
            assert(v.subrange(0, i as int).last() == v[i - 1]);
            if self.entries[i - 1].0 == k {
                return Some(self.entries[i - 1].1.clone());
            }
            assert(v.subrange(0, i as int).drop_last() =~= v.subrange(0, i - 1));
            i -= 1;
        }
        None
    }

    /// Sets a preference; reading it then gives this value.
    pub fn set(&mut self, key: String, value: String)
        ensures
            final(self)@ == old(self)@.push((key@, value@)),
            pref_get(final(self)@, key@) == Some(value@),
    {
        let ghost kv = (key@, value@);
        self.entries.push((key, value));
        assert(self@ =~= old(self)@.push(kv));
        assert(self@.drop_last() =~= old(self)@);
    }
}

} // verus!
