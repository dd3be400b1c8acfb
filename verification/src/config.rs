//! The profile registry.
//!
//! A profile is a named delivery configuration: the three store directories
//! and the SMTP endpoint with its credentials source. Profiles are loaded
//! once at process start and immutable thereafter; the registry resolves an
//! exact name, or hands out every profile in order for the "apply to all"
//! form that show, send, revive and drop share.

use vstd::prelude::*;
use crate::errors::EngineError;

verus! {

/// One profile's delivery configuration. Directory paths arrive with
/// shell-style expansion already applied.
#[derive(Debug)]
pub struct ProfileConfig {
    pub queue_dir: String,
    pub sent_dir: String,
    pub revive_dir: String,
    pub smtp_host: String,
    pub smtp_port: u16,
    pub smtp_user: String,
    pub smtp_pass_cmd: String,
    pub smtp_accept_invalid_cert: bool,
}

/// Mathematical image of a profile configuration.
#[verifier::ext_equal]
pub ghost struct ProfileView {
    pub queue_dir: Seq<char>,
    pub sent_dir: Seq<char>,
    pub revive_dir: Seq<char>,
    pub smtp_host: Seq<char>,
    pub smtp_port: u16,
    pub smtp_user: Seq<char>,
    pub smtp_pass_cmd: Seq<char>,
    pub smtp_accept_invalid_cert: bool,
}

impl View for ProfileConfig {
    type V = ProfileView;

    open spec fn view(&self) -> ProfileView {
        ProfileView {
            queue_dir: self.queue_dir@,
            sent_dir: self.sent_dir@,
            revive_dir: self.revive_dir@,
            smtp_host: self.smtp_host@,
            smtp_port: self.smtp_port,
            smtp_user: self.smtp_user@,
            smtp_pass_cmd: self.smtp_pass_cmd@,
            smtp_accept_invalid_cert: self.smtp_accept_invalid_cert,
        }
    }
}

impl ProfileConfig {
    /// A copy of this configuration record with the same image.
    pub fn duplicate(&self) -> (r: ProfileConfig)
        ensures
            r@ == self@,
    {
        ProfileConfig {
            queue_dir: self.queue_dir.clone(),
            sent_dir: self.sent_dir.clone(),
            revive_dir: self.revive_dir.clone(),
            smtp_host: self.smtp_host.clone(),
            smtp_port: self.smtp_port,
            smtp_user: self.smtp_user.clone(),
            smtp_pass_cmd: self.smtp_pass_cmd.clone(),
            smtp_accept_invalid_cert: self.smtp_accept_invalid_cert,
        }
    }
}

/// The images of a list of named profiles.
pub open spec fn entry_views(s: Seq<(String, ProfileConfig)>) -> Seq<(Seq<char>, ProfileView)> {
    s.map_values(|p: (String, ProfileConfig)| (p.0@, p.1@))
}

/// The registry: profile names mapped to their configuration, in load
/// order.
#[derive(Debug)]
pub struct Config {
    entries: Vec<(String, ProfileConfig)>,
}

impl View for Config {
    type V = Seq<(Seq<char>, ProfileView)>;

    closed spec fn view(&self) -> Seq<(Seq<char>, ProfileView)> {
        entry_views(self.entries@)
    }
}

/// The image of an optional profile-name argument.
pub open spec fn opt_name_view(p: Option<&str>) -> Option<Seq<char>> {
    match p {
        Some(n) => Some(n@),
        None => None,
    }
}

impl Config {
    /// The registered profile names, in order.
    pub open spec fn names(self) -> Seq<Seq<char>> {
        self@.map_values(|p: (Seq<char>, ProfileView)| p.0)
    }

    /// Profile names are unique.
    pub open spec fn wf(self) -> bool {
        forall|i: int, j: int|
            0 <= i < j < self@.len() ==> (#[trigger] self.names()[i]) != (#[trigger] self.names()[j])
    }

    /// The profiles an operation applies to: the one named, or every
    /// profile in order when none is named; nothing when the name is
    /// unknown.
    pub open spec fn selection(self, profile: Option<Seq<char>>) -> Option<
        Seq<(Seq<char>, ProfileView)>,
    > {
        match profile {
            None => Some(self@),
            Some(p) => if self.names().contains(p) {
                let i = choose|i: int| 0 <= i < self@.len() && self.names()[i] == p;
                Some(seq![self@[i]])
            } else {
                None
            },
        }
    }

    /// Builds the registry, refusing duplicate profile names.
    pub fn new(entries: Vec<(String, ProfileConfig)>) -> (r: Result<Config, EngineError>)
        ensures
            r matches Ok(c) ==> c@ == entry_views(entries@) && c.wf(),
            r is Err ==> r == Err::<Config, EngineError>(EngineError::ConfigError) && exists|
                i: int,
                j: int,
            |
                #![trigger entries@[i].0@, entries@[j].0@]
                0 <= i < j < entries@.len() && entries@[i].0@ == entries@[j].0@,
    {
        let n = entries.len();
        let mut i: usize = 0;
        while i < n
            invariant
                n == entries@.len(),
                0 <= i <= n,
                forall|a: int, b: int|
                    0 <= a < b < i ==> (#[trigger] entries@[a].0@) != (#[trigger] entries@[b].0@),
                forall|a: int, b: int|
                    0 <= a < i && a < b < n ==> (#[trigger] entries@[a].0@) != (
                    #[trigger] entries@[b].0@),
            decreases n - i,
        {
            let mut j: usize = i + 1;
            while j < n
                invariant
                    n == entries@.len(),
                    0 <= i < j <= n,
                    forall|b: int|
                        i < b < j ==> (#[trigger] entries@[b].0@) != entries@[i as int].0@,
                decreases n - j,
            {
                if entries[i].0.eq(&entries[j].0) {
                    return Err(EngineError::ConfigError);
                }
                proof {
                    assert(entries@[j as int].0@ != entries@[i as int].0@);
                }
                j = j + 1;
            }
            i = i + 1;
        }
        let c = Config { entries };
        proof {
            assert forall|a: int, b: int|
                0 <= a < b < c@.len() implies (#[trigger] c.names()[a]) != (
            #[trigger] c.names()[b]) by {
                assert(c.names()[a] == entry_views(c.entries@)[a].0);
            }
        }
        Ok(c)
    }

    /// Exact-name lookup of one profile's configuration.
    pub fn config_for_profile(&self, name: &str) -> (r: Result<&ProfileConfig, EngineError>)
        requires
            self.wf(),
        ensures
            r matches Ok(c) ==> self.names().contains(name@) && exists|i: int|
                0 <= i < self@.len() && (#[trigger] self@[i]).0 == name@ && c@ == self@[i].1,
            r is Err <==> !self.names().contains(name@),
            r is Err ==> r == Err::<&ProfileConfig, EngineError>(EngineError::ConfigError),
    {
        let owned = name.to_owned();
        let mut i: usize = 0;
        while i < self.entries.len()
            invariant
                0 <= i <= self@.len(),
                owned@ == name@,
                forall|m: int| 0 <= m < i ==> (#[trigger] self.names()[m]) != name@,
            decreases self@.len() - i,
        {
            if self.entries[i].0.eq(&owned) {
                proof {
                    assert(self@[i as int].0 == name@);
                    assert(self.names()[i as int] == name@);
                }
                return Ok(&self.entries[i].1);
            }
            proof {
                assert(self.names()[i as int] == self.entries@[i as int].0@);
            }
            i = i + 1;
        }
        proof {
            assert forall|m: int|
                0 <= m < self.names().len() implies (#[trigger] self.names()[m]) != name@ by {}
        }
        Err(EngineError::ConfigError)
    }

    /// The shared one-or-all dispatch: resolves which profiles an
    /// operation applies to, as (name, configuration) records in registry
    /// order. An unknown name applies to nothing and fails.
    pub fn map(&self, profile: Option<&str>) -> (r: Result<
        Vec<(String, ProfileConfig)>,
        EngineError,
    >)
        requires
            self.wf(),
        ensures
            r matches Ok(v) ==> self.selection(opt_name_view(profile)) matches Some(s)
                && entry_views(v@) == s,
            r is Err <==> self.selection(opt_name_view(profile)) is None,
            r is Err ==> r == Err::<Vec<(String, ProfileConfig)>, EngineError>(
                EngineError::ConfigError,
            ),
    {
        match profile {
            Some(p) => {
                let c = match self.config_for_profile(p) {
                    Ok(c) => c,
                    Err(e) => {
                        return Err(e);
                    },
                };
                let one = (p.to_owned(), c.duplicate());
                let mut v: Vec<(String, ProfileConfig)> = Vec::new();
                v.push(one);
                proof {
                    let i = choose|i: int|
                        0 <= i < self@.len() && (#[trigger] self@[i]).0 == p@ && c@ == self@[i].1;
                    let i2 = choose|i2: int|
                        0 <= i2 < self@.len() && self.names()[i2] == p@;
                    assert(self.names()[i] == p@);
                    assert(self.names()[i2] == p@);
                    if i != i2 {
                        assert(false);
                    }
                    assert(entry_views(v@) =~= seq![self@[i2]]);
                }
                Ok(v)
            },
            None => {
                let mut v: Vec<(String, ProfileConfig)> = Vec::new();
                let mut i: usize = 0;
                while i < self.entries.len()
                    invariant
                        0 <= i <= self@.len(),
                        entry_views(v@) =~= self@.take(i as int),
                    decreases self@.len() - i,
                {
                    let name = self.entries[i].0.clone();
                    let cfg = self.entries[i].1.duplicate();
                    let ghost nv = name@;
                    let ghost cv = cfg@;
                    proof {
                        assert(entry_views(v@).len() == v@.len());
                        assert(v@.len() == i as int);
                    }
                    v.push((name, cfg));
                    proof {
                        assert(v@.len() == i + 1);
                        assert(v@[i as int].0@ == nv);
                        assert(v@[i as int].1@ == cv);
                        assert(entry_views(v@)[i as int] == (nv, cv));
                        assert(self@[i as int] == (self.entries@[i as int].0@, self.entries@[i as int].1@));
                        assert(nv == self.entries@[i as int].0@);
                        assert(cv == self.entries@[i as int].1@);
                        assert(entry_views(v@) =~= self@.take(i as int + 1));
                    }
                    i = i + 1;
                }
                proof {
                    assert(self@.take(self@.len() as int) =~= self@);
                    assert(entry_views(v@) == self@);
                }
                Ok(v)
            },
        }
    }
}

} // verus!
