//! Router configuration: the router's own key, the listening address, the
//! failover settings and the provider groups.  A request's `model` names the
//! group that serves it.

use crate::error::RouterError;
use crate::text::{chars_of, copy_str, equals_at, has_prefix, has_suffix, push_str, starts_with_at, str_eq, string_of};
use vstd::prelude::*;

verus! {

#[derive(Debug, Clone)]
pub struct Config {
    pub router: RouterConfig,
    pub server: ServerConfig,
    /// Named provider groups, in configuration order.
    pub groups: Vec<(String, GroupConfig)>,
}

#[derive(Debug, Clone)]
pub struct RouterConfig {
    /// Key that clients must present.
    pub api_key: String,
}

#[derive(Debug, Clone)]
pub struct ServerConfig {
    pub host: String,
    pub port: u16,
}

/// A group of providers with its own failover settings.
#[derive(Debug, Clone)]
pub struct GroupConfig {
    pub failover: FailoverConfig,
    pub providers: Vec<ProviderConfig>,
}

#[derive(Debug, Clone)]
pub struct FailoverConfig {
    pub failure_threshold: u32,
    pub recovery_timeout: u64,
}

/// The settings of a group without a failover section: the documented
/// defaults, 3 failures and 60 seconds.
impl Default for FailoverConfig {
    fn default() -> (f: Self)
        ensures
            f.failure_threshold == 3,
            f.recovery_timeout == 60,
    {
        FailoverConfig { failure_threshold: default_failure_threshold(), recovery_timeout: default_recovery_timeout() }
    }
}

#[derive(Debug, Clone)]
pub struct ProviderConfig {
    pub name: String,
    pub endpoint: String,
    pub api_key: String,
    /// Lower numbers are tried first.
    pub priority: u32,
    pub ssl_verify: bool,
    /// Models to ask this provider for; when empty the group name is passed on.
    pub models: Vec<String>,
}

pub fn default_host() -> (s: String)
    ensures
        s@ == "0.0.0.0"@,
{
    copy_str("0.0.0.0")
}

pub fn default_port() -> (p: u16)
    ensures
        p == 8080,
{
    8080
}

pub fn default_ssl_verify() -> (b: bool)
    ensures
        b,
{
    true
}

pub fn default_failure_threshold() -> (n: u32)
    ensures
        n == 3,
{
    3
}

pub fn default_recovery_timeout() -> (n: u64)
    ensures
        n == 60,
{
    60
}

/// The variable named by a value of the form `${NAME}`.
pub open spec fn env_reference(s: Seq<char>) -> Option<Seq<char>> {
    if has_prefix(s, "${"@) && has_suffix(s.subrange("${"@.len() as int, s.len() as int), "}"@) {
        Some(s.subrange("${"@.len() as int, s.len() - "}"@.len()))
    } else {
        None
    }
}

/// `${NAME}` refers to the variable `NAME`, for every name; a value that
/// does not start with `${` and end with `}` refers to none.
pub proof fn law_env_reference(name: Seq<char>, s: Seq<char>)
    ensures
        env_reference("${"@ + name + "}"@) == Some(name),
        !(s.len() >= 3 && s.subrange(0, 2) == "${"@ && s[s.len() - 1] == '}') ==> env_reference(s) is None,
{
    reveal_strlit("${");
    reveal_strlit("}");
    let r = "${"@ + name + "}"@;
    assert(r.subrange(0, 2) =~= "${"@);
    let rest = r.subrange(2, r.len() as int);
    assert(rest.subrange(rest.len() - 1, rest.len() as int) =~= "}"@);
    assert(r.subrange(2, r.len() - 1) =~= name);
    if env_reference(s) is Some {
        let rest2 = s.subrange(2, s.len() as int);
        assert(rest2.subrange(rest2.len() - 1, rest2.len() as int)[0] == s[s.len() - 1]);
    }
}

/// The name of the environment variable that `s` refers to, when `s` has the
/// form `${NAME}`.
pub fn env_var_name(s: &str) -> (r: Option<String>)
    ensures
        r is Some <==> env_reference(s@) is Some,
        r matches Some(n) ==> n@ == env_reference(s@)->0,
{
    let v = chars_of(s);
    let open = chars_of("${");
    let close = chars_of("}");
    if !starts_with_at(&v, 0, v.len(), &open) {
        assert(v@.subrange(0, v@.len() as int) == v@);
        return None;
    }
    assert(v@.subrange(0, v@.len() as int) == v@);
    let from = open.len();
    let ghost rest = v@.subrange(from as int, v@.len() as int);
    if close.len() > v.len() - from {
        return None;
    }
    let to = v.len() - close.len();
    let ok = equals_at(&v, to, v.len(), &close);
    assert(rest.subrange(rest.len() - close@.len(), rest.len() as int) == v@.subrange(to as int, v@.len() as int));
    if ok {
        Some(string_of(&v, from, to))
    } else {
        None
    }
}

/// The configured value `s` with a `${NAME}` reference replaced by the
/// variable's value; `value` is what the environment holds for that name.
/// Without a reference, or without a value, `s` stays as it is.
pub fn expand_env(s: &str, value: Option<String>) -> (r: String)
    ensures
        r@ == (match (env_reference(s@), value) {
            (Some(_), Some(v)) => v@,
            _ => s@,
        }),
{
    match (env_var_name(s), value) {
        (Some(_), Some(v)) => v,
        _ => copy_str(s),
    }
}

/// The message of a missing group.
pub open spec fn group_missing_message(name: Seq<char>) -> Seq<char> {
    "Group '"@ + name + "' not found in configuration"@
}

/// No two groups share a name, as in a configuration read from a map of
/// named groups.
pub open spec fn group_names_distinct(groups: Seq<(String, GroupConfig)>) -> bool {
    forall|i: int, j: int| 0 <= i < j < groups.len() ==> #[trigger] groups[i].0@ != #[trigger] groups[j].0@
}

/// Where group names are distinct, a name picks out at most one group: the
/// group at `i` is the only one called by its name, so it is the one that
/// `find_group` and `group_position` give.
pub proof fn law_group_unique(groups: Seq<(String, GroupConfig)>, i: int)
    requires
        group_names_distinct(groups),
        0 <= i < groups.len(),
    ensures
        forall|j: int| 0 <= j < groups.len() && #[trigger] groups[j].0@ == groups[i].0@ ==> j == i,
{
    assert forall|j: int| 0 <= j < groups.len() && #[trigger] groups[j].0@ == groups[i].0@ implies j == i by {
        if j < i {
            assert(groups[j].0@ != groups[i].0@);
        } else if j > i {
            assert(groups[i].0@ != groups[j].0@);
        }
    }
}

impl Config {
    /// The position of the group named `name`: the first one with that name.
    pub fn group_position(&self, name: &str) -> (r: Result<usize, RouterError>)
        ensures
            match r {
                Ok(i) => {
                    &&& i < self.groups@.len()
                    &&& self.groups@[i as int].0@ == name@
                    &&& forall|j: int| 0 <= j < i ==> self.groups@[j].0@ != name@
                },
                Err(e) => {
                    &&& forall|i: int| 0 <= i < self.groups@.len() ==> self.groups@[i].0@ != name@
                    &&& e matches RouterError::Config(msg) && msg@ == group_missing_message(name@)
                },
            },
    {
        let mut i: usize = 0;
        while i < self.groups.len()
            invariant
                i <= self.groups@.len(),
                forall|j: int| 0 <= j < i ==> self.groups@[j].0@ != name@,
            decreases self.groups@.len() - i,
        {
            if str_eq(self.groups[i].0.as_str(), name) {
                return Ok(i);
            }
            i += 1;
        }
        let mut msg = copy_str("Group '");
        push_str(&mut msg, name);
        push_str(&mut msg, "' not found in configuration");
        Err(RouterError::Config(msg))
    }

    /// The group named `name`: the first one with that name.
    pub fn find_group(&self, name: &str) -> (r: Result<&GroupConfig, RouterError>)
        ensures
            match r {
                Ok(g) => exists|i: int|
                    0 <= i < self.groups@.len() && #[trigger] self.groups@[i].0@ == name@
                        && (forall|j: int| 0 <= j < i ==> self.groups@[j].0@ != name@)
                        && *g == self.groups@[i].1,
                Err(e) => {
                    &&& forall|i: int| 0 <= i < self.groups@.len() ==> self.groups@[i].0@ != name@
                    &&& e matches RouterError::Config(msg) && msg@ == group_missing_message(name@)
                },
            },
    {
        match self.group_position(name) {
            Ok(i) => Ok(&self.groups[i].1),
            Err(e) => Err(e),
        }
    }
}

} // verus!
