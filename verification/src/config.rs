use vstd::prelude::*;
use crate::level::LogLevelFilter;
use crate::Append;

verus! {

/// A named sink instance: the name is what rules refer to it by.
pub struct Appender<A: Append> {
    pub name: String,
    pub appender: A,
}

impl<A: Append> Appender<A> {
    pub fn new(name: String, appender: A) -> (r: Appender<A>)
        ensures
            r.name == name,
            r.appender == appender,
    {
        Appender { name, appender }
    }
}

/// The root logger's configuration: its threshold and the names of the sinks
/// it dispatches to.
pub struct Root {
    pub level: LogLevelFilter,
    pub appenders: Vec<String>,
}

impl Root {
    pub fn new(level: LogLevelFilter) -> (r: Root)
        ensures
            r.level == level,
            r.appenders@.len() == 0,
    {
        Root { level, appenders: Vec::new() }
    }

    pub fn with_appenders(level: LogLevelFilter, appenders: Vec<String>) -> (r: Root)
        ensures
            r.level == level,
            r.appenders == appenders,
    {
        Root { level, appenders }
    }
}

/// One named-logger rule: a namespace path, a threshold, the names of the
/// sinks it dispatches to, and whether ancestor sinks are inherited.
pub struct Logger {
    pub name: String,
    pub level: LogLevelFilter,
    pub appenders: Vec<String>,
    pub additive: bool,
}

impl Logger {
    /// A rule with no sinks of its own, additive by default.
    pub fn new(name: String, level: LogLevelFilter) -> (r: Logger)
        ensures
            r.name == name,
            r.level == level,
            r.appenders@.len() == 0,
            r.additive == true,
    {
        Logger { name, level, appenders: Vec::new(), additive: true }
    }

    pub fn with_appenders(
        name: String,
        level: LogLevelFilter,
        appenders: Vec<String>,
        additive: bool,
    ) -> (r: Logger)
        ensures
            r.name == name,
            r.level == level,
            r.appenders == appenders,
            r.additive == additive,
    {
        Logger { name, level, appenders, additive }
    }
}

/// Why a configuration was rejected.
#[derive(Clone, Copy, Debug, PartialEq, Eq, Structural)]
pub enum ConfigError {
    /// Two sinks carry the same name.
    DuplicateAppender,
    /// The root or a rule refers to a sink name that no sink carries.
    UnknownAppender,
}

/// Position of the first occurrence of `name` among `names`, or -1.
pub open spec fn name_index(names: Seq<Seq<char>>, name: Seq<char>) -> int
    decreases names.len(),
{
    if names.len() == 0 {
        -1
    } else if names[0] == name {
        0
    } else {
        let r = name_index(names.drop_first(), name);
        if r < 0 {
            -1
        } else {
            r + 1
        }
    }
}

pub proof fn lemma_name_index(names: Seq<Seq<char>>, name: Seq<char>)
    ensures
        name_index(names, name) == -1 ==> forall|j: int| 0 <= j < names.len() ==> names[j] != name,
        name_index(names, name) >= 0 ==> {
            &&& name_index(names, name) < names.len()
            &&& names[name_index(names, name)] == name
            &&& forall|j: int| 0 <= j < name_index(names, name) ==> names[j] != name
        },
    decreases names.len(),
{
    if names.len() == 0 {
    } else if names[0] == name {
    } else {
        let t = names.drop_first();
        lemma_name_index(t, name);
        assert forall|j: int| 1 <= j < names.len() implies names[j] == t[j - 1] by {}
        let r = name_index(t, name);
        if r >= 0 {
            assert(names[r + 1] == t[r]);
        }
    }
}

/// The sink names of a sink table, in table order.
pub open spec fn names_of<A: Append>(apps: Seq<Appender<A>>) -> Seq<Seq<char>> {
    apps.map_values(|a: Appender<A>| a.name@)
}

/// All names a rule or the root refers to, resolved to sink-table indices.
pub open spec fn spec_resolve(names: Seq<Seq<char>>, refs: Seq<String>) -> Seq<usize> {
    refs.map_values(|s: String| name_index(names, s@) as usize)
}

/// Whether every reference in `refs` names some sink in `names`.
pub open spec fn all_resolvable(names: Seq<Seq<char>>, refs: Seq<String>) -> bool {
    forall|j: int| 0 <= j < refs.len() ==> name_index(names, refs[j]@) >= 0
}

/// A complete configuration: the sink table, the root logger, and the rules,
/// in the order they are to be applied.
pub struct Config<A: Append> {
    pub appenders: Vec<Appender<A>>,
    pub root: Root,
    pub loggers: Vec<Logger>,
}

impl<A: Append> Config<A> {
    /// The sink names, in table order.
    pub open spec fn names(self) -> Seq<Seq<char>> {
        names_of(self.appenders@)
    }

    /// No two sinks share a name.
    pub open spec fn distinct_names(self) -> bool {
        forall|i: int, j: int| 0 <= i < j < self.names().len() ==> self.names()[i] != self.names()[j]
    }

    /// The root and every rule refer only to sinks that exist.
    pub open spec fn resolvable(self) -> bool {
        &&& all_resolvable(self.names(), self.root.appenders@)
        &&& forall|i: int|
            0 <= i < self.loggers@.len() ==> all_resolvable(self.names(), self.loggers@[i].appenders@)
    }

    pub open spec fn wf(self) -> bool {
        self.distinct_names() && self.resolvable()
    }

    /// Validates and assembles a configuration: rejected exactly when two
    /// sinks share a name or a reference resolves to no sink.
    pub fn new(appenders: Vec<Appender<A>>, root: Root, loggers: Vec<Logger>) -> (r: Result<
        Config<A>,
        ConfigError,
    >)
        ensures
            ({
                let c = Config { appenders, root, loggers };
                match r {
                    Ok(out) => out == c && c.wf(),
                    Err(ConfigError::DuplicateAppender) => !c.distinct_names(),
                    Err(ConfigError::UnknownAppender) => c.distinct_names() && !c.resolvable(),
                }
            }),
    {
        let c = Config { appenders, root, loggers };
        let n = c.appenders.len();
        proof {
            assert(c.names().len() == n);
        }
        let mut i: usize = 0;
        while i < n
            invariant
                c == (Config { appenders, root, loggers }),
                n == c.appenders@.len(),
                n == c.names().len(),
                i <= n,
                forall|a: int, b: int| 0 <= a < b < i ==> c.names()[a] != c.names()[b],
                forall|a: int| 0 <= a < c.appenders@.len() ==> c.names()[a] == c.appenders@[a].name@,
            decreases n - i,
        {
            let mut j: usize = 0;
            while j < i
                invariant
                    c == (Config { appenders, root, loggers }),
                    n == c.appenders@.len(),
                    n == c.names().len(),
                    j <= i < n,
                    forall|a: int| 0 <= a < j ==> c.names()[a] != c.names()[i as int],
                    forall|a: int|
                        0 <= a < c.appenders@.len() ==> c.names()[a] == c.appenders@[a].name@,
                decreases i - j,
            {
                if c.appenders[j].name.eq(&c.appenders[i].name) {
                    proof {
                        assert(c.names()[j as int] == c.names()[i as int]);
                        assert(!c.distinct_names());
                    }
                    return Err(ConfigError::DuplicateAppender);
                }
                j = j + 1;
            }
            i = i + 1;
        }
        proof {
            assert(c.distinct_names());
        }
        match check_refs(&c.appenders, &c.root.appenders) {
            Some(e) => {
                return Err(e);
            },
            None => {},
        }
        let m = c.loggers.len();
        let mut k: usize = 0;
        while k < m
            invariant
                c == (Config { appenders, root, loggers }),
                m == c.loggers@.len(),
                k <= m,
                c.distinct_names(),
                all_resolvable(c.names(), c.root.appenders@),
                forall|i2: int| 0 <= i2 < k ==> all_resolvable(c.names(), c.loggers@[i2].appenders@),
            decreases m - k,
        {
            match check_refs(&c.appenders, &c.loggers[k].appenders) {
                Some(e) => {
                    proof {
                        assert(!all_resolvable(c.names(), c.loggers@[k as int].appenders@));
                        assert(!c.resolvable());
                    }
                    return Err(e);
                },
                None => {},
            }
            k = k + 1;
        }
        Ok(c)
    }
}

/// Looks `name` up in the sink table.
pub fn find_name<A: Append>(appenders: &Vec<Appender<A>>, name: &String) -> (r: Option<usize>)
    ensures
        ({
            let names = names_of(appenders@);
            match r {
                Some(i) => name_index(names, name@) == i && i < appenders@.len(),
                None => name_index(names, name@) == -1,
            }
        }),
{
    let ghost names = names_of(appenders@);
    let n = appenders.len();
    let mut i: usize = 0;
    while i < n
        invariant
            n == appenders@.len(),
            names == names_of(appenders@),
            names.len() == n,
            i <= n,
            forall|j: int| 0 <= j < n ==> names[j] == appenders@[j].name@,
            forall|j: int| 0 <= j < i ==> names[j] != name@,
        decreases n - i,
    {
        if appenders[i].name.eq(name) {
            proof {
                lemma_name_index(names, name@);
                let r = name_index(names, name@);
                if r == -1 {
                    assert(names[i as int] != name@);
                } else if r < i {
                    assert(names[r] != name@);
                } else if r > i {
                    assert(names[i as int] != name@);
                }
            }
            return Some(i);
        }
        i = i + 1;
    }
    proof {
        lemma_name_index(names, name@);
        let r = name_index(names, name@);
        if r >= 0 {
            assert(names[r] != name@);
        }
    }
    None
}

/// Checks that every reference resolves; reports the error otherwise.
fn check_refs<A: Append>(appenders: &Vec<Appender<A>>, refs: &Vec<String>) -> (r: Option<
    ConfigError,
>)
    ensures
        ({
            let names = names_of(appenders@);
            match r {
                None => all_resolvable(names, refs@),
                Some(e) => e == ConfigError::UnknownAppender && !all_resolvable(names, refs@),
            }
        }),
{
    let ghost names = names_of(appenders@);
    let n = refs.len();
    let mut i: usize = 0;
    while i < n
        invariant
            n == refs@.len(),
            names == names_of(appenders@),
            i <= n,
            forall|j: int| 0 <= j < i ==> name_index(names, refs@[j]@) >= 0,
        decreases n - i,
    {
        match find_name(appenders, &refs[i]) {
            Some(_) => {},
            None => {
                return Some(ConfigError::UnknownAppender);
            },
        }
        i = i + 1;
    }
    None
}

/// Resolves every reference to its index in the sink table.
pub fn resolve_refs<A: Append>(appenders: &Vec<Appender<A>>, refs: &Vec<String>) -> (r: Vec<usize>)
    requires
        all_resolvable(names_of(appenders@), refs@),
    ensures
        r@ == spec_resolve(names_of(appenders@), refs@),
        forall|j: int| 0 <= j < r@.len() ==> r@[j] < appenders@.len(),
{
    let ghost names = names_of(appenders@);
    let n = refs.len();
    let mut out: Vec<usize> = Vec::new();
    let mut i: usize = 0;
    while i < n
        invariant
            n == refs@.len(),
            names == names_of(appenders@),
            all_resolvable(names, refs@),
            i <= n,
            out@ =~= spec_resolve(names, refs@).take(i as int),
            forall|j: int| 0 <= j < out@.len() ==> out@[j] < appenders@.len(),
        decreases n - i,
    {
        match find_name(appenders, &refs[i]) {
            Some(idx) => {
                out.push(idx);
            },
            None => {
                proof {
                    assert(name_index(names, refs@[i as int]@) >= 0);
                }
                proof {
                    assert(false);
                }
                return out;
            },
        }
        i = i + 1;
    }
    proof {
        assert(out@ =~= spec_resolve(names, refs@));
    }
    out
}

} // verus!
