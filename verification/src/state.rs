use vstd::prelude::*;
use vstd::slice::slice_to_vec;
use vstd::string::StringSliceAdditionalSpecFns;
use vstd::utf8::encode_utf8;
use crate::config::{spec_resolve, resolve_refs, Config};
use crate::level::{LogLevel, LogLevelFilter};
use crate::paths::split_path;
use crate::tree::{
    lemma_add_bounded, lemma_find_bounded, ConfiguredLogger, NodeModel,
};
use crate::{Append, LogRecord};

verus! {

broadcast use vstd::seq::group_seq_axioms, vstd::std_specs::vec::group_vec_axioms;

/// Mathematical model of one logging state: the configuration tree and how
/// many live sinks the state owns.
#[verifier::ext_equal]
pub ghost struct SharedModel {
    pub tree: NodeModel,
    pub appender_count: nat,
}

/// The root node a configuration starts from: the root rule's threshold and
/// its sink references resolved to table indices.
pub open spec fn spec_root<A: Append>(c: Config<A>) -> NodeModel {
    NodeModel {
        level: c.root.level,
        appenders: spec_resolve(c.names(), c.root.appenders@),
        children: Seq::empty(),
    }
}

/// The named-logger rules applied to a starting tree, in order.
pub open spec fn spec_apply<A: Append>(
    t: NodeModel,
    c: Config<A>,
    rules: Seq<crate::config::Logger>,
) -> NodeModel
    decreases rules.len(),
{
    if rules.len() == 0 {
        t
    } else {
        spec_apply(
            t.spec_add(
                encode_utf8(rules[0].name@),
                spec_resolve(c.names(), rules[0].appenders@),
                rules[0].additive,
                rules[0].level,
            ),
            c,
            rules.drop_first(),
        )
    }
}

/// The tree a whole configuration builds.
pub open spec fn spec_built<A: Append>(c: Config<A>) -> NodeModel {
    spec_apply(spec_root(c), c, c.loggers@)
}

pub proof fn lemma_spec_apply_concat<A: Append>(
    t: NodeModel,
    c: Config<A>,
    s1: Seq<crate::config::Logger>,
    s2: Seq<crate::config::Logger>,
)
    ensures
        spec_apply(t, c, s1 + s2) == spec_apply(spec_apply(t, c, s1), c, s2),
    decreases s1.len(),
{
    if s1.len() == 0 {
        assert(s1 + s2 =~= s2);
    } else {
        assert((s1 + s2)[0] == s1[0]);
        assert((s1 + s2).drop_first() =~= s1.drop_first() + s2);
        let t2 = t.spec_add(
            encode_utf8(s1[0].name@),
            spec_resolve(c.names(), s1[0].appenders@),
            s1[0].additive,
            s1[0].level,
        );
        lemma_spec_apply_concat(t2, c, s1.drop_first(), s2);
    }
}

pub proof fn lemma_apply_preserves_wf_names<A: Append>(
    t: NodeModel,
    c: Config<A>,
    rules: Seq<crate::config::Logger>,
)
    requires
        t.wf_names(),
    ensures
        spec_apply(t, c, rules).wf_names(),
    decreases rules.len(),
{
    if rules.len() == 0 {
    } else {
        crate::tree::lemma_add_preserves_wf_names(
            t,
            encode_utf8(rules[0].name@),
            spec_resolve(c.names(), rules[0].appenders@),
            rules[0].additive,
            rules[0].level,
        );
        lemma_apply_preserves_wf_names(
            t.spec_add(
                encode_utf8(rules[0].name@),
                spec_resolve(c.names(), rules[0].appenders@),
                rules[0].additive,
                rules[0].level,
            ),
            c,
            rules.drop_first(),
        );
    }
}

/// Every tree a configuration builds has distinct child names at every node,
/// so the precomputed maximum threshold is attained by some resolvable path.
pub proof fn lemma_built_wf_names<A: Append>(c: Config<A>)
    ensures
        spec_built(c).wf_names(),
{
    let root = spec_root(c);
    assert(crate::tree::wf_names_from(root.children));
    assert(root.wf_names());
    lemma_apply_preserves_wf_names(root, c, c.loggers@);
}

/// Whether an event at `level` from `path` is enabled in state `m`.
pub open spec fn spec_enabled(m: SharedModel, level: LogLevel, path: Seq<u8>) -> bool {
    m.tree.spec_find(split_path(path)).level.spec_admits(level)
}

/// The sink indices an event at `level` from `path` is dispatched to in
/// state `m`, in dispatch order: the resolved node's sinks when the event is
/// enabled, none otherwise.
pub open spec fn spec_dispatch(m: SharedModel, level: LogLevel, path: Seq<u8>) -> Seq<usize> {
    let node = m.tree.spec_find(split_path(path));
    if node.level.spec_admits(level) {
        node.appenders
    } else {
        Seq::empty()
    }
}

/// Dispatch determinism: which sinks an event reaches, and in what order, is
/// a function of the logging state and the event alone, so two dispatches of
/// the same event against the same unchanged state invoke the same sinks in
/// the same order.
pub proof fn lemma_dispatch_deterministic(
    m1: SharedModel,
    m2: SharedModel,
    level: LogLevel,
    path: Seq<u8>,
)
    requires
        m1 == m2,
    ensures
        spec_dispatch(m1, level, path) == spec_dispatch(m2, level, path),
{
}

/// One logging state: a configuration tree and the sink table its indices
/// refer into.  Built fresh from a configuration and replaced wholesale on
/// reload, never edited.
pub struct SharedLogger<A: Append> {
    pub root: ConfiguredLogger,
    pub appenders: Vec<A>,
}

impl<A: Append> View for SharedLogger<A> {
    type V = SharedModel;

    open spec fn view(&self) -> SharedModel {
        SharedModel { tree: self.root@, appender_count: self.appenders@.len() as nat }
    }
}

impl<A: Append> SharedLogger<A> {
    /// Every sink index anywhere in the tree refers into the sink table.
    pub open spec fn wf(self) -> bool {
        self@.tree.bounded(self@.appender_count)
    }

    /// Builds the lookup tree from the flat rule list: the root node first,
    /// then each rule in configuration order, with sink names resolved to
    /// table indices.
    pub fn new(config: Config<A>) -> (r: SharedLogger<A>)
        requires
            config.wf(),
        ensures
            r@.tree == spec_built(config),
            r@.appender_count == config.appenders@.len(),
            r.wf(),
    {
        let ghost gconfig = config;
        let root_apps = resolve_refs(&config.appenders, &config.root.appenders);
        let mut root = ConfiguredLogger {
            level: config.root.level,
            appenders: root_apps,
            children: Vec::new(),
        };
        proof {
            assert(root.children@ =~= Seq::<(Vec<u8>, Box<ConfiguredLogger>)>::empty());
            assert(crate::tree::children_model(root.children@) =~= Seq::<(Seq<u8>, NodeModel)>::empty());
            assert(root@ =~= spec_root(gconfig));
            assert(root@ == spec_root(gconfig));
            assert(gconfig.loggers@.take(0) =~= Seq::<crate::config::Logger>::empty());
            assert(root@.bounded(gconfig.appenders@.len() as nat));
        }
        let n = config.loggers.len();
        let mut i: usize = 0;
        while i < n
            invariant
                config == gconfig,
                config.wf(),
                n == config.loggers@.len(),
                i <= n,
                root@ == spec_apply(spec_root(gconfig), gconfig, gconfig.loggers@.take(i as int)),
                root@.bounded(gconfig.appenders@.len() as nat),
            decreases n - i,
        {
            let ghost before = root@;
            let rule = &config.loggers[i];
            proof {
                assert(crate::config::all_resolvable(gconfig.names(), gconfig.loggers@[i as int].appenders@));
            }
            let apps = resolve_refs(&config.appenders, &rule.appenders);
            root.add(rule.name.as_str(), apps, rule.additive, rule.level);
            proof {
                let gi = gconfig.loggers@[i as int];
                let stepped = before.spec_add(
                    encode_utf8(gi.name@),
                    spec_resolve(gconfig.names(), gi.appenders@),
                    gi.additive,
                    gi.level,
                );
                assert(root@ == stepped);
                lemma_spec_apply_concat(
                    spec_root(gconfig),
                    gconfig,
                    gconfig.loggers@.take(i as int),
                    seq![gi],
                );
                assert(gconfig.loggers@.take(i as int) + seq![gi] =~= gconfig.loggers@.take(
                    i + 1));
                let single = seq![gi];
                assert(single.drop_first() =~= Seq::<crate::config::Logger>::empty());
                assert(spec_apply(stepped, gconfig, Seq::<crate::config::Logger>::empty())
                    == stepped);
                assert(spec_apply(before, gconfig, single) == stepped);
                lemma_add_bounded(
                    before,
                    encode_utf8(gi.name@),
                    spec_resolve(gconfig.names(), gi.appenders@),
                    gi.additive,
                    gi.level,
                    gconfig.appenders@.len() as nat,
                );
            }
            i = i + 1;
        }
        proof {
            assert(gconfig.loggers@.take(n as int) =~= gconfig.loggers@);
        }
        let Config { appenders, root: _, loggers: _ } = config;
        let mut rest = appenders;
        let mut sinks: Vec<A> = Vec::new();
        while rest.len() > 0
            invariant
                sinks@.len() + rest@.len() == gconfig.appenders@.len(),
            decreases rest@.len(),
        {
            let a = rest.remove(0);
            sinks.push(a.appender);
        }
        SharedLogger { root, appenders: sinks }
    }

    /// Whether an event at `level` originating at `path` is enabled: resolve
    /// the path, compare against the resolved node's threshold.
    pub fn enabled(&self, level: LogLevel, path: &str) -> (r: bool)
        ensures
            r == spec_enabled(self@, level, path.spec_bytes()),
    {
        self.root.find(path).enabled(level)
    }

    /// The sink indices one event would be dispatched to, in dispatch order.
    pub fn dispatch_targets(&self, level: LogLevel, path: &str) -> (r: Vec<usize>)
        ensures
            r@ == spec_dispatch(self@, level, path.spec_bytes()),
    {
        let node = self.root.find(path);
        if node.enabled(level) {
            slice_to_vec(node.appenders.as_slice())
        } else {
            Vec::new()
        }
    }

    /// Dispatches one record: resolves its origin path and, when enabled,
    /// hands the record to each of the resolved node's sinks in order.  The
    /// tree and the sink count are untouched, so the state stays well
    /// formed.
    pub fn log(&mut self, record: &LogRecord)
        requires
            old(self).wf(),
        ensures
            final(self).wf(),
            final(self)@ == old(self)@,
    {
        proof {
            lemma_find_bounded(
                self@.tree,
                split_path(encode_utf8(record.path@)),
                self@.appender_count,
            );
        }
        let node = self.root.find(record.path.as_str());
        node.log(record, &mut self.appenders);
    }
}

} // verus!
