use vstd::prelude::*;
use vstd::slice::{slice_subrange, slice_to_vec};
use vstd::string::StringSliceAdditionalSpecFns;
use crate::level::{LogLevel, LogLevelFilter};
use crate::{handle_error, Append, LogRecord};
use crate::paths::{bytes_eq, find_sep, head_part, lemma_sep_index, sep_at, sep_index, split_path, tail_rest};

verus! {

broadcast use vstd::seq::group_seq_axioms, vstd::std_specs::vec::group_vec_axioms;

/// Mathematical model of one node of the configuration tree: its severity
/// threshold, the sink indices it dispatches to, and its children, keyed by
/// one path segment each.
#[verifier::ext_equal]
pub ghost struct NodeModel {
    pub level: LogLevelFilter,
    pub appenders: Seq<usize>,
    pub children: Seq<(Seq<u8>, NodeModel)>,
}

/// Position of the first child named `name`, or -1 if there is none.
pub open spec fn child_index_in(cs: Seq<(Seq<u8>, NodeModel)>, name: Seq<u8>) -> int
    decreases cs.len(),
{
    if cs.len() == 0 {
        -1
    } else if cs[0].0 == name {
        0
    } else {
        let r = child_index_in(cs.drop_first(), name);
        if r < 0 {
            -1
        } else {
            r + 1
        }
    }
}

pub proof fn lemma_child_index(cs: Seq<(Seq<u8>, NodeModel)>, name: Seq<u8>)
    ensures
        child_index_in(cs, name) == -1 ==> forall|j: int| 0 <= j < cs.len() ==> cs[j].0 != name,
        child_index_in(cs, name) >= 0 ==> {
            &&& child_index_in(cs, name) < cs.len()
            &&& cs[child_index_in(cs, name)].0 == name
            &&& forall|j: int| 0 <= j < child_index_in(cs, name) ==> cs[j].0 != name
        },
    decreases cs.len(),
{
    if cs.len() == 0 {
    } else if cs[0].0 == name {
    } else {
        let t = cs.drop_first();
        lemma_child_index(t, name);
        assert forall|j: int| 1 <= j < cs.len() implies cs[j] == t[j - 1] by {}
        let r = child_index_in(t, name);
        if r >= 0 {
            assert(cs[r + 1].0 == t[r].0);
        }
    }
}

impl NodeModel {
    pub open spec fn child_index(self, name: Seq<u8>) -> int {
        child_index_in(self.children, name)
    }

    /// Longest-prefix resolution: descend while each next segment names a
    /// child; stop at the first segment with no match.
    pub open spec fn spec_find(self, segs: Seq<Seq<u8>>) -> NodeModel
        decreases segs.len(),
    {
        if segs.len() == 0 {
            self
        } else {
            let i = self.child_index(segs[0]);
            if 0 <= i < self.children.len() {
                self.children[i].1.spec_find(segs.drop_first())
            } else {
                self
            }
        }
    }

    /// Registration of one rule, as the tree builds it: descend along
    /// existing children; at the first missing segment create the remaining
    /// chain, each intermediate inheriting this node's threshold and sinks
    /// verbatim, and the final node taking the rule's threshold and sinks,
    /// extended with the current node's own sinks when the rule is additive.
    pub open spec fn spec_add(
        self,
        path: Seq<u8>,
        apps: Seq<usize>,
        additive: bool,
        level: LogLevelFilter,
    ) -> NodeModel
        decreases path.len(), self,
    {
        let part = head_part(path);
        let restb = tail_rest(path);
        let i = self.child_index(part);
        if 0 <= i < self.children.len() {
            NodeModel {
                level: self.level,
                appenders: self.appenders,
                children: self.children.update(
                    i,
                    (part, self.children[i].1.spec_add(restb, apps, additive, level)),
                ),
            }
        } else if restb.len() == 0 {
            let target = NodeModel {
                level: level,
                appenders: if additive {
                    apps + self.appenders
                } else {
                    apps
                },
                children: Seq::empty(),
            };
            NodeModel {
                level: self.level,
                appenders: self.appenders,
                children: self.children.push((part, target)),
            }
        } else {
            let fresh = NodeModel {
                level: self.level,
                appenders: self.appenders,
                children: Seq::empty(),
            };
            NodeModel {
                level: self.level,
                appenders: self.appenders,
                children: self.children.push(
                    (part, fresh.spec_add(restb, apps, additive, level)),
                ),
            }
        }
    }

    /// The most verbose threshold reachable from this node.
    pub open spec fn spec_max(self) -> LogLevelFilter
        decreases self,
    {
        max_from(self.level, self.children)
    }

    /// Whether every sink index in this subtree is below `n`.
    pub open spec fn bounded(self, n: nat) -> bool
        decreases self,
    {
        &&& (forall|j: int| 0 <= j < self.appenders.len() ==> self.appenders[j] < n)
        &&& bounded_from(self.children, n)
    }
}

pub open spec fn max_from(acc: LogLevelFilter, cs: Seq<(Seq<u8>, NodeModel)>) -> LogLevelFilter
    decreases cs,
{
    if cs.len() == 0 {
        acc
    } else {
        max_from(acc.spec_max(cs[0].1.spec_max()), cs.drop_first())
    }
}

pub open spec fn bounded_from(cs: Seq<(Seq<u8>, NodeModel)>, n: nat) -> bool
    decreases cs,
{
    cs.len() == 0 || (cs[0].1.bounded(n) && bounded_from(cs.drop_first(), n))
}

impl NodeModel {
    /// How many leading segments of `segs` match a chain of children.
    pub open spec fn match_depth(self, segs: Seq<Seq<u8>>) -> int
        decreases segs.len(),
    {
        if segs.len() == 0 {
            0
        } else {
            let i = self.child_index(segs[0]);
            if 0 <= i < self.children.len() {
                1 + self.children[i].1.match_depth(segs.drop_first())
            } else {
                0
            }
        }
    }

    /// Whether registering a rule for `path` creates the rule's own node,
    /// rather than landing inside an already-registered chain: the descent
    /// must reach a missing child before the remaining path runs out.
    pub open spec fn fresh_target(self, path: Seq<u8>) -> bool
        decreases path.len(), self,
    {
        let part = head_part(path);
        let restb = tail_rest(path);
        let i = self.child_index(part);
        if 0 <= i < self.children.len() {
            restb.len() > 0 && self.children[i].1.fresh_target(restb)
        } else {
            true
        }
    }
}

pub proof fn lemma_match_depth_bounds(t: NodeModel, segs: Seq<Seq<u8>>)
    ensures
        0 <= t.match_depth(segs) <= segs.len(),
    decreases segs.len(),
{
    if segs.len() == 0 {
    } else {
        let i = t.child_index(segs[0]);
        if 0 <= i < t.children.len() {
            lemma_match_depth_bounds(t.children[i].1, segs.drop_first());
        }
    }
}

/// Longest-prefix property: resolution depends only on the matched prefix of
/// the path; any path extending that prefix resolves to the same node as the
/// prefix itself.
pub proof fn lemma_longest_prefix(t: NodeModel, segs: Seq<Seq<u8>>, k: int)
    requires
        t.match_depth(segs) <= k <= segs.len(),
    ensures
        t.spec_find(segs.take(k)) == t.spec_find(segs),
    decreases segs.len(),
{
    lemma_match_depth_bounds(t, segs);
    if segs.len() == 0 {
        assert(segs.take(k) =~= segs);
    } else if k == 0 {
        let i = t.child_index(segs[0]);
        if 0 <= i < t.children.len() {
            lemma_match_depth_bounds(t.children[i].1, segs.drop_first());
            assert(false);
        }
        assert(segs.take(0) =~= Seq::<Seq<u8>>::empty());
    } else {
        let i = t.child_index(segs[0]);
        assert(segs.take(k)[0] == segs[0]);
        assert(segs.take(k).len() == k);
        if 0 <= i < t.children.len() {
            let c = t.children[i].1;
            lemma_match_depth_bounds(c, segs.drop_first());
            assert(segs.take(k).drop_first() =~= segs.drop_first().take(k - 1));
            lemma_longest_prefix(c, segs.drop_first(), k - 1);
        }
    }
}

pub proof fn lemma_child_index_update(
    cs: Seq<(Seq<u8>, NodeModel)>,
    j: int,
    p: (Seq<u8>, NodeModel),
    name: Seq<u8>,
)
    requires
        0 <= j < cs.len(),
        p.0 == cs[j].0,
    ensures
        child_index_in(cs.update(j, p), name) == child_index_in(cs, name),
    decreases cs.len(),
{
    if cs.len() == 0 {
    } else if j == 0 {
        assert(cs.update(0, p)[0] == p);
        assert(cs.update(0, p).drop_first() =~= cs.drop_first());
    } else {
        assert(cs.update(j, p)[0] == cs[0]);
        assert(cs.update(j, p).drop_first() =~= cs.drop_first().update(j - 1, p));
        lemma_child_index_update(cs.drop_first(), j - 1, p, name);
    }
}

pub proof fn lemma_child_index_push(
    cs: Seq<(Seq<u8>, NodeModel)>,
    p: (Seq<u8>, NodeModel),
    name: Seq<u8>,
)
    ensures
        child_index_in(cs, name) >= 0 ==> child_index_in(cs.push(p), name) == child_index_in(
            cs,
            name,
        ),
        child_index_in(cs, name) == -1 && p.0 == name ==> child_index_in(cs.push(p), name)
            == cs.len(),
        child_index_in(cs, name) == -1 && p.0 != name ==> child_index_in(cs.push(p), name) == -1,
    decreases cs.len(),
{
    if cs.len() == 0 {
        assert(cs.push(p)[0] == p);
        assert(cs.push(p).drop_first() =~= Seq::<(Seq<u8>, NodeModel)>::empty());
        assert(child_index_in(Seq::<(Seq<u8>, NodeModel)>::empty(), name) == -1);
    } else {
        assert(cs.push(p)[0] == cs[0]);
        assert(cs.push(p).drop_first() =~= cs.drop_first().push(p));
        lemma_child_index_push(cs.drop_first(), p, name);
    }
}

/// A rule registered for a path that is not already covered by earlier rules
/// is found again by resolution: the resolved node carries the rule's
/// threshold, and the rule's sinks followed by the anchor node's sinks when
/// the rule is additive, the rule's sinks alone when it is not.
pub proof fn lemma_add_then_find(
    t: NodeModel,
    path: Seq<u8>,
    apps: Seq<usize>,
    additive: bool,
    level: LogLevelFilter,
)
    requires
        t.fresh_target(path),
    ensures
        ({
            let u = t.spec_add(path, apps, additive, level);
            let r = u.spec_find(split_path(path));
            let anchor = t.spec_find(split_path(path));
            &&& r.level == level
            &&& r.appenders == if additive {
                apps + anchor.appenders
            } else {
                apps
            }
        }),
    decreases path.len(), t,
{
    let part = head_part(path);
    let restb = tail_rest(path);
    let i = t.child_index(part);
    let u = t.spec_add(path, apps, additive, level);
    let segs = split_path(path);
    lemma_sep_index(path);
    if 0 <= i < t.children.len() {
        let c = t.children[i].1;
        let c2 = c.spec_add(restb, apps, additive, level);
        lemma_child_index(t.children, part);
        assert(t.children[i].0 == part);
        assert(restb.len() > 0);
        assert(sep_index(path) >= 0);
        assert(segs == seq![part] + split_path(restb));
        assert(segs[0] == part);
        assert(segs.drop_first() =~= split_path(restb));
        lemma_child_index_update(t.children, i, (part, c2), part);
        assert(u.child_index(part) == i);
        assert(u.children[i].1 == c2);
        lemma_add_then_find(c, restb, apps, additive, level);
        assert(u.spec_find(segs) == c2.spec_find(split_path(restb)));
        assert(t.spec_find(segs) == c.spec_find(split_path(restb)));
    } else if restb.len() == 0 {
        let target = NodeModel {
            level: level,
            appenders: if additive {
                apps + t.appenders
            } else {
                apps
            },
            children: Seq::empty(),
        };
        lemma_child_index(t.children, part);
        lemma_child_index_push(t.children, (part, target), part);
        assert(u.child_index(part) == t.children.len());
        assert(u.children[t.children.len() as int].1 == target);
        if sep_index(path) >= 0 {
            assert(segs == seq![part] + split_path(restb));
            assert(restb =~= Seq::<u8>::empty());
            assert(split_path(restb) =~= seq![Seq::<u8>::empty()]);
            assert(segs.len() == 2);
            assert(segs[0] == part);
            assert(u.spec_find(segs) == target.spec_find(segs.drop_first()));
            assert(target.children =~= Seq::<(Seq<u8>, NodeModel)>::empty());
            assert(child_index_in(Seq::<(Seq<u8>, NodeModel)>::empty(), segs.drop_first()[0]) == -1);
            assert(target.child_index(segs.drop_first()[0]) == -1);
            assert(u.spec_find(segs) == target);
        } else {
            assert(segs == seq![path]);
            assert(part == path);
            assert(u.spec_find(segs) == target.spec_find(segs.drop_first()));
            assert(segs.drop_first().len() == 0);
            assert(u.spec_find(segs) == target);
        }
        assert(t.spec_find(segs) == t);
    } else {
        let fresh = NodeModel {
            level: t.level,
            appenders: t.appenders,
            children: Seq::empty(),
        };
        let c2 = fresh.spec_add(restb, apps, additive, level);
        assert(sep_index(path) >= 0);
        assert(segs == seq![part] + split_path(restb));
        assert(segs[0] == part);
        assert(segs.drop_first() =~= split_path(restb));
        lemma_child_index(t.children, part);
        lemma_child_index_push(t.children, (part, c2), part);
        assert(u.child_index(part) == t.children.len());
        assert(u.children[t.children.len() as int].1 == c2);
        assert(fresh.fresh_target(restb));
        lemma_add_then_find(fresh, restb, apps, additive, level);
        assert(u.spec_find(segs) == c2.spec_find(split_path(restb)));
        assert(fresh.spec_find(split_path(restb)) == fresh);
        assert(t.spec_find(segs) == t);
    }
}

/// Non-additive isolation: a rule that opts out of additivity never receives
/// any ancestor's sinks; the node it configures carries exactly the rule's
/// own sinks, at whatever depth the rule sits.
pub proof fn lemma_non_additive_isolated(
    t: NodeModel,
    path: Seq<u8>,
    apps: Seq<usize>,
    level: LogLevelFilter,
)
    requires
        t.fresh_target(path),
    ensures
        t.spec_add(path, apps, false, level).spec_find(split_path(path)).appenders == apps,
{
    lemma_add_then_find(t, path, apps, false, level);
}

pub proof fn lemma_max_from_ge_acc(acc: LogLevelFilter, cs: Seq<(Seq<u8>, NodeModel)>)
    ensures
        max_from(acc, cs).as_int() >= acc.as_int(),
    decreases cs,
{
    if cs.len() == 0 {
    } else {
        lemma_max_from_ge_acc(acc.spec_max(cs[0].1.spec_max()), cs.drop_first());
    }
}

pub proof fn lemma_max_from_ge_elem(acc: LogLevelFilter, cs: Seq<(Seq<u8>, NodeModel)>, i: int)
    requires
        0 <= i < cs.len(),
    ensures
        max_from(acc, cs).as_int() >= cs[i].1.spec_max().as_int(),
    decreases cs,
{
    if i == 0 {
        lemma_max_from_ge_acc(acc.spec_max(cs[0].1.spec_max()), cs.drop_first());
    } else {
        lemma_max_from_ge_elem(acc.spec_max(cs[0].1.spec_max()), cs.drop_first(), i - 1);
        assert(cs.drop_first()[i - 1] == cs[i]);
    }
}

/// The precomputed maximum is an upper bound on the threshold of every node
/// that any path resolves to.
pub proof fn lemma_max_ge_find(t: NodeModel, segs: Seq<Seq<u8>>)
    ensures
        t.spec_max().as_int() >= t.spec_find(segs).level.as_int(),
    decreases segs.len(),
{
    if segs.len() == 0 {
        lemma_max_from_ge_acc(t.level, t.children);
    } else {
        let i = t.child_index(segs[0]);
        if 0 <= i < t.children.len() {
            lemma_max_ge_find(t.children[i].1, segs.drop_first());
            lemma_max_from_ge_elem(t.level, t.children, i);
        } else {
            lemma_max_from_ge_acc(t.level, t.children);
        }
    }
}

/// The precomputed maximum is attained: some path resolves to a node whose
/// threshold equals it, provided child names are distinct at every node, as
/// they are in every tree the rules build.
pub proof fn lemma_max_attained(t: NodeModel)
    requires
        t.wf_names(),
    ensures
        exists|segs: Seq<Seq<u8>>| t.spec_find(segs).level == t.spec_max(),
    decreases t,
{
    lemma_max_from_cases(t.level, t.children);
    if t.spec_max() == t.level {
        let segs = Seq::<Seq<u8>>::empty();
        assert(t.spec_find(segs).level == t.spec_max());
    } else {
        let i = choose|i: int|
            0 <= i < t.children.len() && max_from(t.level, t.children) == t.children[
                i
            ].1.spec_max();
        lemma_wf_names_child(t, i);
        lemma_max_attained(t.children[i].1);
        let sub = choose|segs: Seq<Seq<u8>>|
            t.children[i].1.spec_find(segs).level == t.children[i].1.spec_max();
        let name = t.children[i].0;
        lemma_child_index_first_of(t.children, i);
        let segs = seq![name] + sub;
        assert(segs[0] == name);
        assert(segs.drop_first() =~= sub);
        assert(t.spec_find(segs) == t.children[i].1.spec_find(sub));
    }
}

pub proof fn lemma_max_from_cases(acc: LogLevelFilter, cs: Seq<(Seq<u8>, NodeModel)>)
    ensures
        max_from(acc, cs) == acc || exists|i: int|
            0 <= i < cs.len() && max_from(acc, cs) == cs[i].1.spec_max(),
    decreases cs,
{
    if cs.len() == 0 {
    } else {
        let acc2 = acc.spec_max(cs[0].1.spec_max());
        lemma_max_from_cases(acc2, cs.drop_first());
        if max_from(acc, cs) == acc2 {
            if acc2 == acc {
            } else {
                assert(acc2 == cs[0].1.spec_max());
                assert(0 <= 0 < cs.len() && max_from(acc, cs) == cs[0].1.spec_max());
            }
        } else {
            let j = choose|j: int|
                0 <= j < cs.drop_first().len() && max_from(acc2, cs.drop_first())
                    == cs.drop_first()[j].1.spec_max();
            assert(cs.drop_first()[j] == cs[j + 1]);
            assert(0 <= j + 1 < cs.len() && max_from(acc, cs) == cs[j + 1].1.spec_max());
        }
    }
}

impl NodeModel {
    /// Whether every node's children have pairwise-distinct names.
    pub open spec fn wf_names(self) -> bool
        decreases self,
    {
        &&& (forall|i: int, j: int|
            0 <= i < j < self.children.len() ==> self.children[i].0 != self.children[j].0)
        &&& wf_names_from(self.children)
    }
}

pub open spec fn wf_names_from(cs: Seq<(Seq<u8>, NodeModel)>) -> bool
    decreases cs,
{
    cs.len() == 0 || (cs[0].1.wf_names() && wf_names_from(cs.drop_first()))
}

pub proof fn lemma_wf_names_child(t: NodeModel, i: int)
    requires
        t.wf_names(),
        0 <= i < t.children.len(),
    ensures
        t.children[i].1.wf_names(),
{
    lemma_wf_names_from_elem(t.children, i);
}

pub proof fn lemma_wf_names_from_elem(cs: Seq<(Seq<u8>, NodeModel)>, i: int)
    requires
        wf_names_from(cs),
        0 <= i < cs.len(),
    ensures
        cs[i].1.wf_names(),
    decreases cs,
{
    if i == 0 {
    } else {
        assert(cs.drop_first()[i - 1] == cs[i]);
        lemma_wf_names_from_elem(cs.drop_first(), i - 1);
    }
}

pub proof fn lemma_wf_names_from_all(cs: Seq<(Seq<u8>, NodeModel)>)
    ensures
        wf_names_from(cs) <==> (forall|i: int| 0 <= i < cs.len() ==> cs[i].1.wf_names()),
    decreases cs,
{
    if cs.len() == 0 {
    } else {
        lemma_wf_names_from_all(cs.drop_first());
        assert forall|i: int| 1 <= i < cs.len() implies cs[i] == cs.drop_first()[i - 1] by {}
        if wf_names_from(cs) {
            assert forall|i: int| 0 <= i < cs.len() implies cs[i].1.wf_names() by {
                if i > 0 {
                    assert(cs.drop_first()[i - 1].1.wf_names());
                }
            }
        }
        if forall|i: int| 0 <= i < cs.len() ==> cs[i].1.wf_names() {
            assert forall|i: int|
                0 <= i < cs.drop_first().len() implies cs.drop_first()[i].1.wf_names() by {
                assert(cs.drop_first()[i] == cs[i + 1]);
            }
        }
    }
}

/// Registering a rule keeps child names distinct at every node: an existing
/// child is reused, and a created child takes a name no sibling carries.
pub proof fn lemma_add_preserves_wf_names(
    t: NodeModel,
    path: Seq<u8>,
    apps: Seq<usize>,
    additive: bool,
    level: LogLevelFilter,
)
    requires
        t.wf_names(),
    ensures
        t.spec_add(path, apps, additive, level).wf_names(),
    decreases path.len(), t,
{
    let part = head_part(path);
    let restb = tail_rest(path);
    let i = t.child_index(part);
    let u = t.spec_add(path, apps, additive, level);
    lemma_wf_names_from_all(t.children);
    if 0 <= i < t.children.len() {
        lemma_child_index(t.children, part);
        lemma_add_preserves_wf_names(t.children[i].1, restb, apps, additive, level);
        lemma_wf_names_from_all(u.children);
        assert forall|k: int| 0 <= k < u.children.len() implies u.children[k].1.wf_names() by {
            if k != i {
                assert(u.children[k] == t.children[k]);
            }
        }
        assert forall|a: int, b: int|
            0 <= a < b < u.children.len() implies u.children[a].0 != u.children[b].0 by {
            assert(u.children[a].0 == t.children[a].0);
            assert(u.children[b].0 == t.children[b].0);
        }
    } else {
        lemma_child_index(t.children, part);
        let created = u.children[u.children.len() - 1].1;
        if restb.len() == 0 {
            assert(wf_names_from(created.children));
            assert(created.wf_names());
        } else {
            let fresh = NodeModel {
                level: t.level,
                appenders: t.appenders,
                children: Seq::empty(),
            };
            assert(wf_names_from(fresh.children));
            assert(fresh.wf_names());
            lemma_add_preserves_wf_names(fresh, restb, apps, additive, level);
        }
        lemma_wf_names_from_all(u.children);
        assert forall|k: int| 0 <= k < u.children.len() implies u.children[k].1.wf_names() by {
            if k < t.children.len() {
                assert(u.children[k] == t.children[k]);
            }
        }
        assert forall|a: int, b: int|
            0 <= a < b < u.children.len() implies u.children[a].0 != u.children[b].0 by {
            if b < t.children.len() {
            } else {
                assert(u.children[b].0 == part);
                assert(t.children[a].0 != part);
            }
        }
    }
}

/// When child names are distinct, looking a name up finds the child that
/// carries it.
pub proof fn lemma_child_index_first_of(cs: Seq<(Seq<u8>, NodeModel)>, i: int)
    requires
        0 <= i < cs.len(),
        forall|a: int, b: int| 0 <= a < b < cs.len() ==> cs[a].0 != cs[b].0,
    ensures
        child_index_in(cs, cs[i].0) == i,
{
    lemma_child_index(cs, cs[i].0);
    let r = child_index_in(cs, cs[i].0);
    if r == -1 {
        assert(cs[i].0 != cs[i].0);
    } else if r < i {
        assert(cs[r].0 == cs[i].0);
    } else if r > i {
        assert(cs[i].0 != cs[i].0);
    }
}

pub proof fn lemma_bounded_from_all(cs: Seq<(Seq<u8>, NodeModel)>, n: nat)
    ensures
        bounded_from(cs, n) <==> (forall|i: int| 0 <= i < cs.len() ==> cs[i].1.bounded(n)),
    decreases cs,
{
    if cs.len() == 0 {
    } else {
        lemma_bounded_from_all(cs.drop_first(), n);
        assert forall|i: int| 1 <= i < cs.len() implies cs[i] == cs.drop_first()[i - 1] by {}
        if bounded_from(cs, n) {
            assert forall|i: int| 0 <= i < cs.len() implies cs[i].1.bounded(n) by {
                if i > 0 {
                    assert(cs.drop_first()[i - 1].1.bounded(n));
                }
            }
        }
        if forall|i: int| 0 <= i < cs.len() ==> cs[i].1.bounded(n) {
            assert forall|i: int| 0 <= i < cs.drop_first().len() implies cs.drop_first()[i].1.bounded(
                n,
            ) by {
                assert(cs.drop_first()[i] == cs[i + 1]);
            }
        }
    }
}

/// Every node that resolution can reach keeps its sink indices below the
/// bound that holds of the whole tree.
pub proof fn lemma_find_bounded(t: NodeModel, segs: Seq<Seq<u8>>, n: nat)
    requires
        t.bounded(n),
    ensures
        t.spec_find(segs).bounded(n),
    decreases segs.len(),
{
    if segs.len() == 0 {
    } else {
        let i = t.child_index(segs[0]);
        if 0 <= i < t.children.len() {
            lemma_bounded_from_all(t.children, n);
            lemma_find_bounded(t.children[i].1, segs.drop_first(), n);
        }
    }
}

/// Registering a rule whose sink indices are in bounds keeps the whole tree
/// in bounds.
pub proof fn lemma_add_bounded(
    t: NodeModel,
    path: Seq<u8>,
    apps: Seq<usize>,
    additive: bool,
    level: LogLevelFilter,
    n: nat,
)
    requires
        t.bounded(n),
        forall|j: int| 0 <= j < apps.len() ==> apps[j] < n,
    ensures
        t.spec_add(path, apps, additive, level).bounded(n),
    decreases path.len(), t,
{
    let part = head_part(path);
    let restb = tail_rest(path);
    let i = t.child_index(part);
    let u = t.spec_add(path, apps, additive, level);
    lemma_bounded_from_all(t.children, n);
    if 0 <= i < t.children.len() {
        lemma_add_bounded(t.children[i].1, restb, apps, additive, level, n);
        lemma_bounded_from_all(u.children, n);
        assert forall|k: int| 0 <= k < u.children.len() implies u.children[k].1.bounded(n) by {
            if k != i {
                assert(u.children[k] == t.children[k]);
            }
        }
    } else if restb.len() == 0 {
        let target = u.children[u.children.len() - 1].1;
        assert(bounded_from(target.children, n));
        lemma_bounded_from_all(u.children, n);
        assert forall|k: int| 0 <= k < u.children.len() implies u.children[k].1.bounded(n) by {
            if k < t.children.len() {
                assert(u.children[k] == t.children[k]);
            }
        }
    } else {
        let fresh = NodeModel {
            level: t.level,
            appenders: t.appenders,
            children: Seq::empty(),
        };
        assert(bounded_from(fresh.children, n));
        lemma_add_bounded(fresh, restb, apps, additive, level, n);
        lemma_bounded_from_all(u.children, n);
        assert forall|k: int| 0 <= k < u.children.len() implies u.children[k].1.bounded(n) by {
            if k < t.children.len() {
                assert(u.children[k] == t.children[k]);
            }
        }
    }
}

/// One node of the configuration tree: the effective severity threshold and
/// sink indices for every path that resolves here, and the children, one per
/// configured or implied next segment.
pub struct ConfiguredLogger {
    pub level: LogLevelFilter,
    pub appenders: Vec<usize>,
    pub children: Vec<(Vec<u8>, Box<ConfiguredLogger>)>,
}

pub open spec fn node_model(n: ConfiguredLogger) -> NodeModel
    decreases n,
{
    NodeModel {
        level: n.level,
        appenders: n.appenders@,
        children: children_model(n.children@),
    }
}

pub open spec fn children_model(cs: Seq<(Vec<u8>, Box<ConfiguredLogger>)>) -> Seq<
    (Seq<u8>, NodeModel),
>
    decreases cs,
{
    if cs.len() == 0 {
        Seq::empty()
    } else {
        seq![(cs[0].0@, node_model(*cs[0].1))] + children_model(cs.drop_first())
    }
}

pub proof fn lemma_children_model(cs: Seq<(Vec<u8>, Box<ConfiguredLogger>)>)
    ensures
        children_model(cs).len() == cs.len(),
        forall|i: int|
            0 <= i < cs.len() ==> children_model(cs)[i] == (cs[i].0@, node_model(*cs[i].1)),
    decreases cs,
{
    if cs.len() == 0 {
    } else {
        lemma_children_model(cs.drop_first());
        assert forall|i: int|
            0 <= i < cs.len() implies children_model(cs)[i] == (
            cs[i].0@,
            node_model(*cs[i].1),
        ) by {
            if i > 0 {
                assert(children_model(cs)[i] == children_model(cs.drop_first())[i - 1]);
                assert(cs.drop_first()[i - 1] == cs[i]);
            }
        }
    }
}

pub proof fn lemma_remove_insert<T>(s: Seq<T>, i: int, x: T)
    requires
        0 <= i < s.len(),
    ensures
        s.remove(i).insert(i, x) =~= s.update(i, x),
{
}

pub proof fn lemma_children_model_update(
    cs: Seq<(Vec<u8>, Box<ConfiguredLogger>)>,
    i: int,
    p: (Vec<u8>, Box<ConfiguredLogger>),
)
    requires
        0 <= i < cs.len(),
    ensures
        children_model(cs.update(i, p)) == children_model(cs).update(i, (p.0@, node_model(*p.1))),
{
    lemma_children_model(cs);
    lemma_children_model(cs.update(i, p));
    assert(children_model(cs.update(i, p)) =~= children_model(cs).update(
        i,
        (p.0@, node_model(*p.1)),
    ));
}

pub proof fn lemma_children_model_push(
    cs: Seq<(Vec<u8>, Box<ConfiguredLogger>)>,
    p: (Vec<u8>, Box<ConfiguredLogger>),
)
    ensures
        children_model(cs.push(p)) == children_model(cs).push((p.0@, node_model(*p.1))),
{
    lemma_children_model(cs);
    lemma_children_model(cs.push(p));
    assert(children_model(cs.push(p)) =~= children_model(cs).push((p.0@, node_model(*p.1))));
}

pub proof fn lemma_max_from_concat(
    acc: LogLevelFilter,
    s1: Seq<(Seq<u8>, NodeModel)>,
    s2: Seq<(Seq<u8>, NodeModel)>,
)
    ensures
        max_from(acc, s1 + s2) == max_from(max_from(acc, s1), s2),
    decreases s1.len(),
{
    if s1.len() == 0 {
        assert(s1 + s2 =~= s2);
    } else {
        let acc2 = acc.spec_max(s1[0].1.spec_max());
        assert((s1 + s2).drop_first() =~= s1.drop_first() + s2);
        lemma_max_from_concat(acc2, s1.drop_first(), s2);
    }
}

impl View for ConfiguredLogger {
    type V = NodeModel;

    open spec fn view(&self) -> NodeModel {
        node_model(*self)
    }
}

impl ConfiguredLogger {
    /// Position of this node's child named `name`, if any.
    fn child_position(&self, name: &[u8]) -> (r: Option<usize>)
        ensures
            match r {
                Some(i) => {
                    &&& child_index_in(self@.children, name@) == i
                    &&& i < self.children@.len()
                },
                None => child_index_in(self@.children, name@) == -1,
            },
    {
        proof {
            lemma_children_model(self.children@);
        }
        let n = self.children.len();
        let mut i: usize = 0;
        while i < n
            invariant
                n == self.children@.len(),
                i <= n,
                children_model(self.children@).len() == n,
                forall|j: int|
                    0 <= j < n ==> children_model(self.children@)[j] == (
                    self.children@[j].0@,
                    node_model(*self.children@[j].1),
                ),
                forall|j: int| 0 <= j < i ==> self.children@[j].0@ != name@,
            decreases n - i,
        {
            if bytes_eq(self.children[i].0.as_slice(), name) {
                proof {
                    let cs = children_model(self.children@);
                    lemma_child_index(cs, name@);
                    let r = child_index_in(cs, name@);
                    if r == -1 {
                        assert(cs[i as int].0 != name@);
                    } else if r < i {
                        assert(self.children@[r].0@ != name@);
                    } else if r > i {
                        assert(cs[i as int].0 != name@);
                    }
                }
                return Some(i);
            }
            i = i + 1;
        }
        proof {
            let cs = children_model(self.children@);
            lemma_child_index(cs, name@);
            let r = child_index_in(cs, name@);
            if r >= 0 {
                assert(self.children@[r].0@ != name@);
            }
        }
        None
    }

    /// Longest-prefix match on a `::`-separated path.
    pub fn find(&self, path: &str) -> (r: &ConfiguredLogger)
        ensures
            r@ == self@.spec_find(split_path(path.spec_bytes())),
    {
        self.find_bytes(path.as_bytes())
    }

    fn find_bytes(&self, path: &[u8]) -> (r: &ConfiguredLogger)
        ensures
            r@ == self@.spec_find(split_path(path@)),
        decreases path@.len(),
    {
        proof {
            lemma_sep_index(path@);
            lemma_children_model(self.children@);
        }
        match find_sep(path) {
            None => {
                let ghost segs = split_path(path@);
                assert(segs == seq![path@]);
                match self.child_position(path) {
                    Some(i) => {
                        let out: &ConfiguredLogger = &self.children[i].1;
                        proof {
                            lemma_child_index(children_model(self.children@), path@);
                            assert(segs.drop_first().len() == 0);
                            assert(self@.child_index(segs[0]) == i);
                            assert(self@.children[i as int].1 == node_model(*self.children@[i as int].1));
                            assert(out@ == self@.children[i as int].1);
                            assert(self@.spec_find(segs) == self@.children[i as int].1.spec_find(segs.drop_first()));
                            assert(out@ == self@.spec_find(segs));
                        }
                        out
                    },
                    None => {
                        assert(self@ == self@.spec_find(segs));
                        self
                    },
                }
            },
            Some(i) => {
                proof {
                    assert(sep_at(path@, i as int));
                    assert(i + 1 < path@.len());
                }
                let n = path.len();
                assert(n == path@.len());
                let part = slice_subrange(path, 0, i);
                let rest = slice_subrange(path, i + 2, n);
                let ghost segs = split_path(path@);
                assert(segs == seq![part@] + split_path(rest@));
                assert(segs[0] == part@);
                assert(segs.drop_first() =~= split_path(rest@));
                match self.child_position(part) {
                    Some(j) => {
                        proof {
                            lemma_child_index(children_model(self.children@), part@);
                        }
                        let out = self.children[j].1.find_bytes(rest);
                        proof {
                            assert(self@.child_index(segs[0]) == j);
                            assert(self@.children[j as int].1 == node_model(*self.children@[j as int].1));
                            assert(out@ == self@.children[j as int].1.spec_find(split_path(rest@)));
                            assert(self@.spec_find(segs) == self@.children[j as int].1.spec_find(segs.drop_first()));
                            assert(out@ == self@.spec_find(segs));
                        }
                        out
                    },
                    None => {
                        assert(self@ == self@.spec_find(segs));
                        self
                    },
                }
            },
        }
    }

    /// Registers one rule: `path` names the target logger, `appenders` the
    /// rule's sink indices, `additive` whether ancestor sinks are inherited,
    /// `level` the rule's severity threshold.
    pub fn add(&mut self, path: &str, appenders: Vec<usize>, additive: bool, level: LogLevelFilter)
        ensures
            final(self)@ == old(self)@.spec_add(path.spec_bytes(), appenders@, additive, level),
    {
        self.add_bytes(path.as_bytes(), appenders, additive, level)
    }

    fn add_bytes(&mut self, path: &[u8], appenders: Vec<usize>, additive: bool, level: LogLevelFilter)
        ensures
            final(self)@ == old(self)@.spec_add(path@, appenders@, additive, level),
        decreases path@.len(), *old(self),
    {
        proof {
            lemma_sep_index(path@);
            lemma_children_model(self.children@);
        }
        let ghost pre = *self;
        let ghost orig_apps = appenders@;
        let n = path.len();
        let (part, rest): (&[u8], &[u8]) = match find_sep(path) {
            Some(i) => {
                proof {
                    assert(sep_at(path@, i as int));
                    assert(i + 1 < path@.len());
                }
                (slice_subrange(path, 0, i), slice_subrange(path, i + 2, n))
            },
            None => (path, slice_subrange(path, n, n)),
        };
        proof {
            assert(part@ == head_part(path@));
            assert(rest@ =~= tail_rest(path@));
            assert(rest@ == tail_rest(path@));
        }
        match self.child_position(part) {
            Some(j) => {
                proof {
                    lemma_child_index(children_model(pre.children@), part@);
                }
                let (name, boxed) = self.children.remove(j);
                let mut node: ConfiguredLogger = *boxed;
                proof {
                    assert(node == *pre.children@[j as int].1);
                    assert(decreases_to!(pre => node));
                }
                node.add_bytes(rest, appenders, additive, level);
                self.children.insert(j, (name, Box::new(node)));
                proof {
                    lemma_remove_insert(
                        pre.children@,
                        j as int,
                        (name, Box::new(node)),
                    );
                    assert(self.children@ == pre.children@.update(j as int, (name, Box::new(node))));
                    lemma_children_model_update(pre.children@, j as int, (name, Box::new(node)));
                    assert(node_model(node) == node_model(*pre.children@[j as int].1).spec_add(
                        rest@, orig_apps, additive, level));
                    assert(name@ == part@);
                    assert(pre@.children[j as int].1 == node_model(*pre.children@[j as int].1));
                    assert(self@.children =~= pre@.children.update(
                        j as int,
                        (
                            part@,
                            pre@.children[j as int].1.spec_add(rest@, orig_apps, additive, level),
                        ),
                    ));
                    assert(self@ =~= pre@.spec_add(path@, orig_apps, additive, level));
                }
            },
            None => {
                proof {
                    lemma_child_index(children_model(pre.children@), part@);
                }
                if rest.is_empty() {
                    let mut apps = appenders;
                    if additive {
                        let m = self.appenders.len();
                        let mut k: usize = 0;
                        while k < m
                            invariant
                                m == self.appenders@.len(),
                                k <= m,
                                *self == pre,
                                apps@ =~= orig_apps + self.appenders@.take(k as int),
                            decreases m - k,
                        {
                            let v = self.appenders[k];
                            apps.push(v);
                            k = k + 1;
                        }
                        proof {
                            assert(self.appenders@.take(m as int) =~= self.appenders@);
                            assert(apps@ =~= orig_apps + pre.appenders@);
                        }
                    }
                    proof {
                        if additive {
                            assert(apps@ == orig_apps + pre.appenders@);
                        } else {
                            assert(apps@ == orig_apps);
                        }
                    }
                    let child = ConfiguredLogger {
                        level: level,
                        appenders: apps,
                        children: Vec::new(),
                    };
                    proof {
                        assert(child.children@ =~= Seq::<(Vec<u8>, Box<ConfiguredLogger>)>::empty());
                        assert(children_model(child.children@) =~= Seq::<(Seq<u8>, NodeModel)>::empty());
                    }
                    let ghost gchild = child;
                    let name = slice_to_vec(part);
                    let pair = (name, Box::new(child));
                    let ghost gp = pair;
                    self.children.push(pair);
                    proof {
                        lemma_children_model_push(pre.children@, gp);
                        assert(self.children@ == pre.children@.push(gp));
                        assert(*gp.1 == gchild);
                        let target = NodeModel {
                            level: level,
                            appenders: if additive {
                                orig_apps + pre@.appenders
                            } else {
                                orig_apps
                            },
                            children: Seq::empty(),
                        };
                        assert(node_model(gchild) =~= target);
                        assert(node_model(gchild) == target);
                        assert(gp.0@ == part@);
                        assert(children_model(pre.children@.push(gp))
                            == children_model(pre.children@).push((gp.0@, node_model(gchild))));
                        assert(self@.children =~= pre@.children.push((part@, target)));
                        assert(self@ =~= pre@.spec_add(path@, orig_apps, additive, level));
                    }
                } else {
                    let mut child = ConfiguredLogger {
                        level: self.level,
                        appenders: slice_to_vec(self.appenders.as_slice()),
                        children: Vec::new(),
                    };
                    let ghost fresh = NodeModel {
                        level: pre.level,
                        appenders: pre.appenders@,
                        children: Seq::empty(),
                    };
                    proof {
                        assert(child.children@ =~= Seq::<(Vec<u8>, Box<ConfiguredLogger>)>::empty());
                        assert(children_model(child.children@) =~= Seq::<(Seq<u8>, NodeModel)>::empty());
                        assert(node_model(child) =~= fresh);
                        assert(node_model(child) == fresh);
                    }
                    child.add_bytes(rest, appenders, additive, level);
                    let ghost gchild = child;
                    let name = slice_to_vec(part);
                    let pair = (name, Box::new(child));
                    let ghost gp = pair;
                    self.children.push(pair);
                    proof {
                        lemma_children_model_push(pre.children@, gp);
                        assert(self.children@ == pre.children@.push(gp));
                        assert(*gp.1 == gchild);
                        assert(node_model(gchild)
                            == fresh.spec_add(rest@, orig_apps, additive, level));
                        assert(gp.0@ == part@);
                        assert(self@.children =~= pre@.children.push((
                            part@,
                            fresh.spec_add(rest@, orig_apps, additive, level),
                        )));
                        assert(self@ =~= pre@.spec_add(path@, orig_apps, additive, level));
                    }
                }
            },
        }
    }

    /// The most verbose threshold anywhere in this subtree.
    pub fn max_log_level(&self) -> (r: LogLevelFilter)
        ensures
            r == self@.spec_max(),
        decreases *self,
    {
        proof {
            lemma_children_model(self.children@);
        }
        let mut m = self.level;
        let n = self.children.len();
        let mut i: usize = 0;
        while i < n
            invariant
                n == self.children@.len(),
                i <= n,
                children_model(self.children@).len() == n,
                forall|j: int|
                    0 <= j < n ==> children_model(self.children@)[j] == (
                    self.children@[j].0@,
                    node_model(*self.children@[j].1),
                ),
                m == max_from(self.level, children_model(self.children@).take(i as int)),
            decreases n - i,
        {
            proof {
                assert(decreases_to!(*self => *self.children@[i as int].1));
            }
            let c = self.children[i].1.max_log_level();
            m = m.max_with(c);
            proof {
                let cs = children_model(self.children@);
                lemma_max_from_concat(self.level, cs.take(i as int), seq![cs[i as int]]);
                assert(cs.take(i as int) + seq![cs[i as int]] =~= cs.take(i + 1));
                let single = seq![cs[i as int]];
                let acc2 = max_from(self.level, cs.take(i as int)).spec_max(cs[i as int].1.spec_max());
                assert(single.drop_first() =~= Seq::<(Seq<u8>, NodeModel)>::empty());
                assert(max_from(acc2, Seq::<(Seq<u8>, NodeModel)>::empty()) == acc2);
                assert(max_from(max_from(self.level, cs.take(i as int)), single) == acc2);
            }
            i = i + 1;
        }
        proof {
            let cs = children_model(self.children@);
            assert(cs.take(n as int) =~= cs);
        }
        m
    }

    /// Whether an event at `level` is significant at this node.
    pub fn enabled(&self, level: LogLevel) -> (r: bool)
        ensures
            r == self@.level.spec_admits(level),
    {
        self.level.admits(level)
    }

    /// Dispatches `record` to this node's sinks, in the order of its sink
    /// indices, if the record's severity passes this node's threshold.  A
    /// failed append is reported and never stops dispatch to the remaining
    /// sinks.  The sink table keeps its length, so a tree in bounds stays in
    /// bounds.
    pub fn log<A: Append>(&self, record: &LogRecord, appenders: &mut Vec<A>)
        requires
            self@.bounded(old(appenders)@.len() as nat),
        ensures
            final(appenders)@.len() == old(appenders)@.len(),
    {
        if self.enabled(record.level) {
            let n = self.appenders.len();
            let ghost total = appenders@.len();
            let mut i: usize = 0;
            while i < n
                invariant
                    n == self.appenders@.len(),
                    i <= n,
                    appenders@.len() == total,
                    self@.bounded(total as nat),
                decreases n - i,
            {
                let idx = self.appenders[i];
                proof {
                    assert(self@.appenders == self.appenders@);
                    assert(self@.appenders[i as int] < total);
                }
                let mut sink = appenders.remove(idx);
                if let Err(err) = sink.append(record) {
                    handle_error(&err);
                }
                appenders.insert(idx, sink);
                i = i + 1;
            }
        }
    }
}

} // verus!
