//! The rule tree: per-rule-set rules attached at path-segment-indexed nodes,
//! with two insertion policies, and root-to-leaf resolution in which a mask
//! hides every rule collected above it.

use crate::bytes::bytes_eq;
use crate::bytes::dup_bytes;
use crate::bytes::dup_segs;
use crate::bytes::lemma_bytes_deep_view;
use crate::config::opt_segs_view;
use vstd::prelude::*;

verus! {

/// How an inserted rule composes with rules inherited from ancestors:
/// an appended rule stays visible beside them, a mask hides them.
#[derive(Clone, Copy, Debug, PartialEq, Eq, Structural)]
pub enum Policy {
    Append,
    Mask,
}

/// A primitive rule held by the tree; the first field names its tag.
#[derive(Debug)]
pub enum Rule {
    Plain(Vec<u8>),
    MountPoint(Vec<u8>),
    SymLink(Vec<u8>, Option<Vec<Vec<u8>>>),
    SymLinkDir(Vec<u8>, Option<Vec<Vec<u8>>>),
    Suffix(Vec<u8>, Vec<Vec<u8>>),
    Exact(Vec<u8>, Vec<Vec<u8>>),
}

/// The mathematical value of a tree `Rule`.
pub enum RuleModel {
    Plain(Seq<u8>),
    MountPoint(Seq<u8>),
    SymLink(Seq<u8>, Option<Seq<Seq<u8>>>),
    SymLinkDir(Seq<u8>, Option<Seq<Seq<u8>>>),
    Suffix(Seq<u8>, Seq<Seq<u8>>),
    Exact(Seq<u8>, Seq<Seq<u8>>),
}

impl View for Rule {
    type V = RuleModel;

    open spec fn view(&self) -> RuleModel {
        match self {
            Rule::Plain(t) => RuleModel::Plain(t@),
            Rule::MountPoint(t) => RuleModel::MountPoint(t@),
            Rule::SymLink(t, target) => RuleModel::SymLink(t@, opt_segs_view(*target)),
            Rule::SymLinkDir(t, target) => RuleModel::SymLinkDir(t@, opt_segs_view(*target)),
            Rule::Suffix(t, sfx) => RuleModel::Suffix(t@, sfx.deep_view()),
            Rule::Exact(t, p) => RuleModel::Exact(t@, p.deep_view()),
        }
    }
}

/// Copies a rule.
pub fn dup_rule(r: &Rule) -> (d: Rule)
    ensures
        d@ == r@,
{
    match r {
        Rule::Plain(t) => Rule::Plain(dup_bytes(t)),
        Rule::MountPoint(t) => Rule::MountPoint(dup_bytes(t)),
        Rule::SymLink(t, target) => Rule::SymLink(
            dup_bytes(t),
            match target {
                Some(p) => Some(dup_segs(p)),
                None => None,
            },
        ),
        Rule::SymLinkDir(t, target) => Rule::SymLinkDir(
            dup_bytes(t),
            match target {
                Some(p) => Some(dup_segs(p)),
                None => None,
            },
        ),
        Rule::Suffix(t, sfx) => Rule::Suffix(dup_bytes(t), dup_segs(sfx)),
        Rule::Exact(t, p) => Rule::Exact(dup_bytes(t), dup_segs(p)),
    }
}

/// One tree node: its own rules, kept per rule-set key, and its children,
/// owned and keyed by path segment.
pub struct Node {
    pub rules: Vec<(usize, Vec<(Policy, Rule)>)>,
    pub children: Vec<(Vec<u8>, Node)>,
}

/// The views of a list of policy/rule pairs.
pub open spec fn pairs_view(s: Seq<(Policy, Rule)>) -> Seq<(Policy, RuleModel)> {
    s.map_values(|p: (Policy, Rule)| (p.0, p.1@))
}

/// The views of a list of rules.
pub open spec fn rules_view(s: Seq<Rule>) -> Seq<RuleModel> {
    s.map_values(|x: Rule| x@)
}

/// The pairs a key maps to in a node's rule table; the first entry wins.
pub open spec fn assoc_rules(entries: Seq<(usize, Vec<(Policy, Rule)>)>, key: int) -> Seq<
    (Policy, RuleModel),
>
    decreases entries.len(),
{
    if entries.len() == 0 {
        Seq::<(Policy, RuleModel)>::empty()
    } else if entries[0].0 == key {
        pairs_view(entries[0].1@)
    } else {
        assoc_rules(entries.drop_first(), key)
    }
}

/// The child a segment leads to; the first entry wins.
pub open spec fn assoc_child(cs: Seq<(Vec<u8>, Node)>, seg: Seq<u8>) -> Option<Node>
    decreases cs.len(),
{
    if cs.len() == 0 {
        None
    } else if cs[0].0@ == seg {
        Some(cs[0].1)
    } else {
        assoc_child(cs.drop_first(), seg)
    }
}

/// The node a path leads to, if its chain of children exists.
pub open spec fn node_at(n: Node, path: Seq<Seq<u8>>) -> Option<Node>
    decreases path.len(),
{
    if path.len() == 0 {
        Some(n)
    } else {
        match assoc_child(n.children@, path[0]) {
            None => None,
            Some(c) => node_at(c, path.drop_first()),
        }
    }
}

/// The rules attached exactly at `path` for `key`; empty when the node is
/// missing or carries nothing for the key.
pub open spec fn local_list(n: Node, path: Seq<Seq<u8>>, key: int) -> Seq<(Policy, RuleModel)> {
    match node_at(n, path) {
        None => Seq::<(Policy, RuleModel)>::empty(),
        Some(m) => assoc_rules(m.rules@, key),
    }
}

/// The shared rule tree.
pub struct RulesTree {
    pub root: Node,
}

/// The rules attached exactly at `path` for `key` in the tree.
pub open spec fn tree_local(t: RulesTree, path: Seq<Seq<u8>>, key: int) -> Seq<
    (Policy, RuleModel),
> {
    local_list(t.root, path, key)
}

// ----------------------------------------------------------------------
// Resolution

/// One pair applied to the accumulator: append adds, mask resets.
pub open spec fn apply_pair(acc: Seq<RuleModel>, p: (Policy, RuleModel)) -> Seq<RuleModel> {
    match p.0 {
        Policy::Append => acc.push(p.1),
        Policy::Mask => seq![p.1],
    }
}

/// A list of pairs applied in order to the accumulator.
pub open spec fn apply_pairs(acc: Seq<RuleModel>, s: Seq<(Policy, RuleModel)>) -> Seq<RuleModel>
    decreases s.len(),
{
    if s.len() == 0 {
        acc
    } else {
        apply_pairs(apply_pair(acc, s[0]), s.drop_first())
    }
}

/// The local lists along the path from depth `d` on, concatenated in
/// root-to-leaf order.
pub open spec fn locals_from(n: Node, path: Seq<Seq<u8>>, key: int, d: int) -> Seq<
    (Policy, RuleModel),
>
    decreases path.len() - d + 1,
{
    if d < 0 || d > path.len() {
        Seq::<(Policy, RuleModel)>::empty()
    } else {
        local_list(n, path.take(d), key) + locals_from(n, path, key, d + 1)
    }
}

/// The effective rules the tree resolves for a path and a rule-set key:
/// the walk collects appended rules root-to-leaf, and a mask resets the
/// collection to itself.
pub open spec fn resolve_model(t: RulesTree, path: Seq<Seq<u8>>, key: int) -> Seq<RuleModel> {
    apply_pairs(Seq::<RuleModel>::empty(), locals_from(t.root, path, key, 0))
}

/// Applying a concatenation applies the parts in order.
pub proof fn lemma_apply_pairs_concat(
    acc: Seq<RuleModel>,
    s1: Seq<(Policy, RuleModel)>,
    s2: Seq<(Policy, RuleModel)>,
)
    ensures
        apply_pairs(acc, s1 + s2) == apply_pairs(apply_pairs(acc, s1), s2),
    decreases s1.len(),
{
    if s1.len() == 0 {
        assert(s1 + s2 =~= s2);
    } else {
        assert((s1 + s2).drop_first() =~= s1.drop_first() + s2);
        assert((s1 + s2)[0] == s1[0]);
        lemma_apply_pairs_concat(apply_pair(acc, s1[0]), s1.drop_first(), s2);
    }
}

/// Applying one more pair at the end is one more step.
pub proof fn lemma_apply_pairs_snoc(
    acc: Seq<RuleModel>,
    s: Seq<(Policy, RuleModel)>,
    p: (Policy, RuleModel),
)
    ensures
        apply_pairs(acc, s.push(p)) == apply_pair(apply_pairs(acc, s), p),
    decreases s.len(),
{
    if s.len() == 0 {
        assert(s.push(p)[0] == p);
        assert(s.push(p).drop_first() =~= Seq::<(Policy, RuleModel)>::empty());
        assert(apply_pairs(apply_pair(acc, p), Seq::<(Policy, RuleModel)>::empty()) == apply_pair(
            acc,
            p,
        ));
        assert(apply_pairs(acc, s.push(p)) == apply_pairs(
            apply_pair(acc, p),
            s.push(p).drop_first(),
        ));
    } else {
        assert(s.push(p)[0] == s[0]);
        assert(s.push(p).drop_first() =~= s.drop_first().push(p));
        lemma_apply_pairs_snoc(apply_pair(acc, s[0]), s.drop_first(), p);
        assert(apply_pairs(acc, s.push(p)) == apply_pairs(
            apply_pair(acc, s[0]),
            s.push(p).drop_first(),
        ));
        assert(apply_pairs(acc, s) == apply_pairs(apply_pair(acc, s[0]), s.drop_first()));
    }
}

// ----------------------------------------------------------------------
// The exec tree

impl Node {
    /// A node with no rules and no children.
    pub fn empty() -> (n: Node)
        ensures
            n.rules@.len() == 0,
            n.children@.len() == 0,
    {
        Node { rules: Vec::new(), children: Vec::new() }
    }
}

/// A node with no rules and no children attaches nothing anywhere.
pub proof fn lemma_empty_node_local(n: Node, q: Seq<Seq<u8>>, k: int)
    requires
        n.rules@.len() == 0,
        n.children@.len() == 0,
    ensures
        local_list(n, q, k) == Seq::<(Policy, RuleModel)>::empty(),
{
    if q.len() == 0 {
    } else {
        assert(assoc_child(n.children@, q[0]) is None);
    }
}

// ----------------------------------------------------------------------
// Lemmas about the association lists

/// The rule table at a first-match index.
pub proof fn lemma_assoc_rules_at(entries: Seq<(usize, Vec<(Policy, Rule)>)>, i: int, k: int)
    requires
        0 <= i < entries.len(),
        entries[i].0 == k,
        forall|j: int| 0 <= j < i ==> (#[trigger] entries[j]).0 != k,
    ensures
        assoc_rules(entries, k) == pairs_view(entries[i].1@),
    decreases i,
{
    if i == 0 {
    } else {
        assert(entries.drop_first()[i - 1] == entries[i]);
        assert(forall|j: int| 0 <= j < i - 1 ==> (#[trigger] entries.drop_first()[j]).0
            == entries[j + 1].0);
        lemma_assoc_rules_at(entries.drop_first(), i - 1, k);
    }
}

/// A key no entry carries resolves to the empty rule list.
pub proof fn lemma_assoc_rules_none(entries: Seq<(usize, Vec<(Policy, Rule)>)>, k: int)
    requires
        forall|j: int| 0 <= j < entries.len() ==> (#[trigger] entries[j]).0 != k,
    ensures
        assoc_rules(entries, k) == Seq::<(Policy, RuleModel)>::empty(),
    decreases entries.len(),
{
    if entries.len() == 0 {
    } else {
        assert(forall|j: int| 0 <= j < entries.len() - 1 ==> (#[trigger] entries.drop_first()[j]).0
            == entries[j + 1].0);
        lemma_assoc_rules_none(entries.drop_first(), k);
    }
}

/// Replacing the first entry of a key changes only that key's rules.
pub proof fn lemma_assoc_rules_update(
    entries: Seq<(usize, Vec<(Policy, Rule)>)>,
    i: int,
    e2: (usize, Vec<(Policy, Rule)>),
    k: int,
)
    requires
        0 <= i < entries.len(),
        e2.0 == entries[i].0,
        forall|j: int| 0 <= j < i ==> (#[trigger] entries[j]).0 != entries[i].0,
    ensures
        assoc_rules(entries.update(i, e2), k) == if k == entries[i].0 {
            pairs_view(e2.1@)
        } else {
            assoc_rules(entries, k)
        },
    decreases i,
{
    let u = entries.update(i, e2);
    if i == 0 {
        assert(u[0] == e2);
        assert(u.drop_first() =~= entries.drop_first());
    } else {
        assert(u[0] == entries[0]);
        assert(u.drop_first() =~= entries.drop_first().update(i - 1, e2));
        assert(entries.drop_first()[i - 1] == entries[i]);
        assert(forall|j: int| 0 <= j < i - 1 ==> (#[trigger] entries.drop_first()[j]).0
            == entries[j + 1].0);
        lemma_assoc_rules_update(entries.drop_first(), i - 1, e2, k);
    }
}

/// Appending an entry for a fresh key changes only that key's rules.
pub proof fn lemma_assoc_rules_push(
    entries: Seq<(usize, Vec<(Policy, Rule)>)>,
    e: (usize, Vec<(Policy, Rule)>),
    k: int,
)
    requires
        forall|j: int| 0 <= j < entries.len() ==> (#[trigger] entries[j]).0 != e.0,
    ensures
        assoc_rules(entries.push(e), k) == if k == e.0 {
            pairs_view(e.1@)
        } else {
            assoc_rules(entries, k)
        },
    decreases entries.len(),
{
    let u = entries.push(e);
    if entries.len() == 0 {
        assert(u[0] == e);
        assert(u.drop_first() =~= Seq::<(usize, Vec<(Policy, Rule)>)>::empty());
        assert(assoc_rules(u.drop_first(), k) == Seq::<(Policy, RuleModel)>::empty());
    } else {
        assert(u[0] == entries[0]);
        assert(u.drop_first() =~= entries.drop_first().push(e));
        assert(forall|j: int| 0 <= j < entries.len() - 1 ==> (#[trigger] entries.drop_first()[j]).0
            == entries[j + 1].0);
        lemma_assoc_rules_push(entries.drop_first(), e, k);
    }
}

/// The child table at a first-match index.
pub proof fn lemma_assoc_child_at(cs: Seq<(Vec<u8>, Node)>, i: int, seg: Seq<u8>)
    requires
        0 <= i < cs.len(),
        cs[i].0@ == seg,
        forall|j: int| 0 <= j < i ==> (#[trigger] cs[j]).0@ != seg,
    ensures
        assoc_child(cs, seg) == Some(cs[i].1),
    decreases i,
{
    if i == 0 {
    } else {
        assert(cs.drop_first()[i - 1] == cs[i]);
        assert(forall|j: int| 0 <= j < i - 1 ==> (#[trigger] cs.drop_first()[j]) == cs[j + 1]);
        lemma_assoc_child_at(cs.drop_first(), i - 1, seg);
    }
}

/// A segment no child carries leads nowhere.
pub proof fn lemma_assoc_child_none(cs: Seq<(Vec<u8>, Node)>, seg: Seq<u8>)
    requires
        forall|j: int| 0 <= j < cs.len() ==> (#[trigger] cs[j]).0@ != seg,
    ensures
        assoc_child(cs, seg) is None,
    decreases cs.len(),
{
    if cs.len() == 0 {
    } else {
        assert(forall|j: int| 0 <= j < cs.len() - 1 ==> (#[trigger] cs.drop_first()[j]) == cs[j
            + 1]);
        lemma_assoc_child_none(cs.drop_first(), seg);
    }
}

/// Replacing the first child of a segment redirects only that segment.
pub proof fn lemma_assoc_child_update(
    cs: Seq<(Vec<u8>, Node)>,
    i: int,
    c2: (Vec<u8>, Node),
    seg: Seq<u8>,
)
    requires
        0 <= i < cs.len(),
        c2.0@ == cs[i].0@,
        forall|j: int| 0 <= j < i ==> (#[trigger] cs[j]).0@ != cs[i].0@,
    ensures
        assoc_child(cs.update(i, c2), seg) == if seg == cs[i].0@ {
            Some(c2.1)
        } else {
            assoc_child(cs, seg)
        },
    decreases i,
{
    let u = cs.update(i, c2);
    if i == 0 {
        assert(u[0] == c2);
        assert(u.drop_first() =~= cs.drop_first());
    } else {
        assert(u[0] == cs[0]);
        assert(u.drop_first() =~= cs.drop_first().update(i - 1, c2));
        assert(cs.drop_first()[i - 1] == cs[i]);
        assert(forall|j: int| 0 <= j < i - 1 ==> (#[trigger] cs.drop_first()[j]) == cs[j + 1]);
        lemma_assoc_child_update(cs.drop_first(), i - 1, c2, seg);
    }
}

/// Appending a child for a fresh segment redirects only that segment.
pub proof fn lemma_assoc_child_push(cs: Seq<(Vec<u8>, Node)>, c: (Vec<u8>, Node), seg: Seq<u8>)
    requires
        forall|j: int| 0 <= j < cs.len() ==> (#[trigger] cs[j]).0@ != c.0@,
    ensures
        assoc_child(cs.push(c), seg) == if seg == c.0@ {
            Some(c.1)
        } else {
            assoc_child(cs, seg)
        },
    decreases cs.len(),
{
    let u = cs.push(c);
    if cs.len() == 0 {
        assert(u[0] == c);
        assert(u.drop_first() =~= Seq::<(Vec<u8>, Node)>::empty());
        assert(assoc_child(u.drop_first(), seg) is None);
    } else {
        assert(u[0] == cs[0]);
        assert(u.drop_first() =~= cs.drop_first().push(c));
        assert(forall|j: int| 0 <= j < cs.len() - 1 ==> (#[trigger] cs.drop_first()[j]) == cs[j
            + 1]);
        lemma_assoc_child_push(cs.drop_first(), c, seg);
    }
}

// ----------------------------------------------------------------------
// The chain a node resolves along a path

/// The rules a node contributes along a remaining path: its own list for
/// the key, then, segment by segment, those of the child chain that exists.
pub open spec fn node_chain(n: Node, rest: Seq<Seq<u8>>, key: int) -> Seq<(Policy, RuleModel)>
    decreases rest.len(),
{
    assoc_rules(n.rules@, key) + if rest.len() == 0 {
        Seq::<(Policy, RuleModel)>::empty()
    } else {
        match assoc_child(n.children@, rest[0]) {
            None => Seq::<(Policy, RuleModel)>::empty(),
            Some(c) => node_chain(c, rest.drop_first(), key),
        }
    }
}

/// Below a missing child, every local list is empty.
proof fn lemma_locals_beyond(n: Node, path: Seq<Seq<u8>>, key: int, d: int)
    requires
        1 <= d <= path.len(),
        path.len() >= 1,
        assoc_child(n.children@, path[0]) is None,
    ensures
        locals_from(n, path, key, d) == Seq::<(Policy, RuleModel)>::empty(),
    decreases path.len() - d + 1,
{
    assert(path.take(d)[0] == path[0]);
    assert(local_list(n, path.take(d), key) =~= Seq::<(Policy, RuleModel)>::empty());
    if d < path.len() {
        lemma_locals_beyond(n, path, key, d + 1);
    } else {
        assert(locals_from(n, path, key, d + 1) == Seq::<(Policy, RuleModel)>::empty());
    }
    assert(locals_from(n, path, key, d) == local_list(n, path.take(d), key) + locals_from(
        n,
        path,
        key,
        d + 1,
    ));
    assert(locals_from(n, path, key, d) =~= Seq::<(Policy, RuleModel)>::empty());
}

/// The locals of depths 1 and deeper are the locals of the first child.
proof fn lemma_locals_shift(n: Node, c: Node, path: Seq<Seq<u8>>, key: int, d: int)
    requires
        1 <= d <= path.len() + 1,
        path.len() >= 1,
        assoc_child(n.children@, path[0]) == Some(c),
    ensures
        locals_from(n, path, key, d) == locals_from(c, path.drop_first(), key, d - 1),
    decreases path.len() - d + 2,
{
    if d > path.len() {
        assert(d - 1 > path.drop_first().len());
    } else {
        assert(path.take(d)[0] == path[0]);
        assert(path.take(d).drop_first() =~= path.drop_first().take(d - 1));
        assert(local_list(n, path.take(d), key) == local_list(
            c,
            path.drop_first().take(d - 1),
            key,
        ));
        lemma_locals_shift(n, c, path, key, d + 1);
    }
}

/// A node's chain along a path is the concatenation of the local lists of
/// the path's prefixes.
pub proof fn lemma_node_chain_locals(n: Node, path: Seq<Seq<u8>>, key: int)
    ensures
        node_chain(n, path, key) == locals_from(n, path, key, 0),
    decreases path.len(),
{
    assert(path.take(0) =~= Seq::<Seq<u8>>::empty());
    assert(local_list(n, path.take(0), key) == assoc_rules(n.rules@, key));
    let loc = assoc_rules(n.rules@, key);
    if path.len() == 0 {
        assert(locals_from(n, path, key, 1) =~= Seq::<(Policy, RuleModel)>::empty());
        assert(loc + Seq::<(Policy, RuleModel)>::empty() =~= loc);
        assert(node_chain(n, path, key) =~= loc);
    } else {
        let copt = assoc_child(n.children@, path[0]);
        match copt {
            None => {
                lemma_locals_beyond(n, path, key, 1);
                assert(loc + Seq::<(Policy, RuleModel)>::empty() =~= loc);
                assert(node_chain(n, path, key) =~= loc);
            },
            Some(c) => {
                lemma_node_chain_locals(c, path.drop_first(), key);
                lemma_locals_shift(n, c, path, key, 1);
            },
        }
    }
}

// ----------------------------------------------------------------------
// Exec search helpers

/// Finds the first rule-table entry of a key.
fn find_key(entries: &Vec<(usize, Vec<(Policy, Rule)>)>, key: usize) -> (r: Option<usize>)
    ensures
        match r {
            Some(i) => i < entries@.len() && entries@[i as int].0 == key && forall|j: int|
                0 <= j < i ==> (#[trigger] entries@[j]).0 != key,
            None => forall|j: int| 0 <= j < entries@.len() ==> (#[trigger] entries@[j]).0 != key,
        },
{
    let mut i: usize = 0;
    while i < entries.len()
        invariant
            i <= entries@.len(),
            forall|j: int| 0 <= j < i ==> (#[trigger] entries@[j]).0 != key,
        decreases entries@.len() - i,
    {
        if entries[i].0 == key {
            return Some(i);
        }
        i += 1;
    }
    None
}

/// Finds the first child of a segment.
fn find_child(cs: &Vec<(Vec<u8>, Node)>, seg: &Vec<u8>) -> (r: Option<usize>)
    ensures
        match r {
            Some(i) => i < cs@.len() && cs@[i as int].0@ == seg@ && forall|j: int|
                0 <= j < i ==> (#[trigger] cs@[j]).0@ != seg@,
            None => forall|j: int| 0 <= j < cs@.len() ==> (#[trigger] cs@[j]).0@ != seg@,
        },
{
    let mut i: usize = 0;
    while i < cs.len()
        invariant
            i <= cs@.len(),
            forall|j: int| 0 <= j < i ==> (#[trigger] cs@[j]).0@ != seg@,
        decreases cs@.len() - i,
    {
        if bytes_eq(&cs[i].0, seg) {
            return Some(i);
        }
        i += 1;
    }
    None
}

// ----------------------------------------------------------------------
// Insertion

/// Attaches `(policy, rule)` at the node `path[d..]` leads to below `n`,
/// creating the missing nodes on the way; every other path and key keeps
/// its local rules.
fn insert_at(n: &mut Node, path: &Vec<Vec<u8>>, d: usize, key: usize, policy: Policy, rule: Rule)
    requires
        d <= path@.len(),
    ensures
        forall|q: Seq<Seq<u8>>, k: int| #[trigger] local_list(*final(n), q, k) == if q
            == path.deep_view().skip(d as int) && k == key as int {
            local_list(*old(n), q, k).push((policy, rule@))
        } else {
            local_list(*old(n), q, k)
        },
    decreases path@.len() - d,
{
    broadcast use lemma_bytes_deep_view;

    let ghost n0 = *n;
    let ghost pdv = path.deep_view();
    let ghost pr = (policy, rule@);
    if d == path.len() {
        proof {
            assert(pdv.skip(d as int) =~= Seq::<Seq<u8>>::empty());
        }
        match find_key(&n.rules, key) {
            Some(i) => {
                let ghost old_entry = n.rules@[i as int];
                let mut entry = n.rules.remove(i);
                entry.1.push((policy, rule));
                let ghost entry2 = entry;
                n.rules.insert(i, entry);
                proof {
                    assert(n.rules@ =~= n0.rules@.update(i as int, entry2));
                    assert(entry2.1@ =~= old_entry.1@.push((policy, rule)));
                    assert(pairs_view(entry2.1@) =~= pairs_view(old_entry.1@).push(pr));
                    assert(n.children@ == n0.children@);
                    assert forall|q: Seq<Seq<u8>>, k: int| #[trigger] local_list(*n, q, k) == if q
                        == pdv.skip(d as int) && k == key as int {
                        local_list(n0, q, k).push(pr)
                    } else {
                        local_list(n0, q, k)
                    } by {
                        if q.len() == 0 {
                            assert(q =~= Seq::<Seq<u8>>::empty());
                            lemma_assoc_rules_update(n0.rules@, i as int, entry2, k);
                            lemma_assoc_rules_at(n0.rules@, i as int, key as int);
                        } else {
                            assert(assoc_child(n.children@, q[0]) == assoc_child(
                                n0.children@,
                                q[0],
                            ));
                            assert(node_at(*n, q) == node_at(n0, q));
                        }
                    }
                }
            },
            None => {
                let mut l: Vec<(Policy, Rule)> = Vec::new();
                l.push((policy, rule));
                let ghost newe = (key, l);
                n.rules.push((key, l));
                proof {
                    assert(n.rules@ =~= n0.rules@.push(newe));
                    assert(pairs_view(newe.1@) =~= seq![pr]);
                    assert(n.children@ == n0.children@);
                    assert forall|q: Seq<Seq<u8>>, k: int| #[trigger] local_list(*n, q, k) == if q
                        == pdv.skip(d as int) && k == key as int {
                        local_list(n0, q, k).push(pr)
                    } else {
                        local_list(n0, q, k)
                    } by {
                        if q.len() == 0 {
                            assert(q =~= Seq::<Seq<u8>>::empty());
                            lemma_assoc_rules_push(n0.rules@, newe, k);
                            lemma_assoc_rules_none(n0.rules@, key as int);
                            if k == key as int {
                                assert(local_list(n0, q, k) =~= Seq::<
                                    (Policy, RuleModel),
                                >::empty());
                                assert(Seq::<(Policy, RuleModel)>::empty().push(pr) =~= seq![pr]);
                            }
                        } else {
                            assert(assoc_child(n.children@, q[0]) == assoc_child(
                                n0.children@,
                                q[0],
                            ));
                            assert(node_at(*n, q) == node_at(n0, q));
                        }
                    }
                }
            },
        }
    } else {
        let ghost s_star = pdv[d as int];
        proof {
            assert(s_star == path@[d as int]@);
        }
        let idx: usize = match find_child(&n.children, &path[d]) {
            Some(i) => i,
            None => {
                let seg = dup_bytes(&path[d]);
                n.children.push((seg, Node::empty()));
                n.children.len() - 1
            },
        };
        let ghost cs1 = n.children@;
        proof {
            // idx is the first match for s_star in cs1, and the old lookup of
            // s_star in n0 is either that same child or nothing.
            assert(cs1[idx as int].0@ == s_star);
            assert(forall|j: int| 0 <= j < idx ==> (#[trigger] cs1[j]).0@ != s_star);
        }
        let ghost old_lookup = assoc_child(n0.children@, s_star);
        proof {
            if cs1.len() == n0.children@.len() {
                lemma_assoc_child_at(n0.children@, idx as int, s_star);
            } else {
                lemma_assoc_child_none(n0.children@, s_star);
            }
        }
        let mut entry = n.children.remove(idx);
        let ghost c_b = entry.1;
        insert_at(&mut entry.1, path, d + 1, key, policy, rule);
        let ghost entry2 = entry;
        n.children.insert(idx, entry);
        proof {
            let c_a = entry2.1;
            assert(n.children@ =~= cs1.update(idx as int, entry2));
            assert(entry2.0@ == s_star);
            assert(n.rules@ == n0.rules@);
            assert(pdv.skip(d as int).drop_first() =~= pdv.skip(d + 1));
            assert(pdv.skip(d as int)[0] == s_star);
            assert forall|q: Seq<Seq<u8>>, k: int| #[trigger] local_list(*n, q, k) == if q
                == pdv.skip(d as int) && k == key as int {
                local_list(n0, q, k).push(pr)
            } else {
                local_list(n0, q, k)
            } by {
                if q.len() == 0 {
                    assert(local_list(*n, q, k) == assoc_rules(n.rules@, k));
                    assert(local_list(n0, q, k) == assoc_rules(n0.rules@, k));
                    assert(q != pdv.skip(d as int));
                } else {
                    lemma_assoc_child_update(cs1, idx as int, entry2, q[0]);
                    if q[0] == s_star {
                        assert(assoc_child(n.children@, q[0]) == Some(c_a));
                        assert(local_list(*n, q, k) == local_list(c_a, q.drop_first(), k));
                        // the recursion rewrote the child's locals
                        assert(local_list(c_a, q.drop_first(), k) == if q.drop_first() == pdv.skip(
                            d + 1,
                        ) && k == key as int {
                            local_list(c_b, q.drop_first(), k).push(pr)
                        } else {
                            local_list(c_b, q.drop_first(), k)
                        });
                        if cs1.len() == n0.children@.len() {
                            assert(old_lookup == Some(c_b));
                            assert(local_list(n0, q, k) == local_list(c_b, q.drop_first(), k));
                        } else {
                            assert(old_lookup is None);
                            assert(local_list(n0, q, k) =~= Seq::<(Policy, RuleModel)>::empty());
                            lemma_empty_node_local(c_b, q.drop_first(), k);
                        }
                        if q.drop_first() == pdv.skip(d + 1) {
                            assert(q.len() == pdv.skip(d as int).len());
                            assert forall|x: int| 0 <= x < q.len() implies q[x] == pdv.skip(
                                d as int,
                            )[x] by {
                                if x > 0 {
                                    assert(q.drop_first()[x - 1] == q[x]);
                                    assert(pdv.skip(d + 1)[x - 1] == pdv.skip(d as int)[x]);
                                }
                            }
                            assert(q =~= pdv.skip(d as int));
                        }
                        if q == pdv.skip(d as int) {
                            assert(q.drop_first() == pdv.skip(d + 1));
                        }
                    } else {
                        assert(assoc_child(n.children@, q[0]) == assoc_child(cs1, q[0]));
                        if cs1.len() != n0.children@.len() {
                            lemma_assoc_child_push(
                                n0.children@,
                                cs1[cs1.len() - 1],
                                q[0],
                            );
                            assert(cs1 =~= n0.children@.push(cs1[cs1.len() - 1]));
                        }
                        assert(assoc_child(cs1, q[0]) == assoc_child(n0.children@, q[0]));
                        assert(node_at(*n, q) == node_at(n0, q));
                        assert(q != pdv.skip(d as int));
                    }
                }
            }
        }
    }
}

// ----------------------------------------------------------------------
// Resolution, executable

/// Resolves below `n`, with `acc` holding what the walk collected above.
fn resolve_at(n: &Node, path: &Vec<Vec<u8>>, d: usize, key: usize, acc: Vec<Rule>) -> (r: Vec<
    Rule,
>)
    requires
        d <= path@.len(),
    ensures
        rules_view(r@) == apply_pairs(
            rules_view(acc@),
            node_chain(*n, path.deep_view().skip(d as int), key as int),
        ),
    decreases path@.len() - d,
{
    broadcast use lemma_bytes_deep_view;

    let ghost rest = path.deep_view().skip(d as int);
    let ghost acc0v = rules_view(acc@);
    let ghost locals = assoc_rules(n.rules@, key as int);
    let mut acc = acc;
    match find_key(&n.rules, key) {
        Some(i) => {
            proof {
                lemma_assoc_rules_at(n.rules@, i as int, key as int);
            }
            let list = &n.rules[i].1;
            let mut j: usize = 0;
            proof {
                assert(pairs_view(list@).take(0) =~= Seq::<(Policy, RuleModel)>::empty());
            }
            while j < list.len()
                invariant
                    j <= list@.len(),
                    locals == pairs_view(list@),
                    rules_view(acc@) == apply_pairs(acc0v, pairs_view(list@).take(j as int)),
                decreases list@.len() - j,
            {
                let pr = &list[j];
                let dup = dup_rule(&pr.1);
                let ghost accv = rules_view(acc@);
                match pr.0 {
                    Policy::Append => {
                        acc.push(dup);
                        proof {
                            assert(rules_view(acc@) =~= accv.push(dup@));
                        }
                    },
                    Policy::Mask => {
                        acc = Vec::new();
                        acc.push(dup);
                        proof {
                            assert(rules_view(acc@) =~= seq![dup@]);
                        }
                    },
                }
                proof {
                    let pv = pairs_view(list@);
                    assert(pv[j as int] == (list@[j as int].0, list@[j as int].1@));
                    assert(pv.take(j + 1) =~= pv.take(j as int).push(pv[j as int]));
                    lemma_apply_pairs_snoc(acc0v, pv.take(j as int), pv[j as int]);
                }
                j += 1;
            }
            proof {
                assert(pairs_view(list@).take(list@.len() as int) =~= pairs_view(list@));
            }
        },
        None => {
            proof {
                lemma_assoc_rules_none(n.rules@, key as int);
            }
        },
    }
    if d == path.len() {
        proof {
            assert(rest =~= Seq::<Seq<u8>>::empty());
            assert(locals + Seq::<(Policy, RuleModel)>::empty() =~= locals);
        }
        return acc;
    }
    match find_child(&n.children, &path[d]) {
        None => {
            proof {
                assert(rest[0] == path@[d as int]@);
                lemma_assoc_child_none(n.children@, rest[0]);
                assert(locals + Seq::<(Policy, RuleModel)>::empty() =~= locals);
            }
            acc
        },
        Some(i) => {
            proof {
                assert(rest[0] == path@[d as int]@);
                lemma_assoc_child_at(n.children@, i as int, rest[0]);
                assert(rest.drop_first() =~= path.deep_view().skip(d + 1));
            }
            let child = &n.children[i].1;
            let r = resolve_at(child, path, d + 1, key, acc);
            proof {
                lemma_apply_pairs_concat(
                    acc0v,
                    locals,
                    node_chain(*child, path.deep_view().skip(d + 1), key as int),
                );
            }
            r
        },
    }
}

// ----------------------------------------------------------------------
// The tree's interface

impl RulesTree {
    /// An empty tree: nothing is attached anywhere.
    pub fn new() -> (t: RulesTree)
        ensures
            forall|q: Seq<Seq<u8>>, k: int| #[trigger] tree_local(t, q, k) == Seq::<
                (Policy, RuleModel),
            >::empty(),
    {
        let t = RulesTree { root: Node::empty() };
        proof {
            assert forall|q: Seq<Seq<u8>>, k: int| #[trigger] tree_local(t, q, k) == Seq::<
                (Policy, RuleModel),
            >::empty() by {
                lemma_empty_node_local(t.root, q, k);
            }
        }
        t
    }

    /// Attaches `(policy, rule)` at the node `path` leads to, after the
    /// rules already attached there for the same rule-set key; every other
    /// path and key keeps its local rules.
    pub fn add_rule(&mut self, path: &Vec<Vec<u8>>, key: usize, policy: Policy, rule: Rule)
        ensures
            forall|q: Seq<Seq<u8>>, k: int| #[trigger] tree_local(*final(self), q, k) == if q
                == path.deep_view() && k == key as int {
                tree_local(*old(self), q, k).push((policy, rule@))
            } else {
                tree_local(*old(self), q, k)
            },
    {
        let ghost rm = rule@;
        insert_at(&mut self.root, path, 0, key, policy, rule);
        proof {
            assert(path.deep_view().skip(0) =~= path.deep_view());
            assert forall|q: Seq<Seq<u8>>, k: int| #[trigger] tree_local(*self, q, k) == if q
                == path.deep_view() && k == key as int {
                tree_local(*old(self), q, k).push((policy, rm))
            } else {
                tree_local(*old(self), q, k)
            } by {
                assert(local_list(self.root, q, k) == if q == path.deep_view().skip(0) && k
                    == key as int {
                    local_list(old(self).root, q, k).push((policy, rm))
                } else {
                    local_list(old(self).root, q, k)
                });
            }
        }
    }

    /// Resolves the effective rules for a path and a rule-set key.
    pub fn get_rules(&self, path: &Vec<Vec<u8>>, key: usize) -> (r: Vec<Rule>)
        ensures
            rules_view(r@) == resolve_model(*self, path.deep_view(), key as int),
    {
        let acc: Vec<Rule> = Vec::new();
        proof {
            assert(rules_view(acc@) =~= Seq::<RuleModel>::empty());
            assert(path.deep_view().skip(0) =~= path.deep_view());
        }
        let r = resolve_at(&self.root, path, 0, key, acc);
        proof {
            lemma_node_chain_locals(self.root, path.deep_view(), key as int);
        }
        r
    }
}

} // verus!
