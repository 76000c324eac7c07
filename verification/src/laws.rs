//! The library's structural laws, stated and proved over the models that
//! the public contracts use.

use crate::compile::inserts_of;
use crate::compile::pushes_of;
use crate::compile::spec_expand;
use crate::config::CfgRuleModel;
use crate::eval::any_match;
use crate::eval::rule_matches;
use crate::eval::EntryMeta;
use crate::tree::apply_pair;
use crate::tree::apply_pairs;
use crate::tree::local_list;
use crate::tree::locals_from;
use crate::tree::lemma_apply_pairs_snoc;
use crate::tree::resolve_model;
use crate::tree::tree_local;
use crate::tree::Policy;
use crate::tree::RuleModel;
use crate::tree::RulesTree;
use vstd::prelude::*;

verus! {

/// The rules of a chain's pairs, policies dropped.
pub open spec fn rules_of_pairs(s: Seq<(Policy, RuleModel)>) -> Seq<RuleModel> {
    s.map_values(|p: (Policy, RuleModel)| p.1)
}

/// Applying a chain of appended rules only keeps everything collected and
/// adds the appended rules in order.
pub proof fn lemma_apply_appends(acc: Seq<RuleModel>, s: Seq<(Policy, RuleModel)>)
    requires
        forall|x: int| 0 <= x < s.len() ==> (#[trigger] s[x]).0 == Policy::Append,
    ensures
        apply_pairs(acc, s) == acc + rules_of_pairs(s),
    decreases s.len(),
{
    if s.len() == 0 {
        assert(acc + rules_of_pairs(s) =~= acc);
    } else {
        assert(s[0].0 == Policy::Append);
        lemma_apply_appends(acc.push(s[0].1), s.drop_first());
        assert(rules_of_pairs(s.drop_first()) =~= rules_of_pairs(s).drop_first());
        assert(acc.push(s[0].1) + rules_of_pairs(s).drop_first() =~= acc + rules_of_pairs(s));
    }
}

/// Mask precedence over one chain: when the pair at `j` is the most recent
/// mask (everything after it appends), applying the chain returns exactly
/// the mask's rule followed by the rules appended after it — whatever was
/// collected before the mask is discarded.
pub proof fn lemma_mask_precedence(acc: Seq<RuleModel>, s: Seq<(Policy, RuleModel)>, j: int)
    requires
        0 <= j < s.len(),
        s[j].0 == Policy::Mask,
        forall|x: int| j < x < s.len() ==> (#[trigger] s[x]).0 == Policy::Append,
    ensures
        apply_pairs(acc, s) == seq![s[j].1] + rules_of_pairs(s.subrange(j + 1, s.len() as int)),
    decreases j,
{
    if j == 0 {
        assert(apply_pairs(acc, s) == apply_pairs(seq![s[0].1], s.drop_first()));
        assert(forall|x: int| 0 <= x < s.drop_first().len() ==> (#[trigger] s.drop_first()[x]).0
            == s[x + 1].0);
        lemma_apply_appends(seq![s[0].1], s.drop_first());
        assert(s.drop_first() =~= s.subrange(1, s.len() as int));
    } else {
        assert(s.drop_first()[j - 1] == s[j]);
        assert(forall|x: int| 0 <= x < s.drop_first().len() ==> (#[trigger] s.drop_first()[x])
            == s[x + 1]);
        lemma_mask_precedence(apply_pair(acc, s[0]), s.drop_first(), j - 1);
        assert(s.drop_first().subrange(j, s.drop_first().len() as int) =~= s.subrange(
            j + 1,
            s.len() as int,
        ));
    }
}

/// Mask precedence at the tree: when the chain a path resolves along has
/// its most recent mask at `j`, the resolved rule list is exactly that
/// mask's rule plus the rules appended below it.
pub proof fn lemma_resolve_mask_precedence(t: RulesTree, path: Seq<Seq<u8>>, key: int, j: int)
    requires
        ({
            let chain = locals_from(t.root, path, key, 0);
            &&& 0 <= j < chain.len()
            &&& chain[j].0 == Policy::Mask
            &&& forall|x: int| j < x < chain.len() ==> (#[trigger] chain[x]).0 == Policy::Append
        }),
    ensures
        ({
            let chain = locals_from(t.root, path, key, 0);
            resolve_model(t, path, key) == seq![chain[j].1] + rules_of_pairs(
                chain.subrange(j + 1, chain.len() as int),
            )
        }),
{
    lemma_mask_precedence(Seq::<RuleModel>::empty(), locals_from(t.root, path, key, 0), j);
}

/// A chain without masks resolves to all its rules in root-to-leaf order.
pub proof fn lemma_resolve_no_mask(t: RulesTree, path: Seq<Seq<u8>>, key: int)
    requires
        forall|x: int|
            0 <= x < locals_from(t.root, path, key, 0).len() ==> (#[trigger] locals_from(
                t.root,
                path,
                key,
                0,
            )[x]).0 == Policy::Append,
    ensures
        resolve_model(t, path, key) == rules_of_pairs(locals_from(t.root, path, key, 0)),
{
    lemma_apply_appends(Seq::<RuleModel>::empty(), locals_from(t.root, path, key, 0));
    assert(Seq::<RuleModel>::empty() + rules_of_pairs(locals_from(t.root, path, key, 0))
        =~= rules_of_pairs(locals_from(t.root, path, key, 0)));
}

/// Every local list along a path of a key that carries no rules is empty.
proof fn lemma_locals_all_empty(t: RulesTree, path: Seq<Seq<u8>>, key: int, d: int)
    requires
        0 <= d,
        forall|q: Seq<Seq<u8>>| #[trigger] tree_local(t, q, key) == Seq::<
            (Policy, RuleModel),
        >::empty(),
    ensures
        locals_from(t.root, path, key, d) == Seq::<(Policy, RuleModel)>::empty(),
    decreases path.len() - d + 1,
{
    if d > path.len() {
    } else {
        assert(tree_local(t, path.take(d), key) == Seq::<(Policy, RuleModel)>::empty());
        assert(local_list(t.root, path.take(d), key) == Seq::<(Policy, RuleModel)>::empty());
        lemma_locals_all_empty(t, path, key, d + 1);
        assert(Seq::<(Policy, RuleModel)>::empty() + Seq::<(Policy, RuleModel)>::empty() =~= Seq::<
            (Policy, RuleModel),
        >::empty());
    }
}

/// A key without rules anywhere on a path's chain resolves to nothing.
pub proof fn lemma_resolve_unruled(t: RulesTree, path: Seq<Seq<u8>>, key: int)
    requires
        forall|q: Seq<Seq<u8>>| #[trigger] tree_local(t, q, key) == Seq::<
            (Policy, RuleModel),
        >::empty(),
    ensures
        resolve_model(t, path, key) == Seq::<RuleModel>::empty(),
{
    lemma_locals_all_empty(t, path, key, 0);
}

// ----------------------------------------------------------------------
// Cycle safety

/// A stack of already-visited names expands to nothing.
proof fn lemma_expand_all_visited(
    tags: Map<Seq<u8>, Seq<CfgRuleModel>>,
    root: Seq<u8>,
    stack: Seq<Seq<u8>>,
    visited: Set<Seq<u8>>,
)
    requires
        tags.dom().finite(),
        visited.subset_of(tags.dom()),
        forall|i: int| 0 <= i < stack.len() ==> visited.contains(#[trigger] stack[i]),
    ensures
        spec_expand(tags, root, stack, visited) == Some(Seq::<crate::compile::InsertModel>::empty()),
    decreases stack.len(),
{
    if stack.len() == 0 {
    } else {
        assert(visited.contains(stack[stack.len() - 1]));
        assert(forall|i: int| 0 <= i < stack.drop_last().len() ==> #[trigger] stack.drop_last()[i]
            == stack[i]);
        lemma_expand_all_visited(tags, root, stack.drop_last(), visited);
    }
}

/// The references of a rule list whose tag references all name `root` push
/// only `root`.
proof fn lemma_pushes_root(s: Seq<CfgRuleModel>, root: Seq<u8>)
    requires
        forall|i: int|
            0 <= i < s.len() ==> (match #[trigger] s[i] {
                CfgRuleModel::Tag(n) => n == root,
                _ => true,
            }),
    ensures
        forall|i: int| 0 <= i < pushes_of(s).len() ==> #[trigger] pushes_of(s)[i] == root,
    decreases s.len(),
{
    if s.len() == 0 {
    } else {
        assert(forall|i: int| 0 <= i < s.drop_first().len() ==> #[trigger] s.drop_first()[i]
            == s[i + 1]);
        lemma_pushes_root(s.drop_first(), root);
        let h = (match s[0] {
            CfgRuleModel::Tag(n) => seq![n],
            _ => Seq::<Seq<u8>>::empty(),
        });
        assert(pushes_of(s) == h + pushes_of(s.drop_first()));
        assert forall|i: int| 0 <= i < pushes_of(s).len() implies #[trigger] pushes_of(s)[i]
            == root by {
            if i < h.len() {
                assert(pushes_of(s)[i] == h[i]);
            } else {
                assert(pushes_of(s)[i] == pushes_of(s.drop_first())[i - h.len()]);
            }
        }
    }
}

/// Cycle safety: a tag whose tag references all point back to itself
/// expands without non-termination, and contributes each of its primitive
/// rules exactly once — the expansion is exactly one pass over its rules.
pub proof fn lemma_cycle_safety(tags: Map<Seq<u8>, Seq<CfgRuleModel>>, root: Seq<u8>)
    requires
        tags.dom().finite(),
        tags.contains_key(root),
        forall|i: int|
            0 <= i < tags[root].len() ==> (match #[trigger] tags[root][i] {
                CfgRuleModel::Tag(n) => n == root,
                _ => true,
            }),
    ensures
        spec_expand(tags, root, seq![root], Set::<Seq<u8>>::empty()) == Some(
            inserts_of(tags[root], root),
        ),
{
    let stack0 = seq![root];
    let visited = Set::<Seq<u8>>::empty();
    assert(stack0.last() == root);
    assert(!visited.contains(root));
    let stack2 = stack0.drop_last() + pushes_of(tags[root]);
    assert(stack0.drop_last() =~= Seq::<Seq<u8>>::empty());
    assert(stack2 =~= pushes_of(tags[root]));
    let v2 = visited.insert(root);
    lemma_pushes_root(tags[root], root);
    assert(forall|i: int| 0 <= i < stack2.len() ==> v2.contains(#[trigger] stack2[i]));
    lemma_expand_all_visited(tags, root, stack2, v2);
    assert(inserts_of(tags[root], root) + Seq::<crate::compile::InsertModel>::empty()
        =~= inserts_of(tags[root], root));
}

// ----------------------------------------------------------------------
// Memoization idempotence

/// Extending a tree's local list at exactly one path `p` appends the new
/// pair at the end of the chain every descendant of `p` resolves along.
proof fn lemma_chain_push(
    t1: RulesTree,
    t2: RulesTree,
    p: Seq<Seq<u8>>,
    k: int,
    pair: (Policy, RuleModel),
    d: int,
)
    requires
        0 <= d <= p.len(),
        forall|q: Seq<Seq<u8>>| #[trigger] tree_local(t2, q, k) == if q == p {
            tree_local(t1, q, k).push(pair)
        } else {
            tree_local(t1, q, k)
        },
    ensures
        locals_from(t2.root, p, k, d) == locals_from(t1.root, p, k, d).push(pair),
    decreases p.len() - d,
{
    if d == p.len() {
        assert(p.take(d) =~= p);
        assert(tree_local(t2, p, k) == tree_local(t1, p, k).push(pair));
        assert(local_list(t2.root, p.take(d), k) == tree_local(t1, p, k).push(pair));
        assert(locals_from(t2.root, p, k, d + 1) == Seq::<(Policy, RuleModel)>::empty());
        assert(locals_from(t1.root, p, k, d + 1) == Seq::<(Policy, RuleModel)>::empty());
        assert(tree_local(t1, p, k).push(pair) + Seq::<(Policy, RuleModel)>::empty()
            =~= (tree_local(t1, p, k) + Seq::<(Policy, RuleModel)>::empty()).push(pair));
    } else {
        assert(p.take(d).len() == d);
        assert(p.take(d) != p);
        assert(tree_local(t2, p.take(d), k) == tree_local(t1, p.take(d), k));
        assert(local_list(t2.root, p.take(d), k) == tree_local(t1, p.take(d), k));
        lemma_chain_push(t1, t2, p, k, pair, d + 1);
        assert(tree_local(t1, p.take(d), k) + locals_from(t1.root, p, k, d + 1).push(pair)
            =~= (tree_local(t1, p.take(d), k) + locals_from(t1.root, p, k, d + 1)).push(pair));
    }
}

/// The chain of `p.push(seg)` is the chain of `p` plus the child's own
/// local list.
proof fn lemma_chain_extend(t: RulesTree, p: Seq<Seq<u8>>, seg: Seq<u8>, k: int, d: int)
    requires
        0 <= d <= p.len() + 1,
    ensures
        locals_from(t.root, p.push(seg), k, d) == locals_from(t.root, p, k, d) + local_list(
            t.root,
            p.push(seg),
            k,
        ),
    decreases p.len() + 1 - d,
{
    let full = p.push(seg);
    if d == p.len() + 1 {
        assert(full.take(d) =~= full);
        assert(locals_from(t.root, full, k, d + 1) == Seq::<(Policy, RuleModel)>::empty());
        assert(locals_from(t.root, p, k, d) == Seq::<(Policy, RuleModel)>::empty());
        assert(local_list(t.root, full, k) + Seq::<(Policy, RuleModel)>::empty() =~= Seq::<
            (Policy, RuleModel),
        >::empty() + local_list(t.root, full, k));
    } else {
        assert(full.take(d) =~= p.take(d));
        lemma_chain_extend(t, p, seg, k, d + 1);
        assert(local_list(t.root, p.take(d), k) + (locals_from(t.root, p, k, d + 1) + local_list(
            t.root,
            full,
            k,
        )) =~= (local_list(t.root, p.take(d), k) + locals_from(t.root, p, k, d + 1)) + local_list(
            t.root,
            full,
            k,
        ));
    }
}

/// Memoization idempotence: after the memoizing insertion of a mask with a
/// plain rule at path `p`, re-resolving `p` yields exactly that plain rule,
/// and a child of `p` that carries no rules of its own for the key resolves
/// to it as well; a plain rule matches every entry, so the expensive
/// suffix or symlink-directory condition is never evaluated again there.
pub proof fn lemma_memoization(
    t1: RulesTree,
    t2: RulesTree,
    p: Seq<Seq<u8>>,
    k: int,
    tag: Seq<u8>,
    seg: Seq<u8>,
    meta: EntryMeta,
)
    requires
        forall|q: Seq<Seq<u8>>| #[trigger] tree_local(t2, q, k) == if q == p {
            tree_local(t1, q, k).push((Policy::Mask, RuleModel::Plain(tag)))
        } else {
            tree_local(t1, q, k)
        },
    ensures
        resolve_model(t2, p, k) == seq![RuleModel::Plain(tag)],
        tree_local(t2, p.push(seg), k).len() == 0 ==> resolve_model(t2, p.push(seg), k) == seq![
            RuleModel::Plain(tag),
        ],
        forall|path2: Seq<Seq<u8>>, m2: EntryMeta| any_match(
            seq![RuleModel::Plain(tag)],
            path2,
            m2,
        ),
{
    let pair = (Policy::Mask, RuleModel::Plain(tag));
    let chain1 = locals_from(t1.root, p, k, 0);
    let chain2 = locals_from(t2.root, p, k, 0);
    lemma_chain_push(t1, t2, p, k, pair, 0);
    lemma_apply_pairs_snoc(Seq::<RuleModel>::empty(), chain1, pair);
    assert(resolve_model(t2, p, k) == apply_pair(
        apply_pairs(Seq::<RuleModel>::empty(), chain1),
        pair,
    ));
    if tree_local(t2, p.push(seg), k).len() == 0 {
        lemma_chain_extend(t2, p, seg, k, 0);
        assert(tree_local(t2, p.push(seg), k) =~= Seq::<(Policy, RuleModel)>::empty());
        assert(locals_from(t2.root, p.push(seg), k, 0) =~= chain2);
        assert(resolve_model(t2, p.push(seg), k) == apply_pairs(
            Seq::<RuleModel>::empty(),
            chain2,
        ));
    }
    assert forall|path2: Seq<Seq<u8>>, m2: EntryMeta| any_match(
        seq![RuleModel::Plain(tag)],
        path2,
        m2,
    ) by {
        assert(rule_matches(seq![RuleModel::Plain(tag)][0], path2, m2));
    }
}

} // verus!
