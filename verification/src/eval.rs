//! The match evaluator: resolves the rules for a visited path, tests each
//! against the entry's metadata, and writes a cheap `Plain` rule back into
//! the tree when an expensive suffix or symlink-directory check succeeds,
//! so descendants inherit the verdict.

use crate::bytes::dup_bytes;
use crate::bytes::lemma_bytes_deep_view;
use crate::bytes::segs_eq;
use crate::bytes::segs_prefix;
use crate::bytes::segs_suffix;
use crate::config::opt_segs_view;
use crate::tree::resolve_model;
use crate::tree::rules_view;
use crate::tree::tree_local;
use crate::tree::Policy;
use crate::tree::Rule;
use crate::tree::RuleModel;
use crate::tree::RulesTree;
use vstd::prelude::*;

verus! {

/// Failure of evaluation.
#[derive(Clone, Copy, Debug, PartialEq, Eq, Structural)]
pub enum EvalError {
    /// A mount-point rule was resolved; that rule kind is not implemented,
    /// and the whole run fails rather than silently mismatching.
    MountPointUnsupported,
}

/// A snapshot of one filesystem entry, for the symlink-directory check.
#[derive(Debug)]
pub enum FsEntry {
    /// A symlink, with the target path it resolves to.
    Symlink(Vec<Vec<u8>>),
    /// A real directory, with its entries.
    Dir(Vec<FsEntry>),
    /// Anything else: a file, or an entry that could not be read.
    Other,
}

/// True when the entry's entire transitive content is symlinks, each
/// resolving under `target` (under anything, when no target is given).
/// A directory with no entries qualifies vacuously; a file, an unreadable
/// entry, or a stray symlink target does not.
pub open spec fn all_links_under(e: FsEntry, target: Option<Seq<Seq<u8>>>) -> bool
    decreases e,
{
    match e {
        FsEntry::Symlink(t) => match target {
            None => true,
            Some(p) => p.is_prefix_of(t.deep_view()),
        },
        FsEntry::Dir(cs) => forall|i: int|
            0 <= i < cs@.len() ==> all_links_under(#[trigger] cs@[i], target),
        FsEntry::Other => false,
    }
}

/// Whether a link target lies under the given target path.
pub fn is_symlink_to(link_target: &Vec<Vec<u8>>, target: &Vec<Vec<u8>>) -> (r: bool)
    ensures
        r == target.deep_view().is_prefix_of(link_target.deep_view()),
{
    segs_prefix(target, link_target)
}

/// Whether the entry's entire transitive content is symlinks resolving
/// under the target.
pub fn is_symlink_dir_to(e: &FsEntry, target: &Option<Vec<Vec<u8>>>) -> (r: bool)
    ensures
        r == all_links_under(*e, opt_segs_view(*target)),
    decreases *e,
{
    match e {
        FsEntry::Symlink(t) => match target {
            None => true,
            Some(p) => segs_prefix(p, t),
        },
        FsEntry::Dir(cs) => {
            let mut i: usize = 0;
            while i < cs.len()
                invariant
                    *e == FsEntry::Dir(*cs),
                    i <= cs@.len(),
                    forall|j: int|
                        0 <= j < i ==> all_links_under(
                            #[trigger] cs@[j],
                            opt_segs_view(*target),
                        ),
                decreases cs@.len() - i,
            {
                proof {
                    assert(e->Dir_0 == *cs);
                    assert(decreases_to!(*e => e->Dir_0));
                    assert(decreases_to!(*cs => cs@));
                    assert(decreases_to!(cs@ => cs@[i as int]));
                    assert(decreases_to!(*e => cs@[i as int]));
                }
                if !is_symlink_dir_to(&cs[i], target) {
                    proof {
                        assert(!all_links_under(cs@[i as int], opt_segs_view(*target)));
                        assert(all_links_under(*e, opt_segs_view(*target)) == (forall|j: int|
                            0 <= j < cs@.len() ==> all_links_under(
                                #[trigger] cs@[j],
                                opt_segs_view(*target),
                            )));
                    }
                    return false;
                }
                i += 1;
            }
            true
        },
        FsEntry::Other => false,
    }
}

/// What the evaluator knows of one visited entry.
#[derive(Debug)]
pub struct EntryMeta {
    /// whether the entry itself is a symlink
    pub is_symlink: bool,
    /// whether the entry is a directory
    pub is_dir: bool,
    /// where the entry's own link points, when it is a readable symlink
    pub link_target: Option<Vec<Vec<u8>>>,
    /// the entries of a real directory, when they could be read
    pub dir_entries: Option<Vec<FsEntry>>,
}

/// Whether one resolved rule matches the visited entry.
pub open spec fn rule_matches(r: RuleModel, path: Seq<Seq<u8>>, meta: EntryMeta) -> bool {
    match r {
        RuleModel::Plain(_) => true,
        RuleModel::SymLink(_, target) => meta.is_symlink && match target {
            None => true,
            Some(t) => match meta.link_target {
                None => false,
                Some(lt) => t.is_prefix_of(lt.deep_view()),
            },
        },
        RuleModel::SymLinkDir(_, target) => !meta.is_symlink && meta.is_dir
            && match meta.dir_entries {
            None => false,
            Some(es) => forall|i: int|
                0 <= i < es@.len() ==> all_links_under(#[trigger] es@[i], target),
        },
        RuleModel::Suffix(_, sfx) => sfx.is_suffix_of(path),
        RuleModel::Exact(_, p) => p == path,
        RuleModel::MountPoint(_) => false,
    }
}

/// Whether the rule's match triggers a memoizing insertion: only the two
/// expensive kinds, suffix and symlink-directory, do.
pub open spec fn rule_memoizes(r: RuleModel, path: Seq<Seq<u8>>, meta: EntryMeta) -> bool {
    match r {
        RuleModel::SymLinkDir(_, _) => rule_matches(r, path, meta),
        RuleModel::Suffix(_, _) => rule_matches(r, path, meta),
        _ => false,
    }
}

/// The tag a rule carries.
pub open spec fn tag_of(r: RuleModel) -> Seq<u8> {
    match r {
        RuleModel::Plain(t) => t,
        RuleModel::MountPoint(t) => t,
        RuleModel::SymLink(t, _) => t,
        RuleModel::SymLinkDir(t, _) => t,
        RuleModel::Suffix(t, _) => t,
        RuleModel::Exact(t, _) => t,
    }
}

/// The tags of the rules that memoize, in resolution order.
pub open spec fn memo_tags(s: Seq<RuleModel>, path: Seq<Seq<u8>>, meta: EntryMeta) -> Seq<Seq<u8>>
    decreases s.len(),
{
    if s.len() == 0 {
        Seq::<Seq<u8>>::empty()
    } else {
        (if rule_memoizes(s[0], path, meta) {
            seq![tag_of(s[0])]
        } else {
            Seq::<Seq<u8>>::empty()
        }) + memo_tags(s.drop_first(), path, meta)
    }
}

/// The pairs the memoizing insertions attach at the visited path: a mask
/// with a plain rule for each memoizing match.
pub open spec fn memo_pairs(s: Seq<RuleModel>, path: Seq<Seq<u8>>, meta: EntryMeta) -> Seq<
    (Policy, RuleModel),
> {
    memo_tags(s, path, meta).map_values(|t: Seq<u8>| (Policy::Mask, RuleModel::Plain(t)))
}

/// Whether any resolved rule matches the entry.
pub open spec fn any_match(s: Seq<RuleModel>, path: Seq<Seq<u8>>, meta: EntryMeta) -> bool {
    exists|i: int| 0 <= i < s.len() && rule_matches(#[trigger] s[i], path, meta)
}

/// Whether the resolved rules hold a mount-point rule.
pub open spec fn has_mount(s: Seq<RuleModel>) -> bool {
    exists|i: int| 0 <= i < s.len() && (#[trigger] s[i]) is MountPoint
}

/// One more rule at the end memoizes at the end.
proof fn lemma_memo_tags_snoc(s: Seq<RuleModel>, x: RuleModel, path: Seq<Seq<u8>>, meta: EntryMeta)
    ensures
        memo_tags(s.push(x), path, meta) == memo_tags(s, path, meta) + (if rule_memoizes(
            x,
            path,
            meta,
        ) {
            seq![tag_of(x)]
        } else {
            Seq::<Seq<u8>>::empty()
        }),
    decreases s.len(),
{
    let hx = (if rule_memoizes(x, path, meta) {
        seq![tag_of(x)]
    } else {
        Seq::<Seq<u8>>::empty()
    });
    if s.len() == 0 {
        assert(s.push(x)[0] == x);
        assert(s.push(x).drop_first() =~= Seq::<RuleModel>::empty());
        assert(memo_tags(s.push(x).drop_first(), path, meta) == Seq::<Seq<u8>>::empty());
        assert(memo_tags(s, path, meta) + hx =~= hx + Seq::<Seq<u8>>::empty());
    } else {
        let h0 = (if rule_memoizes(s[0], path, meta) {
            seq![tag_of(s[0])]
        } else {
            Seq::<Seq<u8>>::empty()
        });
        assert(s.push(x)[0] == s[0]);
        assert(s.push(x).drop_first() =~= s.drop_first().push(x));
        lemma_memo_tags_snoc(s.drop_first(), x, path, meta);
        assert(memo_tags(s, path, meta) + hx =~= h0 + (memo_tags(s.drop_first(), path, meta)
            + hx));
    }
}

/// Whether every entry of a read directory is a symlink tree under the
/// target.
fn all_entries_link(es: &Vec<FsEntry>, target: &Option<Vec<Vec<u8>>>) -> (r: bool)
    ensures
        r == forall|i: int|
            0 <= i < es@.len() ==> all_links_under(#[trigger] es@[i], opt_segs_view(*target)),
{
    let mut i: usize = 0;
    while i < es.len()
        invariant
            i <= es@.len(),
            forall|j: int|
                0 <= j < i ==> all_links_under(#[trigger] es@[j], opt_segs_view(*target)),
        decreases es@.len() - i,
    {
        if !is_symlink_dir_to(&es[i], target) {
            return false;
        }
        i += 1;
    }
    true
}

/// Evaluates one visited entry against one rule-set: resolves the rules
/// for the path, reports whether any of them matches, and memoizes every
/// successful suffix or symlink-directory check as a mask with a plain
/// rule at the path. A resolved mount-point rule fails the run and leaves
/// the tree unchanged.
pub fn evaluate(tree: &mut RulesTree, path: &Vec<Vec<u8>>, meta: &EntryMeta, key: usize) -> (r:
    Result<bool, EvalError>)
    ensures
        ({
            let resolved = resolve_model(*old(tree), path.deep_view(), key as int);
            match r {
                Ok(m) => {
                    &&& !has_mount(resolved)
                    &&& m == any_match(resolved, path.deep_view(), *meta)
                    &&& forall|q: Seq<Seq<u8>>, k: int| #[trigger] tree_local(*final(tree), q, k)
                        == if q == path.deep_view() && k == key as int {
                        tree_local(*old(tree), q, k) + memo_pairs(
                            resolved,
                            path.deep_view(),
                            *meta,
                        )
                    } else {
                        tree_local(*old(tree), q, k)
                    }
                },
                Err(e) => {
                    &&& has_mount(resolved)
                    &&& e == EvalError::MountPointUnsupported
                    &&& forall|q: Seq<Seq<u8>>, k: int| #[trigger] tree_local(*final(tree), q, k)
                        == tree_local(*old(tree), q, k)
                },
            }
        }),
{
    broadcast use lemma_bytes_deep_view;

    let ghost pdv = path.deep_view();
    let ghost t0 = *tree;
    let resolved = tree.get_rules(path, key);
    let ghost rv = rules_view(resolved@);
    let mut m: bool = false;
    let mut memo: Vec<Vec<u8>> = Vec::new();
    let mut i: usize = 0;
    proof {
        assert(rv.take(0) =~= Seq::<RuleModel>::empty());
        assert(memo.deep_view() =~= Seq::<Seq<u8>>::empty());
        assert(memo_tags(rv.take(0), pdv, *meta) == Seq::<Seq<u8>>::empty());
    }
    while i < resolved.len()
        invariant
            i <= resolved@.len(),
            rv == rules_view(resolved@),
            rv.len() == resolved@.len(),
            pdv == path.deep_view(),
            *tree == t0,
            t0 == *old(tree),
            rv == resolve_model(t0, pdv, key as int),
            m == any_match(rv.take(i as int), pdv, *meta),
            memo.deep_view() == memo_tags(rv.take(i as int), pdv, *meta),
            !has_mount(rv.take(i as int)),
        decreases resolved@.len() - i,
    {
        proof {
            assert(rv[i as int] == resolved@[i as int]@);
            assert(rv.take(i + 1) =~= rv.take(i as int).push(rv[i as int]));
            lemma_memo_tags_snoc(rv.take(i as int), rv[i as int], pdv, *meta);
        }
        let ghost memo0 = memo.deep_view();
        let ghost m0 = m;
        let rule = &resolved[i];
        match rule {
            Rule::Plain(_) => {
                m = true;
            },
            Rule::SymLink(_, target) => {
                let ok = meta.is_symlink && (match target {
                    None => true,
                    Some(t) => match &meta.link_target {
                        None => false,
                        Some(lt) => segs_prefix(t, lt),
                    },
                });
                if ok {
                    m = true;
                }
                proof {
                    assert(ok == rule_matches(rv[i as int], pdv, *meta));
                }
            },
            Rule::SymLinkDir(tag, target) => {
                let ok = !meta.is_symlink && meta.is_dir && (match &meta.dir_entries {
                    None => false,
                    Some(es) => all_entries_link(es, target),
                });
                proof {
                    assert(ok == rule_matches(rv[i as int], pdv, *meta));
                }
                if ok {
                    m = true;
                    let d = dup_bytes(tag);
                    let ghost dg = d;
                    memo.push(d);
                    proof {
                        lemma_bytes_deep_view(dg);
                        assert(memo.deep_view() =~= memo0.push(tag@));
                        assert(memo0.push(tag@) =~= memo0 + seq![tag_of(rv[i as int])]);
                    }
                }
            },
            Rule::Suffix(tag, sfx) => {
                let ok = segs_suffix(sfx, path);
                proof {
                    assert(ok == rule_matches(rv[i as int], pdv, *meta));
                }
                if ok {
                    m = true;
                    let d = dup_bytes(tag);
                    let ghost dg = d;
                    memo.push(d);
                    proof {
                        lemma_bytes_deep_view(dg);
                        assert(memo.deep_view() =~= memo0.push(tag@));
                        assert(memo0.push(tag@) =~= memo0 + seq![tag_of(rv[i as int])]);
                    }
                }
            },
            Rule::Exact(_, p) => {
                let ok = segs_eq(p, path);
                if ok {
                    m = true;
                }
                proof {
                    assert(ok == rule_matches(rv[i as int], pdv, *meta));
                }
            },
            Rule::MountPoint(_) => {
                proof {
                    assert(rv[i as int] is MountPoint);
                    assert(has_mount(rv));
                }
                return Err(EvalError::MountPointUnsupported);
            },
        }
        proof {
            let pre = rv.take(i as int);
            let now = rv.take(i + 1);
            if m {
                if m0 {
                    let w = choose|w: int|
                        0 <= w < pre.len() && rule_matches(#[trigger] pre[w], pdv, *meta);
                    assert(rule_matches(now[w], pdv, *meta));
                } else {
                    assert(rule_matches(now[i as int], pdv, *meta));
                }
                assert(any_match(now, pdv, *meta));
            } else {
                assert forall|w: int| 0 <= w < now.len() implies !rule_matches(
                    #[trigger] now[w],
                    pdv,
                    *meta,
                ) by {
                    if w < i {
                        assert(now[w] == pre[w]);
                        assert(!any_match(pre, pdv, *meta));
                    }
                }
            }
            if !rule_memoizes(rv[i as int], pdv, *meta) {
                assert(memo.deep_view() =~= memo0 + Seq::<Seq<u8>>::empty());
            }
            assert forall|w: int| 0 <= w < now.len() implies !((#[trigger] now[w]) is MountPoint)
                by {
                if w < i {
                    assert(now[w] == pre[w]);
                    assert(!has_mount(pre));
                }
            }
        }
        i += 1;
    }
    proof {
        assert(rv.take(rv.len() as int) =~= rv);
    }
    let ghost tags_full = memo_tags(rv, pdv, *meta);
    let mut j: usize = 0;
    proof {
        assert(memo.deep_view() == tags_full);
        assert(memo@.len() == tags_full.len());
        assert forall|q: Seq<Seq<u8>>, k: int| #[trigger] tree_local(*tree, q, k) == if q == pdv
            && k == key as int {
            tree_local(t0, q, k) + tags_full.take(0).map_values(
                |t: Seq<u8>| (Policy::Mask, RuleModel::Plain(t)),
            )
        } else {
            tree_local(t0, q, k)
        } by {
            assert(tags_full.take(0) =~= Seq::<Seq<u8>>::empty());
            assert(tags_full.take(0).map_values(|t: Seq<u8>| (Policy::Mask, RuleModel::Plain(t)))
                =~= Seq::<(Policy, RuleModel)>::empty());
            assert(tree_local(t0, q, k) + Seq::<(Policy, RuleModel)>::empty() =~= tree_local(
                t0,
                q,
                k,
            ));
        }
    }
    while j < memo.len()
        invariant
            j <= memo@.len(),
            memo.deep_view() == tags_full,
            memo@.len() == tags_full.len(),
            pdv == path.deep_view(),
            t0 == *old(tree),
            rv == resolve_model(t0, pdv, key as int),
            tags_full == memo_tags(rv, pdv, *meta),
            forall|q: Seq<Seq<u8>>, k: int| #[trigger] tree_local(*tree, q, k) == if q == pdv && k
                == key as int {
                tree_local(t0, q, k) + tags_full.take(j as int).map_values(
                    |t: Seq<u8>| (Policy::Mask, RuleModel::Plain(t)),
                )
            } else {
                tree_local(t0, q, k)
            },
        decreases memo@.len() - j,
    {
        let tag = dup_bytes(&memo[j]);
        tree.add_rule(path, key, Policy::Mask, Rule::Plain(tag));
        proof {
            let f = |t: Seq<u8>| (Policy::Mask, RuleModel::Plain(t));
            assert(tags_full[j as int] == memo@[j as int]@);
            assert(tags_full.take(j + 1) =~= tags_full.take(j as int).push(tags_full[j as int]));
            assert(tags_full.take(j + 1).map_values(f) =~= tags_full.take(j as int).map_values(
                f,
            ).push(f(tags_full[j as int])));
            assert forall|q: Seq<Seq<u8>>, k: int| #[trigger] tree_local(*tree, q, k) == if q
                == pdv && k == key as int {
                tree_local(t0, q, k) + tags_full.take(j + 1).map_values(f)
            } else {
                tree_local(t0, q, k)
            } by {
                if q == pdv && k == key as int {
                    assert((tree_local(t0, q, k) + tags_full.take(j as int).map_values(f)).push(
                        f(tags_full[j as int]),
                    ) =~= tree_local(t0, q, k) + tags_full.take(j + 1).map_values(f));
                }
            }
        }
        j += 1;
    }
    proof {
        assert(tags_full.take(tags_full.len() as int) =~= tags_full);
    }
    Ok(m)
}

} // verus!
