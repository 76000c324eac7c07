//! The combinator and the per-entry driver: one verdict per requested
//! rule-set, merged into the final emit decision by the requested mode.

use crate::eval::any_match;
use crate::eval::evaluate;
use crate::eval::has_mount;
use crate::eval::memo_pairs;
use crate::eval::EntryMeta;
use crate::eval::EvalError;
use crate::tree::locals_from;
use crate::tree::resolve_model;
use crate::tree::tree_local;
use crate::tree::RulesTree;
use vstd::prelude::*;

verus! {

/// How the verdicts of the requested rule-sets merge.
#[derive(Clone, Copy, Debug, PartialEq, Eq, Structural)]
pub enum Mode {
    Or,
    And,
    Nor,
}

/// Merges the per-rule-set verdicts: `Or` emits when at least one is true,
/// `And` only when every one is true, `Nor` when every one is false.
/// `And` is not an alias of `Or`: it demands every requested rule-set.
pub fn combine(mode: Mode, verdicts: &Vec<bool>) -> (r: bool)
    ensures
        mode == Mode::Or ==> r == exists|i: int| 0 <= i < verdicts@.len() && #[trigger] verdicts@[i],
        mode == Mode::And ==> r == forall|i: int|
            0 <= i < verdicts@.len() ==> #[trigger] verdicts@[i],
        mode == Mode::Nor ==> r == forall|i: int|
            0 <= i < verdicts@.len() ==> !(#[trigger] verdicts@[i]),
{
    match mode {
        Mode::Or => {
            let mut i: usize = 0;
            while i < verdicts.len()
                invariant
                    mode == Mode::Or,
                    i <= verdicts@.len(),
                    forall|j: int| 0 <= j < i ==> !(#[trigger] verdicts@[j]),
                decreases verdicts@.len() - i,
            {
                if verdicts[i] {
                    return true;
                }
                i += 1;
            }
            false
        },
        Mode::And => {
            let mut i: usize = 0;
            while i < verdicts.len()
                invariant
                    mode == Mode::And,
                    i <= verdicts@.len(),
                    forall|j: int| 0 <= j < i ==> #[trigger] verdicts@[j],
                decreases verdicts@.len() - i,
            {
                if !verdicts[i] {
                    return false;
                }
                i += 1;
            }
            true
        },
        Mode::Nor => {
            let mut i: usize = 0;
            while i < verdicts.len()
                invariant
                    mode == Mode::Nor,
                    i <= verdicts@.len(),
                    forall|j: int| 0 <= j < i ==> !(#[trigger] verdicts@[j]),
                decreases verdicts@.len() - i,
            {
                if verdicts[i] {
                    return false;
                }
                i += 1;
            }
            true
        },
    }
}

/// The number of rule-set keys a request uses: `And` compiles each
/// requested rule under its own key, the other modes share key zero.
pub fn rule_set_count(mode: Mode, n_rules: usize) -> (r: usize)
    ensures
        mode == Mode::And ==> r == n_rules,
        mode != Mode::And ==> r == 1,
{
    match mode {
        Mode::And => n_rules,
        _ => 1,
    }
}

/// The rule-set key the i-th requested rule compiles under.
pub fn rule_set_key(mode: Mode, i: usize) -> (r: usize)
    ensures
        mode == Mode::And ==> r == i,
        mode != Mode::And ==> r == 0,
{
    match mode {
        Mode::And => i,
        _ => 0,
    }
}

proof fn lemma_locals_congruence(t1: RulesTree, t2: RulesTree, path: Seq<Seq<u8>>, k: int, d: int)
    requires
        forall|q: Seq<Seq<u8>>| #[trigger] tree_local(t1, q, k) == tree_local(t2, q, k),
    ensures
        locals_from(t1.root, path, k, d) == locals_from(t2.root, path, k, d),
    decreases path.len() - d + 1,
{
    if d < 0 || d > path.len() {
    } else {
        assert(tree_local(t1, path.take(d), k) == tree_local(t2, path.take(d), k));
        lemma_locals_congruence(t1, t2, path, k, d + 1);
    }
}

/// Resolution reads only the resolved key's rules: two trees that agree on
/// every local list of a key resolve every path alike for that key.
pub proof fn lemma_resolve_congruence(t1: RulesTree, t2: RulesTree, path: Seq<Seq<u8>>, k: int)
    requires
        forall|q: Seq<Seq<u8>>| #[trigger] tree_local(t1, q, k) == tree_local(t2, q, k),
    ensures
        resolve_model(t1, path, k) == resolve_model(t2, path, k),
{
    lemma_locals_congruence(t1, t2, path, k, 0);
}

/// Evaluates one visited entry: rule-set keys `0..count` in order, each
/// verdict taken against the tree as it stood before the entry (memoizing
/// insertions only touch their own key at the visited path), then the
/// mode's combination. On a resolved mount-point rule the run fails; only
/// the visited path's own rules may have been extended by then.
pub fn evaluate_entry(
    tree: &mut RulesTree,
    path: &Vec<Vec<u8>>,
    meta: &EntryMeta,
    mode: Mode,
    count: usize,
) -> (r: Result<bool, EvalError>)
    ensures
        ({
            let pdv = path.deep_view();
            match r {
                Ok(m) => {
                    &&& forall|kk: int|
                        0 <= kk < count ==> !has_mount(
                            #[trigger] resolve_model(*old(tree), pdv, kk),
                        )
                    &&& mode == Mode::Or ==> m == exists|kk: int|
                        0 <= kk < count && any_match(
                            #[trigger] resolve_model(*old(tree), pdv, kk),
                            pdv,
                            *meta,
                        )
                    &&& mode == Mode::And ==> m == forall|kk: int|
                        0 <= kk < count ==> any_match(
                            #[trigger] resolve_model(*old(tree), pdv, kk),
                            pdv,
                            *meta,
                        )
                    &&& mode == Mode::Nor ==> m == forall|kk: int|
                        0 <= kk < count ==> !any_match(
                            #[trigger] resolve_model(*old(tree), pdv, kk),
                            pdv,
                            *meta,
                        )
                    &&& forall|q: Seq<Seq<u8>>, k: int| #[trigger] tree_local(*final(tree), q, k)
                        == if q == pdv && 0 <= k < count {
                        tree_local(*old(tree), q, k) + memo_pairs(
                            resolve_model(*old(tree), pdv, k),
                            pdv,
                            *meta,
                        )
                    } else {
                        tree_local(*old(tree), q, k)
                    }
                },
                Err(e) => {
                    &&& e == EvalError::MountPointUnsupported
                    &&& exists|kk: int|
                        0 <= kk < count && has_mount(
                            #[trigger] resolve_model(*old(tree), pdv, kk),
                        )
                    &&& forall|q: Seq<Seq<u8>>, k: int|
                        q != pdv ==> #[trigger] tree_local(*final(tree), q, k) == tree_local(
                            *old(tree),
                            q,
                            k,
                        )
                },
            }
        }),
{
    let ghost t0 = *tree;
    let ghost pdv = path.deep_view();
    let mut verdicts: Vec<bool> = Vec::new();
    let mut i: usize = 0;
    proof {
        assert forall|q: Seq<Seq<u8>>, k: int| #[trigger] tree_local(*tree, q, k) == if q == pdv
            && 0 <= k < 0 {
            tree_local(t0, q, k) + memo_pairs(resolve_model(t0, pdv, k), pdv, *meta)
        } else {
            tree_local(t0, q, k)
        } by {}
    }
    while i < count
        invariant
            i <= count,
            t0 == *old(tree),
            pdv == path.deep_view(),
            verdicts@.len() == i,
            forall|kk: int|
                0 <= kk < i ==> verdicts@[kk] == any_match(
                    #[trigger] resolve_model(t0, pdv, kk),
                    pdv,
                    *meta,
                ),
            forall|kk: int| 0 <= kk < i ==> !has_mount(#[trigger] resolve_model(t0, pdv, kk)),
            forall|q: Seq<Seq<u8>>, k: int| #[trigger] tree_local(*tree, q, k) == if q == pdv && 0
                <= k < i {
                tree_local(t0, q, k) + memo_pairs(resolve_model(t0, pdv, k), pdv, *meta)
            } else {
                tree_local(t0, q, k)
            },
        decreases count - i,
    {
        let ghost tpre = *tree;
        proof {
            assert forall|q: Seq<Seq<u8>>| #[trigger] tree_local(tpre, q, i as int) == tree_local(
                t0,
                q,
                i as int,
            ) by {}
            lemma_resolve_congruence(tpre, t0, pdv, i as int);
        }
        match evaluate(tree, path, meta, i) {
            Err(e) => {
                proof {
                    assert(has_mount(resolve_model(t0, pdv, i as int)));
                }
                return Err(e);
            },
            Ok(m) => {
                verdicts.push(m);
                proof {
                    assert forall|q: Seq<Seq<u8>>, k: int| #[trigger] tree_local(*tree, q, k)
                        == if q == pdv && 0 <= k < i + 1 {
                        tree_local(t0, q, k) + memo_pairs(resolve_model(t0, pdv, k), pdv, *meta)
                    } else {
                        tree_local(t0, q, k)
                    } by {
                        assert(tree_local(*tree, q, k) == if q == pdv && k == i as int {
                            tree_local(tpre, q, k) + memo_pairs(
                                resolve_model(tpre, pdv, i as int),
                                pdv,
                                *meta,
                            )
                        } else {
                            tree_local(tpre, q, k)
                        });
                    }
                }
            },
        }
        i += 1;
    }
    let m = combine(mode, &verdicts);
    proof {
        if mode == Mode::Or {
            assert(m == exists|kk: int|
                0 <= kk < count && any_match(
                    #[trigger] resolve_model(t0, pdv, kk),
                    pdv,
                    *meta,
                )) by {
                if m {
                    let w = choose|w: int| 0 <= w < verdicts@.len() && #[trigger] verdicts@[w];
                    assert(any_match(resolve_model(t0, pdv, w), pdv, *meta));
                } else {
                    if exists|kk: int|
                        0 <= kk < count && any_match(
                            #[trigger] resolve_model(t0, pdv, kk),
                            pdv,
                            *meta,
                        ) {
                        let w = choose|w: int|
                            0 <= w < count && any_match(
                                #[trigger] resolve_model(t0, pdv, w),
                                pdv,
                                *meta,
                            );
                        assert(verdicts@[w]);
                    }
                }
            }
        }
        if mode == Mode::And {
            assert(m == forall|kk: int|
                0 <= kk < count ==> any_match(
                    #[trigger] resolve_model(t0, pdv, kk),
                    pdv,
                    *meta,
                )) by {
                if m {
                    assert forall|kk: int| 0 <= kk < count implies any_match(
                        #[trigger] resolve_model(t0, pdv, kk),
                        pdv,
                        *meta,
                    ) by {
                        assert(verdicts@[kk]);
                    }
                } else {
                    let w = choose|w: int| 0 <= w < verdicts@.len() && !(#[trigger] verdicts@[w]);
                    assert(!any_match(resolve_model(t0, pdv, w), pdv, *meta));
                }
            }
        }
        if mode == Mode::Nor {
            assert(m == forall|kk: int|
                0 <= kk < count ==> !any_match(
                    #[trigger] resolve_model(t0, pdv, kk),
                    pdv,
                    *meta,
                )) by {
                if m {
                    assert forall|kk: int| 0 <= kk < count implies !any_match(
                        #[trigger] resolve_model(t0, pdv, kk),
                        pdv,
                        *meta,
                    ) by {
                        assert(!verdicts@[kk]);
                    }
                } else {
                    let w = choose|w: int| 0 <= w < verdicts@.len() && #[trigger] verdicts@[w];
                    assert(any_match(resolve_model(t0, pdv, w), pdv, *meta));
                }
            }
        }
    }
    Ok(m)
}

} // verus!
