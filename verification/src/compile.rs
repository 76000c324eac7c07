//! The rule compiler: expands a requested tag, flattening tag references
//! with a work stack and a visited set so that reference cycles are
//! harmless, and inserts each primitive rule into the rule tree.

use crate::bytes::bytes_eq;
use crate::bytes::dup_bytes;
use crate::bytes::dup_segs;
use crate::bytes::lemma_bytes_deep_view;
use crate::config::CfgRuleModel;
use crate::config::Config;
use crate::config::Rule;
use crate::tree::tree_local;
use crate::tree::Policy;
use crate::tree::Rule as TreeRule;
use crate::tree::RuleModel;
use crate::tree::RulesTree;
use vstd::prelude::*;
use vstd::set_lib::lemma_len_subset;

verus! {

broadcast use vstd::set::group_set_axioms;

/// Failure of rule compilation.
#[derive(Clone, Debug, PartialEq, Eq)]
pub enum CompileError {
    /// A tag referenced a tag name the configuration does not define.
    UndefinedTag(Vec<u8>),
}

/// One insertion into the rule tree: the path it attaches at, the policy,
/// and the rule.
pub type InsertModel = (Seq<Seq<u8>>, Policy, RuleModel);

/// The insertions one tag's own rules produce; every inserted rule carries
/// the requested root tag's name. Directory and file rules mask their
/// subtree, all other rules append.
pub open spec fn inserts_of(rules: Seq<CfgRuleModel>, root: Seq<u8>) -> Seq<InsertModel>
    decreases rules.len(),
{
    if rules.len() == 0 {
        Seq::<InsertModel>::empty()
    } else {
        insert_of(rules[0], root) + inserts_of(rules.drop_first(), root)
    }
}

/// The insertions one rule produces (a tag reference produces none).
pub open spec fn insert_of(rule: CfgRuleModel, root: Seq<u8>) -> Seq<InsertModel> {
    match rule {
        CfgRuleModel::Suffix(path, sfx) => seq![
            (path, Policy::Append, RuleModel::Suffix(root, sfx)),
        ],
        CfgRuleModel::Dir(dir) => seq![(dir, Policy::Mask, RuleModel::Plain(root))],
        CfgRuleModel::File(file) => seq![(file, Policy::Mask, RuleModel::Plain(root))],
        CfgRuleModel::Exact(name) => seq![(name, Policy::Append, RuleModel::Exact(root, name))],
        CfgRuleModel::MountPoint(path) => seq![
            (path, Policy::Append, RuleModel::MountPoint(root)),
        ],
        CfgRuleModel::SymLink(path, target) => seq![
            (path, Policy::Append, RuleModel::SymLink(root, target)),
        ],
        CfgRuleModel::SymLinkDir(path, target) => seq![
            (path, Policy::Append, RuleModel::SymLinkDir(root, target)),
        ],
        CfgRuleModel::Tag(_) => Seq::<InsertModel>::empty(),
    }
}

/// The tag names one tag's reference rules push, in rule order.
pub open spec fn pushes_of(rules: Seq<CfgRuleModel>) -> Seq<Seq<u8>>
    decreases rules.len(),
{
    if rules.len() == 0 {
        Seq::<Seq<u8>>::empty()
    } else {
        (match rules[0] {
            CfgRuleModel::Tag(n) => seq![n],
            _ => Seq::<Seq<u8>>::empty(),
        }) + pushes_of(rules.drop_first())
    }
}

/// The insertions a whole expansion produces: the top stack name is popped;
/// a visited name is skipped, an undefined one is the failure, and a
/// defined one contributes its rules once and pushes its references.
pub open spec fn spec_expand(
    tags: Map<Seq<u8>, Seq<CfgRuleModel>>,
    root: Seq<u8>,
    stack: Seq<Seq<u8>>,
    visited: Set<Seq<u8>>,
) -> Option<Seq<InsertModel>>
    decreases tags.dom().len() - visited.len(), stack.len(),
    when visited.subset_of(tags.dom()) && tags.dom().finite()
    via spec_expand_dec
{
    if stack.len() == 0 {
        Some(Seq::<InsertModel>::empty())
    } else {
        let name = stack.last();
        if visited.contains(name) {
            spec_expand(tags, root, stack.drop_last(), visited)
        } else if !tags.contains_key(name) {
            None
        } else {
            match spec_expand(
                tags,
                root,
                stack.drop_last() + pushes_of(tags[name]),
                visited.insert(name),
            ) {
                None => None,
                Some(rest) => Some(inserts_of(tags[name], root) + rest),
            }
        }
    }
}

#[via_fn]
proof fn spec_expand_dec(
    tags: Map<Seq<u8>, Seq<CfgRuleModel>>,
    root: Seq<u8>,
    stack: Seq<Seq<u8>>,
    visited: Set<Seq<u8>>,
) {
    lemma_len_subset(visited, tags.dom());
    if stack.len() > 0 {
        let name = stack.last();
        if !visited.contains(name) && tags.contains_key(name) {
            assert(visited.insert(name).subset_of(tags.dom()));
            lemma_len_subset(visited.insert(name), tags.dom());
        }
    }
}

/// The pairs a list of insertions attaches at one path.
pub open spec fn inserts_at(inserts: Seq<InsertModel>, q: Seq<Seq<u8>>) -> Seq<(Policy, RuleModel)>
    decreases inserts.len(),
{
    if inserts.len() == 0 {
        Seq::<(Policy, RuleModel)>::empty()
    } else {
        (if inserts[0].0 == q {
            seq![(inserts[0].1, inserts[0].2)]
        } else {
            Seq::<(Policy, RuleModel)>::empty()
        }) + inserts_at(inserts.drop_first(), q)
    }
}

/// `inserts_at` distributes over concatenation.
pub proof fn lemma_inserts_at_concat(a: Seq<InsertModel>, b: Seq<InsertModel>, q: Seq<Seq<u8>>)
    ensures
        inserts_at(a + b, q) == inserts_at(a, q) + inserts_at(b, q),
    decreases a.len(),
{
    if a.len() == 0 {
        assert(a + b =~= b);
        assert(inserts_at(a, q) + inserts_at(b, q) =~= inserts_at(b, q));
    } else {
        assert((a + b)[0] == a[0]);
        assert((a + b).drop_first() =~= a.drop_first() + b);
        lemma_inserts_at_concat(a.drop_first(), b, q);
        assert(inserts_at(a, q) + inserts_at(b, q) =~= (if a[0].0 == q {
            seq![(a[0].1, a[0].2)]
        } else {
            Seq::<(Policy, RuleModel)>::empty()
        }) + (inserts_at(a.drop_first(), q) + inserts_at(b, q)));
    }
}

/// One more rule at the end contributes its insertions at the end.
pub proof fn lemma_inserts_of_snoc(s: Seq<CfgRuleModel>, x: CfgRuleModel, root: Seq<u8>)
    ensures
        inserts_of(s.push(x), root) == inserts_of(s, root) + insert_of(x, root),
    decreases s.len(),
{
    if s.len() == 0 {
        assert(s.push(x)[0] == x);
        assert(s.push(x).drop_first() =~= Seq::<CfgRuleModel>::empty());
        assert(inserts_of(s.push(x).drop_first(), root) == Seq::<InsertModel>::empty());
        assert(inserts_of(s, root) + insert_of(x, root) =~= insert_of(x, root) + Seq::<
            InsertModel,
        >::empty());
    } else {
        assert(s.push(x)[0] == s[0]);
        assert(s.push(x).drop_first() =~= s.drop_first().push(x));
        lemma_inserts_of_snoc(s.drop_first(), x, root);
        assert(inserts_of(s, root) + insert_of(x, root) =~= insert_of(s[0], root) + (inserts_of(
            s.drop_first(),
            root,
        ) + insert_of(x, root)));
    }
}

/// One more rule at the end pushes its references at the end.
pub proof fn lemma_pushes_of_snoc(s: Seq<CfgRuleModel>, x: CfgRuleModel)
    ensures
        pushes_of(s.push(x)) == pushes_of(s) + (match x {
            CfgRuleModel::Tag(n) => seq![n],
            _ => Seq::<Seq<u8>>::empty(),
        }),
    decreases s.len(),
{
    let hx = (match x {
        CfgRuleModel::Tag(n) => seq![n],
        _ => Seq::<Seq<u8>>::empty(),
    });
    if s.len() == 0 {
        assert(s.push(x)[0] == x);
        assert(s.push(x).drop_first() =~= Seq::<CfgRuleModel>::empty());
        assert(pushes_of(s.push(x).drop_first()) == Seq::<Seq<u8>>::empty());
        assert(pushes_of(s) + hx =~= hx + Seq::<Seq<u8>>::empty());
    } else {
        let h0 = (match s[0] {
            CfgRuleModel::Tag(n) => seq![n],
            _ => Seq::<Seq<u8>>::empty(),
        });
        assert(s.push(x)[0] == s[0]);
        assert(s.push(x).drop_first() =~= s.drop_first().push(x));
        lemma_pushes_of_snoc(s.drop_first(), x);
        assert(pushes_of(s) + hx =~= h0 + (pushes_of(s.drop_first()) + hx));
    }
}

/// Whether a name is among the collected views.
fn contains_name(v: &Vec<Vec<u8>>, name: &Vec<u8>) -> (r: bool)
    ensures
        r == exists|j: int| 0 <= j < v@.len() && (#[trigger] v@[j])@ == name@,
{
    let mut i: usize = 0;
    while i < v.len()
        invariant
            i <= v@.len(),
            forall|j: int| 0 <= j < i ==> (#[trigger] v@[j])@ != name@,
        decreases v@.len() - i,
    {
        if bytes_eq(&v[i], name) {
            return true;
        }
        i += 1;
    }
    false
}

/// A tag table built from a finite list has a finite domain.
pub proof fn lemma_tags_map_finite(s: Seq<(Vec<u8>, crate::config::Tag)>)
    ensures
        crate::config::tags_map(s).dom().finite(),
    decreases s.len(),
{
    broadcast use vstd::map::group_map_axioms;

    if s.len() == 0 {
    } else {
        lemma_tags_map_finite(s.drop_last());
    }
}

/// Expands the requested tag and inserts every primitive rule it reaches
/// into the tree under the given rule-set key. Tag references are followed
/// once each, so cycles are harmless; referencing an undefined tag fails.
pub fn add_rules_to_tree(
    config: &Config,
    key: usize,
    rule_name: &Vec<u8>,
    tree: &mut RulesTree,
) -> (r: Result<(), CompileError>)
    ensures
        match r {
            Ok(_) => ({
                let ex = spec_expand(
                    config@.tags,
                    rule_name@,
                    seq![rule_name@],
                    Set::<Seq<u8>>::empty(),
                );
                &&& ex is Some
                &&& forall|q: Seq<Seq<u8>>, k: int| #[trigger] tree_local(*final(tree), q, k)
                    == if k == key as int {
                    tree_local(*old(tree), q, k) + inserts_at(ex.unwrap(), q)
                } else {
                    tree_local(*old(tree), q, k)
                }
            }),
            Err(e) => ({
                &&& spec_expand(
                    config@.tags,
                    rule_name@,
                    seq![rule_name@],
                    Set::<Seq<u8>>::empty(),
                ) is None
                &&& forall|q: Seq<Seq<u8>>, k: int|
                    k != key as int ==> #[trigger] tree_local(*final(tree), q, k) == tree_local(
                        *old(tree),
                        q,
                        k,
                    )
                &&& match e {
                    CompileError::UndefinedTag(n) => !config@.tags.contains_key(n@),
                }
            }),
        },
{
    broadcast use lemma_bytes_deep_view;

    let ghost tags = config@.tags;
    let ghost root = rule_name@;
    let ghost t0 = *tree;
    let mut stack: Vec<Vec<u8>> = Vec::new();
    stack.push(dup_bytes(rule_name));
    let mut visited: Vec<Vec<u8>> = Vec::new();
    let ghost mut vset = Set::<Seq<u8>>::empty();
    let ghost mut done = Seq::<InsertModel>::empty();
    proof {
        lemma_tags_map_finite(config.tags@);
        assert(stack.deep_view() =~= seq![root]);
        if spec_expand(tags, root, stack.deep_view(), vset) is Some {
            assert(done + spec_expand(tags, root, stack.deep_view(), vset).unwrap()
                =~= spec_expand(tags, root, stack.deep_view(), vset).unwrap());
        }
        assert forall|q: Seq<Seq<u8>>, k: int| #[trigger] tree_local(*tree, q, k) == if k
            == key as int {
            tree_local(t0, q, k) + inserts_at(done, q)
        } else {
            tree_local(t0, q, k)
        } by {
            assert(tree_local(t0, q, k) + inserts_at(done, q) =~= tree_local(t0, q, k));
        }
    }
    while stack.len() > 0
        invariant
            tags == config@.tags,
            root == rule_name@,
            t0 == *old(tree),
            tags.dom().finite(),
            vset.subset_of(tags.dom()),
            vset.len() <= tags.dom().len(),
            forall|x: Seq<u8>| #[trigger] vset.contains(x) <==> exists|j: int|
                0 <= j < visited@.len() && (#[trigger] visited@[j])@ == x,
            spec_expand(tags, root, stack.deep_view(), vset) is None ==> spec_expand(
                tags,
                root,
                seq![root],
                Set::<Seq<u8>>::empty(),
            ) is None,
            spec_expand(tags, root, stack.deep_view(), vset) is Some ==> spec_expand(
                tags,
                root,
                seq![root],
                Set::<Seq<u8>>::empty(),
            ) == Some(done + spec_expand(tags, root, stack.deep_view(), vset).unwrap()),
            forall|q: Seq<Seq<u8>>, k: int| #[trigger] tree_local(*tree, q, k) == if k
                == key as int {
                tree_local(t0, q, k) + inserts_at(done, q)
            } else {
                tree_local(t0, q, k)
            },
        decreases tags.dom().len() - vset.len(), stack@.len(),
    {
        let ghost sdv0 = stack.deep_view();
        let name = match stack.pop() {
            Some(n) => n,
            None => {
                proof {
                    assert(false);
                }
                return Err(CompileError::UndefinedTag(Vec::new()));
            },
        };
        proof {
            assert(stack.deep_view() =~= sdv0.drop_last());
            assert(name@ == sdv0.last());
        }
        if contains_name(&visited, &name) {
            proof {
                assert(vset.contains(name@));
            }
        } else {
            proof {
                assert(!vset.contains(name@));
            }
            match config.tag(&name) {
                None => {
                    proof {
                        assert(spec_expand(tags, root, sdv0, vset) is None);
                    }
                    return Err(CompileError::UndefinedTag(name));
                },
                Some(tag) => {
                    let ghost vset0 = vset;
                    let ghost visited0 = visited@;
                    let dname = dup_bytes(&name);
                    let ghost dgh = dname;
                    visited.push(dname);
                    proof {
                        vset = vset.insert(name@);
                        let len0 = visited0.len() as int;
                        assert(visited@ =~= visited0.push(dgh));
                        assert forall|x: Seq<u8>| #[trigger] vset.contains(x) <==> exists|j: int|
                            0 <= j < visited@.len() && (#[trigger] visited@[j])@ == x by {
                            if vset.contains(x) {
                                if x == name@ {
                                    assert((visited@[len0])@ == x);
                                } else {
                                    assert(vset0.contains(x));
                                    let j = choose|j: int|
                                        0 <= j < visited0.len() && (#[trigger] visited0[j])@ == x;
                                    assert((visited@[j])@ == x);
                                }
                            } else {
                                assert(!vset0.contains(x));
                                assert(x != name@);
                                assert forall|j: int|
                                    0 <= j < visited@.len() implies (#[trigger] visited@[j])@
                                    != x by {
                                    if j < len0 {
                                        assert(visited@[j] == visited0[j]);
                                        assert(!(exists|jj: int|
                                            0 <= jj < visited0.len() && (#[trigger] visited0[jj])@
                                                == x));
                                    } else {
                                        assert(visited@[j] == dgh);
                                    }
                                }
                            }
                        }
                        lemma_len_subset(vset, tags.dom());
                    }
                    let ghost rulesm = tag@;
                    let ghost base = stack.deep_view();
                    let ghost done0 = done;
                    proof {
                        assert(rulesm == tags[name@]);
                        assert(rulesm.take(0) =~= Seq::<CfgRuleModel>::empty());
                        assert(inserts_of(rulesm.take(0), root) == Seq::<InsertModel>::empty());
                        assert(pushes_of(rulesm.take(0)) == Seq::<Seq<u8>>::empty());
                        assert(base + pushes_of(rulesm.take(0)) =~= base);
                        assert(done0 + inserts_of(rulesm.take(0), root) =~= done0);
                        assert(rulesm.len() == tag.rules@.len());
                    }
                    let mut j: usize = 0;
                    while j < tag.rules.len()
                        invariant
                            j <= tag.rules@.len(),
                            rulesm == tag@,
                            rulesm.len() == tag.rules@.len(),
                            root == rule_name@,
                            t0 == *old(tree),
                            stack.deep_view() == base + pushes_of(rulesm.take(j as int)),
                            done == done0 + inserts_of(rulesm.take(j as int), root),
                            forall|q: Seq<Seq<u8>>, k: int| #[trigger] tree_local(*tree, q, k)
                                == if k == key as int {
                                tree_local(t0, q, k) + inserts_at(done, q)
                            } else {
                                tree_local(t0, q, k)
                            },
                        decreases tag.rules@.len() - j,
                    {
                        proof {
                            assert(rulesm[j as int] == tag.rules@[j as int]@);
                            assert(rulesm.take(j + 1) =~= rulesm.take(j as int).push(
                                rulesm[j as int],
                            ));
                            lemma_inserts_of_snoc(rulesm.take(j as int), rulesm[j as int], root);
                            lemma_pushes_of_snoc(rulesm.take(j as int), rulesm[j as int]);
                        }
                        let ghost donep = done;
                        let ghost stackp = stack.deep_view();
                        let ghost ins = insert_of(rulesm[j as int], root);
                        let r = &tag.rules[j];
                        match r {
                            Rule::Suffix(path, sfx) => {
                                tree.add_rule(
                                    path,
                                    key,
                                    Policy::Append,
                                    TreeRule::Suffix(dup_bytes(rule_name), dup_segs(sfx)),
                                );
                            },
                            Rule::Dir(dir) => {
                                tree.add_rule(
                                    dir,
                                    key,
                                    Policy::Mask,
                                    TreeRule::Plain(dup_bytes(rule_name)),
                                );
                            },
                            Rule::File(file) => {
                                tree.add_rule(
                                    file,
                                    key,
                                    Policy::Mask,
                                    TreeRule::Plain(dup_bytes(rule_name)),
                                );
                            },
                            Rule::Exact(namep) => {
                                tree.add_rule(
                                    namep,
                                    key,
                                    Policy::Append,
                                    TreeRule::Exact(dup_bytes(rule_name), dup_segs(namep)),
                                );
                            },
                            Rule::MountPoint(path) => {
                                tree.add_rule(
                                    path,
                                    key,
                                    Policy::Append,
                                    TreeRule::MountPoint(dup_bytes(rule_name)),
                                );
                            },
                            Rule::SymLink(path, target) => {
                                let t2 = match target {
                                    Some(p) => Some(dup_segs(p)),
                                    None => None,
                                };
                                tree.add_rule(
                                    path,
                                    key,
                                    Policy::Append,
                                    TreeRule::SymLink(dup_bytes(rule_name), t2),
                                );
                            },
                            Rule::SymLinkDir(path, target) => {
                                let t2 = match target {
                                    Some(p) => Some(dup_segs(p)),
                                    None => None,
                                };
                                tree.add_rule(
                                    path,
                                    key,
                                    Policy::Append,
                                    TreeRule::SymLinkDir(dup_bytes(rule_name), t2),
                                );
                            },
                            Rule::Tag(n) => {
                                let dn = dup_bytes(n);
                                let ghost dngh = dn;
                                stack.push(dn);
                                proof {
                                    lemma_bytes_deep_view(dngh);
                                    assert(stack.deep_view() =~= stackp.push(n@));
                                }
                            },
                        }
                        proof {
                            done = done0 + inserts_of(rulesm.take(j + 1), root);
                            assert(done =~= donep + ins);
                            assert forall|q: Seq<Seq<u8>>, k: int| #[trigger] tree_local(
                                *tree,
                                q,
                                k,
                            ) == if k == key as int {
                                tree_local(t0, q, k) + inserts_at(done, q)
                            } else {
                                tree_local(t0, q, k)
                            } by {
                                lemma_inserts_at_concat(donep, ins, q);
                                if ins.len() > 0 {
                                    assert(ins.drop_first() =~= Seq::<InsertModel>::empty());
                                    assert(inserts_at(ins.drop_first(), q) == Seq::<
                                        (Policy, RuleModel),
                                    >::empty());
                                    if ins[0].0 == q {
                                        assert(inserts_at(ins, q) =~= seq![(ins[0].1, ins[0].2)]);
                                    } else {
                                        assert(inserts_at(ins, q) =~= Seq::<
                                            (Policy, RuleModel),
                                        >::empty());
                                    }
                                } else {
                                    assert(inserts_at(ins, q) == Seq::<
                                        (Policy, RuleModel),
                                    >::empty());
                                }
                                assert(tree_local(t0, q, k) + inserts_at(donep, q) + inserts_at(
                                    ins,
                                    q,
                                ) =~= tree_local(t0, q, k) + (inserts_at(donep, q) + inserts_at(
                                    ins,
                                    q,
                                )));
                                if k == key as int && inserts_at(ins, q).len() > 0 {
                                    assert((tree_local(t0, q, k) + inserts_at(donep, q)).push(
                                        (ins[0].1, ins[0].2),
                                    ) =~= tree_local(t0, q, k) + inserts_at(donep, q) + inserts_at(
                                        ins,
                                        q,
                                    ));
                                }
                                if k == key as int && inserts_at(ins, q).len() == 0 {
                                    assert(tree_local(t0, q, k) + inserts_at(donep, q)
                                        + inserts_at(ins, q) =~= tree_local(t0, q, k)
                                        + inserts_at(donep, q));
                                }
                            }
                            assert(stack.deep_view() =~= base + pushes_of(rulesm.take(j + 1)));
                        }
                        j += 1;
                    }
                    proof {
                        assert(rulesm.take(rulesm.len() as int) =~= rulesm);
                        assert(stack.deep_view() == base + pushes_of(rulesm));
                        assert(base == sdv0.drop_last());
                        let after = spec_expand(tags, root, stack.deep_view(), vset);
                        assert(spec_expand(tags, root, sdv0, vset0) == (match after {
                            None => None,
                            Some(rest) => Some(inserts_of(rulesm, root) + rest),
                        }));
                        if after is Some {
                            assert(done0 + (inserts_of(rulesm, root) + after.unwrap()) =~= done
                                + after.unwrap());
                        }
                    }
                },
            }
        }
    }
    proof {
        assert(stack.deep_view() =~= Seq::<Seq<u8>>::empty());
        assert(spec_expand(tags, root, stack.deep_view(), vset) == Some(
            Seq::<InsertModel>::empty(),
        ));
        assert(done + Seq::<InsertModel>::empty() =~= done);
    }
    Ok(())
}

} // verus!
