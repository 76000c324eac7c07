//! Tests of the rule tree, the compiler, the evaluator and the combinator.

use tagtree::compile::add_rules_to_tree;
use tagtree::compile::CompileError;
use tagtree::config::parse;
use tagtree::config::Config;
use tagtree::config::Rule as CfgRule;
use tagtree::config::Tag;
use tagtree::engine::combine;
use tagtree::engine::evaluate_entry;
use tagtree::engine::rule_set_count;
use tagtree::engine::rule_set_key;
use tagtree::engine::Mode;
use tagtree::eval::evaluate;
use tagtree::eval::is_symlink_dir_to;
use tagtree::eval::is_symlink_to;
use tagtree::eval::EntryMeta;
use tagtree::eval::EvalError;
use tagtree::eval::FsEntry;
use tagtree::tree::Policy;
use tagtree::tree::Rule;
use tagtree::tree::RulesTree;

fn seg(s: &str) -> Vec<u8> {
    s.as_bytes().to_vec()
}

fn segs(s: &str) -> Vec<Vec<u8>> {
    s.split('/').filter(|p| !p.is_empty()).map(|p| p.as_bytes().to_vec()).collect()
}

fn file_meta() -> EntryMeta {
    EntryMeta { is_symlink: false, is_dir: false, link_target: None, dir_entries: None }
}

fn dir_meta(entries: Vec<FsEntry>) -> EntryMeta {
    EntryMeta { is_symlink: false, is_dir: true, link_target: None, dir_entries: Some(entries) }
}

/// Mask precedence: an ancestor mask discards the appends above it, while
/// appends below it stay visible.
#[test]
fn mask_precedence() {
    let mut tree = RulesTree::new();
    tree.add_rule(&segs("a"), 0, Policy::Append, Rule::Exact(seg("t"), segs("a")));
    tree.add_rule(&segs("a/b"), 0, Policy::Mask, Rule::Plain(seg("t")));
    tree.add_rule(&segs("a/b/c"), 0, Policy::Append, Rule::Exact(seg("t"), segs("x")));
    let rules = tree.get_rules(&segs("a/b/c"), 0);
    assert_eq!(rules.len(), 2);
    assert!(matches!(&rules[0], Rule::Plain(t) if *t == seg("t")));
    assert!(matches!(&rules[1], Rule::Exact(_, p) if *p == segs("x")));
}

/// Without a mask, appends accumulate in root-to-leaf order.
#[test]
fn appends_accumulate_root_to_leaf() {
    let mut tree = RulesTree::new();
    tree.add_rule(&segs("a"), 0, Policy::Append, Rule::Exact(seg("t"), segs("a")));
    tree.add_rule(&segs("a/b"), 0, Policy::Append, Rule::Exact(seg("t"), segs("b")));
    let rules = tree.get_rules(&segs("a/b"), 0);
    assert_eq!(rules.len(), 2);
    assert!(matches!(&rules[0], Rule::Exact(_, p) if *p == segs("a")));
    assert!(matches!(&rules[1], Rule::Exact(_, p) if *p == segs("b")));
}

/// An empty tree resolves nothing anywhere.
#[test]
fn empty_tree_resolves_nothing() {
    let tree = RulesTree::new();
    assert_eq!(tree.get_rules(&segs("any/path/at/all"), 0).len(), 0);
    assert_eq!(tree.get_rules(&Vec::new(), 5).len(), 0);
}

/// Rule-sets are independent: rules under one key are invisible to another.
#[test]
fn rule_sets_do_not_interfere() {
    let mut tree = RulesTree::new();
    tree.add_rule(&segs("a"), 0, Policy::Append, Rule::Plain(seg("t")));
    assert_eq!(tree.get_rules(&segs("a"), 1).len(), 0);
    assert_eq!(tree.get_rules(&segs("a"), 0).len(), 1);
}

/// Cycle safety: a self-referencing tag contributes its rules once.
#[test]
fn self_referencing_tag_compiles_once() {
    let config = Config {
        follow_mounts: false,
        follow_links: false,
        base_path: Vec::new(),
        tags: vec![(
            seg("t"),
            Tag { rules: vec![CfgRule::File(segs("a.txt")), CfgRule::Tag(seg("t"))] },
        )],
    };
    let mut tree = RulesTree::new();
    add_rules_to_tree(&config, 0, &seg("t"), &mut tree).unwrap();
    let rules = tree.get_rules(&segs("a.txt"), 0);
    assert_eq!(rules.len(), 1);
    assert!(matches!(&rules[0], Rule::Plain(t) if *t == seg("t")));
}

/// Cycle safety, transitive: two tags referencing each other both expand
/// exactly once.
#[test]
fn mutually_referencing_tags_compile_once() {
    let config = Config {
        follow_mounts: false,
        follow_links: false,
        base_path: Vec::new(),
        tags: vec![
            (seg("a"), Tag { rules: vec![CfgRule::File(segs("fa")), CfgRule::Tag(seg("b"))] }),
            (seg("b"), Tag { rules: vec![CfgRule::File(segs("fb")), CfgRule::Tag(seg("a"))] }),
        ],
    };
    let mut tree = RulesTree::new();
    add_rules_to_tree(&config, 0, &seg("a"), &mut tree).unwrap();
    assert_eq!(tree.get_rules(&segs("fa"), 0).len(), 1);
    assert_eq!(tree.get_rules(&segs("fb"), 0).len(), 1);
}

/// Referencing an undefined tag is a fatal compile error.
#[test]
fn undefined_tag_reference_fails() {
    let config = Config {
        follow_mounts: false,
        follow_links: false,
        base_path: Vec::new(),
        tags: vec![(seg("t"), Tag { rules: vec![CfgRule::Tag(seg("ghost"))] })],
    };
    let mut tree = RulesTree::new();
    let err = add_rules_to_tree(&config, 0, &seg("t"), &mut tree).unwrap_err();
    assert!(matches!(err, CompileError::UndefinedTag(n) if n == seg("ghost")));
}

/// Suffix matching: the trailing components must equal the suffix.
#[test]
fn suffix_rule_matches_trailing_components() {
    let text = b"config-version=0\n[t]\na/b/**/x/y\n".to_vec();
    let config = parse(&text).unwrap();
    let mut tree = RulesTree::new();
    add_rules_to_tree(&config, 0, &seg("t"), &mut tree).unwrap();
    let meta = file_meta();
    assert_eq!(evaluate(&mut tree, &segs("a/b/x/y"), &meta, 0), Ok(true));
    let mut tree2 = RulesTree::new();
    add_rules_to_tree(&config, 0, &seg("t"), &mut tree2).unwrap();
    assert_eq!(evaluate(&mut tree2, &segs("a/b/x/z"), &meta, 0), Ok(false));
}

/// Memoization idempotence: a suffix match writes a plain mask at the path,
/// and the path and its children resolve to that plain rule afterwards.
#[test]
fn suffix_match_memoizes_for_descendants() {
    let text = b"config-version=0\n[t]\na/**/x\n".to_vec();
    let config = parse(&text).unwrap();
    let mut tree = RulesTree::new();
    add_rules_to_tree(&config, 0, &seg("t"), &mut tree).unwrap();
    let meta = dir_meta(Vec::new());
    assert_eq!(evaluate(&mut tree, &segs("a/x"), &meta, 0), Ok(true));
    let at_path = tree.get_rules(&segs("a/x"), 0);
    assert_eq!(at_path.len(), 1);
    assert!(matches!(&at_path[0], Rule::Plain(t) if *t == seg("t")));
    let at_child = tree.get_rules(&segs("a/x/deep"), 0);
    assert_eq!(at_child.len(), 1);
    assert!(matches!(&at_child[0], Rule::Plain(t) if *t == seg("t")));
}

/// Symlink-directory matching: only symlinks resolving under the target.
#[test]
fn symlink_dir_check() {
    let target = segs("target");
    let good = FsEntry::Dir(vec![
        FsEntry::Symlink(segs("target/a")),
        FsEntry::Dir(vec![FsEntry::Symlink(segs("target/b/c"))]),
    ]);
    assert!(is_symlink_dir_to(&good, &Some(target.clone())));
    let with_file = FsEntry::Dir(vec![FsEntry::Symlink(segs("target/a")), FsEntry::Other]);
    assert!(!is_symlink_dir_to(&with_file, &Some(target.clone())));
    let stray = FsEntry::Dir(vec![FsEntry::Symlink(segs("elsewhere/a"))]);
    assert!(!is_symlink_dir_to(&stray, &Some(target)));
    assert!(is_symlink_dir_to(&stray, &None));
    assert!(is_symlink_dir_to(&FsEntry::Dir(Vec::new()), &Some(segs("t"))));
    assert!(!is_symlink_dir_to(&FsEntry::Other, &None));
}

/// A symlink-directory rule matches a real directory of symlinks and
/// memoizes a plain rule for its descendants.
#[test]
fn symlink_dir_rule_matches_and_memoizes() {
    let text = b"config-version=0\n[t]\n@symlink-dir;d;/target\n".to_vec();
    let config = parse(&text).unwrap();
    let mut tree = RulesTree::new();
    add_rules_to_tree(&config, 0, &seg("t"), &mut tree).unwrap();
    let meta = dir_meta(vec![FsEntry::Symlink(segs("target/x"))]);
    assert_eq!(evaluate(&mut tree, &segs("d"), &meta, 0), Ok(true));
    let memoized = tree.get_rules(&segs("d/inner"), 0);
    assert_eq!(memoized.len(), 1);
    assert!(matches!(&memoized[0], Rule::Plain(t) if *t == seg("t")));
    let mut tree2 = RulesTree::new();
    add_rules_to_tree(&config, 0, &seg("t"), &mut tree2).unwrap();
    let meta2 = dir_meta(vec![FsEntry::Other]);
    assert_eq!(evaluate(&mut tree2, &segs("d"), &meta2, 0), Ok(false));
}

/// A symlink rule matches a symlink pointing under its target.
#[test]
fn symlink_rule_checks_link_target() {
    let text = b"config-version=0\n[t]\n@symlink;l;/target\n".to_vec();
    let config = parse(&text).unwrap();
    let mut tree = RulesTree::new();
    add_rules_to_tree(&config, 0, &seg("t"), &mut tree).unwrap();
    let meta = EntryMeta {
        is_symlink: true,
        is_dir: false,
        link_target: Some(segs("target/spot")),
        dir_entries: None,
    };
    assert_eq!(evaluate(&mut tree, &segs("l"), &meta, 0), Ok(true));
    let meta2 = EntryMeta {
        is_symlink: true,
        is_dir: false,
        link_target: Some(segs("elsewhere")),
        dir_entries: None,
    };
    let mut tree2 = RulesTree::new();
    add_rules_to_tree(&config, 0, &seg("t"), &mut tree2).unwrap();
    assert_eq!(evaluate(&mut tree2, &segs("l"), &meta2, 0), Ok(false));
    assert!(is_symlink_to(&segs("target/spot"), &segs("target")));
    assert!(!is_symlink_to(&segs("else"), &segs("target")));
}

/// An exact rule matches only the exact path.
#[test]
fn exact_rule_matches_exact_path() {
    let text = b"config-version=0\n[t]\n@exact;a/b\n".to_vec();
    let config = parse(&text).unwrap();
    let mut tree = RulesTree::new();
    add_rules_to_tree(&config, 0, &seg("t"), &mut tree).unwrap();
    let meta = file_meta();
    assert_eq!(evaluate(&mut tree, &segs("a/b"), &meta, 0), Ok(true));
    assert_eq!(evaluate(&mut tree, &segs("a/b/c"), &meta, 0), Ok(false));
}

/// A resolved mount-point rule fails the run.
#[test]
fn mount_point_rule_is_fatal() {
    let text = b"config-version=0\n[t]\n@mount-point;m\n".to_vec();
    let config = parse(&text).unwrap();
    let mut tree = RulesTree::new();
    add_rules_to_tree(&config, 0, &seg("t"), &mut tree).unwrap();
    let meta = file_meta();
    assert_eq!(
        evaluate(&mut tree, &segs("m"), &meta, 0),
        Err(EvalError::MountPointUnsupported)
    );
}

/// Combinator modes; `And` requires every verdict, it is not an alias of
/// `Or`.
#[test]
fn combinator_modes() {
    assert!(combine(Mode::Or, &vec![true, false]));
    assert!(!combine(Mode::Nor, &vec![true, false]));
    assert!(!combine(Mode::Or, &vec![false, false]));
    assert!(combine(Mode::Nor, &vec![false, false]));
    assert!(combine(Mode::And, &vec![true, true]));
    assert!(!combine(Mode::And, &vec![true, false]));
    assert!(combine(Mode::Or, &vec![true, true]));
    assert!(!combine(Mode::Or, &vec![]));
    assert!(combine(Mode::And, &vec![]));
    assert!(combine(Mode::Nor, &vec![]));
}

#[test]
fn rule_set_counts_and_keys() {
    assert_eq!(rule_set_count(Mode::And, 3), 3);
    assert_eq!(rule_set_count(Mode::Or, 3), 1);
    assert_eq!(rule_set_count(Mode::Nor, 3), 1);
    assert_eq!(rule_set_key(Mode::And, 2), 2);
    assert_eq!(rule_set_key(Mode::Or, 2), 0);
}

/// End-to-end: a directory rule matches the directory and everything
/// under it, and nothing outside it.
#[test]
fn end_to_end_directory_rule() {
    let text = b"config-version=0\nbase-path=/srv\n[t]\ndocs/\n".to_vec();
    let config = parse(&text).unwrap();
    assert_eq!(config.base_path, b"/srv".to_vec());
    let mut tree = RulesTree::new();
    add_rules_to_tree(&config, 0, &seg("t"), &mut tree).unwrap();
    let dmeta = dir_meta(Vec::new());
    let fmeta = file_meta();
    assert_eq!(evaluate_entry(&mut tree, &segs("docs"), &dmeta, Mode::Or, 1), Ok(true));
    assert_eq!(
        evaluate_entry(&mut tree, &segs("docs/readme.txt"), &fmeta, Mode::Or, 1),
        Ok(true)
    );
    assert_eq!(
        evaluate_entry(&mut tree, &segs("docs/sub/deep.txt"), &fmeta, Mode::Or, 1),
        Ok(true)
    );
    assert_eq!(evaluate_entry(&mut tree, &segs("other.txt"), &fmeta, Mode::Or, 1), Ok(false));
}

/// `And` over two rule-sets: the entry must satisfy both tags.
#[test]
fn and_mode_needs_every_rule_set() {
    let text = b"config-version=0\n[a]\ndocs/\n[b]\ndocs/deep/\n".to_vec();
    let config = parse(&text).unwrap();
    let mut tree = RulesTree::new();
    add_rules_to_tree(&config, rule_set_key(Mode::And, 0), &seg("a"), &mut tree).unwrap();
    add_rules_to_tree(&config, rule_set_key(Mode::And, 1), &seg("b"), &mut tree).unwrap();
    let n = rule_set_count(Mode::And, 2);
    let fmeta = file_meta();
    assert_eq!(
        evaluate_entry(&mut tree, &segs("docs/deep/x.txt"), &fmeta, Mode::And, n),
        Ok(true)
    );
    assert_eq!(evaluate_entry(&mut tree, &segs("docs/x.txt"), &fmeta, Mode::And, n), Ok(false));
}
