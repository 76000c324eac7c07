//! Tests of the configuration parser.

use tagtree::config::parse;
use tagtree::config::Error;
use tagtree::config::Rule;
use tagtree::config::TextError;

fn seg(s: &str) -> Vec<u8> {
    s.as_bytes().to_vec()
}

fn segs(s: &str) -> Vec<Vec<u8>> {
    s.split('/').filter(|p| !p.is_empty()).map(|p| p.as_bytes().to_vec()).collect()
}

#[test]
fn parses_options_and_tags() {
    let text = b"config-version=0\nfollow-mounts=true\nfollow-links=false\nbase-path=/srv/data\n[t]\ndocs/\nnotes.txt\n".to_vec();
    let c = parse(&text).unwrap();
    assert!(c.follow_mounts);
    assert!(!c.follow_links);
    assert_eq!(c.base_path, b"/srv/data".to_vec());
    assert_eq!(c.tags.len(), 1);
    assert_eq!(c.tags[0].0, seg("t"));
    let rules = &c.tags[0].1.rules;
    assert_eq!(rules.len(), 2);
    assert!(matches!(&rules[0], Rule::Dir(p) if *p == segs("docs")));
    assert!(matches!(&rules[1], Rule::File(p) if *p == segs("notes.txt")));
}

#[test]
fn parses_suffix_rule() {
    let text = b"config-version=0\n[t]\na/b/**/x/y\n".to_vec();
    let c = parse(&text).unwrap();
    let rules = &c.tags[0].1.rules;
    assert!(matches!(&rules[0], Rule::Suffix(a, b) if *a == segs("a/b") && *b == segs("x/y")));
}

#[test]
fn parses_include_forms() {
    let text = b"config-version=0\n[t]\n@exact;a/b\n@symlink;l\n@symlink;l;/target\n@symlink-dir;d;/target\n@mount-point;m\n@other\n".to_vec();
    let c = parse(&text).unwrap();
    let rules = &c.tags[0].1.rules;
    assert_eq!(rules.len(), 6);
    assert!(matches!(&rules[0], Rule::Exact(p) if *p == segs("a/b")));
    assert!(matches!(&rules[1], Rule::SymLink(p, None) if *p == segs("l")));
    assert!(
        matches!(&rules[2], Rule::SymLink(p, Some(t)) if *p == segs("l") && *t == segs("target"))
    );
    assert!(
        matches!(&rules[3], Rule::SymLinkDir(p, Some(t)) if *p == segs("d") && *t == segs("target"))
    );
    assert!(matches!(&rules[4], Rule::MountPoint(p) if *p == segs("m")));
    assert!(matches!(&rules[5], Rule::Tag(n) if *n == seg("other")));
}

#[test]
fn comments_are_stripped() {
    let text = b"config-version=0 # the version\n# a full comment line\nfollow-links=true\n[t] # tag start\ndocs/ # the docs\n".to_vec();
    let c = parse(&text).unwrap();
    assert!(c.follow_links);
    assert_eq!(c.tags.len(), 1);
    assert!(matches!(&c.tags[0].1.rules[0], Rule::Dir(p) if *p == segs("docs")));
}

#[test]
fn later_tag_with_same_name_wins() {
    let text = b"config-version=0\n[t]\na.txt\n[t]\nb.txt\n".to_vec();
    let c = parse(&text).unwrap();
    assert_eq!(c.tags.len(), 2);
    let found = c.tag(&seg("t")).unwrap();
    assert!(matches!(&found.rules[0], Rule::File(p) if *p == segs("b.txt")));
}

#[test]
fn rejects_unsupported_version() {
    let text = b"config-version=1\n".to_vec();
    let Error::Text(e) = parse(&text).unwrap_err();
    assert!(matches!(e, TextError::UnsupportedConfigVersion(1)));
}

#[test]
fn rejects_when_first_option_is_not_version() {
    let text = b"follow-links=true\n".to_vec();
    let Error::Text(e) = parse(&text).unwrap_err();
    assert!(matches!(e, TextError::NotConfigVersion(1)));
}

#[test]
fn rejects_invalid_option() {
    let text = b"config-version=0\nno-such-option=1\n".to_vec();
    let Error::Text(e) = parse(&text).unwrap_err();
    assert!(matches!(e, TextError::InvalidConfigOption(2)));
}

#[test]
fn rejects_invalid_bool() {
    let text = b"config-version=0\nfollow-mounts=maybe\n".to_vec();
    let Error::Text(e) = parse(&text).unwrap_err();
    assert!(matches!(e, TextError::InvalidBool(2)));
}

#[test]
fn rejects_unclosed_tag_start() {
    let text = b"config-version=0\n[t\n".to_vec();
    let Error::Text(e) = parse(&text).unwrap_err();
    assert!(matches!(e, TextError::UnclosedTagStart(2)));
}

#[test]
fn rejects_non_unicode_tag() {
    let mut text = b"config-version=0\n[".to_vec();
    text.push(0xff);
    text.extend_from_slice(b"]\n");
    let Error::Text(e) = parse(&text).unwrap_err();
    assert!(matches!(e, TextError::NonUnicodeTag(2)));
}

#[test]
fn rejects_non_unicode_comment() {
    let mut text = b"config-version=0 # ".to_vec();
    text.push(0xff);
    text.push(b'\n');
    let Error::Text(e) = parse(&text).unwrap_err();
    assert!(matches!(e, TextError::NonUnicodeComment(1)));
}

#[test]
fn accepts_unicode_comment() {
    let text = "config-version=0 # gut\u{00e9}\n".as_bytes().to_vec();
    assert!(parse(&text).is_ok());
}

#[test]
fn empty_tag_reference_paths_are_separator_insensitive() {
    let text = b"config-version=0\n[t]\n//docs///sub/\n".to_vec();
    let c = parse(&text).unwrap();
    assert!(matches!(&c.tags[0].1.rules[0], Rule::Dir(p) if *p == segs("docs/sub")));
}
