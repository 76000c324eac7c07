//! The textual configuration: global options and named tags, each tag an
//! ordered list of path rules, parsed from a line-oriented byte format.

use crate::bytes::bytes_eq;
use crate::bytes::check_utf8;
use crate::bytes::dup_bytes;
use crate::bytes::find_byte;
use crate::bytes::find_byte_from;
use crate::bytes::find_pat;
use crate::bytes::find_pat_vec;
use crate::bytes::lemma_bytes_deep_view;
use crate::bytes::lemma_find_byte;
use crate::bytes::starts_with_bytes;
use crate::bytes::subvec;
use crate::path::parse_path;
use crate::path::spec_parse_path;
use vstd::prelude::*;
use vstd::utf8::valid_utf8;

verus! {

/// The bytes of `"config-version="`.
pub open spec fn lit_cv() -> Seq<u8> {
    seq![99u8, 111u8, 110u8, 102u8, 105u8, 103u8, 45u8, 118u8, 101u8, 114u8, 115u8, 105u8, 111u8, 110u8, 61u8]
}

/// Builds the bytes of `"config-version="`.
pub fn make_cv() -> (v: Vec<u8>)
    ensures
        v@ == lit_cv(),
{
    let mut v: Vec<u8> = Vec::new();
    v.push(99);
    v.push(111);
    v.push(110);
    v.push(102);
    v.push(105);
    v.push(103);
    v.push(45);
    v.push(118);
    v.push(101);
    v.push(114);
    v.push(115);
    v.push(105);
    v.push(111);
    v.push(110);
    v.push(61);
    proof {
        assert(v@ =~= lit_cv());
    }
    v
}

/// The bytes of `"config-version=0"`.
pub open spec fn lit_cv0() -> Seq<u8> {
    seq![99u8, 111u8, 110u8, 102u8, 105u8, 103u8, 45u8, 118u8, 101u8, 114u8, 115u8, 105u8, 111u8, 110u8, 61u8, 48u8]
}

/// Builds the bytes of `"config-version=0"`.
pub fn make_cv0() -> (v: Vec<u8>)
    ensures
        v@ == lit_cv0(),
{
    let mut v: Vec<u8> = Vec::new();
    v.push(99);
    v.push(111);
    v.push(110);
    v.push(102);
    v.push(105);
    v.push(103);
    v.push(45);
    v.push(118);
    v.push(101);
    v.push(114);
    v.push(115);
    v.push(105);
    v.push(111);
    v.push(110);
    v.push(61);
    v.push(48);
    proof {
        assert(v@ =~= lit_cv0());
    }
    v
}

/// The bytes of `"follow-mounts="`.
pub open spec fn lit_fm() -> Seq<u8> {
    seq![102u8, 111u8, 108u8, 108u8, 111u8, 119u8, 45u8, 109u8, 111u8, 117u8, 110u8, 116u8, 115u8, 61u8]
}

/// Builds the bytes of `"follow-mounts="`.
pub fn make_fm() -> (v: Vec<u8>)
    ensures
        v@ == lit_fm(),
{
    let mut v: Vec<u8> = Vec::new();
    v.push(102);
    v.push(111);
    v.push(108);
    v.push(108);
    v.push(111);
    v.push(119);
    v.push(45);
    v.push(109);
    v.push(111);
    v.push(117);
    v.push(110);
    v.push(116);
    v.push(115);
    v.push(61);
    proof {
        assert(v@ =~= lit_fm());
    }
    v
}

/// The bytes of `"follow-mounts=false"`.
pub open spec fn lit_fm_false() -> Seq<u8> {
    seq![102u8, 111u8, 108u8, 108u8, 111u8, 119u8, 45u8, 109u8, 111u8, 117u8, 110u8, 116u8, 115u8, 61u8, 102u8, 97u8, 108u8, 115u8, 101u8]
}

/// Builds the bytes of `"follow-mounts=false"`.
pub fn make_fm_false() -> (v: Vec<u8>)
    ensures
        v@ == lit_fm_false(),
{
    let mut v: Vec<u8> = Vec::new();
    v.push(102);
    v.push(111);
    v.push(108);
    v.push(108);
    v.push(111);
    v.push(119);
    v.push(45);
    v.push(109);
    v.push(111);
    v.push(117);
    v.push(110);
    v.push(116);
    v.push(115);
    v.push(61);
    v.push(102);
    v.push(97);
    v.push(108);
    v.push(115);
    v.push(101);
    proof {
        assert(v@ =~= lit_fm_false());
    }
    v
}

/// The bytes of `"follow-mounts=true"`.
pub open spec fn lit_fm_true() -> Seq<u8> {
    seq![102u8, 111u8, 108u8, 108u8, 111u8, 119u8, 45u8, 109u8, 111u8, 117u8, 110u8, 116u8, 115u8, 61u8, 116u8, 114u8, 117u8, 101u8]
}

/// Builds the bytes of `"follow-mounts=true"`.
pub fn make_fm_true() -> (v: Vec<u8>)
    ensures
        v@ == lit_fm_true(),
{
    let mut v: Vec<u8> = Vec::new();
    v.push(102);
    v.push(111);
    v.push(108);
    v.push(108);
    v.push(111);
    v.push(119);
    v.push(45);
    v.push(109);
    v.push(111);
    v.push(117);
    v.push(110);
    v.push(116);
    v.push(115);
    v.push(61);
    v.push(116);
    v.push(114);
    v.push(117);
    v.push(101);
    proof {
        assert(v@ =~= lit_fm_true());
    }
    v
}

/// The bytes of `"follow-links="`.
pub open spec fn lit_fl() -> Seq<u8> {
    seq![102u8, 111u8, 108u8, 108u8, 111u8, 119u8, 45u8, 108u8, 105u8, 110u8, 107u8, 115u8, 61u8]
}

/// Builds the bytes of `"follow-links="`.
pub fn make_fl() -> (v: Vec<u8>)
    ensures
        v@ == lit_fl(),
{
    let mut v: Vec<u8> = Vec::new();
    v.push(102);
    v.push(111);
    v.push(108);
    v.push(108);
    v.push(111);
    v.push(119);
    v.push(45);
    v.push(108);
    v.push(105);
    v.push(110);
    v.push(107);
    v.push(115);
    v.push(61);
    proof {
        assert(v@ =~= lit_fl());
    }
    v
}

/// The bytes of `"follow-links=false"`.
pub open spec fn lit_fl_false() -> Seq<u8> {
    seq![102u8, 111u8, 108u8, 108u8, 111u8, 119u8, 45u8, 108u8, 105u8, 110u8, 107u8, 115u8, 61u8, 102u8, 97u8, 108u8, 115u8, 101u8]
}

/// Builds the bytes of `"follow-links=false"`.
pub fn make_fl_false() -> (v: Vec<u8>)
    ensures
        v@ == lit_fl_false(),
{
    let mut v: Vec<u8> = Vec::new();
    v.push(102);
    v.push(111);
    v.push(108);
    v.push(108);
    v.push(111);
    v.push(119);
    v.push(45);
    v.push(108);
    v.push(105);
    v.push(110);
    v.push(107);
    v.push(115);
    v.push(61);
    v.push(102);
    v.push(97);
    v.push(108);
    v.push(115);
    v.push(101);
    proof {
        assert(v@ =~= lit_fl_false());
    }
    v
}

/// The bytes of `"follow-links=true"`.
pub open spec fn lit_fl_true() -> Seq<u8> {
    seq![102u8, 111u8, 108u8, 108u8, 111u8, 119u8, 45u8, 108u8, 105u8, 110u8, 107u8, 115u8, 61u8, 116u8, 114u8, 117u8, 101u8]
}

/// Builds the bytes of `"follow-links=true"`.
pub fn make_fl_true() -> (v: Vec<u8>)
    ensures
        v@ == lit_fl_true(),
{
    let mut v: Vec<u8> = Vec::new();
    v.push(102);
    v.push(111);
    v.push(108);
    v.push(108);
    v.push(111);
    v.push(119);
    v.push(45);
    v.push(108);
    v.push(105);
    v.push(110);
    v.push(107);
    v.push(115);
    v.push(61);
    v.push(116);
    v.push(114);
    v.push(117);
    v.push(101);
    proof {
        assert(v@ =~= lit_fl_true());
    }
    v
}

/// The bytes of `"base-path="`.
pub open spec fn lit_bp() -> Seq<u8> {
    seq![98u8, 97u8, 115u8, 101u8, 45u8, 112u8, 97u8, 116u8, 104u8, 61u8]
}

/// Builds the bytes of `"base-path="`.
pub fn make_bp() -> (v: Vec<u8>)
    ensures
        v@ == lit_bp(),
{
    let mut v: Vec<u8> = Vec::new();
    v.push(98);
    v.push(97);
    v.push(115);
    v.push(101);
    v.push(45);
    v.push(112);
    v.push(97);
    v.push(116);
    v.push(104);
    v.push(61);
    proof {
        assert(v@ =~= lit_bp());
    }
    v
}

/// The bytes of `"exact;"`.
pub open spec fn lit_exact() -> Seq<u8> {
    seq![101u8, 120u8, 97u8, 99u8, 116u8, 59u8]
}

/// Builds the bytes of `"exact;"`.
pub fn make_exact() -> (v: Vec<u8>)
    ensures
        v@ == lit_exact(),
{
    let mut v: Vec<u8> = Vec::new();
    v.push(101);
    v.push(120);
    v.push(97);
    v.push(99);
    v.push(116);
    v.push(59);
    proof {
        assert(v@ =~= lit_exact());
    }
    v
}

/// The bytes of `"symlink;"`.
pub open spec fn lit_symlink() -> Seq<u8> {
    seq![115u8, 121u8, 109u8, 108u8, 105u8, 110u8, 107u8, 59u8]
}

/// Builds the bytes of `"symlink;"`.
pub fn make_symlink() -> (v: Vec<u8>)
    ensures
        v@ == lit_symlink(),
{
    let mut v: Vec<u8> = Vec::new();
    v.push(115);
    v.push(121);
    v.push(109);
    v.push(108);
    v.push(105);
    v.push(110);
    v.push(107);
    v.push(59);
    proof {
        assert(v@ =~= lit_symlink());
    }
    v
}

/// The bytes of `"symlink-dir;"`.
pub open spec fn lit_symlink_dir() -> Seq<u8> {
    seq![115u8, 121u8, 109u8, 108u8, 105u8, 110u8, 107u8, 45u8, 100u8, 105u8, 114u8, 59u8]
}

/// Builds the bytes of `"symlink-dir;"`.
pub fn make_symlink_dir() -> (v: Vec<u8>)
    ensures
        v@ == lit_symlink_dir(),
{
    let mut v: Vec<u8> = Vec::new();
    v.push(115);
    v.push(121);
    v.push(109);
    v.push(108);
    v.push(105);
    v.push(110);
    v.push(107);
    v.push(45);
    v.push(100);
    v.push(105);
    v.push(114);
    v.push(59);
    proof {
        assert(v@ =~= lit_symlink_dir());
    }
    v
}

/// The bytes of `"mount-point;"`.
pub open spec fn lit_mount_point() -> Seq<u8> {
    seq![109u8, 111u8, 117u8, 110u8, 116u8, 45u8, 112u8, 111u8, 105u8, 110u8, 116u8, 59u8]
}

/// Builds the bytes of `"mount-point;"`.
pub fn make_mount_point() -> (v: Vec<u8>)
    ensures
        v@ == lit_mount_point(),
{
    let mut v: Vec<u8> = Vec::new();
    v.push(109);
    v.push(111);
    v.push(117);
    v.push(110);
    v.push(116);
    v.push(45);
    v.push(112);
    v.push(111);
    v.push(105);
    v.push(110);
    v.push(116);
    v.push(59);
    proof {
        assert(v@ =~= lit_mount_point());
    }
    v
}

/// The bytes of `"/**/"`.
pub open spec fn lit_sufpat() -> Seq<u8> {
    seq![47u8, 42u8, 42u8, 47u8]
}

/// Builds the bytes of `"/**/"`.
pub fn make_sufpat() -> (v: Vec<u8>)
    ensures
        v@ == lit_sufpat(),
{
    let mut v: Vec<u8> = Vec::new();
    v.push(47);
    v.push(42);
    v.push(42);
    v.push(47);
    proof {
        assert(v@ =~= lit_sufpat());
    }
    v
}

// ----------------------------------------------------------------------
// Errors

/// A parse failure, before the line number it was found on is attached.
#[derive(Clone, Copy, Debug, PartialEq, Eq, Structural)]
pub enum BasicError {
    UnsupportedConfigVersion,
    InvalidConfigOption,
    UnclosedTagStart,
    NotConfigVersion,
    NonUnicodeComment,
    InvalidBool,
    InvalidPathEncoding,
    NonUnicodeTag,
}

/// A parse failure, carrying the 1-based line number it was found on.
#[derive(Clone, Copy, Debug, PartialEq, Eq, Structural)]
pub enum TextError {
    UnsupportedConfigVersion(usize),
    InvalidConfigOption(usize),
    UnclosedTagStart(usize),
    NotConfigVersion(usize),
    NonUnicodeComment(usize),
    InvalidBool(usize),
    InvalidPathEncoding(usize),
    NonUnicodeTag(usize),
}

/// The value `TextError::new` returns: the error with a 1-based line number.
pub open spec fn text_err(err: BasicError, line: int) -> TextError {
    match err {
        BasicError::UnsupportedConfigVersion => TextError::UnsupportedConfigVersion(
            (line + 1) as usize,
        ),
        BasicError::InvalidConfigOption => TextError::InvalidConfigOption((line + 1) as usize),
        BasicError::UnclosedTagStart => TextError::UnclosedTagStart((line + 1) as usize),
        BasicError::NotConfigVersion => TextError::NotConfigVersion((line + 1) as usize),
        BasicError::NonUnicodeComment => TextError::NonUnicodeComment((line + 1) as usize),
        BasicError::InvalidBool => TextError::InvalidBool((line + 1) as usize),
        BasicError::InvalidPathEncoding => TextError::InvalidPathEncoding((line + 1) as usize),
        BasicError::NonUnicodeTag => TextError::NonUnicodeTag((line + 1) as usize),
    }
}

impl TextError {
    /// Attaches the 1-based line number to a basic error.
    pub fn new(err: BasicError, line: usize) -> (r: Self)
        requires
            line < usize::MAX,
        ensures
            r == text_err(err, line as int),
    {
        let line = line + 1;
        match err {
            BasicError::UnclosedTagStart => Self::UnclosedTagStart(line),
            BasicError::NotConfigVersion => Self::NotConfigVersion(line),
            BasicError::InvalidConfigOption => Self::InvalidConfigOption(line),
            BasicError::UnsupportedConfigVersion => Self::UnsupportedConfigVersion(line),
            BasicError::NonUnicodeComment => Self::NonUnicodeComment(line),
            BasicError::InvalidBool => Self::InvalidBool(line),
            BasicError::InvalidPathEncoding => Self::InvalidPathEncoding(line),
            BasicError::NonUnicodeTag => Self::NonUnicodeTag(line),
        }
    }
}

/// Any failure of configuration parsing.
#[derive(Clone, Copy, Debug, PartialEq, Eq, Structural)]
pub enum Error {
    Text(TextError),
}

// ----------------------------------------------------------------------
// Lines of the configuration text

/// One global configuration option.
#[derive(Debug, PartialEq, Eq)]
pub enum ConfigOption {
    ConfigVersion0,
    FollowMounts(bool),
    FollowLinks(bool),
    BasePath(Vec<u8>),
}

/// The mathematical value of a `ConfigOption`.
pub enum OptModel {
    ConfigVersion0,
    FollowMounts(bool),
    FollowLinks(bool),
    BasePath(Seq<u8>),
}

impl View for ConfigOption {
    type V = OptModel;

    open spec fn view(&self) -> OptModel {
        match self {
            ConfigOption::ConfigVersion0 => OptModel::ConfigVersion0,
            ConfigOption::FollowMounts(v) => OptModel::FollowMounts(*v),
            ConfigOption::FollowLinks(v) => OptModel::FollowLinks(*v),
            ConfigOption::BasePath(p) => OptModel::BasePath(p@),
        }
    }
}

/// One line of the tag section.
#[derive(Debug, PartialEq, Eq)]
pub enum TagLine {
    TagStart(Vec<u8>),
    Rule(Vec<u8>),
    Include(Vec<u8>),
}

/// The mathematical value of a `TagLine`.
pub enum TagLineModel {
    TagStart(Seq<u8>),
    Rule(Seq<u8>),
    Include(Seq<u8>),
}

impl View for TagLine {
    type V = TagLineModel;

    open spec fn view(&self) -> TagLineModel {
        match self {
            TagLine::TagStart(n) => TagLineModel::TagStart(n@),
            TagLine::Rule(p) => TagLineModel::Rule(p@),
            TagLine::Include(n) => TagLineModel::Include(n@),
        }
    }
}

/// One line of the file: its parsed content, if any, and its comment, if any.
#[derive(Debug, PartialEq, Eq)]
pub struct Line<T> {
    pub inner: Option<T>,
    pub comment: Option<Vec<u8>>,
}

/// The mathematical value of a `Line`.
pub struct LineModel<M> {
    pub inner: Option<M>,
    pub comment: Option<Seq<u8>>,
}

/// The view of an optional parsed value.
pub open spec fn opt_view<T: View>(o: Option<T>) -> Option<T::V> {
    match o {
        Some(x) => Some(x@),
        None => None,
    }
}

/// The view of optional raw bytes.
pub open spec fn opt_bytes_view(o: Option<Vec<u8>>) -> Option<Seq<u8>> {
    match o {
        Some(v) => Some(v@),
        None => None,
    }
}

impl<T: View> View for Line<T> {
    type V = LineModel<T::V>;

    open spec fn view(&self) -> LineModel<T::V> {
        LineModel { inner: opt_view(self.inner), comment: opt_bytes_view(self.comment) }
    }
}

/// True when an optional comment is valid UTF-8 (or absent).
pub open spec fn comment_ok(c: Option<Seq<u8>>) -> bool {
    match c {
        None => true,
        Some(s) => valid_utf8(s),
    }
}

impl<T: View> Line<T> {
    /// Builds a line, rejecting a comment that is not UTF-8.
    pub fn new(inner: Option<T>, comment: Option<Vec<u8>>) -> (r: Result<Self, BasicError>)
        ensures
            match r {
                Ok(l) => comment_ok(opt_bytes_view(comment)) && l@.inner == opt_view(inner)
                    && l@.comment == opt_bytes_view(comment),
                Err(e) => e == BasicError::NonUnicodeComment && !comment_ok(
                    opt_bytes_view(comment),
                ),
            },
    {
        match comment {
            None => Ok(Line { inner, comment: None }),
            Some(c) => {
                if check_utf8(&c) {
                    Ok(Line { inner, comment: Some(c) })
                } else {
                    Err(BasicError::NonUnicodeComment)
                }
            },
        }
    }
}

/// The parsed lines of a configuration text.
#[derive(Debug)]
pub struct ConfigText {
    pub options: Vec<Line<ConfigOption>>,
    pub rules: Vec<Line<TagLine>>,
}

/// The views of a sequence of lines.
pub open spec fn lines_view<T: View>(v: Seq<Line<T>>) -> Seq<LineModel<T::V>> {
    v.map_values(|l: Line<T>| l@)
}

/// The mathematical value of a `ConfigText`.
pub struct ConfigTextModel {
    pub options: Seq<LineModel<OptModel>>,
    pub rules: Seq<LineModel<TagLineModel>>,
}

impl View for ConfigText {
    type V = ConfigTextModel;

    open spec fn view(&self) -> ConfigTextModel {
        ConfigTextModel { options: lines_view(self.options@), rules: lines_view(self.rules@) }
    }
}

// ----------------------------------------------------------------------
// Tag rules and the configuration value

/// A tag-level rule as written in the configuration.
#[derive(Clone, Debug, PartialEq, Eq, Hash)]
pub enum Rule {
    Exact(Vec<Vec<u8>>),
    Dir(Vec<Vec<u8>>),
    Suffix(Vec<Vec<u8>>, Vec<Vec<u8>>),
    File(Vec<Vec<u8>>),
    /// symlink at path a, optionally required to point under b
    SymLink(Vec<Vec<u8>>, Option<Vec<Vec<u8>>>),
    /// directory at path a holding only symlinks, optionally all under b
    SymLinkDir(Vec<Vec<u8>>, Option<Vec<Vec<u8>>>),
    MountPoint(Vec<Vec<u8>>),
    Tag(Vec<u8>),
}

/// The view of an optional segment path.
pub open spec fn opt_segs_view(o: Option<Vec<Vec<u8>>>) -> Option<Seq<Seq<u8>>> {
    match o {
        Some(p) => Some(p.deep_view()),
        None => None,
    }
}

/// The mathematical value of a configuration `Rule`.
pub enum CfgRuleModel {
    Exact(Seq<Seq<u8>>),
    Dir(Seq<Seq<u8>>),
    Suffix(Seq<Seq<u8>>, Seq<Seq<u8>>),
    File(Seq<Seq<u8>>),
    SymLink(Seq<Seq<u8>>, Option<Seq<Seq<u8>>>),
    SymLinkDir(Seq<Seq<u8>>, Option<Seq<Seq<u8>>>),
    MountPoint(Seq<Seq<u8>>),
    Tag(Seq<u8>),
}

impl View for Rule {
    type V = CfgRuleModel;

    open spec fn view(&self) -> CfgRuleModel {
        match self {
            Rule::Exact(p) => CfgRuleModel::Exact(p.deep_view()),
            Rule::Dir(p) => CfgRuleModel::Dir(p.deep_view()),
            Rule::Suffix(a, b) => CfgRuleModel::Suffix(a.deep_view(), b.deep_view()),
            Rule::File(p) => CfgRuleModel::File(p.deep_view()),
            Rule::SymLink(p, t) => CfgRuleModel::SymLink(p.deep_view(), opt_segs_view(*t)),
            Rule::SymLinkDir(p, t) => CfgRuleModel::SymLinkDir(p.deep_view(), opt_segs_view(*t)),
            Rule::MountPoint(p) => CfgRuleModel::MountPoint(p.deep_view()),
            Rule::Tag(n) => CfgRuleModel::Tag(n@),
        }
    }
}

/// The rules of one tag, in declaration order.
#[derive(Clone, Debug, Default)]
pub struct Tag {
    pub rules: Vec<Rule>,
}

impl View for Tag {
    type V = Seq<CfgRuleModel>;

    open spec fn view(&self) -> Seq<CfgRuleModel> {
        self.rules@.map_values(|r: Rule| r@)
    }
}

/// The tag table a sequence of named tags denotes: later entries win.
pub open spec fn tags_map(s: Seq<(Vec<u8>, Tag)>) -> Map<Seq<u8>, Seq<CfgRuleModel>>
    decreases s.len(),
{
    if s.len() == 0 {
        Map::empty()
    } else {
        tags_map(s.drop_last()).insert(s.last().0@, s.last().1@)
    }
}

/// A parsed configuration.
#[derive(Debug)]
pub struct Config {
    pub follow_mounts: bool,
    pub follow_links: bool,
    pub base_path: Vec<u8>,
    pub tags: Vec<(Vec<u8>, Tag)>,
}

/// The mathematical value of a `Config`.
pub struct ConfigModel {
    pub follow_mounts: bool,
    pub follow_links: bool,
    pub base_path: Seq<u8>,
    pub tags: Map<Seq<u8>, Seq<CfgRuleModel>>,
}

impl View for Config {
    type V = ConfigModel;

    open spec fn view(&self) -> ConfigModel {
        ConfigModel {
            follow_mounts: self.follow_mounts,
            follow_links: self.follow_links,
            base_path: self.base_path@,
            tags: tags_map(self.tags@),
        }
    }
}

impl Config {
    /// Looks a tag up by name; with duplicate names the last entry wins.
    pub fn tag(&self, name: &Vec<u8>) -> (r: Option<&Tag>)
        ensures
            match r {
                Some(t) => self@.tags.contains_key(name@) && t@ == self@.tags[name@],
                None => !self@.tags.contains_key(name@),
            },
    {
        let mut i: usize = self.tags.len();
        proof {
            assert(self.tags@.take(self.tags@.len() as int) =~= self.tags@);
        }
        while i > 0
            invariant
                i <= self.tags@.len(),
                forall|j: int| i <= j < self.tags@.len() ==> (#[trigger] self.tags@[j]).0@ != name@,
                tags_map(self.tags@).contains_key(name@) == tags_map(
                    self.tags@.take(i as int),
                ).contains_key(name@),
                tags_map(self.tags@).contains_key(name@) ==> tags_map(self.tags@)[name@]
                    == tags_map(self.tags@.take(i as int))[name@],
            decreases i,
        {
            i = i - 1;
            if bytes_eq(&self.tags[i].0, name) {
                proof {
                    assert(self.tags@.take(i + 1).drop_last() =~= self.tags@.take(i as int));
                    assert(self.tags@.take(i + 1).last() == self.tags@[i as int]);
                }
                return Some(&self.tags[i].1);
            }
            proof {
                assert(self.tags@.take(i + 1).drop_last() =~= self.tags@.take(i as int));
                assert(self.tags@.take(i + 1).last() == self.tags@[i as int]);
            }
        }
        proof {
            assert(self.tags@.take(0) =~= Seq::<(Vec<u8>, Tag)>::empty());
        }
        None
    }
}

// ----------------------------------------------------------------------
// Line splitting and comment extraction

/// The lines of a text: split on newline, empty pieces kept.
pub open spec fn split_lines(s: Seq<u8>) -> Seq<Seq<u8>>
    decreases s.len(),
    via split_lines_dec
{
    let i = find_byte(s, 10);
    if i < 0 {
        seq![s]
    } else {
        seq![s.take(i)] + split_lines(s.skip(i + 1))
    }
}

#[via_fn]
proof fn split_lines_dec(s: Seq<u8>) {
    lemma_find_byte(s, 10);
}

/// A text of n bytes has at most n + 1 lines.
pub proof fn lemma_split_lines_count(s: Seq<u8>)
    ensures
        1 <= split_lines(s).len() <= s.len() + 1,
    decreases s.len(),
{
    lemma_find_byte(s, 10);
    let i = find_byte(s, 10);
    if i >= 0 {
        lemma_split_lines_count(s.skip(i + 1));
    }
}

/// Splits a text into its lines.
pub fn split_lines_vec(text: &Vec<u8>) -> (r: Vec<Vec<u8>>)
    ensures
        r.deep_view() == split_lines(text@),
{
    let mut r: Vec<Vec<u8>> = Vec::new();
    let mut p: usize = 0;
    let n = text.len();
    proof {
        assert(text@.len() == n);
        assert(r.deep_view() =~= Seq::<Seq<u8>>::empty());
        assert(text@.skip(0) =~= text@);
    }
    loop
        invariant_except_break
            p <= text@.len(),
            text@.len() <= usize::MAX,
            split_lines(text@) == r.deep_view() + split_lines(text@.skip(p as int)),
        ensures
            r.deep_view() == split_lines(text@),
        decreases text@.len() - p,
    {
        let ghost s = text@.skip(p as int);
        let ghost d0 = r.deep_view();
        match find_byte_from(text, p, 10) {
            Some(i) => {
                let piece = subvec(text, p, i);
                r.push(piece);
                proof {
                    lemma_bytes_deep_view(piece);
                    assert(r.deep_view() =~= d0.push(piece@));
                    let fi = i - p;
                    assert(find_byte(s, 10) == fi);
                    assert(s.take(fi) =~= text@.subrange(p as int, i as int));
                    assert(s.skip(fi + 1) =~= text@.skip(i + 1));
                    assert(d0 + (seq![s.take(fi)] + split_lines(text@.skip(i + 1))) =~= d0.push(
                        piece@,
                    ) + split_lines(text@.skip(i + 1)));
                }
                p = i + 1;
            },
            None => {
                let piece = subvec(text, p, text.len());
                r.push(piece);
                proof {
                    lemma_bytes_deep_view(piece);
                    assert(r.deep_view() =~= d0.push(piece@));
                    assert(find_byte(s, 10) < 0);
                    assert(s =~= text@.subrange(p as int, text@.len() as int));
                    assert(split_lines(s) == seq![s]);
                    assert(d0 + seq![s] =~= d0.push(s));
                }
                break ;
            },
        }
    }
    r
}

/// True for the ASCII whitespace bytes.
pub open spec fn is_ws(b: u8) -> bool {
    b == 32 || b == 9 || b == 10 || b == 12 || b == 13
}

/// Whether the byte is ASCII whitespace.
pub fn ws(b: u8) -> (r: bool)
    ensures
        r == is_ws(b),
{
    b == 32 || b == 9 || b == 10 || b == 12 || b == 13
}

/// The first index at which a comment starts: a whitespace byte followed by
/// `#`. -1 when there is none.
pub open spec fn find_comment(s: Seq<u8>) -> int
    decreases s.len(),
{
    if s.len() < 2 {
        -1
    } else if s[1] == 35 && is_ws(s[0]) {
        0
    } else {
        let r = find_comment(s.drop_first());
        if r < 0 {
            -1
        } else {
            r + 1
        }
    }
}

/// `find_comment` returns the first comment start, or -1 when there is none.
pub proof fn lemma_find_comment(s: Seq<u8>)
    ensures
        find_comment(s) >= 0 ==> find_comment(s) + 1 < s.len() && s[find_comment(s) + 1] == 35
            && is_ws(s[find_comment(s)]) && forall|j: int|
            0 <= j < find_comment(s) ==> !(is_ws(#[trigger] s[j]) && s[j + 1] == 35),
        find_comment(s) < 0 ==> forall|j: int|
            0 <= j && j + 1 < s.len() ==> !(is_ws(#[trigger] s[j]) && s[j + 1] == 35),
    decreases s.len(),
{
    if s.len() < 2 {
    } else if s[1] == 35 && is_ws(s[0]) {
    } else {
        lemma_find_comment(s.drop_first());
        let d = s.drop_first();
        let r = find_comment(d);
        assert(forall|j: int| 0 <= j && j + 1 < d.len() ==> #[trigger] d[j] == s[j + 1]);
        if r >= 0 {
            assert(s[r + 2] == d[r + 1]);
            assert forall|j: int| 0 <= j < r + 1 implies !(is_ws(#[trigger] s[j]) && s[j + 1]
                == 35) by {
                if j > 0 {
                    assert(d[j - 1] == s[j]);
                    assert(d[j] == s[j + 1]);
                }
            }
        } else {
            assert forall|j: int| 0 <= j && j + 1 < s.len() implies !(is_ws(#[trigger] s[j]) && s[j
                + 1] == 35) by {
                if j > 0 {
                    assert(d[j - 1] == s[j]);
                    assert(d[j] == s[j + 1]);
                }
            }
        }
    }
}

/// The content and comment parts of one line.
pub open spec fn spec_split_comment(line: Seq<u8>) -> (Option<Seq<u8>>, Option<Seq<u8>>) {
    if line.len() == 0 {
        (None, None)
    } else if line[0] == 35 {
        (None, Some(line.skip(1)))
    } else {
        let cs = find_comment(line);
        if cs < 0 {
            (Some(line), None)
        } else if cs == 0 {
            (None, Some(line.skip(2)))
        } else {
            (Some(line.take(cs)), Some(line.skip(cs + 2)))
        }
    }
}

/// Splits one line into its content and its comment.
pub fn split_comment(line: &Vec<u8>) -> (r: (Option<Vec<u8>>, Option<Vec<u8>>))
    ensures
        opt_bytes_view(r.0) == spec_split_comment(line@).0,
        opt_bytes_view(r.1) == spec_split_comment(line@).1,
{
    if line.len() == 0 {
        return (None, None);
    }
    if line[0] == 35 {
        let c = subvec(line, 1, line.len());
        proof {
            assert(c@ =~= line@.skip(1));
        }
        return (None, Some(c));
    }
    let mut i: usize = 0;
    let n = line.len();
    proof {
        assert(line@.len() == n);
    }
    while i + 1 < line.len()
        invariant
            i < line@.len(),
            line@.len() >= 1,
            line@.len() <= usize::MAX,
            line@[0] != 35,
            forall|j: int| 0 <= j < i ==> !(is_ws(#[trigger] line@[j]) && line@[j + 1] == 35),
        decreases line@.len() - i,
    {
        if line[i + 1] == 35 && ws(line[i]) {
            proof {
                lemma_find_comment(line@);
                let f = find_comment(line@);
                if f < 0 {
                } else if f < i {
                } else if f > i {
                }
                assert(f == i);
            }
            if i == 0 {
                let c = subvec(line, 2, line.len());
                proof {
                    assert(c@ =~= line@.skip(2));
                }
                return (None, Some(c));
            } else {
                let a = subvec(line, 0, i);
                let c = subvec(line, i + 2, line.len());
                proof {
                    assert(a@ =~= line@.take(i as int));
                    assert(c@ =~= line@.skip(i + 2));
                }
                return (Some(a), Some(c));
            }
        }
        i += 1;
    }
    proof {
        lemma_find_comment(line@);
        let f = find_comment(line@);
        if f >= 0 {
            assert(!(is_ws(line@[f]) && line@[f + 1] == 35));
        }
    }
    (Some(dup_bytes(line)), None)
}

// ----------------------------------------------------------------------
// Parsing a single option or tag line

/// The view of a parse result.
pub open spec fn res_view<T: View, E>(r: Result<T, E>) -> Result<T::V, E> {
    match r {
        Ok(t) => Ok(t@),
        Err(e) => Err(e),
    }
}

/// The option a configuration line denotes, or why it is rejected.
pub open spec fn spec_parse_config(s: Seq<u8>) -> Result<OptModel, BasicError> {
    if lit_cv().is_prefix_of(s) {
        if s == lit_cv0() {
            Ok(OptModel::ConfigVersion0)
        } else {
            Err(BasicError::UnsupportedConfigVersion)
        }
    } else if lit_fm().is_prefix_of(s) {
        if s == lit_fm_false() {
            Ok(OptModel::FollowMounts(false))
        } else if s == lit_fm_true() {
            Ok(OptModel::FollowMounts(true))
        } else {
            Err(BasicError::InvalidBool)
        }
    } else if lit_fl().is_prefix_of(s) {
        if s == lit_fl_false() {
            Ok(OptModel::FollowLinks(false))
        } else if s == lit_fl_true() {
            Ok(OptModel::FollowLinks(true))
        } else {
            Err(BasicError::InvalidBool)
        }
    } else if lit_bp().is_prefix_of(s) {
        Ok(OptModel::BasePath(s.skip(lit_bp().len() as int)))
    } else {
        Err(BasicError::InvalidConfigOption)
    }
}

/// Parses one line of the option section.
pub fn parse_config(text: &Vec<u8>) -> (r: Result<ConfigOption, BasicError>)
    ensures
        res_view(r) == spec_parse_config(text@),
{
    let cv = make_cv();
    if starts_with_bytes(text, &cv) {
        let cv0 = make_cv0();
        if bytes_eq(text, &cv0) {
            Ok(ConfigOption::ConfigVersion0)
        } else {
            Err(BasicError::UnsupportedConfigVersion)
        }
    } else {
        let fm = make_fm();
        if starts_with_bytes(text, &fm) {
            let fmf = make_fm_false();
            let fmt = make_fm_true();
            if bytes_eq(text, &fmf) {
                Ok(ConfigOption::FollowMounts(false))
            } else if bytes_eq(text, &fmt) {
                Ok(ConfigOption::FollowMounts(true))
            } else {
                Err(BasicError::InvalidBool)
            }
        } else {
            let fl = make_fl();
            if starts_with_bytes(text, &fl) {
                let flf = make_fl_false();
                let flt = make_fl_true();
                if bytes_eq(text, &flf) {
                    Ok(ConfigOption::FollowLinks(false))
                } else if bytes_eq(text, &flt) {
                    Ok(ConfigOption::FollowLinks(true))
                } else {
                    Err(BasicError::InvalidBool)
                }
            } else {
                let bp = make_bp();
                if starts_with_bytes(text, &bp) {
                    let path = subvec(text, bp.len(), text.len());
                    proof {
                        assert(path@ =~= text@.skip(lit_bp().len() as int));
                    }
                    Ok(ConfigOption::BasePath(path))
                } else {
                    Err(BasicError::InvalidConfigOption)
                }
            }
        }
    }
}

/// The tag line a byte sequence denotes, or why it is rejected.
pub open spec fn spec_parse_tag_line(s: Seq<u8>) -> Result<TagLineModel, BasicError> {
    if s.len() > 0 && s[0] == 91 {
        if s.last() != 93 {
            Err(BasicError::UnclosedTagStart)
        } else if !valid_utf8(s.subrange(1, s.len() - 1)) {
            Err(BasicError::NonUnicodeTag)
        } else {
            Ok(TagLineModel::TagStart(s.subrange(1, s.len() - 1)))
        }
    } else if s.len() > 0 && s[0] == 64 {
        if !valid_utf8(s.skip(1)) {
            Err(BasicError::NonUnicodeTag)
        } else {
            Ok(TagLineModel::Include(s.skip(1)))
        }
    } else {
        Ok(TagLineModel::Rule(s))
    }
}

/// Parses one line of the tag section.
pub fn parse_tag_line(text: &Vec<u8>) -> (r: Result<TagLine, BasicError>)
    ensures
        res_view(r) == spec_parse_tag_line(text@),
{
    if text.len() > 0 && text[0] == 91 {
        if text[text.len() - 1] != 93 {
            Err(BasicError::UnclosedTagStart)
        } else {
            let name = subvec(text, 1, text.len() - 1);
            proof {
                assert(name@ =~= text@.subrange(1, text@.len() - 1));
            }
            if check_utf8(&name) {
                Ok(TagLine::TagStart(name))
            } else {
                Err(BasicError::NonUnicodeTag)
            }
        }
    } else if text.len() > 0 && text[0] == 64 {
        let name = subvec(text, 1, text.len());
        proof {
            assert(name@ =~= text@.skip(1));
        }
        if check_utf8(&name) {
            Ok(TagLine::Include(name))
        } else {
            Err(BasicError::NonUnicodeTag)
        }
    } else {
        Ok(TagLine::Rule(dup_bytes(text)))
    }
}

// ----------------------------------------------------------------------
// The staged scan over the lines

/// Which section of the file the scan is in.
#[derive(Clone, Copy, Debug, PartialEq, Eq, Structural)]
pub enum Stage {
    Version,
    Config,
    Tags,
}

/// One line handled in the version stage: only `config-version=0` opens the
/// file.
pub open spec fn version_step(
    content: Option<Seq<u8>>,
    comment: Option<Seq<u8>>,
    ln: int,
    opts: Seq<LineModel<OptModel>>,
) -> Result<(Stage, Seq<LineModel<OptModel>>), TextError> {
    match content {
        Some(c) => match spec_parse_config(c) {
            Err(e) => Err(text_err(e, ln)),
            Ok(o) => if o != OptModel::ConfigVersion0 {
                Err(text_err(BasicError::NotConfigVersion, ln))
            } else if !comment_ok(comment) {
                Err(text_err(BasicError::NonUnicodeComment, ln))
            } else {
                Ok((Stage::Config, opts.push(LineModel { inner: Some(o), comment })))
            },
        },
        None => if !comment_ok(comment) {
            Err(text_err(BasicError::NonUnicodeComment, ln))
        } else {
            Ok((Stage::Version, opts.push(LineModel { inner: None, comment })))
        },
    }
}

/// One line handled in the option stage.
pub open spec fn option_step(
    content: Option<Seq<u8>>,
    comment: Option<Seq<u8>>,
    ln: int,
    opts: Seq<LineModel<OptModel>>,
) -> Result<Seq<LineModel<OptModel>>, TextError> {
    match content {
        Some(c) => match spec_parse_config(c) {
            Err(e) => Err(text_err(e, ln)),
            Ok(o) => if !comment_ok(comment) {
                Err(text_err(BasicError::NonUnicodeComment, ln))
            } else {
                Ok(opts.push(LineModel { inner: Some(o), comment }))
            },
        },
        None => if !comment_ok(comment) {
            Err(text_err(BasicError::NonUnicodeComment, ln))
        } else {
            Ok(opts.push(LineModel { inner: None, comment }))
        },
    }
}

/// One line handled in the tag stage.
pub open spec fn tag_step(
    content: Option<Seq<u8>>,
    comment: Option<Seq<u8>>,
    ln: int,
    rules: Seq<LineModel<TagLineModel>>,
) -> Result<Seq<LineModel<TagLineModel>>, TextError> {
    match content {
        Some(c) => match spec_parse_tag_line(c) {
            Err(e) => Err(text_err(e, ln)),
            Ok(t) => if !comment_ok(comment) {
                Err(text_err(BasicError::NonUnicodeComment, ln))
            } else {
                Ok(rules.push(LineModel { inner: Some(t), comment }))
            },
        },
        None => if !comment_ok(comment) {
            Err(text_err(BasicError::NonUnicodeComment, ln))
        } else {
            Ok(rules.push(LineModel { inner: None, comment }))
        },
    }
}

/// Scans the lines, keeping options and tag lines apart; a line opening with
/// `[` moves the scan to the tag stage for good.
pub open spec fn spec_scan(
    lines: Seq<Seq<u8>>,
    ln: int,
    stage: Stage,
    opts: Seq<LineModel<OptModel>>,
    rules: Seq<LineModel<TagLineModel>>,
) -> Result<ConfigTextModel, TextError>
    decreases lines.len(),
{
    if lines.len() == 0 {
        Ok(ConfigTextModel { options: opts, rules })
    } else {
        let line = lines[0];
        let content = spec_split_comment(line).0;
        let comment = spec_split_comment(line).1;
        match stage {
            Stage::Version => match version_step(content, comment, ln, opts) {
                Err(e) => Err(e),
                Ok((st2, opts2)) => spec_scan(lines.drop_first(), ln + 1, st2, opts2, rules),
            },
            Stage::Config => if line.len() > 0 && line[0] == 91 {
                match tag_step(content, comment, ln, rules) {
                    Err(e) => Err(e),
                    Ok(r2) => spec_scan(lines.drop_first(), ln + 1, Stage::Tags, opts, r2),
                }
            } else {
                match option_step(content, comment, ln, opts) {
                    Err(e) => Err(e),
                    Ok(o2) => spec_scan(lines.drop_first(), ln + 1, Stage::Config, o2, rules),
                }
            },
            Stage::Tags => match tag_step(content, comment, ln, rules) {
                Err(e) => Err(e),
                Ok(r2) => spec_scan(lines.drop_first(), ln + 1, Stage::Tags, opts, r2),
            },
        }
    }
}

/// The lines of a configuration text, or the first error in it.
pub open spec fn spec_parse_text(text: Seq<u8>) -> Result<ConfigTextModel, TextError> {
    spec_scan(
        split_lines(text),
        0,
        Stage::Version,
        Seq::<LineModel<OptModel>>::empty(),
        Seq::<LineModel<TagLineModel>>::empty(),
    )
}

/// Splits a configuration text into its option and tag lines.
pub fn parse_text(text: &Vec<u8>) -> (r: Result<ConfigText, TextError>)
    requires
        text@.len() < usize::MAX,
    ensures
        match r {
            Ok(ct) => spec_parse_text(text@) == Ok::<ConfigTextModel, TextError>(ct@),
            Err(e) => spec_parse_text(text@) == Err::<ConfigTextModel, TextError>(e),
        },
{
    let lines = split_lines_vec(text);
    proof {
        lemma_split_lines_count(text@);
    }
    let ghost lmodel = split_lines(text@);
    let mut options: Vec<Line<ConfigOption>> = Vec::new();
    let mut rules: Vec<Line<TagLine>> = Vec::new();
    let mut stage: Stage = Stage::Version;
    let mut i: usize = 0;
    proof {
        assert(lmodel.skip(0) =~= lmodel);
        assert(lines_view(options@) =~= Seq::<LineModel<OptModel>>::empty());
        assert(lines_view(rules@) =~= Seq::<LineModel<TagLineModel>>::empty());
    }
    while i < lines.len()
        invariant
            i <= lines@.len(),
            lines.deep_view() == lmodel,
            lines@.len() == lmodel.len(),
            lmodel.len() <= text@.len() + 1,
            text@.len() < usize::MAX,
            spec_parse_text(text@) == spec_scan(
                lmodel.skip(i as int),
                i as int,
                stage,
                lines_view(options@),
                lines_view(rules@),
            ),
        decreases lines@.len() - i,
    {
        let line = &lines[i];
        proof {
            lemma_bytes_deep_view(lines@[i as int]);
            assert(lmodel.skip(i as int)[0] == lines@[i as int]@);
            assert(lmodel.skip(i as int).drop_first() =~= lmodel.skip(i + 1));
        }
        let ghost s0 = lmodel.skip(i as int);
        let ghost o0 = lines_view(options@);
        let ghost r0 = lines_view(rules@);
        let (content, comment) = split_comment(line);
        let ghost cm = spec_split_comment(line@).0;
        let ghost mm = spec_split_comment(line@).1;
        let in_tags = match stage {
            Stage::Version => false,
            Stage::Config => line.len() > 0 && line[0] == 91,
            Stage::Tags => true,
        };
        if in_tags {
            match content {
                Some(c) => match parse_tag_line(&c) {
                    Err(e) => {
                        return Err(TextError::new(e, i));
                    },
                    Ok(t) => match Line::new(Some(t), comment) {
                        Err(e) => {
                            return Err(TextError::new(e, i));
                        },
                        Ok(l) => {
                            rules.push(l);
                            proof {
                                assert(lines_view(rules@) =~= r0.push(l@));
                            }
                        },
                    },
                },
                None => match Line::new(None::<TagLine>, comment) {
                    Err(e) => {
                        return Err(TextError::new(e, i));
                    },
                    Ok(l) => {
                        rules.push(l);
                        proof {
                            assert(lines_view(rules@) =~= r0.push(l@));
                        }
                    },
                },
            }
            stage = Stage::Tags;
        } else {
            match stage {
                Stage::Version => {
                    match content {
                        Some(c) => match parse_config(&c) {
                            Err(e) => {
                                return Err(TextError::new(e, i));
                            },
                            Ok(conf) => {
                                match conf {
                                    ConfigOption::ConfigVersion0 => {},
                                    _ => {
                                        return Err(
                                            TextError::new(BasicError::NotConfigVersion, i),
                                        );
                                    },
                                }
                                match Line::new(Some(conf), comment) {
                                    Err(e) => {
                                        return Err(TextError::new(e, i));
                                    },
                                    Ok(l) => {
                                        options.push(l);
                                        proof {
                                            assert(lines_view(options@) =~= o0.push(l@));
                                        }
                                        stage = Stage::Config;
                                    },
                                }
                            },
                        },
                        None => match Line::new(None::<ConfigOption>, comment) {
                            Err(e) => {
                                return Err(TextError::new(e, i));
                            },
                            Ok(l) => {
                                options.push(l);
                                proof {
                                    assert(lines_view(options@) =~= o0.push(l@));
                                }
                            },
                        },
                    }
                },
                _ => {
                    match content {
                        Some(c) => match parse_config(&c) {
                            Err(e) => {
                                return Err(TextError::new(e, i));
                            },
                            Ok(conf) => match Line::new(Some(conf), comment) {
                                Err(e) => {
                                    return Err(TextError::new(e, i));
                                },
                                Ok(l) => {
                                    options.push(l);
                                    proof {
                                        assert(lines_view(options@) =~= o0.push(l@));
                                    }
                                },
                            },
                        },
                        None => match Line::new(None::<ConfigOption>, comment) {
                            Err(e) => {
                                return Err(TextError::new(e, i));
                            },
                            Ok(l) => {
                                options.push(l);
                                proof {
                                    assert(lines_view(options@) =~= o0.push(l@));
                                }
                            },
                        },
                    }
                },
            }
        }
        i += 1;
    }
    proof {
        assert(lmodel.skip(lmodel.len() as int) =~= Seq::<Seq<u8>>::empty());
    }
    Ok(ConfigText { options, rules })
}

// ----------------------------------------------------------------------
// From tag lines to tag rules

/// The rule an include line (after the `@`) denotes.
pub open spec fn spec_include_rule(name: Seq<u8>) -> CfgRuleModel {
    if lit_exact().is_prefix_of(name) {
        CfgRuleModel::Exact(spec_parse_path(name.skip(lit_exact().len() as int)))
    } else if lit_symlink().is_prefix_of(name) {
        let rest = name.skip(lit_symlink().len() as int);
        let i = find_byte(rest, 59);
        if i < 0 {
            CfgRuleModel::SymLink(spec_parse_path(rest), None)
        } else {
            CfgRuleModel::SymLink(
                spec_parse_path(rest.take(i)),
                Some(spec_parse_path(rest.skip(i + 1))),
            )
        }
    } else if lit_symlink_dir().is_prefix_of(name) {
        let rest = name.skip(lit_symlink_dir().len() as int);
        let i = find_byte(rest, 59);
        if i < 0 {
            CfgRuleModel::SymLinkDir(spec_parse_path(rest), None)
        } else {
            CfgRuleModel::SymLinkDir(
                spec_parse_path(rest.take(i)),
                Some(spec_parse_path(rest.skip(i + 1))),
            )
        }
    } else if lit_mount_point().is_prefix_of(name) {
        CfgRuleModel::MountPoint(spec_parse_path(name.skip(lit_mount_point().len() as int)))
    } else {
        CfgRuleModel::Tag(name)
    }
}

/// Builds the rule of an include line.
pub fn include_rule(name: &Vec<u8>) -> (r: Rule)
    ensures
        r@ == spec_include_rule(name@),
{
    broadcast use lemma_bytes_deep_view;

    let ex = make_exact();
    if starts_with_bytes(name, &ex) {
        let rest = subvec(name, ex.len(), name.len());
        proof {
            assert(rest@ =~= name@.skip(lit_exact().len() as int));
        }
        return Rule::Exact(parse_path(&rest));
    }
    let sl = make_symlink();
    if starts_with_bytes(name, &sl) {
        let rest = subvec(name, sl.len(), name.len());
        proof {
            assert(rest@ =~= name@.skip(lit_symlink().len() as int));
        }
        return match find_byte_from(&rest, 0, 59) {
            Some(i) => {
                let a = subvec(&rest, 0, i);
                let b = subvec(&rest, i + 1, rest.len());
                proof {
                    assert(rest@.skip(0) =~= rest@);
                    assert(a@ =~= rest@.take(i as int));
                    assert(b@ =~= rest@.skip(i + 1));
                }
                Rule::SymLink(parse_path(&a), Some(parse_path(&b)))
            },
            None => {
                proof {
                    assert(rest@.skip(0) =~= rest@);
                }
                Rule::SymLink(parse_path(&rest), None)
            },
        };
    }
    let sld = make_symlink_dir();
    if starts_with_bytes(name, &sld) {
        let rest = subvec(name, sld.len(), name.len());
        proof {
            assert(rest@ =~= name@.skip(lit_symlink_dir().len() as int));
        }
        return match find_byte_from(&rest, 0, 59) {
            Some(i) => {
                let a = subvec(&rest, 0, i);
                let b = subvec(&rest, i + 1, rest.len());
                proof {
                    assert(rest@.skip(0) =~= rest@);
                    assert(a@ =~= rest@.take(i as int));
                    assert(b@ =~= rest@.skip(i + 1));
                }
                Rule::SymLinkDir(parse_path(&a), Some(parse_path(&b)))
            },
            None => {
                proof {
                    assert(rest@.skip(0) =~= rest@);
                }
                Rule::SymLinkDir(parse_path(&rest), None)
            },
        };
    }
    let mp = make_mount_point();
    if starts_with_bytes(name, &mp) {
        let rest = subvec(name, mp.len(), name.len());
        proof {
            assert(rest@ =~= name@.skip(lit_mount_point().len() as int));
        }
        return Rule::MountPoint(parse_path(&rest));
    }
    Rule::Tag(dup_bytes(name))
}

/// The rule a bare path line denotes: a double-wildcard makes a suffix rule,
/// a trailing separator a directory rule, anything else a file rule.
pub open spec fn spec_path_rule(raw: Seq<u8>) -> CfgRuleModel {
    let i = find_pat(raw, lit_sufpat());
    if i >= 0 {
        CfgRuleModel::Suffix(spec_parse_path(raw.take(i)), spec_parse_path(raw.skip(i + 4)))
    } else if raw.len() > 0 && raw.last() == 47 {
        CfgRuleModel::Dir(spec_parse_path(raw))
    } else {
        CfgRuleModel::File(spec_parse_path(raw))
    }
}

/// Builds the rule of a bare path line.
pub fn path_rule(raw: &Vec<u8>) -> (r: Rule)
    ensures
        r@ == spec_path_rule(raw@),
{
    broadcast use lemma_bytes_deep_view;

    let pat = make_sufpat();
    match find_pat_vec(raw, &pat) {
        Some(i) => {
            let n = raw.len();
            proof {
                assert(raw@.len() == n);
                assert(lit_sufpat().len() == 4);
            }
            let a = subvec(raw, 0, i);
            let b = subvec(raw, i + 4, n);
            proof {
                assert(a@ =~= raw@.take(i as int));
                assert(b@ =~= raw@.skip(i + 4));
            }
            Rule::Suffix(parse_path(&a), parse_path(&b))
        },
        None => {
            if raw.len() > 0 && raw[raw.len() - 1] == 47 {
                Rule::Dir(parse_path(raw))
            } else {
                Rule::File(parse_path(raw))
            }
        },
    }
}

// ----------------------------------------------------------------------
// Folding the lines into a configuration

/// Applies the option lines in order; later assignments win.
pub open spec fn apply_opts(
    fm: bool,
    fl: bool,
    bp: Seq<u8>,
    opts: Seq<LineModel<OptModel>>,
) -> (bool, bool, Seq<u8>)
    decreases opts.len(),
{
    if opts.len() == 0 {
        (fm, fl, bp)
    } else {
        match opts[0].inner {
            Some(OptModel::ConfigVersion0) => apply_opts(fm, fl, bp, opts.drop_first()),
            Some(OptModel::FollowMounts(v)) => apply_opts(v, fl, bp, opts.drop_first()),
            Some(OptModel::FollowLinks(v)) => apply_opts(fm, v, bp, opts.drop_first()),
            Some(OptModel::BasePath(p)) => apply_opts(fm, fl, p, opts.drop_first()),
            None => apply_opts(fm, fl, bp, opts.drop_first()),
        }
    }
}

/// Groups the tag lines into named tags; a new tag start closes the tag
/// before it, and with equal names the later tag wins.
pub open spec fn build_tags(
    tag_name: Option<Seq<u8>>,
    cur: Seq<CfgRuleModel>,
    acc: Map<Seq<u8>, Seq<CfgRuleModel>>,
    rules: Seq<LineModel<TagLineModel>>,
) -> Map<Seq<u8>, Seq<CfgRuleModel>>
    decreases rules.len(),
{
    if rules.len() == 0 {
        match tag_name {
            None => acc,
            Some(n) => acc.insert(n, cur),
        }
    } else {
        match rules[0].inner {
            Some(TagLineModel::TagStart(n)) => match tag_name {
                Some(old) => build_tags(
                    Some(n),
                    Seq::<CfgRuleModel>::empty(),
                    acc.insert(old, cur),
                    rules.drop_first(),
                ),
                None => build_tags(Some(n), cur, acc, rules.drop_first()),
            },
            Some(TagLineModel::Include(n)) => build_tags(
                tag_name,
                cur.push(spec_include_rule(n)),
                acc,
                rules.drop_first(),
            ),
            Some(TagLineModel::Rule(raw)) => build_tags(
                tag_name,
                cur.push(spec_path_rule(raw)),
                acc,
                rules.drop_first(),
            ),
            None => build_tags(tag_name, cur, acc, rules.drop_first()),
        }
    }
}

/// The configuration a text denotes, or the first error in it.
pub open spec fn spec_parse(text: Seq<u8>) -> Result<ConfigModel, TextError> {
    match spec_parse_text(text) {
        Err(e) => Err(e),
        Ok(ct) => {
            let folded = apply_opts(false, false, Seq::<u8>::empty(), ct.options);
            Ok(
                ConfigModel {
                    follow_mounts: folded.0,
                    follow_links: folded.1,
                    base_path: folded.2,
                    tags: build_tags(
                        None,
                        Seq::<CfgRuleModel>::empty(),
                        Map::<Seq<u8>, Seq<CfgRuleModel>>::empty(),
                        ct.rules,
                    ),
                },
            )
        },
    }
}

/// Parses a configuration text.
pub fn parse(text: &Vec<u8>) -> (r: Result<Config, Error>)
    requires
        text@.len() < usize::MAX,
    ensures
        match r {
            Ok(c) => spec_parse(text@) == Ok::<ConfigModel, TextError>(c@),
            Err(e) => match e {
                Error::Text(t) => spec_parse(text@) == Err::<ConfigModel, TextError>(t),
            },
        },
{
    let ct = match parse_text(text) {
        Err(e) => {
            return Err(Error::Text(e));
        },
        Ok(ct) => ct,
    };
    let ghost om = lines_view(ct.options@);
    let ghost rm = lines_view(ct.rules@);
    let mut follow_mounts: bool = false;
    let mut follow_links: bool = false;
    let mut base_path: Vec<u8> = Vec::new();
    let mut i: usize = 0;
    proof {
        assert(om.skip(0) =~= om);
        assert(base_path@ =~= Seq::<u8>::empty());
    }
    while i < ct.options.len()
        invariant
            i <= ct.options@.len(),
            om == lines_view(ct.options@),
            om.len() == ct.options@.len(),
            apply_opts(false, false, Seq::<u8>::empty(), om) == apply_opts(
                follow_mounts,
                follow_links,
                base_path@,
                om.skip(i as int),
            ),
        decreases ct.options@.len() - i,
    {
        proof {
            assert(om[i as int] == ct.options@[i as int]@);
            assert(om.skip(i as int)[0] == om[i as int]);
            assert(om.skip(i as int).drop_first() =~= om.skip(i + 1));
        }
        let o = &ct.options[i];
        match &o.inner {
            Some(conf) => match conf {
                ConfigOption::ConfigVersion0 => {},
                ConfigOption::FollowMounts(v) => {
                    follow_mounts = *v;
                },
                ConfigOption::FollowLinks(v) => {
                    follow_links = *v;
                },
                ConfigOption::BasePath(p) => {
                    base_path = dup_bytes(p);
                },
            },
            None => {},
        }
        i += 1;
    }
    proof {
        assert(om.skip(om.len() as int) =~= Seq::<LineModel<OptModel>>::empty());
    }
    let mut tag_name: Option<Vec<u8>> = None;
    let mut cur: Tag = Tag { rules: Vec::new() };
    let mut tags: Vec<(Vec<u8>, Tag)> = Vec::new();
    let mut k: usize = 0;
    proof {
        assert(rm.skip(0) =~= rm);
        assert(cur@ =~= Seq::<CfgRuleModel>::empty());
        assert(tags_map(tags@) =~= Map::<Seq<u8>, Seq<CfgRuleModel>>::empty());
    }
    while k < ct.rules.len()
        invariant
            k <= ct.rules@.len(),
            rm == lines_view(ct.rules@),
            rm.len() == ct.rules@.len(),
            build_tags(
                None,
                Seq::<CfgRuleModel>::empty(),
                Map::<Seq<u8>, Seq<CfgRuleModel>>::empty(),
                rm,
            ) == build_tags(opt_bytes_view(tag_name), cur@, tags_map(tags@), rm.skip(k as int)),
        decreases ct.rules@.len() - k,
    {
        proof {
            assert(rm[k as int] == ct.rules@[k as int]@);
            assert(rm.skip(k as int)[0] == rm[k as int]);
            assert(rm.skip(k as int).drop_first() =~= rm.skip(k + 1));
        }
        let ghost cur0 = cur@;
        let ghost tags0 = tags@;
        let line_kind: usize = match &ct.rules[k].inner {
            Some(TagLine::TagStart(_)) => 0,
            Some(TagLine::Include(_)) => 1,
            Some(TagLine::Rule(_)) => 2,
            None => 3,
        };
        if line_kind == 0 {
            let n = match &ct.rules[k].inner {
                Some(TagLine::TagStart(n)) => dup_bytes(n),
                _ => {
                    proof {
                        assert(false);
                    }
                    Vec::new()
                },
            };
            let prev = tag_name;
            tag_name = Some(n);
            match prev {
                Some(tn) => {
                    tags.push((tn, cur));
                    cur = Tag { rules: Vec::new() };
                    proof {
                        assert(tags@.drop_last() =~= tags0);
                        assert(cur@ =~= Seq::<CfgRuleModel>::empty());
                    }
                },
                None => {},
            }
        } else if line_kind == 1 {
            let rule = match &ct.rules[k].inner {
                Some(TagLine::Include(n)) => include_rule(n),
                _ => {
                    proof {
                        assert(false);
                    }
                    Rule::Tag(Vec::new())
                },
            };
            cur.rules.push(rule);
            proof {
                assert(cur@ =~= cur0.push(rule@));
            }
        } else if line_kind == 2 {
            let rule = match &ct.rules[k].inner {
                Some(TagLine::Rule(raw)) => path_rule(raw),
                _ => {
                    proof {
                        assert(false);
                    }
                    Rule::Tag(Vec::new())
                },
            };
            cur.rules.push(rule);
            proof {
                assert(cur@ =~= cur0.push(rule@));
            }
        }
        k += 1;
    }
    proof {
        assert(rm.skip(rm.len() as int) =~= Seq::<LineModel<TagLineModel>>::empty());
    }
    let ghost tags_before = tags@;
    match tag_name {
        Some(tn) => {
            tags.push((tn, cur));
            proof {
                assert(tags@.drop_last() =~= tags_before);
            }
        },
        None => {},
    }
    Ok(Config { follow_mounts, follow_links, base_path, tags })
}

} // verus!
