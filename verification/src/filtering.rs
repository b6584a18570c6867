//! Exclusion filters: typed regular expressions over authors, e-mails, revisions,
//! commit messages and file paths.
use vstd::prelude::*;
use crate::strutil::{chars_of, copy_range, has_prefix, starts_with, string_of};

verus! {

#[verifier::external_type_specification]
#[verifier::external_body]
pub struct ExRegex(regex::Regex);

/// Whether `regex::Regex::new` accepts `pattern`.
pub uninterp spec fn regex_compiles(pattern: Seq<char>) -> bool;

/// Whether the regular expression `pattern` matches somewhere in `text`
/// (what `regex::Regex::is_match` answers).
pub uninterp spec fn regex_is_match(pattern: Seq<char>, text: Seq<char>) -> bool;

/// The message with which `regex::Regex::new` refuses `pattern` (its error's `Display` text).
pub uninterp spec fn regex_error_text(pattern: Seq<char>) -> Seq<char>;

/// The number of successive non-overlapping matches of `pattern` in `text`
/// (what counting `regex::Regex::find_iter` gives).
pub uninterp spec fn regex_match_count(pattern: Seq<char>, text: Seq<char>) -> usize;

/// A compiled regular expression together with the source it was compiled from.
/// Only `compile_pattern` builds one, so `re` is always the compilation of `source`.
#[derive(Debug)]
pub struct Pattern {
    re: regex::Regex,
    source: String,
}

impl View for Pattern {
    type V = Seq<char>;

    closed spec fn view(&self) -> Seq<char> {
        self.source@
    }
}

/// Compiles `source` with `regex::Regex::new`. Trusted: the result is `Ok` exactly when the
/// crate accepts the pattern; an `Ok` pattern remembers `source` as its view, and an `Err`
/// carries the message of the crate's error, `regex_error_text(source)`.
#[verifier::external_body]
pub(crate) fn compile_pattern(source: &str) -> (r: Result<Pattern, String>)
    ensures
        r is Ok <==> regex_compiles(source@),
        r matches Ok(p) ==> p@ == source@,
        r matches Err(m) ==> m@ == regex_error_text(source@),
{
    match regex::Regex::new(source) {
        Ok(re) => Ok(Pattern { re, source: source.to_string() }),
        Err(e) => Err(e.to_string()),
    }
}

/// `regex::Regex::is_match` on the compiled pattern. Trusted: the answer is
/// `regex_is_match` of the pattern's source and the text.
#[verifier::external_body]
pub(crate) fn pattern_is_match(p: &Pattern, text: &str) -> (r: bool)
    ensures
        r == regex_is_match(p@, text@),
{
    p.re.is_match(text)
}

/// Counts the items of `regex::Regex::find_iter`. Trusted: the count is
/// `regex_match_count` of the pattern's source and the text.
#[verifier::external_body]
pub(crate) fn pattern_match_count(p: &Pattern, text: &str) -> (r: usize)
    ensures
        r == regex_match_count(p@, text@),
{
    p.re.find_iter(text).count()
}

/// What an exclusion pattern applies to.
#[derive(Debug, Clone, Copy, PartialEq, Eq, Structural)]
pub enum FilterType {
    Author,
    Email,
    Revision,
    Message,
    File,
    General,
}

/// Whether a rule of type `rule` is consulted when asking about `asked`:
/// general rules apply to every question, typed rules to their own type only.
pub open spec fn applies(rule: FilterType, asked: FilterType) -> bool {
    rule == FilterType::General || rule == asked
}

fn rule_applies(rule: FilterType, asked: FilterType) -> (r: bool)
    ensures
        r == applies(rule, asked),
{
    match (rule, asked) {
        (FilterType::General, _) => true,
        (FilterType::Author, FilterType::Author) => true,
        (FilterType::Email, FilterType::Email) => true,
        (FilterType::Revision, FilterType::Revision) => true,
        (FilterType::Message, FilterType::Message) => true,
        (FilterType::File, FilterType::File) => true,
        _ => false,
    }
}

#[derive(Debug)]
struct TypedRegex {
    re: Pattern,
    filter_type: FilterType,
}

/// Handles filtering logic based on exclude patterns.
#[derive(Debug)]
pub struct Filter {
    typed_excludes: Vec<TypedRegex>,
}

/// A pattern that `regex` refused, with the crate's message.
#[derive(Debug, Clone)]
pub struct FilterError {
    pub pattern: String,
    pub message: String,
}

impl View for Filter {
    type V = Seq<(FilterType, Seq<char>)>;

    closed spec fn view(&self) -> Seq<(FilterType, Seq<char>)> {
        Seq::new(self.typed_excludes@.len(), |i: int| (self.typed_excludes@[i].filter_type, self.typed_excludes@[i].re@))
    }
}

pub open spec fn author_prefix() -> Seq<char> {
    seq!['a', 'u', 't', 'h', 'o', 'r', ':']
}

pub open spec fn email_prefix() -> Seq<char> {
    seq!['e', 'm', 'a', 'i', 'l', ':']
}

pub open spec fn revision_prefix() -> Seq<char> {
    seq!['r', 'e', 'v', 'i', 's', 'i', 'o', 'n', ':']
}

pub open spec fn message_prefix() -> Seq<char> {
    seq!['m', 'e', 's', 's', 'a', 'g', 'e', ':']
}

pub open spec fn file_prefix() -> Seq<char> {
    seq!['f', 'i', 'l', 'e', ':']
}

/// The rule that an exclusion pattern stands for: its type, taken from a prefix
/// `author:`, `email:`, `revision:`, `message:` or `file:` (tried in that order), and the
/// regular expression after it; a pattern with none of these prefixes is general.
pub open spec fn rule_of(p: Seq<char>) -> (FilterType, Seq<char>) {
    if has_prefix(p, author_prefix()) {
        (FilterType::Author, p.skip(author_prefix().len() as int))
    } else if has_prefix(p, email_prefix()) {
        (FilterType::Email, p.skip(email_prefix().len() as int))
    } else if has_prefix(p, revision_prefix()) {
        (FilterType::Revision, p.skip(revision_prefix().len() as int))
    } else if has_prefix(p, message_prefix()) {
        (FilterType::Message, p.skip(message_prefix().len() as int))
    } else if has_prefix(p, file_prefix()) {
        (FilterType::File, p.skip(file_prefix().len() as int))
    } else {
        (FilterType::General, p)
    }
}

/// Whether `rules` exclude `text` when asked about `asked`: some applicable rule matches.
pub open spec fn excluded_by(rules: Seq<(FilterType, Seq<char>)>, text: Seq<char>, asked: FilterType) -> bool {
    exists|i: int| 0 <= i < rules.len() && applies(rules[i].0, asked) && regex_is_match(rules[i].1, text)
}

/// Whether `rules` exclude the file path `path`: a file rule or a general rule matches.
pub open spec fn path_excluded_by(rules: Seq<(FilterType, Seq<char>)>, path: Seq<char>) -> bool {
    excluded_by(rules, path, FilterType::File) || excluded_by(rules, path, FilterType::General)
}

/// Whether every pattern of `ps` up to `k` has a compilable regular expression.
pub open spec fn all_compile(ps: Seq<Seq<char>>, k: int) -> bool {
    forall|j: int| 0 <= j < k ==> regex_compiles(#[trigger] rule_of(ps[j]).1)
}

fn split_rule(p: &[char]) -> (r: (FilterType, Vec<char>))
    ensures
        r.0 == rule_of(p@).0,
        r.1@ == rule_of(p@).1,
{
    let author = ['a', 'u', 't', 'h', 'o', 'r', ':'];
    let email = ['e', 'm', 'a', 'i', 'l', ':'];
    let revision = ['r', 'e', 'v', 'i', 's', 'i', 'o', 'n', ':'];
    let message = ['m', 'e', 's', 's', 'a', 'g', 'e', ':'];
    let file = ['f', 'i', 'l', 'e', ':'];
    assert(author@ =~= author_prefix());
    assert(email@ =~= email_prefix());
    assert(revision@ =~= revision_prefix());
    assert(message@ =~= message_prefix());
    assert(file@ =~= file_prefix());
    let n = p.len();
    if starts_with(p, &author) {
        (FilterType::Author, copy_range(p, 7, n))
    } else if starts_with(p, &email) {
        (FilterType::Email, copy_range(p, 6, n))
    } else if starts_with(p, &revision) {
        (FilterType::Revision, copy_range(p, 9, n))
    } else if starts_with(p, &message) {
        (FilterType::Message, copy_range(p, 8, n))
    } else if starts_with(p, &file) {
        (FilterType::File, copy_range(p, 5, n))
    } else {
        (FilterType::General, copy_range(p, 0, n))
    }
}

impl Filter {
    /// Creates a new `Filter` with a set of exclude patterns.
    /// Patterns can be prefixed with `author:`, `email:`, `revision:`, `message:`, `file:`.
    /// Fails on the first pattern whose regular expression does not compile.
    pub fn new(patterns: &[String]) -> (r: Result<Filter, FilterError>)
        ensures
            r is Ok <==> all_compile(patterns@.map_values(|p: String| p@), patterns@.len() as int),
            r matches Ok(f) ==> f@ == patterns@.map_values(|p: String| rule_of(p@)),
            r matches Err(e) ==> exists|k: int|
                0 <= k < patterns@.len()
                && all_compile(patterns@.map_values(|p: String| p@), k)
                && !regex_compiles(rule_of(patterns@[k]@).1)
                && e.pattern@ == patterns@[k]@
                && e.message@ == regex_error_text(rule_of(patterns@[k]@).1),
    {
        let ghost ps = patterns@.map_values(|p: String| p@);
        let mut typed_excludes: Vec<TypedRegex> = Vec::new();
        let mut i: usize = 0;
        while i < patterns.len()
            invariant
                i <= patterns@.len(),
                ps == patterns@.map_values(|p: String| p@),
                all_compile(ps, i as int),
                typed_excludes@.len() == i,
                forall|j: int| 0 <= j < i ==> (#[trigger] typed_excludes@[j]).filter_type == rule_of(patterns@[j]@).0
                    && typed_excludes@[j].re@ == rule_of(patterns@[j]@).1,
            decreases patterns@.len() - i,
        {
            let pchars = chars_of(patterns[i].as_str());
            let (filter_type, raw) = split_rule(&pchars);
            let raw_string = string_of(&raw);
            match compile_pattern(raw_string.as_str()) {
                Ok(re) => {
                    typed_excludes.push(TypedRegex { re, filter_type });
                    assert(ps[i as int] == patterns@[i as int]@);
                },
                Err(message) => {
                    let pattern = patterns[i].clone();
                    assert(ps[i as int] == patterns@[i as int]@);
                    return Err(FilterError { pattern, message });
                },
            }
            i = i + 1;
        }
        let f = Filter { typed_excludes };
        assert(f@ =~= patterns@.map_values(|p: String| rule_of(p@)));
        Ok(f)
    }

    /// Returns `true` if the given text should be excluded based on the filter type.
    pub fn is_excluded(&self, text: &str, filter_type: FilterType) -> (r: bool)
        ensures
            r == excluded_by(self@, text@, filter_type),
    {
        let mut i: usize = 0;
        while i < self.typed_excludes.len()
            invariant
                i <= self.typed_excludes@.len(),
                forall|j: int| 0 <= j < i ==> !(applies(self@[j].0, filter_type) && regex_is_match(self@[j].1, text@)),
            decreases self.typed_excludes@.len() - i,
        {
            let tr = &self.typed_excludes[i];
            if rule_applies(tr.filter_type, filter_type) && pattern_is_match(&tr.re, text) {
                assert(self@[i as int] == (tr.filter_type, tr.re@));
                return true;
            }
            i = i + 1;
        }
        false
    }

    /// Legacy support for file filtering.
    pub fn should_exclude(&self, file_path: &str) -> (r: bool)
        ensures
            r == path_excluded_by(self@, file_path@),
    {
        self.is_excluded(file_path, FilterType::File) || self.is_excluded(file_path, FilterType::General)
    }
}

impl Default for Filter {
    fn default() -> (r: Self)
        ensures
            r@ == Seq::<(FilterType, Seq<char>)>::empty(),
    {
        let f = Filter { typed_excludes: Vec::new() };
        assert(f@ =~= Seq::<(FilterType, Seq<char>)>::empty());
        f
    }
}

/// What an exclusion pattern means: `author:`, `email:`, `revision:`, `message:` and `file:`
/// make a rule of that type whose regular expression is the text after the prefix; any other
/// pattern is a general rule with the whole pattern as its expression.
pub proof fn law_pattern_types(p: Seq<char>)
    ensures
        has_prefix(p, "author:"@) ==> rule_of(p) == (FilterType::Author, p.skip(7)),
        has_prefix(p, "email:"@) ==> rule_of(p) == (FilterType::Email, p.skip(6)),
        has_prefix(p, "revision:"@) ==> rule_of(p) == (FilterType::Revision, p.skip(9)),
        has_prefix(p, "message:"@) ==> rule_of(p) == (FilterType::Message, p.skip(8)),
        has_prefix(p, "file:"@) ==> rule_of(p) == (FilterType::File, p.skip(5)),
        !has_prefix(p, "author:"@) && !has_prefix(p, "email:"@) && !has_prefix(p, "revision:"@)
            && !has_prefix(p, "message:"@) && !has_prefix(p, "file:"@) ==> rule_of(p) == (FilterType::General, p),
{
    reveal_strlit("author:");
    reveal_strlit("email:");
    reveal_strlit("revision:");
    reveal_strlit("message:");
    reveal_strlit("file:");
    assert("author:"@ =~= author_prefix());
    assert("email:"@ =~= email_prefix());
    assert("revision:"@ =~= revision_prefix());
    assert("message:"@ =~= message_prefix());
    assert("file:"@ =~= file_prefix());
    if has_prefix(p, "email:"@) {
        assert(p[0] == p.take(6)[0]);
        assert(!has_prefix(p, author_prefix())) by { if p.len() >= 7 { assert(p.take(7)[0] == p[0]); } }
    }
    if has_prefix(p, "revision:"@) {
        assert(p[0] == p.take(9)[0]);
        assert(!has_prefix(p, author_prefix())) by { if p.len() >= 7 { assert(p.take(7)[0] == p[0]); } }
        assert(!has_prefix(p, email_prefix())) by { if p.len() >= 6 { assert(p.take(6)[0] == p[0]); } }
    }
    if has_prefix(p, "message:"@) {
        assert(p[0] == p.take(8)[0]);
        assert(!has_prefix(p, author_prefix())) by { if p.len() >= 7 { assert(p.take(7)[0] == p[0]); } }
        assert(!has_prefix(p, email_prefix())) by { if p.len() >= 6 { assert(p.take(6)[0] == p[0]); } }
        assert(!has_prefix(p, revision_prefix())) by { if p.len() >= 9 { assert(p.take(9)[0] == p[0]); } }
    }
    if has_prefix(p, "file:"@) {
        assert(p[0] == p.take(5)[0]);
        assert(!has_prefix(p, author_prefix())) by { if p.len() >= 7 { assert(p.take(7)[0] == p[0]); } }
        assert(!has_prefix(p, email_prefix())) by { if p.len() >= 6 { assert(p.take(6)[0] == p[0]); } }
        assert(!has_prefix(p, revision_prefix())) by { if p.len() >= 9 { assert(p.take(9)[0] == p[0]); } }
        assert(!has_prefix(p, message_prefix())) by { if p.len() >= 8 { assert(p.take(8)[0] == p[0]); } }
    }
}

/// A filter of one `revision:` pattern excludes a revision exactly when the text after the
/// prefix matches it, and never excludes by author, e-mail, message or file alone.
pub proof fn law_revision_pattern(p: Seq<char>, text: Seq<char>)
    requires
        has_prefix(p, "revision:"@),
    ensures
        excluded_by(seq![rule_of(p)], text, FilterType::Revision) <==> regex_is_match(p.skip(9), text),
        !excluded_by(seq![rule_of(p)], text, FilterType::Message),
        !excluded_by(seq![rule_of(p)], text, FilterType::Author),
        !excluded_by(seq![rule_of(p)], text, FilterType::File),
{
    law_pattern_types(p);
    let rs = seq![rule_of(p)];
    if regex_is_match(p.skip(9), text) {
        assert(applies(rs[0].0, FilterType::Revision) && regex_is_match(rs[0].1, text));
    }
}

/// A filter with no patterns excludes nothing.
pub proof fn lemma_empty_filter_excludes_nothing(text: Seq<char>, asked: FilterType)
    ensures
        !excluded_by(Seq::empty(), text, asked),
{
}

} // verus!
