use vstd::prelude::*;
use glob::{Pattern, PatternError};
use crate::paths::{file_name, opt_chars, path_file_name};

verus! {

#[verifier::external_type_specification]
#[verifier::external_body]
pub struct ExPattern(Pattern);

#[verifier::external_type_specification]
#[verifier::external_body]
pub struct ExPatternError(PatternError);

/// Whether `glob::Pattern::new` accepts this glob.
pub uninterp spec fn glob_valid(glob: Seq<char>) -> bool;

/// Whether the pattern compiled from `glob` matches `name`
/// (`glob::Pattern::matches`, with the default match options).
pub uninterp spec fn glob_matches(glob: Seq<char>, name: Seq<char>) -> bool;

/// A compiled glob together with the text it was compiled from. Only the
/// functions of this module make one, each from a pattern compiled from (or
/// cloned with) the text beside it.
#[derive(Debug)]
pub struct Glob {
    source: String,
    pattern: Pattern,
}

impl View for Glob {
    type V = Seq<char>;

    closed spec fn view(&self) -> Seq<char> {
        self.source@
    }
}

/// Calls `glob::Pattern::new` on `source`: it succeeds exactly on the globs
/// it accepts, and the result keeps `source` beside the compiled pattern. The
/// error (position and message) is passed on as `glob` made it.
#[verifier::external_body]
fn compile_glob(source: &str) -> (r: Result<Glob, PatternError>)
    ensures
        r is Ok <==> glob_valid(source@),
        r matches Ok(g) ==> g@ == source@,
{
    match Pattern::new(source) {
        Ok(p) => Ok(Glob { source: source.to_string(), pattern: p }),
        Err(e) => Err(e),
    }
}

/// Calls `glob::Pattern::clone` (a derived clone) on the compiled pattern, and
/// keeps the same text beside it.
#[verifier::external_body]
fn clone_glob(g: &Glob) -> (r: Glob)
    ensures
        r@ == g@,
{
    Glob { source: g.source.clone(), pattern: g.pattern.clone() }
}

/// Calls `glob::Pattern::matches` with the pattern compiled from `g`'s text:
/// the result is named by that text and `name`.
#[verifier::external_body]
fn glob_match(g: &Glob, name: &str) -> (r: bool)
    ensures
        r == glob_matches(g@, name@),
{
    g.pattern.matches(name)
}

/// A rule on file names: show what matches, or hide what matches.
#[derive(Debug)]
pub enum PatternRule {
    Include(Glob),
    Exclude(Glob),
}

/// The glob of a rule.
pub open spec fn rule_glob(rule: PatternRule) -> Seq<char> {
    match rule {
        PatternRule::Include(g) => g@,
        PatternRule::Exclude(g) => g@,
    }
}

/// Whether `rule` lets a file with this name through. A file without a name
/// (or whose name is not text) never gets through.
pub open spec fn rule_admits(rule: PatternRule, name: Option<Seq<char>>) -> bool {
    match name {
        None => false,
        Some(n) => match rule {
            PatternRule::Include(g) => glob_matches(g@, n),
            PatternRule::Exclude(g) => !glob_matches(g@, n),
        },
    }
}

impl PatternRule {
    /// A rule that lets through the names that match `glob`; fails exactly
    /// when `glob` is not a valid pattern.
    pub fn new_include(glob: &str) -> (r: Result<Self, PatternError>)
        ensures
            r is Ok <==> glob_valid(glob@),
            r matches Ok(rule) ==> rule is Include && rule->Include_0@ == glob@,
    {
        match compile_glob(glob) {
            Ok(g) => Ok(PatternRule::Include(g)),
            Err(e) => Err(e),
        }
    }

    /// A rule that lets through the names that do not match `glob`; fails
    /// exactly when `glob` is not a valid pattern.
    pub fn new_exclude(glob: &str) -> (r: Result<Self, PatternError>)
        ensures
            r is Ok <==> glob_valid(glob@),
            r matches Ok(rule) ==> rule is Exclude && rule->Exclude_0@ == glob@,
    {
        match compile_glob(glob) {
            Ok(g) => Ok(PatternRule::Exclude(g)),
            Err(e) => Err(e),
        }
    }

    /// The same rule, with the same glob.
    pub(crate) fn duplicate(&self) -> (r: Self)
        ensures
            r is Include <==> self is Include,
            rule_glob(r) == rule_glob(*self),
    {
        match self {
            PatternRule::Include(g) => PatternRule::Include(clone_glob(g)),
            PatternRule::Exclude(g) => PatternRule::Exclude(clone_glob(g)),
        }
    }

    /// Whether the rule lets through a file with the name `name`.
    pub fn include_name(&self, name: Option<&str>) -> (r: bool)
        ensures
            r == rule_admits(*self, opt_chars(name)),
    {
        match name {
            None => false,
            Some(n) => match self {
                PatternRule::Include(g) => glob_match(g, n),
                PatternRule::Exclude(g) => !glob_match(g, n),
            },
        }
    }

    /// Whether the rule lets through the file at `file`, judged by its file
    /// name (the final component of the path). A path without a file name is
    /// never let through.
    pub fn include_path(&self, file: &str) -> (r: bool)
        ensures
            r == rule_admits(*self, path_file_name(file@)),
    {
        self.include_name(file_name(file))
    }
}

/// An exclude rule lets through exactly the named files that the include rule
/// with the same glob keeps out; a file without a name gets through neither.
pub proof fn law_exclude_complements_include(a: Glob, b: Glob, name: Option<Seq<char>>)
    requires
        a@ == b@,
    ensures
        name is Some ==> rule_admits(PatternRule::Exclude(b), name) == !rule_admits(PatternRule::Include(a), name),
        name is None ==> !rule_admits(PatternRule::Exclude(b), name) && !rule_admits(PatternRule::Include(a), name),
{
}

}
