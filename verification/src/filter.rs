use vstd::prelude::*;
use crate::paths::{file_name, opt_chars, path_file_name};
use crate::pattern::{glob_matches, rule_glob, PatternRule};

verus! {

/// The globs of a filter: for files and for directories, those that a name
/// must match one of (unless there are none) and those it must match none of.
pub struct FilterModel {
    pub file_incl: Seq<Seq<char>>,
    pub file_excl: Seq<Seq<char>>,
    pub dir_incl: Seq<Seq<char>>,
    pub dir_excl: Seq<Seq<char>>,
}

/// A name is shown when it matches at least one of the `incl` globs (or there
/// are none) and none of the `excl` globs. Without a name (or with one that is
/// not text) nothing matches, so it is shown only when there are no globs at all.
pub open spec fn shown(incl: Seq<Seq<char>>, excl: Seq<Seq<char>>, name: Option<Seq<char>>) -> bool {
    match name {
        None => incl.len() == 0 && excl.len() == 0,
        Some(n) => selected(incl, n) && !rejected(excl, n),
    }
}

/// There are no globs, or `name` matches one of them.
pub open spec fn selected(incl: Seq<Seq<char>>, name: Seq<char>) -> bool {
    incl.len() == 0 || exists|i: int| 0 <= i < incl.len() && #[trigger] glob_matches(incl[i], name)
}

/// `name` matches one of the globs.
pub open spec fn rejected(excl: Seq<Seq<char>>, name: Seq<char>) -> bool {
    exists|j: int| 0 <= j < excl.len() && #[trigger] glob_matches(excl[j], name)
}

pub open spec fn file_shown(f: FilterModel, name: Option<Seq<char>>) -> bool {
    shown(f.file_incl, f.file_excl, name)
}

pub open spec fn dir_shown(f: FilterModel, name: Option<Seq<char>>) -> bool {
    shown(f.dir_incl, f.dir_excl, name)
}

/// The globs of the rules of one kind (`incl_kind` picks the kind), in order.
pub open spec fn globs_of(rules: Seq<PatternRule>, incl_kind: bool) -> Seq<Seq<char>>
    decreases rules.len(),
{
    if rules.len() == 0 {
        Seq::empty()
    } else {
        let init = globs_of(rules.drop_last(), incl_kind);
        if (rules.last() is Include) == incl_kind {
            init.push(rule_glob(rules.last()))
        } else {
            init
        }
    }
}

/// The filter that rules on files and rules on directories make.
pub open spec fn filter_of(file_rules: Seq<PatternRule>, dir_rules: Seq<PatternRule>) -> FilterModel {
    FilterModel {
        file_incl: globs_of(file_rules, true),
        file_excl: globs_of(file_rules, false),
        dir_incl: globs_of(dir_rules, true),
        dir_excl: globs_of(dir_rules, false),
    }
}

/// The globs of a list of rules.
pub open spec fn rule_globs(rules: Seq<PatternRule>) -> Seq<Seq<char>> {
    rules.map_values(|r: PatternRule| rule_glob(r))
}

/// Which files and directories are shown.
pub struct Filter {
    dir_incl: Vec<PatternRule>,
    dir_excl: Vec<PatternRule>,
    file_incl: Vec<PatternRule>,
    file_excl: Vec<PatternRule>,
}

pub open spec fn all_of_kind(rules: Seq<PatternRule>, incl_kind: bool) -> bool {
    forall|i: int| 0 <= i < rules.len() ==> (#[trigger] rules[i] is Include) == incl_kind
}

impl View for Filter {
    type V = FilterModel;

    closed spec fn view(&self) -> FilterModel {
        FilterModel {
            file_incl: rule_globs(self.file_incl@),
            file_excl: rule_globs(self.file_excl@),
            dir_incl: rule_globs(self.dir_incl@),
            dir_excl: rule_globs(self.dir_excl@),
        }
    }
}

/// Copies the rules of one kind, in order.
fn rules_of_kind(rules: &[PatternRule], incl_kind: bool) -> (r: Vec<PatternRule>)
    ensures
        all_of_kind(r@, incl_kind),
        rule_globs(r@) == globs_of(rules@, incl_kind),
{
    let mut out: Vec<PatternRule> = Vec::new();
    let mut i: usize = 0;
    while i < rules.len()
        invariant
            i <= rules@.len(),
            all_of_kind(out@, incl_kind),
            rule_globs(out@) == globs_of(rules@.take(i as int), incl_kind),
        decreases rules@.len() - i,
    {
        assert(rules@.take(i + 1).drop_last() =~= rules@.take(i as int));
        let rule = &rules[i];
        let is_incl = match rule {
            PatternRule::Include(_) => true,
            PatternRule::Exclude(_) => false,
        };
        if is_incl == incl_kind {
            let ghost before = out@;
            out.push(rule.duplicate());
            assert(rule_globs(out@) =~= rule_globs(before).push(rule_glob(rules@[i as int])));
        }
        i = i + 1;
    }
    assert(rules@.take(rules@.len() as int) =~= rules@);
    out
}

/// Whether the name passes: one of `incl` lets it through (or there are none),
/// and all of `excl` let it through.
fn rules_pass(incl: &Vec<PatternRule>, excl: &Vec<PatternRule>, name: Option<&str>) -> (r: bool)
    requires
        all_of_kind(incl@, true),
        all_of_kind(excl@, false),
    ensures
        r == shown(rule_globs(incl@), rule_globs(excl@), opt_chars(name)),
{
    let ghost gi = rule_globs(incl@);
    let ghost ge = rule_globs(excl@);
    let mut found = incl.len() == 0;
    let mut i: usize = 0;
    while i < incl.len() && !found
        invariant
            i <= incl@.len(),
            all_of_kind(incl@, true),
            gi == rule_globs(incl@),
            found ==> (incl@.len() == 0 || (name matches Some(x) && exists|k: int| 0 <= k < incl@.len() && #[trigger] glob_matches(gi[k], x@))),
            !found ==> incl@.len() > 0 && (name matches Some(x) ==> forall|k: int| 0 <= k < i ==> !#[trigger] glob_matches(gi[k], x@)),
        decreases incl@.len() - i,
    {
        if incl[i].include_name(name) {
            found = true;
            assert(glob_matches(gi[i as int], name->0@));
        }
        i = i + 1;
    }
    if !found {
        return false;
    }
    let mut j: usize = 0;
    while j < excl.len()
        invariant
            j <= excl@.len(),
            all_of_kind(excl@, false),
            ge == rule_globs(excl@),
            j > 0 ==> name is Some,
            gi == rule_globs(incl@),
            incl@.len() == 0 || (name matches Some(x) && exists|k: int| 0 <= k < incl@.len() && #[trigger] glob_matches(gi[k], x@)),
            name matches Some(x) ==> forall|k: int| 0 <= k < j ==> !#[trigger] glob_matches(ge[k], x@),
        decreases excl@.len() - j,
    {
        if !excl[j].include_name(name) {
            proof {
                if name is Some {
                    assert(glob_matches(ge[j as int], name->0@));
                }
            }
            return false;
        }
        j = j + 1;
    }
    true
}

impl Filter {
    #[verifier::type_invariant]
    closed spec fn kinds_sorted(self) -> bool {
        &&& all_of_kind(self.file_incl@, true)
        &&& all_of_kind(self.file_excl@, false)
        &&& all_of_kind(self.dir_incl@, true)
        &&& all_of_kind(self.dir_excl@, false)
    }

    /// A filter from rules on files and rules on directories: each list is
    /// sorted into the globs that select and the globs that reject, in order.
    pub fn new(file_rules: &[PatternRule], dir_rules: &[PatternRule]) -> (r: Self)
        ensures
            r@.file_incl == globs_of(file_rules@, true),
            r@.file_excl == globs_of(file_rules@, false),
            r@.dir_incl == globs_of(dir_rules@, true),
            r@.dir_excl == globs_of(dir_rules@, false),
            r@ == filter_of(file_rules@, dir_rules@),
    {
        let file_incl = rules_of_kind(file_rules, true);
        let file_excl = rules_of_kind(file_rules, false);
        let dir_incl = rules_of_kind(dir_rules, true);
        let dir_excl = rules_of_kind(dir_rules, false);
        Filter { file_incl, file_excl, dir_incl, dir_excl }
    }

    /// A filter without rules: everything is shown.
    pub fn empty() -> (r: Self)
        ensures
            r@.file_incl.len() == 0,
            r@.file_excl.len() == 0,
            r@.dir_incl.len() == 0,
            r@.dir_excl.len() == 0,
    {
        Filter { file_incl: Vec::new(), file_excl: Vec::new(), dir_incl: Vec::new(), dir_excl: Vec::new() }
    }

    /// Whether a file with the name `name` is shown.
    pub fn include_file_name(&self, name: Option<&str>) -> (r: bool)
        ensures
            r == file_shown(self@, opt_chars(name)),
    {
        proof { use_type_invariant(self); }
        rules_pass(&self.file_incl, &self.file_excl, name)
    }

    /// Whether a directory with the name `name` is shown.
    pub fn include_dir_name(&self, name: Option<&str>) -> (r: bool)
        ensures
            r == dir_shown(self@, opt_chars(name)),
    {
        proof { use_type_invariant(self); }
        rules_pass(&self.dir_incl, &self.dir_excl, name)
    }

    /// Whether the file at `file` is shown, judged by its file name.
    pub fn include_file(&self, file: &str) -> (r: bool)
        ensures
            r == file_shown(self@, path_file_name(file@)),
    {
        self.include_file_name(file_name(file))
    }

    /// Whether the directory at `dir` is shown, judged by its name.
    pub fn include_dir(&self, dir: &str) -> (r: bool)
        ensures
            r == dir_shown(self@, path_file_name(dir@)),
    {
        self.include_dir_name(file_name(dir))
    }
}

/// With no rules everything is shown: a mirror of all files and directories.
pub proof fn law_no_rules_show_all(f: FilterModel, name: Option<Seq<char>>)
    requires
        f.file_incl.len() == 0,
        f.file_excl.len() == 0,
        f.dir_incl.len() == 0,
        f.dir_excl.len() == 0,
    ensures
        file_shown(f, name),
        dir_shown(f, name),
{
}

/// A name that matches an exclude glob is hidden, whatever the include globs.
pub proof fn law_excluded_is_hidden(incl: Seq<Seq<char>>, excl: Seq<Seq<char>>, name: Seq<char>, j: int)
    requires
        0 <= j < excl.len(),
        glob_matches(excl[j], name),
    ensures
        !shown(incl, excl, Some(name)),
{
    assert(rejected(excl, name));
}

/// Another exclude glob never shows more: what is shown with it was shown without it.
pub proof fn law_more_excludes_hide_more(incl: Seq<Seq<char>>, excl: Seq<Seq<char>>, g: Seq<char>, name: Option<Seq<char>>)
    requires
        shown(incl, excl.push(g), name),
    ensures
        shown(incl, excl, name),
{
    if let Some(n) = name {
        if rejected(excl, n) {
            let j = choose|j: int| 0 <= j < excl.len() && #[trigger] glob_matches(excl[j], n);
            assert(excl.push(g)[j] == excl[j]);
            assert(rejected(excl.push(g), n));
        }
    }
}

/// Another include glob, beside at least one, never hides more: what was shown
/// is still shown.
pub proof fn law_more_includes_show_more(incl: Seq<Seq<char>>, excl: Seq<Seq<char>>, g: Seq<char>, name: Option<Seq<char>>)
    requires
        incl.len() > 0,
        shown(incl, excl, name),
    ensures
        shown(incl.push(g), excl, name),
{
    if let Some(n) = name {
        let i = choose|i: int| 0 <= i < incl.len() && #[trigger] glob_matches(incl[i], n);
        assert(incl.push(g)[i] == incl[i]);
        assert(selected(incl.push(g), n));
    }
}

/// A glob is among the globs of one kind exactly when a rule of that kind has it.
proof fn lemma_globs_of_contains(rules: Seq<PatternRule>, incl_kind: bool, g: Seq<char>)
    ensures
        globs_of(rules, incl_kind).contains(g) <==> exists|i: int|
            0 <= i < rules.len() && (rules[i] is Include) == incl_kind && #[trigger] rule_glob(rules[i]) == g,
    decreases rules.len(),
{
    if rules.len() > 0 {
        let init = rules.drop_last();
        lemma_globs_of_contains(init, incl_kind, g);
        let gs = globs_of(init, incl_kind);
        if globs_of(rules, incl_kind).contains(g) {
            if gs.contains(g) {
                let i = choose|i: int| 0 <= i < init.len() && (init[i] is Include) == incl_kind && #[trigger] rule_glob(init[i]) == g;
                assert(rules[i] == init[i]);
            } else {
                let k = choose|k: int| 0 <= k < globs_of(rules, incl_kind).len() && globs_of(rules, incl_kind)[k] == g;
                assert(k == gs.len());
                assert(rule_glob(rules[rules.len() - 1]) == g);
            }
        }
        if exists|i: int| 0 <= i < rules.len() && (rules[i] is Include) == incl_kind && #[trigger] rule_glob(rules[i]) == g {
            let i = choose|i: int| 0 <= i < rules.len() && (rules[i] is Include) == incl_kind && #[trigger] rule_glob(rules[i]) == g;
            if i < rules.len() - 1 {
                assert(init[i] == rules[i]);
                assert(gs.contains(g));
                let k = choose|k: int| 0 <= k < gs.len() && gs[k] == g;
                assert(globs_of(rules, incl_kind)[k] == g);
            } else {
                assert(globs_of(rules, incl_kind)[gs.len() as int] == g);
            }
        }
    }
}

/// Whether a name is shown depends only on which globs there are.
proof fn lemma_shown_by_globs(i1: Seq<Seq<char>>, e1: Seq<Seq<char>>, i2: Seq<Seq<char>>, e2: Seq<Seq<char>>, name: Option<Seq<char>>)
    requires
        forall|g: Seq<char>| i1.contains(g) == i2.contains(g),
        forall|g: Seq<char>| e1.contains(g) == e2.contains(g),
    ensures
        shown(i1, e1, name) == shown(i2, e2, name),
{
    assert(i1.len() == 0 <==> i2.len() == 0) by {
        if i1.len() > 0 { assert(i1.contains(i1[0])); }
        if i2.len() > 0 { assert(i2.contains(i2[0])); }
    }
    assert(e1.len() == 0 <==> e2.len() == 0) by {
        if e1.len() > 0 { assert(e1.contains(e1[0])); }
        if e2.len() > 0 { assert(e2.contains(e2[0])); }
    }
    if let Some(n) = name {
        assert(selected(i1, n) == selected(i2, n)) by {
            if i1.len() > 0 && selected(i1, n) {
                let i = choose|i: int| 0 <= i < i1.len() && #[trigger] glob_matches(i1[i], n);
                assert(i1.contains(i1[i]));
                let k = choose|k: int| 0 <= k < i2.len() && i2[k] == i1[i];
                assert(glob_matches(i2[k], n));
            }
            if i2.len() > 0 && selected(i2, n) {
                let i = choose|i: int| 0 <= i < i2.len() && #[trigger] glob_matches(i2[i], n);
                assert(i2.contains(i2[i]));
                let k = choose|k: int| 0 <= k < i1.len() && i1[k] == i2[i];
                assert(glob_matches(i1[k], n));
            }
        }
        assert(rejected(e1, n) == rejected(e2, n)) by {
            if rejected(e1, n) {
                let j = choose|j: int| 0 <= j < e1.len() && #[trigger] glob_matches(e1[j], n);
                assert(e1.contains(e1[j]));
                let k = choose|k: int| 0 <= k < e2.len() && e2[k] == e1[j];
                assert(glob_matches(e2[k], n));
            }
            if rejected(e2, n) {
                let j = choose|j: int| 0 <= j < e2.len() && #[trigger] glob_matches(e2[j], n);
                assert(e2.contains(e2[j]));
                let k = choose|k: int| 0 <= k < e1.len() && e1[k] == e2[j];
                assert(glob_matches(e1[k], n));
            }
        }
    }
}

/// Rules of the same kinds with the same globs, in any order, give the same globs to check.
proof fn lemma_same_rules_same_globs(r1: Seq<PatternRule>, r2: Seq<PatternRule>, incl_kind: bool)
    requires
        r1.to_multiset() == r2.to_multiset(),
    ensures
        forall|g: Seq<char>| globs_of(r1, incl_kind).contains(g) == globs_of(r2, incl_kind).contains(g),
{
    r1.to_multiset_ensures();
    r2.to_multiset_ensures();
    assert forall|g: Seq<char>| globs_of(r1, incl_kind).contains(g) == globs_of(r2, incl_kind).contains(g) by {
        lemma_globs_of_contains(r1, incl_kind, g);
        lemma_globs_of_contains(r2, incl_kind, g);
        if exists|i: int| 0 <= i < r1.len() && (r1[i] is Include) == incl_kind && #[trigger] rule_glob(r1[i]) == g {
            let i = choose|i: int| 0 <= i < r1.len() && (r1[i] is Include) == incl_kind && #[trigger] rule_glob(r1[i]) == g;
            assert(r1.contains(r1[i]));
            assert(r1.to_multiset().count(r1[i]) > 0);
            assert(r2.to_multiset().count(r1[i]) > 0);
            assert(r2.contains(r1[i]));
            let k = choose|k: int| 0 <= k < r2.len() && r2[k] == r1[i];
            assert(rule_glob(r2[k]) == g);
        }
        if exists|i: int| 0 <= i < r2.len() && (r2[i] is Include) == incl_kind && #[trigger] rule_glob(r2[i]) == g {
            let i = choose|i: int| 0 <= i < r2.len() && (r2[i] is Include) == incl_kind && #[trigger] rule_glob(r2[i]) == g;
            assert(r2.contains(r2[i]));
            assert(r2.to_multiset().count(r2[i]) > 0);
            assert(r1.to_multiset().count(r2[i]) > 0);
            assert(r1.contains(r2[i]));
            let k = choose|k: int| 0 <= k < r1.len() && r1[k] == r2[i];
            assert(rule_glob(r1[k]) == g);
        }
    }
}

/// The order of the rules never matters: filters made from the same
/// rules, each list in any order, show the same files and the same directories.
pub proof fn law_rule_order_irrelevant(
    file_rules1: Seq<PatternRule>,
    file_rules2: Seq<PatternRule>,
    dir_rules1: Seq<PatternRule>,
    dir_rules2: Seq<PatternRule>,
    name: Option<Seq<char>>,
)
    requires
        file_rules1.to_multiset() == file_rules2.to_multiset(),
        dir_rules1.to_multiset() == dir_rules2.to_multiset(),
    ensures
        file_shown(filter_of(file_rules1, dir_rules1), name) == file_shown(filter_of(file_rules2, dir_rules2), name),
        dir_shown(filter_of(file_rules1, dir_rules1), name) == dir_shown(filter_of(file_rules2, dir_rules2), name),
{
    lemma_same_rules_same_globs(file_rules1, file_rules2, true);
    lemma_same_rules_same_globs(file_rules1, file_rules2, false);
    lemma_same_rules_same_globs(dir_rules1, dir_rules2, true);
    lemma_same_rules_same_globs(dir_rules1, dir_rules2, false);
    lemma_shown_by_globs(
        globs_of(file_rules1, true), globs_of(file_rules1, false),
        globs_of(file_rules2, true), globs_of(file_rules2, false), name,
    );
    lemma_shown_by_globs(
        globs_of(dir_rules1, true), globs_of(dir_rules1, false),
        globs_of(dir_rules2, true), globs_of(dir_rules2, false), name,
    );
}

/// Directories are judged by the directory rules alone and files by the file
/// rules alone: two filters with the same directory globs show the same
/// directories, whatever their file globs, and two with the same file globs
/// show the same files, whatever their directory globs.
pub proof fn law_kinds_judged_apart(f: FilterModel, g: FilterModel, name: Option<Seq<char>>)
    ensures
        f.dir_incl == g.dir_incl && f.dir_excl == g.dir_excl ==> dir_shown(f, name) == dir_shown(g, name),
        f.file_incl == g.file_incl && f.file_excl == g.file_excl ==> file_shown(f, name) == file_shown(g, name),
{
}

/// What a directory's name must do to be shown: match one of the directory
/// include globs (unless there are none) and none of the directory exclude
/// globs; the file globs play no part. Likewise a file's name with the file
/// globs. Without a name, an entry is shown only when there are no globs of its kind.
pub proof fn law_shown_by_own_globs(f: FilterModel, name: Seq<char>)
    ensures
        dir_shown(f, Some(name)) <==> (
            (f.dir_incl.len() == 0 || exists|i: int| 0 <= i < f.dir_incl.len() && #[trigger] glob_matches(f.dir_incl[i], name))
            && forall|j: int| 0 <= j < f.dir_excl.len() ==> !#[trigger] glob_matches(f.dir_excl[j], name)),
        file_shown(f, Some(name)) <==> (
            (f.file_incl.len() == 0 || exists|i: int| 0 <= i < f.file_incl.len() && #[trigger] glob_matches(f.file_incl[i], name))
            && forall|j: int| 0 <= j < f.file_excl.len() ==> !#[trigger] glob_matches(f.file_excl[j], name)),
        dir_shown(f, None) <==> f.dir_incl.len() == 0 && f.dir_excl.len() == 0,
        file_shown(f, None) <==> f.file_incl.len() == 0 && f.file_excl.len() == 0,
{
}

/// A filter made from rules judges directories by the directory rules only:
/// any file rules give the same directory verdicts, and any directory rules
/// give the same file verdicts.
pub proof fn law_rules_of_one_kind_judge_it(
    file_rules1: Seq<PatternRule>,
    file_rules2: Seq<PatternRule>,
    dir_rules1: Seq<PatternRule>,
    dir_rules2: Seq<PatternRule>,
    name: Option<Seq<char>>,
)
    ensures
        dir_shown(filter_of(file_rules1, dir_rules1), name) == dir_shown(filter_of(file_rules2, dir_rules1), name),
        file_shown(filter_of(file_rules1, dir_rules1), name) == file_shown(filter_of(file_rules1, dir_rules2), name),
{
    law_kinds_judged_apart(filter_of(file_rules1, dir_rules1), filter_of(file_rules2, dir_rules1), name);
    law_kinds_judged_apart(filter_of(file_rules1, dir_rules1), filter_of(file_rules1, dir_rules2), name);
}

}
