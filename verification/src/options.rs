use vstd::prelude::*;
use vstd::string::StringExecFns;
use std::num::ParseIntError;
use glob::PatternError;
use crate::args::{entry_view, option_entries, option_list};
use crate::paths::opt_chars;
use crate::pattern::{glob_valid, rule_glob, PatternRule};

verus! {

#[verifier::external_type_specification]
#[verifier::external_body]
pub struct ExParseIntError(ParseIntError);

/// The characters `0` to `9`.
pub open spec fn is_digit(c: char) -> bool {
    '0' <= c <= '9'
}

/// The value of a string of decimal digits.
pub open spec fn digits_value(s: Seq<char>) -> nat
    decreases s.len(),
{
    if s.len() == 0 {
        0
    } else {
        digits_value(s.drop_last()) * 10 + ((s.last() as u32) - ('0' as u32)) as nat
    }
}

/// The text without one leading `+`.
pub open spec fn sign_stripped(s: Seq<char>) -> Seq<char> {
    if s.len() > 0 && s[0] == '+' {
        s.drop_first()
    } else {
        s
    }
}

/// Every character is a decimal digit.
pub open spec fn all_digits(d: Seq<char>) -> bool {
    forall|i: int| 0 <= i < d.len() ==> is_digit(#[trigger] d[i])
}

/// The number a text stands for as a `usize`: an optional `+` and then one or
/// more decimal digits, with a value that fits.
pub open spec fn usize_text(s: Seq<char>) -> Option<nat> {
    let d = sign_stripped(s);
    if d.len() > 0 && all_digits(d) && digits_value(d) <= usize::MAX {
        Some(digits_value(d))
    } else {
        None
    }
}

/// Calls `str::parse::<usize>`: as its documentation states, it accepts an
/// optional `+` followed by decimal digits whose value fits, and fails
/// otherwise. The error is passed on as made.
#[verifier::external_body]
fn parse_usize(s: &str) -> (r: Result<usize, ParseIntError>)
    ensures
        match r {
            Ok(n) => usize_text(s@) == Some(n as nat),
            Err(_) => usize_text(s@) is None,
        },
{
    s.parse::<usize>()
}

/// Why a mount option is refused.
pub enum OptionError {
    /// The option needs a value and has none.
    MissingValue { key: String },
    /// The value is not a valid glob.
    BadGlob { key: String, value: String, glob_error: PatternError },
    /// The value is not a number.
    BadNumber { value: String, parse_error: ParseIntError },
}

/// An option that is accepted with a warning.
pub enum OptionNote {
    /// Writing was asked for; the mirror stays read-only.
    ReadWriteUnsupported,
    /// The option is not known, and is ignored.
    Unknown { key: String },
}

/// The mount options gathered so far: the rules on files and on directories,
/// in the order given, whether other users may access the mirror, and how far
/// down empty directories are pruned (0 by default: no pruning).
pub struct MountOptions {
    pub file_rules: Vec<PatternRule>,
    pub dir_rules: Vec<PatternRule>,
    pub allow_other: bool,
    pub prune_depth: usize,
}

/// A rule by its kind and glob.
pub open spec fn rule_model(r: PatternRule) -> (bool, Seq<char>) {
    (r is Include, rule_glob(r))
}

/// The rules by kind and glob, in order.
pub open spec fn rules_model(rs: Seq<PatternRule>) -> Seq<(bool, Seq<char>)> {
    rs.map_values(|r: PatternRule| rule_model(r))
}

/// The options by their contents.
pub struct OptionsModel {
    pub file_rules: Seq<(bool, Seq<char>)>,
    pub dir_rules: Seq<(bool, Seq<char>)>,
    pub allow_other: bool,
    pub prune_depth: usize,
}

impl View for MountOptions {
    type V = OptionsModel;

    open spec fn view(&self) -> OptionsModel {
        OptionsModel {
            file_rules: rules_model(self.file_rules@),
            dir_rules: rules_model(self.dir_rules@),
            allow_other: self.allow_other,
            prune_depth: self.prune_depth,
        }
    }
}

/// What an option with a glob value does: adds a rule of the kind `incl` to
/// the file or directory rules (`dirs`), or is refused.
pub open spec fn glob_option_ok(
    old: OptionsModel,
    new: OptionsModel,
    key: Seq<char>,
    value: Option<Seq<char>>,
    dirs: bool,
    incl: bool,
    r: Result<Option<OptionNote>, OptionError>,
) -> bool {
    match value {
        None => r matches Err(OptionError::MissingValue { key: k }) && k@ == key && new == old,
        Some(v) => if glob_valid(v) {
            &&& (r matches Ok(None))
            &&& new.allow_other == old.allow_other
            &&& new.prune_depth == old.prune_depth
            &&& if dirs {
                new.dir_rules == old.dir_rules.push((incl, v)) && new.file_rules == old.file_rules
            } else {
                new.file_rules == old.file_rules.push((incl, v)) && new.dir_rules == old.dir_rules
            }
        } else {
            (r matches Err(OptionError::BadGlob { key: k, value: w, .. }) && k@ == key && w@ == v) && new == old
        },
    }
}

/// The options before any is taken: no rules, no access for other users, no pruning.
pub open spec fn initial_options() -> OptionsModel {
    OptionsModel { file_rules: Seq::empty(), dir_rules: Seq::empty(), allow_other: false, prune_depth: 0 }
}

/// The options with one more rule of the kind `incl`, on directories when `dirs`
/// holds and on files otherwise, after the rules already there.
pub open spec fn with_rule(m: OptionsModel, dirs: bool, incl: bool, glob: Seq<char>) -> OptionsModel {
    if dirs {
        OptionsModel { dir_rules: m.dir_rules.push((incl, glob)), ..m }
    } else {
        OptionsModel { file_rules: m.file_rules.push((incl, glob)), ..m }
    }
}

/// The options after taking the option `key[=value]`, or `None` when it is refused.
pub open spec fn option_step(m: OptionsModel, key: Seq<char>, value: Option<Seq<char>>) -> Option<OptionsModel> {
    if key == "incl"@ || key == "excl"@ || key == "dincl"@ || key == "dexcl"@ {
        match value {
            Some(v) => if glob_valid(v) {
                Some(with_rule(m, key == "dincl"@ || key == "dexcl"@, key == "incl"@ || key == "dincl"@, v))
            } else {
                None
            },
            None => None,
        }
    } else if key == "prune"@ {
        match value {
            Some(v) => match usize_text(v) {
                Some(n) => Some(OptionsModel { prune_depth: n as usize, ..m }),
                None => None,
            },
            None => None,
        }
    } else if key == "allow_other"@ {
        Some(OptionsModel { allow_other: true, ..m })
    } else {
        Some(m)
    }
}

/// What a warning is about: `None` for writing asked for, or the unknown key.
pub open spec fn note_key(n: OptionNote) -> Option<Seq<char>> {
    match n {
        OptionNote::ReadWriteUnsupported => None,
        OptionNote::Unknown { key } => Some(key@),
    }
}

/// The warning that the option `key` gives, if any (by `note_key`).
pub open spec fn option_note(key: Seq<char>) -> Option<Option<Seq<char>>> {
    if key == "rw"@ {
        Some(None)
    } else if key == "incl"@ || key == "excl"@ || key == "dincl"@ || key == "dexcl"@ || key == "prune"@
        || key == "allow_other"@ {
        None
    } else {
        Some(Some(key))
    }
}

/// What the error of a refused option `key[=value]` says: the value is
/// missing, is not a valid glob, or is not a number.
pub open spec fn refused_as(key: Seq<char>, value: Option<Seq<char>>, e: OptionError) -> bool {
    match e {
        OptionError::MissingValue { key: k } => k@ == key && value is None,
        OptionError::BadGlob { key: k, value: w, .. } => k@ == key && value == Some(w@) && !glob_valid(w@),
        OptionError::BadNumber { value: w, .. } => value == Some(w@) && usize_text(w@) is None,
    }
}

/// The options after taking the first `n` options of `es` in order, or `None`
/// when one of them is refused.
pub open spec fn options_after(es: Seq<(Seq<char>, Option<Seq<char>>)>, n: nat) -> Option<OptionsModel>
    decreases n,
{
    if n == 0 {
        Some(initial_options())
    } else if n > es.len() {
        None
    } else {
        match options_after(es, (n - 1) as nat) {
            Some(m) => option_step(m, es[n - 1].0, es[n - 1].1),
            None => None,
        }
    }
}

/// The warnings of the first `n` options of `es`, in order.
pub open spec fn option_notes(es: Seq<(Seq<char>, Option<Seq<char>>)>, n: nat) -> Seq<Option<Seq<char>>>
    decreases n,
{
    if n == 0 || n > es.len() {
        Seq::empty()
    } else {
        let prev = option_notes(es, (n - 1) as nat);
        match option_note(es[n - 1].0) {
            Some(w) => prev.push(w),
            None => prev,
        }
    }
}

proof fn lemma_refused_stays_refused(es: Seq<(Seq<char>, Option<Seq<char>>)>, j: nat, n: nat)
    requires
        j <= n,
        options_after(es, j) is None,
    ensures
        options_after(es, n) is None,
    decreases n,
{
    if j < n {
        lemma_refused_stays_refused(es, j, (n - 1) as nat);
    }
}

impl MountOptions {
    /// No rules, no access for other users, no pruning.
    pub fn new() -> (r: Self)
        ensures
            r@.file_rules == Seq::<(bool, Seq<char>)>::empty(),
            r@.dir_rules == Seq::<(bool, Seq<char>)>::empty(),
            !r@.allow_other,
            r@.prune_depth == 0,
    {
        let r = MountOptions { file_rules: Vec::new(), dir_rules: Vec::new(), allow_other: false, prune_depth: 0 };
        assert(r@.file_rules =~= Seq::<(bool, Seq<char>)>::empty());
        assert(r@.dir_rules =~= Seq::<(bool, Seq<char>)>::empty());
        r
    }

    /// Takes one `key[=value]` option: `incl`, `excl`, `dincl` and `dexcl`
    /// add a rule with the glob `value` (file or directory rules, selecting or
    /// rejecting); `prune` sets the prune depth to the number `value`;
    /// `allow_other` lets other users in; `rw` is noted as unsupported; any
    /// other key is noted as unknown.
    pub fn apply(&mut self, key: &str, value: Option<&str>) -> (r: Result<Option<OptionNote>, OptionError>)
        ensures
            key@ == "incl"@ ==> glob_option_ok(old(self)@, final(self)@, key@, crate::paths::opt_chars(value), false, true, r),
            key@ == "excl"@ ==> glob_option_ok(old(self)@, final(self)@, key@, crate::paths::opt_chars(value), false, false, r),
            key@ == "dincl"@ ==> glob_option_ok(old(self)@, final(self)@, key@, crate::paths::opt_chars(value), true, true, r),
            key@ == "dexcl"@ ==> glob_option_ok(old(self)@, final(self)@, key@, crate::paths::opt_chars(value), true, false, r),
            key@ == "prune"@ ==> match value {
                None => (r matches Err(OptionError::MissingValue { key: k }) && k@ == key@) && final(self)@ == old(self)@,
                Some(v) => match usize_text(v@) {
                    Some(n) => (r matches Ok(None)) && final(self)@ == (OptionsModel { prune_depth: n as usize, ..old(self)@ }),
                    None => (r matches Err(OptionError::BadNumber { value: w, .. }) && w@ == v@) && final(self)@ == old(self)@,
                },
            },
            key@ == "allow_other"@ ==> (r matches Ok(None)) && final(self)@ == (OptionsModel { allow_other: true, ..old(self)@ }),
            key@ == "rw"@ ==> (r matches Ok(Some(OptionNote::ReadWriteUnsupported))) && final(self)@ == old(self)@,
            key@ != "incl"@ && key@ != "excl"@ && key@ != "dincl"@ && key@ != "dexcl"@ && key@ != "prune"@
                && key@ != "allow_other"@ && key@ != "rw"@ ==> (r matches Ok(Some(OptionNote::Unknown { key: k })) && k@ == key@)
                && final(self)@ == old(self)@,
            (r is Ok) == (option_step(old(self)@, key@, opt_chars(value)) is Some),
            r is Ok ==> final(self)@ == option_step(old(self)@, key@, opt_chars(value))->0 && match r->Ok_0 {
                Some(n) => option_note(key@) == Some(note_key(n)),
                None => option_note(key@) is None,
            },
            r is Err ==> final(self)@ == old(self)@ && refused_as(key@, opt_chars(value), r->Err_0),
    {
        proof {
            reveal_strlit("incl");
            reveal_strlit("excl");
            reveal_strlit("dincl");
            reveal_strlit("dexcl");
            reveal_strlit("prune");
            reveal_strlit("allow_other");
            reveal_strlit("rw");
            assert("incl"@ =~= seq!['i', 'n', 'c', 'l']);
            assert("excl"@ =~= seq!['e', 'x', 'c', 'l']);
            assert("dincl"@ =~= seq!['d', 'i', 'n', 'c', 'l']);
            assert("dexcl"@ =~= seq!['d', 'e', 'x', 'c', 'l']);
            assert("prune"@ =~= seq!['p', 'r', 'u', 'n', 'e']);
            assert("allow_other"@ =~= seq!['a', 'l', 'l', 'o', 'w', '_', 'o', 't', 'h', 'e', 'r']);
            assert("rw"@ =~= seq!['r', 'w']);
            assert("incl"@ != "excl"@ && "incl"@[0] != "dincl"@[0] && "incl"@[0] != "dexcl"@[0]);
            assert("dincl"@[1] != "dexcl"@[1]);
        }
        let k = key.to_owned();
        if k == String::from_str("incl") {
            self.glob_rule(key, value, false, true)
        } else if k == String::from_str("excl") {
            self.glob_rule(key, value, false, false)
        } else if k == String::from_str("dincl") {
            self.glob_rule(key, value, true, true)
        } else if k == String::from_str("dexcl") {
            self.glob_rule(key, value, true, false)
        } else if k == String::from_str("prune") {
            let v = match value {
                Some(v) => v,
                None => return Err(OptionError::MissingValue { key: k }),
            };
            match parse_usize(v) {
                Ok(n) => {
                    self.prune_depth = n;
                    Ok(None)
                },
                Err(e) => Err(OptionError::BadNumber { value: v.to_owned(), parse_error: e }),
            }
        } else if k == String::from_str("allow_other") {
            self.allow_other = true;
            Ok(None)
        } else if k == String::from_str("rw") {
            Ok(Some(OptionNote::ReadWriteUnsupported))
        } else {
            Ok(Some(OptionNote::Unknown { key: k }))
        }
    }

    /// Takes the comma-separated `key[=value]` options of `options` in order,
    /// from no options at all: the first option refused ends it with its error;
    /// otherwise the options gathered are returned with the warnings given, in order.
    pub fn parse(options: &str) -> (r: Result<(MountOptions, Vec<OptionNote>), OptionError>)
        requires
            options@.len() < usize::MAX,
        ensures
            ({
                let es = option_entries(options@);
                &&& (r is Ok) == (options_after(es, es.len()) is Some)
                &&& match r {
                    Ok((m, notes)) => {
                        &&& options_after(es, es.len()) == Some(m@)
                        &&& notes@.len() == option_notes(es, es.len()).len()
                        &&& forall|i: int| 0 <= i < notes@.len() ==> note_key(#[trigger] notes@[i]) == option_notes(es, es.len())[i]
                    },
                    Err(e) => exists|j: int|
                        0 <= j < es.len() && #[trigger] options_after(es, j as nat) is Some
                            && option_step(options_after(es, j as nat)->0, es[j].0, es[j].1) is None
                            && refused_as(es[j].0, es[j].1, e),
                }
            }),
    {
        let list = option_list(options);
        let ghost es = option_entries(options@);
        let mut m = MountOptions::new();
        let mut notes: Vec<OptionNote> = Vec::new();
        let mut k: usize = 0;
        assert(m@ == initial_options());
        while k < list.len()
            invariant
                k <= list@.len(),
                list@.len() == es.len(),
                es == option_entries(options@),
                forall|j: int| 0 <= j < list@.len() ==> entry_view(#[trigger] list@[j]) == es[j],
                options_after(es, k as nat) == Some(m@),
                notes@.len() == option_notes(es, k as nat).len(),
                forall|i: int| 0 <= i < notes@.len() ==> note_key(#[trigger] notes@[i]) == option_notes(es, k as nat)[i],
            decreases list@.len() - k,
        {
            let key = list[k].0.as_str();
            let value = match &list[k].1 {
                Some(v) => Some(v.as_str()),
                None => None,
            };
            assert(entry_view(list@[k as int]) == es[k as int]);
            assert(key@ == es[k as int].0 && opt_chars(value) == es[k as int].1);
            let ghost before = notes@;
            match m.apply(key, value) {
                Ok(Some(n)) => {
                    notes.push(n);
                    assert forall|i: int| 0 <= i < notes@.len() implies note_key(#[trigger] notes@[i]) == option_notes(es, (k + 1) as nat)[i] by {
                        if i < before.len() {
                            assert(notes@[i] == before[i]);
                        }
                    }
                },
                Ok(None) => {},
                Err(e) => {
                    proof {
                        lemma_refused_stays_refused(es, (k + 1) as nat, es.len());
                    }
                    return Err(e);
                },
            }
            k = k + 1;
        }
        Ok((m, notes))
    }

    fn glob_rule(&mut self, key: &str, value: Option<&str>, dirs: bool, incl: bool) -> (r: Result<Option<OptionNote>, OptionError>)
        ensures
            glob_option_ok(old(self)@, final(self)@, key@, crate::paths::opt_chars(value), dirs, incl, r),
    {
        let v = match value {
            Some(v) => v,
            None => return Err(OptionError::MissingValue { key: key.to_owned() }),
        };
        let made = if incl { PatternRule::new_include(v) } else { PatternRule::new_exclude(v) };
        match made {
            Ok(rule) => {
                if dirs {
                    let ghost before = self.dir_rules@;
                    self.dir_rules.push(rule);
                    assert(rules_model(self.dir_rules@) =~= rules_model(before).push((incl, v@)));
                } else {
                    let ghost before = self.file_rules@;
                    self.file_rules.push(rule);
                    assert(rules_model(self.file_rules@) =~= rules_model(before).push((incl, v@)));
                }
                Ok(None)
            },
            Err(e) => Err(OptionError::BadGlob { key: key.to_owned(), value: v.to_owned(), glob_error: e }),
        }
    }
}

}
