use vstd::prelude::*;
use crate::template::{refs_ok, template_ok};

verus! {

#[verifier::external_type_specification]
#[verifier::external_body]
pub struct ExRegex(regex::Regex);

/// Whether `regex::Regex::new` accepts `pattern`: valid syntax that
/// compiles within the regex engine's default size limit.
pub uninterp spec fn pattern_ok(pattern: Seq<char>) -> bool;

/// The number of capture groups of a valid pattern, the implicit group
/// for the whole match included.
pub uninterp spec fn groups_of(pattern: Seq<char>) -> nat;

/// Whether the pattern matches anywhere in `content`.
pub uninterp spec fn has_match(pattern: Seq<char>, content: Seq<char>) -> bool;

/// The result of replacing every non-overlapping match of the pattern in
/// `content` by the template, numeric capture references expanded.
pub uninterp spec fn replaced(pattern: Seq<char>, content: Seq<char>, template: Seq<char>) -> Seq<char>;

/// Relies on regex::Regex::new, which returns Ok exactly when the
/// pattern is valid regex syntax whose compiled form stays within the
/// default size limit, and on regex::Regex::captures_len, the number of
/// capture groups of that compiled pattern, at least 1 since the
/// implicit whole-match group is counted.
#[verifier::external_body]
fn compile_pattern(pattern: &str) -> (r: Option<(regex::Regex, usize)>)
    ensures
        r is Some <==> pattern_ok(pattern@),
        r matches Some(c) ==> c.1 as nat == groups_of(pattern@) && c.1 >= 1,
{
    match regex::Regex::new(pattern) {
        Ok(re) => {
            let groups = re.captures_len();
            Some((re, groups))
        },
        Err(_) => None,
    }
}

/// One compiled substitution rule: the search pattern, its compiled
/// form, and the replacement template, validated together by
/// `Rule::new`, which alone constructs values of this type.
pub struct Rule {
    re: regex::Regex,
    pattern: String,
    template: String,
}

/// Why a rule failed to compile: the search pattern is not a valid
/// regular expression, or the template references a capture group the
/// pattern does not have. Either way no file has been touched.
#[derive(Debug, PartialEq, Eq, Structural)]
pub enum CompileError {
    BadPattern,
    GroupOutOfRange,
}

/// Relies on regex::Regex::replace_all with a `&str` replacement: its
/// result is a function of the pattern, the haystack and the template
/// alone, and a haystack without a match is returned unchanged. `rule`
/// couples the compiled regex with the pattern it was compiled from.
#[verifier::external_body]
fn replace_all_str(rule: &Rule, content: &str) -> (r: String)
    ensures
        r@ == replaced(rule.pattern@, content@, rule.template@),
        !has_match(rule.pattern@, content@) ==> r@ == content@,
{
    rule.re.replace_all(content, rule.template.as_str()).into_owned()
}

impl Rule {
    /// The characters of the search pattern.
    pub closed spec fn pat(&self) -> Seq<char> {
        self.pattern@
    }

    /// The characters of the replacement template.
    pub closed spec fn tmpl(&self) -> Seq<char> {
        self.template@
    }

    /// A well-formed rule: the pattern compiles and every numeric
    /// capture reference of the template is in range.
    pub open spec fn wf(&self) -> bool {
        pattern_ok(self.pat()) && refs_ok(self.tmpl(), groups_of(self.pat()))
    }

    /// Compile a rule. This fails, before any file is touched, exactly
    /// when the pattern is invalid or the template references a capture
    /// group out of range.
    pub fn new(pattern: String, template: String) -> (r: Result<Rule, CompileError>)
        ensures
            r is Ok <==> pattern_ok(pattern@) && refs_ok(template@, groups_of(pattern@)),
            r matches Ok(rule) ==> rule.pat() == pattern@ && rule.tmpl() == template@ && rule.wf(),
            r matches Err(e) ==> (e == CompileError::BadPattern <==> !pattern_ok(pattern@)),
    {
        match compile_pattern(pattern.as_str()) {
            None => Err(CompileError::BadPattern),
            Some((re, n)) => {
                if template_ok(template.as_str(), n) {
                    Ok(Rule { re, pattern, template })
                } else {
                    Err(CompileError::GroupOutOfRange)
                }
            },
        }
    }

    /// Apply the rule to one file's content: the candidate output, and
    /// whether it differs from the content. Only a changed candidate is
    /// to be written back; content without a match comes back unchanged,
    /// so an unmatched file is never rewritten.
    pub fn substitute(&self, content: &String) -> (r: (String, bool))
        ensures
            r.0@ == replaced(self.pat(), content@, self.tmpl()),
            r.1 == (r.0@ != content@),
            !has_match(self.pat(), content@) ==> !r.1 && r.0@ == content@,
    {
        let out = replace_all_str(self, content.as_str());
        let changed = !(out == *content);
        (out, changed)
    }
}

/// What reading one file produced: its full text, or a failed read
/// (which is recorded for that file alone; the batch goes on).
pub enum ReadOutcome {
    Content(String),
    Failed,
}

/// The engine's verdict for one file: write this candidate output back,
/// leave the file untouched, or report that it could not be read.
pub enum FileDecision {
    Write(String),
    Unchanged,
    ReadFailed,
}

/// The verdict the engine owes for one file, determined by the rule and
/// that file's own read outcome alone.
pub open spec fn decision_matches(
    pat: Seq<char>,
    tmpl: Seq<char>,
    outcome: ReadOutcome,
    d: FileDecision,
) -> bool {
    match outcome {
        ReadOutcome::Failed => d is ReadFailed,
        ReadOutcome::Content(c) => if replaced(pat, c@, tmpl) == c@ {
            d is Unchanged
        } else {
            d matches FileDecision::Write(out) && out@ == replaced(pat, c@, tmpl)
        },
    }
}

/// The engine's verdicts for a whole batch, one per file in order, each
/// owed by that file's own outcome alone.
pub open spec fn batch_matches(
    pat: Seq<char>,
    tmpl: Seq<char>,
    outcomes: Seq<ReadOutcome>,
    ds: Seq<FileDecision>,
) -> bool {
    &&& ds.len() == outcomes.len()
    &&& forall|i: int| 0 <= i < outcomes.len()
        ==> decision_matches(pat, tmpl, outcomes[i], #[trigger] ds[i])
}

impl Rule {
    /// Decide one file of the batch from its read outcome: a failed read
    /// is reported, unmatched or unchanged content is left alone, and
    /// changed content is to be written back.
    pub fn process_one(&self, outcome: ReadOutcome) -> (d: FileDecision)
        ensures
            decision_matches(self.pat(), self.tmpl(), outcome, d),
            match outcome {
                ReadOutcome::Content(c) => !has_match(self.pat(), c@) ==> d is Unchanged,
                ReadOutcome::Failed => true,
            },
    {
        match outcome {
            ReadOutcome::Failed => FileDecision::ReadFailed,
            ReadOutcome::Content(c) => {
                let (out, changed) = self.substitute(&c);
                if changed {
                    FileDecision::Write(out)
                } else {
                    FileDecision::Unchanged
                }
            },
        }
    }
}

/// Isolation of failures: in a batch where file `j` could not be read,
/// its failure is reported for it alone, and every other file still
/// receives exactly the verdict its own content demands.
pub proof fn lemma_failure_isolation(
    pat: Seq<char>,
    tmpl: Seq<char>,
    outcomes: Seq<ReadOutcome>,
    ds: Seq<FileDecision>,
    j: int,
)
    requires
        batch_matches(pat, tmpl, outcomes, ds),
        0 <= j < outcomes.len(),
        outcomes[j] is Failed,
    ensures
        ds[j] is ReadFailed,
        forall|i: int| 0 <= i < outcomes.len() && i != j
            ==> decision_matches(pat, tmpl, outcomes[i], #[trigger] ds[i]),
{
}

/// Idempotence of the engine: a second pass over a file writes nothing.
/// A file the first pass left alone is left alone again outright; a file
/// the first pass rewrote is skipped provided the rule is stable on its
/// own output, that is, replacing again in the first pass's output
/// changes nothing. (A rule whose replacement creates fresh matches,
/// as pattern `a` with template `aa` does, is not stable and genuinely
/// writes again.)
pub proof fn lemma_second_pass_skips(
    pat: Seq<char>,
    tmpl: Seq<char>,
    c: String,
    d1: FileDecision,
    after: String,
    d2: FileDecision,
)
    requires
        decision_matches(pat, tmpl, ReadOutcome::Content(c), d1),
        // `after` is the file's content once the first pass is done
        match d1 {
            FileDecision::Write(out) => after == out,
            FileDecision::Unchanged => after == c,
            FileDecision::ReadFailed => false,
        },
        // the rule is stable on what the first pass wrote
        d1 is Write ==> replaced(pat, after@, tmpl) == after@,
        decision_matches(pat, tmpl, ReadOutcome::Content(after), d2),
    ensures
        d2 is Unchanged,
{
}

} // verus!
