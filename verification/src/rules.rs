//! The lint rules, and the options that select or ignore some of them.
use vstd::prelude::*;
use crate::diagnostic::{Diagnostic, DiagnosticView, Severity, diags_view};
use crate::frontmatter::push_diag;
use crate::run::{LintResult, capped, diagnostic_total, is_stable_path_sort, length_summand, lint_skills, severity_total, sum_skills};
use crate::skill::{SkillResult, SourceView, skill_diags};
use crate::frontmatter::{field_type_diags, frontmatter_diags, key_diags, metadata_diags, required_diags, compatibility_diags, unknown_field_diags};
use crate::body::{body_diags, link_targets, reference_diags, references_diags, references_in};
use crate::markdown::parse_markdown;
use crate::yaml::YamlNode;
use crate::text::{same_text, texts};

verus! {

/// A lint rule: its ID, the severity of its diagnostics, and what it checks.
#[derive(Debug, Clone, Copy)]
pub struct Rule {
    pub id: &'static str,
    pub severity: Severity,
    pub summary: &'static str,
}

/// A rule as mathematical text.
pub struct RuleView {
    pub id: Seq<char>,
    pub severity: Severity,
    pub summary: Seq<char>,
}

impl View for Rule {
    type V = RuleView;

    open spec fn view(&self) -> RuleView {
        RuleView { id: self.id@, severity: self.severity, summary: self.summary@ }
    }
}

/// A rule with the given ID, severity and summary.
pub open spec fn rule(id: Seq<char>, severity: Severity, summary: Seq<char>) -> RuleView {
    RuleView { id, severity, summary }
}

/// The rules of the lint, in the order of the README.
pub open spec fn rule_table() -> Seq<RuleView> {
    seq![
        rule("missing-skill-md"@, Severity::Error, "Skill directories must contain `SKILL.md`"@),
        rule("read-error"@, Severity::Error, "`SKILL.md` must be readable"@),
        rule(
            "invalid-frontmatter"@,
            Severity::Error,
            "`SKILL.md` must start with valid YAML frontmatter closed by `---`"@,
        ),
        rule(
            "unknown-field"@,
            Severity::Error,
            "Only `name`, `description`, `license`, `allowed-tools`, `metadata`, and `compatibility` are allowed"@,
        ),
        rule("missing-name"@, Severity::Error, "`name` is required"@),
        rule(
            "invalid-name"@,
            Severity::Error,
            "`name` must be 1-64 chars, lowercase `[a-z0-9-]`, with no leading, trailing, or consecutive hyphens"@,
        ),
        rule(
            "name-directory-mismatch"@,
            Severity::Error,
            "`name` must match the parent directory name"@,
        ),
        rule("missing-description"@, Severity::Error, "`description` is required"@),
        rule(
            "invalid-description"@,
            Severity::Error,
            "`description` must be a string and 1-1024 characters"@,
        ),
        rule(
            "invalid-compatibility"@,
            Severity::Error,
            "`compatibility`, when present, must be a string and 1-500 characters"@,
        ),
        rule(
            "invalid-metadata"@,
            Severity::Warning,
            "`metadata` should be a mapping of string keys to string values"@,
        ),
        rule("body-line-count"@, Severity::Warning, "`SKILL.md` body should stay under 500 lines"@),
        rule(
            "body-token-estimate"@,
            Severity::Warning,
            "`SKILL.md` body should stay under about 5000 whitespace-delimited tokens"@,
        ),
        rule(
            "reference-depth"@,
            Severity::Warning,
            "Relative file references should be at most one directory level deep"@,
        ),
        rule(
            "missing-reference"@,
            Severity::Warning,
            "Relative file references in the body should exist on disk"@,
        ),
    ]
}

/// The rules of the lint, in the order of the README.
pub fn rules() -> (r: Vec<Rule>)
    ensures
        r@.map_values(|x: Rule| x@) == rule_table(),
{
    let r = vec![
        Rule { id: "missing-skill-md", severity: Severity::Error, summary: "Skill directories must contain `SKILL.md`" },
        Rule { id: "read-error", severity: Severity::Error, summary: "`SKILL.md` must be readable" },
        Rule {
            id: "invalid-frontmatter",
            severity: Severity::Error,
            summary: "`SKILL.md` must start with valid YAML frontmatter closed by `---`",
        },
        Rule {
            id: "unknown-field",
            severity: Severity::Error,
            summary: "Only `name`, `description`, `license`, `allowed-tools`, `metadata`, and `compatibility` are allowed",
        },
        Rule { id: "missing-name", severity: Severity::Error, summary: "`name` is required" },
        Rule {
            id: "invalid-name",
            severity: Severity::Error,
            summary: "`name` must be 1-64 chars, lowercase `[a-z0-9-]`, with no leading, trailing, or consecutive hyphens",
        },
        Rule {
            id: "name-directory-mismatch",
            severity: Severity::Error,
            summary: "`name` must match the parent directory name",
        },
        Rule { id: "missing-description", severity: Severity::Error, summary: "`description` is required" },
        Rule {
            id: "invalid-description",
            severity: Severity::Error,
            summary: "`description` must be a string and 1-1024 characters",
        },
        Rule {
            id: "invalid-compatibility",
            severity: Severity::Error,
            summary: "`compatibility`, when present, must be a string and 1-500 characters",
        },
        Rule {
            id: "invalid-metadata",
            severity: Severity::Warning,
            summary: "`metadata` should be a mapping of string keys to string values",
        },
        Rule {
            id: "body-line-count",
            severity: Severity::Warning,
            summary: "`SKILL.md` body should stay under 500 lines",
        },
        Rule {
            id: "body-token-estimate",
            severity: Severity::Warning,
            summary: "`SKILL.md` body should stay under about 5000 whitespace-delimited tokens",
        },
        Rule {
            id: "reference-depth",
            severity: Severity::Warning,
            summary: "Relative file references should be at most one directory level deep",
        },
        Rule {
            id: "missing-reference",
            severity: Severity::Warning,
            summary: "Relative file references in the body should exist on disk",
        },
    ];
    assert(r@.map_values(|x: Rule| x@) =~= rule_table());
    r
}


/// `d` carries the ID and the severity of one of the rules.
pub open spec fn follows_rule(d: DiagnosticView) -> bool {
    exists|i: int|
        0 <= i < rule_table().len() && (#[trigger] rule_table()[i]).id == d.code
            && rule_table()[i].severity == d.severity
}

/// Every diagnostic of `ds` carries the ID and the severity of one of the rules.
pub open spec fn all_follow_rules(ds: Seq<DiagnosticView>) -> bool {
    forall|k: int| 0 <= k < ds.len() ==> follows_rule(#[trigger] ds[k])
}

/// The ID and severity of each rule.
proof fn lemma_rule_entries()
    ensures
        rule_table()[0].id == "missing-skill-md"@ && rule_table()[0].severity == Severity::Error,
        rule_table()[1].id == "read-error"@ && rule_table()[1].severity == Severity::Error,
        rule_table()[2].id == "invalid-frontmatter"@ && rule_table()[2].severity == Severity::Error,
        rule_table()[3].id == "unknown-field"@ && rule_table()[3].severity == Severity::Error,
        rule_table()[4].id == "missing-name"@ && rule_table()[4].severity == Severity::Error,
        rule_table()[5].id == "invalid-name"@ && rule_table()[5].severity == Severity::Error,
        rule_table()[6].id == "name-directory-mismatch"@ && rule_table()[6].severity
            == Severity::Error,
        rule_table()[7].id == "missing-description"@ && rule_table()[7].severity == Severity::Error,
        rule_table()[8].id == "invalid-description"@ && rule_table()[8].severity == Severity::Error,
        rule_table()[9].id == "invalid-compatibility"@ && rule_table()[9].severity
            == Severity::Error,
        rule_table()[10].id == "invalid-metadata"@ && rule_table()[10].severity
            == Severity::Warning,
        rule_table()[11].id == "body-line-count"@ && rule_table()[11].severity == Severity::Warning,
        rule_table()[12].id == "body-token-estimate"@ && rule_table()[12].severity
            == Severity::Warning,
        rule_table()[13].id == "reference-depth"@ && rule_table()[13].severity == Severity::Warning,
        rule_table()[14].id == "missing-reference"@ && rule_table()[14].severity
            == Severity::Warning,
{
}

/// Two sequences of diagnostics that follow the rules make one.
proof fn lemma_follow_concat(a: Seq<DiagnosticView>, b: Seq<DiagnosticView>)
    requires
        all_follow_rules(a),
        all_follow_rules(b),
    ensures
        all_follow_rules(a + b),
{
    assert forall|k: int| 0 <= k < (a + b).len() implies follows_rule(#[trigger] (a + b)[k]) by {
        if k < a.len() {
            assert((a + b)[k] == a[k]);
        } else {
            assert((a + b)[k] == b[k - a.len()]);
        }
    }
}

/// A diagnostic that follows a rule makes a sequence that does.
proof fn lemma_follow_one(d: DiagnosticView)
    requires
        follows_rule(d),
    ensures
        all_follow_rules(seq![d]),
{
    assert(seq![d][0] == d);
}

/// The diagnostics about frontmatter keys follow the rules.
proof fn lemma_unknown_fields_follow(es: Seq<(YamlNode, YamlNode)>)
    ensures
        all_follow_rules(unknown_field_diags(es)),
    decreases es.len(),
{
    if es.len() > 0 {
        lemma_unknown_fields_follow(es.drop_last());
        lemma_rule_entries();
        let k = key_diags(es.last().0);
        if k.len() > 0 {
            assert(follows_rule(k[0]));
            lemma_follow_one(k[0]);
            assert(k == seq![k[0]]);
        }
        lemma_follow_concat(unknown_field_diags(es.drop_last()), k);
    }
}

/// The diagnostics about the frontmatter follow the rules.
proof fn lemma_frontmatter_follows(path: Seq<char>, es: Seq<(YamlNode, YamlNode)>)
    ensures
        all_follow_rules(frontmatter_diags(path, es)),
{
    lemma_rule_entries();
    lemma_unknown_fields_follow(es);
    let parts = seq![
        required_diags(path, es),
        field_type_diags(es),
        compatibility_diags(es),
        metadata_diags(es),
    ];
    assert forall|p: int, k: int| 0 <= p < parts.len() && 0 <= k < parts[p].len() implies follows_rule(
        #[trigger] parts[p][k],
    ) by {
        let d = parts[p][k];
        let e = Severity::Error;
        assert((d.code == "missing-name"@ && d.severity == e) || (d.code == "invalid-name"@
            && d.severity == e) || (d.code == "name-directory-mismatch"@ && d.severity == e) || (
        d.code == "missing-description"@ && d.severity == e) || (d.code == "invalid-description"@
            && d.severity == e) || (d.code == "invalid-compatibility"@ && d.severity == e) || (
        d.code == "invalid-metadata"@ && d.severity == Severity::Warning));
    }
    assert(all_follow_rules(parts[0]));
    assert(all_follow_rules(parts[1]));
    assert(all_follow_rules(parts[2]));
    assert(all_follow_rules(parts[3]));
    lemma_follow_concat(unknown_field_diags(es), parts[0]);
    lemma_follow_concat(unknown_field_diags(es) + parts[0], parts[1]);
    lemma_follow_concat(unknown_field_diags(es) + parts[0] + parts[1], parts[2]);
    lemma_follow_concat(unknown_field_diags(es) + parts[0] + parts[1] + parts[2], parts[3]);
}

/// The diagnostics about relative references follow the rules.
proof fn lemma_references_follow(refs: Seq<Seq<char>>, existing: Seq<Seq<char>>)
    ensures
        all_follow_rules(references_diags(refs, existing)),
    decreases refs.len(),
{
    if refs.len() > 0 {
        lemma_references_follow(refs.drop_last(), existing);
        lemma_rule_entries();
        let r = reference_diags(refs.last(), existing.contains(refs.last()));
        assert forall|k: int| 0 <= k < r.len() implies follows_rule(#[trigger] r[k]) by {
            assert(r[k].code == "reference-depth"@ || r[k].code == "missing-reference"@);
        }
        lemma_follow_concat(references_diags(refs.drop_last(), existing), r);
    }
}

/// The diagnostics about a body follow the rules.
proof fn lemma_body_follows(body: Seq<char>, existing: Seq<Seq<char>>)
    ensures
        all_follow_rules(body_diags(body, existing)),
{
    lemma_rule_entries();
    let refs = references_in(link_targets(body));
    lemma_references_follow(refs, existing);
    let d = body_diags(body, existing);
    let n = d.len() - references_diags(refs, existing).len();
    assert forall|k: int| 0 <= k < d.len() implies follows_rule(#[trigger] d[k]) by {
        if k >= n {
            assert(d[k] == references_diags(refs, existing)[k - n]);
        } else {
            assert(d[k].code == "body-line-count"@ || d[k].code == "body-token-estimate"@);
        }
    }
}

/// Every diagnostic that linting a skill directory gives carries the ID and the
/// severity of one of the rules that `rules` lists.
pub proof fn lemma_diagnostics_follow_rules(
    path: Seq<char>,
    source: SourceView,
    existing: Seq<Seq<char>>,
)
    ensures
        all_follow_rules(skill_diags(path, source, existing)),
{
    lemma_rule_entries();
    let d = skill_diags(path, source, existing);
    match source {
        SourceView::Text(t) => match parse_markdown(t) {
            Ok((es, body)) => {
                lemma_frontmatter_follows(path, es);
                lemma_body_follows(body, existing);
                lemma_follow_concat(frontmatter_diags(path, es), body_diags(body, existing));
            },
            Err(m) => {
                assert(follows_rule(d[0]));
                lemma_follow_one(d[0]);
            },
        },
        _ => {
            assert(follows_rule(d[0]));
            lemma_follow_one(d[0]);
        },
    }
}

/// `id` is the ID of one of the rules.
pub open spec fn is_rule_id(id: Seq<char>) -> bool {
    exists|i: int| 0 <= i < rule_table().len() && #[trigger] rule_table()[i].id == id
}

/// Whether `id` is the ID of one of the rules.
pub fn known_rule(id: &str) -> (b: bool)
    ensures
        b == is_rule_id(id@),
{
    let table = rules();
    let mut i: usize = 0;
    while i < table.len()
        invariant
            i <= table@.len(),
            table@.map_values(|x: Rule| x@) == rule_table(),
            forall|j: int| 0 <= j < i ==> #[trigger] rule_table()[j].id != id@,
        decreases table@.len() - i,
    {
        proof {
            assert(rule_table()[i as int] == table@[i as int]@);
        }
        if same_text(table[i].id, id) {
            proof {
                assert(rule_table()[i as int].id == id@);
            }
            return true;
        }
        i = i + 1;
    }
    proof {
        assert(table@.len() == rule_table().len());
    }
    false
}

/// Which rules a run reports: only those in `select` where it names any, and
/// none of those in `ignore`.
#[derive(Debug)]
pub struct LintOptions {
    pub ignore: Vec<String>,
    pub select: Vec<String>,
}

/// Options as mathematical text.
pub struct OptionsView {
    pub ignore: Seq<Seq<char>>,
    pub select: Seq<Seq<char>>,
}

impl View for LintOptions {
    type V = OptionsView;

    open spec fn view(&self) -> OptionsView {
        OptionsView { ignore: texts(self.ignore@), select: texts(self.select@) }
    }
}

impl Default for LintOptions {
    /// Options that report every rule.
    fn default() -> (o: Self)
        ensures
            o@.ignore.len() == 0,
            o@.select.len() == 0,
    {
        LintOptions { ignore: Vec::new(), select: Vec::new() }
    }
}

/// The rule `code` is reported under `o`.
pub open spec fn enabled(o: OptionsView, code: Seq<char>) -> bool {
    (o.select.len() == 0 || o.select.contains(code)) && !o.ignore.contains(code)
}

/// The IDs of `ids` that name no rule, in order.
pub open spec fn unknown_ids(ids: Seq<Seq<char>>) -> Seq<Seq<char>>
    decreases ids.len(),
{
    if ids.len() == 0 {
        Seq::empty()
    } else {
        unknown_ids(ids.drop_last()) + if is_rule_id(ids.last()) {
            Seq::<Seq<char>>::empty()
        } else {
            seq![ids.last()]
        }
    }
}

/// The diagnostics of `ds` whose rule is reported under `o`, in order.
pub open spec fn reported(ds: Seq<DiagnosticView>, o: OptionsView) -> Seq<DiagnosticView>
    decreases ds.len(),
{
    if ds.len() == 0 {
        Seq::empty()
    } else {
        (if enabled(o, ds[0].code) {
            seq![ds[0]]
        } else {
            Seq::empty()
        }) + reported(ds.drop_first(), o)
    }
}

/// Filtering diagnostics keeps at most as many as there were.
pub proof fn lemma_reported_len(ds: Seq<DiagnosticView>, o: OptionsView)
    ensures
        reported(ds, o).len() <= ds.len(),
    decreases ds.len(),
{
    if ds.len() > 0 {
        lemma_reported_len(ds.drop_first(), o);
    }
}

/// Options that neither select nor ignore a rule report every diagnostic, in order.
pub proof fn lemma_default_reports_all(ds: Seq<DiagnosticView>, o: OptionsView)
    requires
        o.ignore.len() == 0,
        o.select.len() == 0,
    ensures
        reported(ds, o) == ds,
    decreases ds.len(),
{
    if ds.len() > 0 {
        lemma_default_reports_all(ds.drop_first(), o);
        assert(!o.ignore.contains(ds[0].code));
        assert(seq![ds[0]] + ds.drop_first() =~= ds);
    }
}

/// The options report a diagnostic exactly where it is among `ds` and its rule is enabled.
pub proof fn lemma_reported_members(ds: Seq<DiagnosticView>, o: OptionsView)
    ensures
        forall|d: DiagnosticView|
            #![trigger reported(ds, o).contains(d)]
            reported(ds, o).contains(d) <==> ds.contains(d) && enabled(o, d.code),
    decreases ds.len(),
{
    if ds.len() > 0 {
        let rest = ds.drop_first();
        lemma_reported_members(rest, o);
        let head: Seq<DiagnosticView> = if enabled(o, ds[0].code) {
            seq![ds[0]]
        } else {
            Seq::empty()
        };
        assert(reported(ds, o) == head + reported(rest, o));
        assert forall|d: DiagnosticView|
            reported(ds, o).contains(d) <==> ds.contains(d) && enabled(o, d.code) by {
            if reported(ds, o).contains(d) {
                let k = choose|k: int| 0 <= k < reported(ds, o).len() && reported(ds, o)[k] == d;
                if k < head.len() {
                    assert(ds[0] == d);
                    assert(ds.contains(d));
                } else {
                    assert(reported(rest, o)[k - head.len()] == d);
                    assert(reported(rest, o).contains(d));
                    let j = choose|j: int| 0 <= j < rest.len() && rest[j] == d;
                    assert(ds[j + 1] == d);
                }
            }
            if ds.contains(d) && enabled(o, d.code) {
                let j = choose|j: int| 0 <= j < ds.len() && ds[j] == d;
                if j == 0 {
                    assert((head + reported(rest, o))[0] == d);
                } else {
                    assert(rest[j - 1] == d);
                    assert(rest.contains(d));
                    assert(reported(rest, o).contains(d));
                    let k = choose|k: int| 0 <= k < reported(rest, o).len() && reported(rest, o)[k]
                        == d;
                    assert((head + reported(rest, o))[head.len() + k] == d);
                }
            }
        }
    } else {
        assert forall|d: DiagnosticView| !reported(ds, o).contains(d) && !ds.contains(d) by {}
    }
}

/// After merging command-line options into those of a config file, a rule that
/// either of them ignores is not reported.
pub proof fn lemma_merged_ignore(a: OptionsView, b: OptionsView, code: Seq<char>)
    requires
        a.ignore.contains(code) || b.ignore.contains(code),
    ensures
        !enabled(OptionsView { ignore: a.ignore + b.ignore, select: a.select + b.select }, code),
{
    if a.ignore.contains(code) {
        let i = choose|i: int| 0 <= i < a.ignore.len() && a.ignore[i] == code;
        assert((a.ignore + b.ignore)[i] == code);
    } else {
        let i = choose|i: int| 0 <= i < b.ignore.len() && b.ignore[i] == code;
        assert((a.ignore + b.ignore)[a.ignore.len() + i] == code);
    }
}

/// Whether `v` holds the text `s`.
fn holds(v: &Vec<String>, s: &str) -> (b: bool)
    ensures
        b == texts(v@).contains(s@),
{
    crate::body::contains_text(v, s)
}

/// The IDs of `ids` that name no rule, appended to `out`.
fn push_unknown(ids: &Vec<String>, out: &mut Vec<String>)
    ensures
        texts(final(out)@) == texts(old(out)@) + unknown_ids(texts(ids@)),
{
    let ghost t = texts(ids@);
    let ghost start = texts(out@);
    let mut i: usize = 0;
    proof {
        assert(t.take(0) =~= Seq::<Seq<char>>::empty());
        assert(texts(out@) =~= start + unknown_ids(t.take(0)));
    }
    while i < ids.len()
        invariant
            i <= ids@.len(),
            t == texts(ids@),
            texts(out@) == start + unknown_ids(t.take(i as int)),
        decreases ids@.len() - i,
    {
        proof {
            assert(t.take(i + 1).drop_last() =~= t.take(i as int));
            assert(t.take(i + 1).last() == ids@[i as int]@);
        }
        if !known_rule(ids[i].as_str()) {
            let ghost before = out@;
            out.push(ids[i].clone());
            proof {
                assert(texts(out@) =~= texts(before).push(ids@[i as int]@));
            }
        }
        proof {
            assert(texts(out@) =~= start + unknown_ids(t.take(i + 1)));
        }
        i = i + 1;
    }
    proof {
        assert(t.take(i as int) =~= t);
    }
}

impl LintOptions {
    /// Checks that every ignored and selected ID names a rule; the ones that do
    /// not, ignored first, are the error.
    pub fn validate(&self) -> (r: Result<(), Vec<String>>)
        ensures
            match r {
                Ok(()) => unknown_ids(self@.ignore) + unknown_ids(self@.select) == Seq::<Seq<char>>::empty(),
                Err(u) => texts(u@) == unknown_ids(self@.ignore) + unknown_ids(self@.select)
                    && u@.len() > 0,
            },
    {
        let mut unknown: Vec<String> = Vec::new();
        proof {
            assert(texts(unknown@) =~= Seq::<Seq<char>>::empty());
        }
        push_unknown(&self.ignore, &mut unknown);
        push_unknown(&self.select, &mut unknown);
        if unknown.len() == 0 {
            proof {
                assert(texts(unknown@).len() == 0);
            }
            Ok(())
        } else {
            Err(unknown)
        }
    }

    /// Adds the IDs that `other` ignores and selects to these options.
    pub fn merge(&mut self, other: LintOptions)
        ensures
            final(self)@.ignore == old(self)@.ignore + other@.ignore,
            final(self)@.select == old(self)@.select + other@.select,
    {
        let ghost a = self@;
        let ghost b = other@;
        let mut other = other;
        self.ignore.append(&mut other.ignore);
        self.select.append(&mut other.select);
        proof {
            assert(self@.ignore =~= a.ignore + b.ignore);
            assert(self@.select =~= a.select + b.select);
        }
    }

    /// Whether these options report the rule `code`.
    pub fn is_enabled(&self, code: &str) -> (b: bool)
        ensures
            b == enabled(self@, code@),
    {
        (self.select.len() == 0 || holds(&self.select, code)) && !holds(&self.ignore, code)
    }
}

/// Keeps the diagnostics that the options report, in order.
pub fn filter_diagnostics(diagnostics: Vec<Diagnostic>, options: &LintOptions) -> (r: Vec<
    Diagnostic,
>)
    ensures
        diags_view(r@) == reported(diags_view(diagnostics@), options@),
{
    let ghost all = diags_view(diagnostics@);
    let mut rest = diagnostics;
    let mut kept: Vec<Diagnostic> = Vec::new();
    proof {
        assert(diags_view(kept@) + reported(diags_view(rest@), options@) =~= reported(all, options@));
    }
    while rest.len() > 0
        invariant
            diags_view(kept@) + reported(diags_view(rest@), options@) == reported(all, options@),
        decreases rest@.len(),
    {
        let ghost before = diags_view(rest@);
        let d = rest.remove(0);
        proof {
            assert(diags_view(rest@) =~= before.drop_first());
            assert(before[0] == d@);
        }
        if options.is_enabled(d.code) {
            push_diag(&mut kept, d);
        }
        proof {
            assert(diags_view(kept@) + reported(diags_view(rest@), options@) =~= reported(all, options@));
        }
    }
    proof {
        assert(diags_view(rest@) =~= Seq::<DiagnosticView>::empty());
        assert(diags_view(kept@) =~= reported(all, options@));
    }
    kept
}


/// `b` is `a` with each skill's diagnostics reduced to those that `o` reports.
pub open spec fn filtered_under(a: Seq<SkillResult>, b: Seq<SkillResult>, o: OptionsView) -> bool {
    &&& b.len() == a.len()
    &&& forall|k: int|
        0 <= k < a.len() ==> (#[trigger] b[k]).path == a[k].path && b[k].skill_file == a[k].skill_file
            && diags_view(b[k].diagnostics@) == reported(diags_view(a[k].diagnostics@), o)
}

/// Filtering diagnostics does not add any.
pub proof fn lemma_filtered_total(a: Seq<SkillResult>, b: Seq<SkillResult>, o: OptionsView)
    requires
        filtered_under(a, b, o),
    ensures
        diagnostic_total(b) <= diagnostic_total(a),
    decreases a.len(),
{
    if a.len() > 0 {
        let a1 = a.drop_last();
        let b1 = b.drop_last();
        assert forall|k: int| 0 <= k < a1.len() implies (#[trigger] b1[k]).path == a1[k].path && b1[k].skill_file == a1[k].skill_file
            && diags_view(b1[k].diagnostics@) == reported(diags_view(a1[k].diagnostics@), o) by {
            assert(b1[k] == b[k] && a1[k] == a[k]);
        }
        lemma_filtered_total(a1, b1, o);
        let k = a.len() - 1;
        assert(b[k] == b.last());
        lemma_reported_len(diags_view(a[k].diagnostics@), o);
        assert(diags_view(b[k].diagnostics@).len() == b[k].diagnostics@.len());
        assert(diags_view(a[k].diagnostics@).len() == a[k].diagnostics@.len());
    }
}

/// Lints the skills as `lint_skills` does, reporting only the rules that `options` enable.
pub fn lint_skills_with_options(root: String, skills: Vec<SkillResult>, options: &LintOptions) -> (r:
    LintResult)
    ensures
        r.root == root,
        exists|f: Seq<SkillResult>|
            {
                &&& filtered_under(skills@, f, options@)
                &&& exists|perm: Seq<int>| is_stable_path_sort(f, r.skills@, perm)
            },
        r.error_count == capped(severity_total(r.skills@, Severity::Error)),
        r.warning_count == capped(severity_total(r.skills@, Severity::Warning)),
{
    let ghost orig = skills@;
    let n = skills.len();
    let mut rest = skills;
    let mut out: Vec<SkillResult> = Vec::new();
    let mut done: usize = 0;
    proof {
        assert(rest@ =~= orig.skip(0));
    }
    while rest.len() > 0
        invariant
            n == orig.len(),
            done <= n,
            rest@ == orig.skip(done as int),
            filtered_under(orig.take(done as int), out@, options@),
        decreases rest@.len(),
    {
        let skill = rest.remove(0);
        proof {
            assert(skill == orig[done as int]);
        }
        let SkillResult { path, skill_file, diagnostics } = skill;
        let kept = filter_diagnostics(diagnostics, options);
        let ghost before = out@;
        out.push(SkillResult { path, skill_file, diagnostics: kept });
        proof {
            let a = orig.take(done + 1);
            assert forall|k: int| 0 <= k < a.len() implies (#[trigger] out@[k]).path == a[k].path && out@[k].skill_file == a[k].skill_file
                && diags_view(out@[k].diagnostics@) == reported(diags_view(a[k].diagnostics@), options@) by {
                if k < done {
                    assert(out@[k] == before[k]);
                    assert(a[k] == orig.take(done as int)[k]);
                }
            }
            assert(rest@ =~= orig.skip(done + 1));
        }
        done = done + 1;
    }
    proof {
        assert(orig.take(done as int) =~= orig);
    }
    let ghost f = out@;
    let r = lint_skills(root, out);
    proof {
        assert(filtered_under(orig, f, options@));
    }
    r
}

} // verus!
