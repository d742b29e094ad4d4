//! What the command line prints and decides: the human report of a run, the
//! list of rules, the colour setting and the config file to read.
use vstd::prelude::*;
use vstd::string::StringExecFns;
use crate::body::{contains_text, decimal, decimal_text};
use crate::color::{Color, painted};
use crate::diagnostic::{Diagnostic, DiagnosticView, Severity};
use crate::rules::{LintOptions, Rule, RuleView, rule_table, rules};
use crate::skill::{SkillResult, SkillView};
use crate::text::texts;

verus! {

/// Where a finding of the skill `s` is reported: its `SKILL.md`, or the
/// directory where there is none.
pub open spec fn location(s: SkillView) -> Seq<char> {
    match s.skill_file {
        Some(f) => f,
        None => s.path,
    }
}

/// The two lines that report the diagnostic `d` found at `loc`.
pub open spec fn finding_lines(loc: Seq<char>, d: DiagnosticView, enabled: bool) -> Seq<Seq<char>> {
    seq![
        painted(enabled, "31;1"@, "error"@) + "("@ + painted(enabled, "36"@, d.code) + "): "@
            + d.message,
        " "@ + painted(enabled, "34"@, "-->"@) + " "@ + loc,
    ]
}

/// The views of some skill results.
pub open spec fn skill_views(s: Seq<SkillResult>) -> Seq<SkillView> {
    s.map_values(|x: SkillResult| x@)
}

/// The diagnostics of one skill, each with where it is reported.
pub open spec fn located(s: SkillView) -> Seq<(Seq<char>, DiagnosticView)> {
    s.diagnostics.map_values(|d: DiagnosticView| (location(s), d))
}

/// Every diagnostic of the skills, in order, each with where it is reported.
pub open spec fn findings(skills: Seq<SkillView>) -> Seq<(Seq<char>, DiagnosticView)>
    decreases skills.len(),
{
    if skills.len() == 0 {
        Seq::empty()
    } else {
        findings(skills.drop_last()) + located(skills.last())
    }
}

/// The lines that report the findings `fs`: two for each, with an empty line between
/// one finding and the next.
pub open spec fn report_lines(fs: Seq<(Seq<char>, DiagnosticView)>, enabled: bool) -> Seq<
    Seq<char>,
>
    decreases fs.len(),
{
    if fs.len() == 0 {
        Seq::empty()
    } else {
        report_lines(fs.drop_last(), enabled) + (if fs.len() > 1 {
            seq![Seq::<char>::empty()]
        } else {
            Seq::empty()
        }) + finding_lines(fs.last().0, fs.last().1, enabled)
    }
}

/// The report has lines exactly where there are findings.
proof fn lemma_report_empty(fs: Seq<(Seq<char>, DiagnosticView)>, enabled: bool)
    ensures
        report_lines(fs, enabled).len() == 0 <==> fs.len() == 0,
{
    if fs.len() > 0 {
        assert(finding_lines(fs.last().0, fs.last().1, enabled).len() == 2);
    }
}

/// The two lines that report the diagnostic `d` of the skill `skill`.
pub fn diagnostic_lines(skill: &SkillResult, d: &Diagnostic, color: Color) -> (r: (String, String))
    ensures
        seq![r.0@, r.1@] == finding_lines(location(skill@), d@, color.enabled),
{
    let mut first = color.red("error");
    first.append("(");
    let code = color.cyan(d.code);
    first.append(code.as_str());
    first.append("): ");
    first.append(d.message.as_str());
    let mut second = " ".to_owned();
    let arrow = color.blue("-->");
    second.append(arrow.as_str());
    second.append(" ");
    match &skill.skill_file {
        Some(f) => second.append(f.as_str()),
        None => second.append(skill.path.as_str()),
    }
    (first, second)
}

/// The lines of the human report of `skills`: each diagnostic of each skill, in order.
pub fn human_lines(skills: &Vec<SkillResult>, color: Color) -> (lines: Vec<String>)
    ensures
        texts(lines@) == report_lines(findings(skill_views(skills@)), color.enabled),
{
    let ghost views = skill_views(skills@);
    let mut lines: Vec<String> = Vec::new();
    let mut i: usize = 0;
    proof {
        assert(views.take(0) =~= Seq::<SkillView>::empty());
        assert(texts(lines@) =~= Seq::<Seq<char>>::empty());
    }
    while i < skills.len()
        invariant
            i <= skills@.len(),
            views == skill_views(skills@),
            texts(lines@) == report_lines(findings(views.take(i as int)), color.enabled),
        decreases skills@.len() - i,
    {
        let skill = &skills[i];
        let ghost before = findings(views.take(i as int));
        let ghost here = located(views[i as int]);
        let mut j: usize = 0;
        proof {
            assert(views[i as int] == skill@);
            assert(here.take(0) =~= Seq::<(Seq<char>, DiagnosticView)>::empty());
            assert(before + here.take(0) =~= before);
        }
        while j < skill.diagnostics.len()
            invariant
                i < skills@.len(),
                *skill == skills@[i as int],
                views == skill_views(skills@),
                here == located(views[i as int]),
                views[i as int] == skill@,
                j <= skill.diagnostics@.len(),
                texts(lines@) == report_lines(before + here.take(j as int), color.enabled),
            decreases skill.diagnostics@.len() - j,
        {
            let ghost cur = before + here.take(j as int);
            let ghost next = before + here.take(j + 1);
            proof {
                assert(next =~= cur.push(here[j as int]));
                assert(next.drop_last() =~= cur);
                assert(here[j as int] == (location(skill@), skill.diagnostics@[j as int]@));
                lemma_report_empty(cur, color.enabled);
            }
            let ghost old_lines = lines@;
            if lines.len() > 0 {
                lines.push(String::new());
            }
            let (a, b) = diagnostic_lines(skill, &skill.diagnostics[j], color);
            lines.push(a);
            lines.push(b);
            proof {
                let sep: Seq<Seq<char>> = if cur.len() > 0 {
                    seq![Seq::<char>::empty()]
                } else {
                    Seq::empty()
                };
                assert(texts(lines@) =~= texts(old_lines) + sep + seq![a@, b@]);
                assert(texts(lines@) == report_lines(next, color.enabled));
            }
            j = j + 1;
        }
        proof {
            assert(here.take(j as int) =~= here);
            assert(views.take(i + 1).drop_last() =~= views.take(i as int));
            assert(views.take(i + 1).last() == views[i as int]);
        }
        i = i + 1;
    }
    proof {
        assert(views.take(i as int) =~= views);
    }
    lines
}

/// The line that closes the human report: the number of errors.
pub fn error_count_line(n: usize) -> (s: String)
    ensures
        s@ == decimal(n as nat) + " error(s)"@,
{
    let mut s = decimal_text(n);
    s.append(" error(s)");
    s
}

/// The rules of `t` whose diagnostics have the severity `sev`, in order.
pub open spec fn rules_with(t: Seq<RuleView>, sev: Severity) -> Seq<RuleView>
    decreases t.len(),
{
    if t.len() == 0 {
        Seq::empty()
    } else {
        rules_with(t.drop_last(), sev) + if t.last().severity == sev {
            seq![t.last()]
        } else {
            Seq::<RuleView>::empty()
        }
    }
}

/// The rules whose diagnostics have the severity `sev`, in the order of the table.
pub fn rules_with_severity(sev: Severity) -> (v: Vec<Rule>)
    ensures
        v@.map_values(|x: Rule| x@) == rules_with(rule_table(), sev),
{
    let table = rules();
    let mut v: Vec<Rule> = Vec::new();
    let mut i: usize = 0;
    proof {
        assert(rule_table().take(0) =~= Seq::<RuleView>::empty());
        assert(v@.map_values(|x: Rule| x@) =~= Seq::<RuleView>::empty());
    }
    while i < table.len()
        invariant
            i <= table@.len(),
            table@.map_values(|x: Rule| x@) == rule_table(),
            v@.map_values(|x: Rule| x@) == rules_with(rule_table().take(i as int), sev),
        decreases table@.len() - i,
    {
        let r = table[i];
        let ghost before = v@;
        proof {
            assert(rule_table()[i as int] == r@);
            assert(rule_table().take(i + 1).drop_last() =~= rule_table().take(i as int));
            assert(rule_table().take(i + 1).last() == r@);
        }
        if r.severity == sev {
            v.push(r);
            proof {
                assert(v@.map_values(|x: Rule| x@) =~= before.map_values(|x: Rule| x@).push(r@));
            }
        }
        proof {
            assert(v@.map_values(|x: Rule| x@) =~= rules_with(rule_table().take(i + 1), sev));
        }
        i = i + 1;
    }
    proof {
        assert(table@.len() == rule_table().len());
        assert(rule_table().take(i as int) =~= rule_table());
    }
    v
}

/// The line that lists the rule `r`: two spaces, its ID, a colon and its summary.
pub fn rule_line(r: Rule) -> (s: String)
    ensures
        s@ == "  "@ + r.id@ + ": "@ + r.summary@,
{
    let mut s = "  ".to_owned();
    s.append(r.id);
    s.append(": ");
    s.append(r.summary);
    s
}

impl Color {
    /// Colour as the command line sets it: off where `NO_COLOR` is set, else on
    /// where `FORCE_COLOR` is set or the output is a terminal.
    pub fn from_flags(force_color: bool, no_color: bool, terminal: bool) -> (c: Color)
        ensures
            c.enabled == (!no_color && (force_color || terminal)),
    {
        Color { enabled: !no_color && (force_color || terminal) }
    }
}

/// The config file to read: the one named on the command line, else the first
/// of `slint.toml` and `.slint.toml` that `found` lists as a file in the
/// working directory.
pub open spec fn chosen_config(given: Option<Seq<char>>, found: Seq<Seq<char>>) -> Option<
    Seq<char>,
> {
    match given {
        Some(c) => Some(c),
        None => if found.contains("slint.toml"@) {
            Some("slint.toml"@)
        } else if found.contains(".slint.toml"@) {
            Some(".slint.toml"@)
        } else {
            None
        },
    }
}

/// The names of the config files looked for in the working directory, in order.
pub fn config_files() -> (v: Vec<&'static str>)
    ensures
        v@.map_values(|s: &'static str| s@) == seq!["slint.toml"@, ".slint.toml"@],
{
    let v = vec!["slint.toml", ".slint.toml"];
    assert(v@.map_values(|s: &'static str| s@) =~= seq!["slint.toml"@, ".slint.toml"@]);
    v
}

/// The config file to read, given the one named on the command line and the
/// names of `config_files` that are files in the working directory.
pub fn config_path(config: Option<String>, found: &Vec<String>) -> (r: Option<String>)
    ensures
        match r {
            Some(p) => chosen_config(
                match config {
                    Some(c) => Some(c@),
                    None => None,
                },
                texts(found@),
            ) == Some(p@),
            None => chosen_config(
                match config {
                    Some(c) => Some(c@),
                    None => None,
                },
                texts(found@),
            ) is None,
        },
{
    match config {
        Some(c) => Some(c),
        None => if contains_text(found, "slint.toml") {
            Some("slint.toml".to_owned())
        } else if contains_text(found, ".slint.toml") {
            Some(".slint.toml".to_owned())
        } else {
            None
        },
    }
}

/// The rule IDs that a config file ignores and selects.
#[derive(Debug)]
pub struct LintConfig {
    pub ignore: Vec<String>,
    pub select: Vec<String>,
}

impl LintOptions {
    /// The options that a config file sets.
    pub fn from_config(config: LintConfig) -> (o: LintOptions)
        ensures
            o@.ignore == texts(config.ignore@),
            o@.select == texts(config.select@),
    {
        LintOptions { ignore: config.ignore, select: config.select }
    }
}

} // verus!
