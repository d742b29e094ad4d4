//! Linting one skill directory, and collecting the results of a run.
use vstd::prelude::*;
use vstd::string::StringExecFns;
use crate::body::{body_diags, validate_body};
use crate::diagnostic::{Diagnostic, DiagnosticView, Severity, diag, diags_view, error};
use crate::frontmatter::{frontmatter_diags, push_diag, validate_frontmatter};
use crate::markdown::{parse_markdown, parse_skill_markdown};
use crate::text::texts;

verus! {

/// What was found at a skill directory's `SKILL.md`.
#[derive(Debug)]
pub enum SkillSource {
    /// There is no `SKILL.md` file.
    Missing,
    /// `SKILL.md` could not be read; the message of the error.
    Unreadable(String),
    /// The text of `SKILL.md`.
    Text(String),
}

/// What was found at `SKILL.md`, as mathematical text.
pub enum SourceView {
    Missing,
    Unreadable(Seq<char>),
    Text(Seq<char>),
}

impl View for SkillSource {
    type V = SourceView;

    open spec fn view(&self) -> SourceView {
        match self {
            SkillSource::Missing => SourceView::Missing,
            SkillSource::Unreadable(e) => SourceView::Unreadable(e@),
            SkillSource::Text(t) => SourceView::Text(t@),
        }
    }
}

/// The result of linting one skill directory.
#[derive(Debug)]
pub struct SkillResult {
    pub path: String,
    pub skill_file: Option<String>,
    pub diagnostics: Vec<Diagnostic>,
}

/// The result of linting one skill directory, as mathematical values.
pub struct SkillView {
    pub path: Seq<char>,
    pub skill_file: Option<Seq<char>>,
    pub diagnostics: Seq<DiagnosticView>,
}

impl View for SkillResult {
    type V = SkillView;

    open spec fn view(&self) -> SkillView {
        SkillView {
            path: self.path@,
            skill_file: match self.skill_file {
                Some(f) => Some(f@),
                None => None,
            },
            diagnostics: diags_view(self.diagnostics@),
        }
    }
}

/// The path of `SKILL.md` in the directory `dir`, as `Path::join` makes it on Unix.
pub open spec fn skill_file_in(dir: Seq<char>) -> Seq<char> {
    if dir.len() > 0 && dir.last() != '/' {
        dir + seq!['/'] + "SKILL.md"@
    } else {
        dir + "SKILL.md"@
    }
}

/// The diagnostics for a skill directory `path` whose `SKILL.md` is `source`,
/// where `existing` lists the relative references whose file exists.
pub open spec fn skill_diags(path: Seq<char>, source: SourceView, existing: Seq<Seq<char>>) -> Seq<
    DiagnosticView,
> {
    match source {
        SourceView::Missing => seq![
            diag(
                Severity::Error,
                "missing-skill-md"@,
                "Skill directory must contain a SKILL.md file"@,
            ),
        ],
        SourceView::Unreadable(e) => seq![
            diag(Severity::Error, "read-error"@, "Could not read SKILL.md: "@ + e),
        ],
        SourceView::Text(t) => match parse_markdown(t) {
            Ok((es, body)) => frontmatter_diags(path, es) + body_diags(body, existing),
            Err(m) => seq![diag(Severity::Error, "invalid-frontmatter"@, m)],
        },
    }
}

/// The path of `SKILL.md` in the directory `dir`.
pub fn skill_file_path(dir: &str) -> (f: String)
    ensures
        f@ == skill_file_in(dir@),
{
    let chars = crate::text::chars_of(dir);
    let mut f = dir.to_owned();
    if chars.len() > 0 && chars[chars.len() - 1] != '/' {
        f.append("/");
        proof {
            assert("/"@ == seq!['/']) by {
                reveal_strlit("/");
            }
        }
    }
    f.append("SKILL.md");
    f
}

/// Lints the skill directory `path`, whose `SKILL.md` is `source`; `existing`
/// lists the relative references of its body whose file exists.
pub fn lint_skill_dir(path: String, source: SkillSource, existing: &Vec<String>) -> (r: SkillResult)
    ensures
        r@.path == path@,
        r@.skill_file == match source@ {
            SourceView::Missing => None,
            _ => Some(skill_file_in(path@)),
        },
        r@.diagnostics == skill_diags(path@, source@, texts(existing@)),
{
    match source {
        SkillSource::Missing => {
            let mut diagnostics: Vec<Diagnostic> = Vec::new();
            push_diag(
                &mut diagnostics,
                error("missing-skill-md", "Skill directory must contain a SKILL.md file".to_owned()),
            );
            proof {
                assert(diags_view(diagnostics@) =~= skill_diags(path@, source@, texts(existing@)));
            }
            SkillResult { path, skill_file: None, diagnostics }
        },
        SkillSource::Unreadable(e) => {
            let skill_file = skill_file_path(path.as_str());
            let mut m = "Could not read SKILL.md: ".to_owned();
            m.append(e.as_str());
            let mut diagnostics: Vec<Diagnostic> = Vec::new();
            push_diag(&mut diagnostics, error("read-error", m));
            proof {
                assert(diags_view(diagnostics@) =~= skill_diags(path@, source@, texts(existing@)));
            }
            SkillResult { path, skill_file: Some(skill_file), diagnostics }
        },
        SkillSource::Text(text) => {
            let skill_file = skill_file_path(path.as_str());
            let mut diagnostics: Vec<Diagnostic> = Vec::new();
            proof {
                assert(diags_view(diagnostics@) =~= Seq::<DiagnosticView>::empty());
            }
            match parse_skill_markdown(text.as_str()) {
                Ok((frontmatter, body)) => {
                    validate_frontmatter(path.as_str(), &frontmatter, &mut diagnostics);
                    validate_body(body, existing, &mut diagnostics);
                },
                Err(message) => push_diag(&mut diagnostics, error("invalid-frontmatter", message)),
            }
            proof {
                assert(diags_view(diagnostics@) =~= skill_diags(path@, source@, texts(existing@)));
            }
            SkillResult { path, skill_file: Some(skill_file), diagnostics }
        },
    }
}

} // verus!
