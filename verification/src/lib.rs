//! Lints Agent Skills: the checks on a skill's `SKILL.md` (its YAML
//! frontmatter and its Markdown body), the rules by which skill directories are
//! found, and the result of a run: the skills in path order with the numbers of
//! errors and warnings.
use vstd::prelude::*;

pub mod body;
pub mod color;
pub mod diagnostic;
pub mod discover;
pub mod fields;
pub mod found;
pub mod frontmatter;
pub mod markdown;
pub mod order;
pub mod path;
pub mod report;
pub mod pattern;
pub mod rules;
pub mod run;
pub mod skill;
pub mod text;
pub mod yaml;

pub use body::{find_relative_references, normalize_reference, validate_body, validate_reference};
pub use color::Color;
pub use diagnostic::{Diagnostic, Severity, error, warning};
pub use discover::{
    WalkEntry, discover_skill_dirs, is_skill_file_name, is_skills_dir_name, should_descend,
    should_include_child, skill_dir_of_file, unique_sorted_paths,
};
pub use found::{FoundSkill, lint_found};
pub use frontmatter::{validate_description, validate_frontmatter, validate_metadata, validate_name};
pub use markdown::{Frontmatter, parse_skill_markdown};
pub use report::{LintConfig, config_files, config_path, diagnostic_lines, error_count_line, human_lines, rule_line, rules_with_severity};
pub use rules::{LintOptions, Rule, lint_skills_with_options, rules};
pub use run::{LintResult, lint_skills};
pub use skill::{SkillResult, SkillSource, lint_skill_dir};

verus! {

} // verus!
